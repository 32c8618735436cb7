//! Planar geometry on integer coordinates: segment and polyline lengths.
use vstd::prelude::*;

verus! {

/// A position in the map's planar frame, in whole units (for instance centimetres).
#[derive(Clone, Copy, Debug, PartialEq, Eq, Structural)]
pub struct Point {
    pub x: i32,
    pub y: i32,
}

/// The integer square root of `v`: the one `r` with `r * r <= v < (r + 1) * (r + 1)`.
pub open spec fn isqrt(v: nat) -> nat {
    choose|r: nat| is_isqrt(r, v)
}

pub open spec fn is_isqrt(r: nat, v: nat) -> bool {
    r * r <= v && v < (r + 1) * (r + 1)
}

/// The square of the Euclidean distance between two points.
pub open spec fn squared_distance(a: Point, b: Point) -> nat {
    let dx = b.x - a.x;
    let dy = b.y - a.y;
    (dx * dx + dy * dy) as nat
}

/// The length of the segment from `a` to `b`, rounded down to a whole unit.
pub open spec fn segment_length(a: Point, b: Point) -> nat {
    isqrt(squared_distance(a, b))
}

/// The length along a polyline: the sum of the lengths of its consecutive segments.
pub open spec fn polyline_length(pts: Seq<Point>) -> nat
    decreases pts.len(),
{
    if pts.len() < 2 {
        0
    } else {
        polyline_length(pts.drop_last()) + segment_length(pts[pts.len() - 2], pts.last())
    }
}

proof fn lemma_isqrt_unique(r: nat, s: nat, v: nat)
    requires
        is_isqrt(r, v),
        is_isqrt(s, v),
    ensures
        r == s,
{
    if r < s {
        assert((r + 1) * (r + 1) <= s * s) by (nonlinear_arith)
            requires
                r + 1 <= s,
        ;
    } else if s < r {
        assert((s + 1) * (s + 1) <= r * r) by (nonlinear_arith)
            requires
                s + 1 <= r,
        ;
    }
}

/// Proves that a value with the defining property is the integer square root.
proof fn lemma_isqrt_is(r: nat, v: nat)
    requires
        is_isqrt(r, v),
    ensures
        isqrt(v) == r,
{
    lemma_isqrt_unique(isqrt(v), r, v);
}

/// Integer square root by bisection.
pub fn integer_sqrt(v: u128) -> (r: u64)
    requires
        v < 0x4_0000_0000_0000_0000u128,
    ensures
        r as nat == isqrt(v as nat),
        is_isqrt(r as nat, v as nat),
{
    let mut lo: u128 = 0;
    let mut hi: u128 = 0x2_0000_0000;
    assert(hi * hi == 0x4_0000_0000_0000_0000u128);
    while lo + 1 < hi
        invariant
            lo < hi <= 0x2_0000_0000,
            lo * lo <= v,
            v < hi * hi,
        decreases hi - lo,
    {
        let mid: u128 = lo + (hi - lo) / 2;
        assert(mid * mid <= 0x4_0000_0000_0000_0000u128) by (nonlinear_arith)
            requires
                mid <= 0x2_0000_0000,
        ;
        if mid * mid <= v {
            lo = mid;
        } else {
            hi = mid;
        }
    }
    proof {
        assert(hi == lo + 1);
        lemma_isqrt_is(lo as nat, v as nat);
    }
    lo as u64
}

/// The length of the segment from `a` to `b`, rounded down to a whole unit.
pub fn distance(a: Point, b: Point) -> (r: u64)
    ensures
        r as nat == segment_length(a, b),
        r < 0x2_0000_0000,
{
    let dx: i128 = b.x as i128 - a.x as i128;
    let dy: i128 = b.y as i128 - a.y as i128;
    assert(dx * dx <= 0x1_0000_0000_0000_0000i128 && dy * dy <= 0x1_0000_0000_0000_0000i128)
        by (nonlinear_arith)
        requires
            -0x1_0000_0000i128 <= dx <= 0x1_0000_0000i128,
            -0x1_0000_0000i128 <= dy <= 0x1_0000_0000i128,
    ;
    assert(0 <= dx * dx && 0 <= dy * dy) by (nonlinear_arith);
    let sq: u128 = (dx * dx + dy * dy) as u128;
    let r = integer_sqrt(sq);
    proof {
        if r >= 0x2_0000_0000 {
            assert(r * r >= 0x2_0000_0000u128 * 0x2_0000_0000u128) by (nonlinear_arith)
                requires
                    r >= 0x2_0000_0000u128,
            ;
            assert(sq <= 0x2_0000_0000_0000_0000u128);
        }
    }
    r
}

/// Each point added to a polyline adds a segment, so a prefix is never longer than the whole.
proof fn lemma_prefix_not_longer(pts: Seq<Point>, i: int)
    requires
        0 <= i <= pts.len(),
    ensures
        polyline_length(pts.subrange(0, i)) <= polyline_length(pts),
    decreases pts.len() - i,
{
    if i < pts.len() {
        lemma_prefix_not_longer(pts, i + 1);
        let longer = pts.subrange(0, i + 1);
        assert(longer.drop_last() =~= pts.subrange(0, i));
    } else {
        assert(pts.subrange(0, i) =~= pts);
    }
}

/// The length along a polyline, or `None` where it does not fit in a `u64`.
pub fn polyline_len(pts: &Vec<Point>) -> (r: Option<u64>)
    ensures
        r == (if polyline_length(pts@) <= u64::MAX {
            Some(polyline_length(pts@) as u64)
        } else {
            None
        }),
{
    let n = pts.len();
    if n < 2 {
        return Some(0);
    }
    let mut total: u64 = 0;
    let mut i: usize = 1;
    assert(pts@.subrange(0, 1).drop_last().len() == 0);
    while i < n
        invariant
            1 <= i <= n,
            n == pts@.len(),
            total as nat == polyline_length(pts@.subrange(0, i as int)),
        decreases n - i,
    {
        let seg = distance(pts[i - 1], pts[i]);
        assert(pts@.subrange(0, i as int + 1).drop_last() =~= pts@.subrange(0, i as int));
        match total.checked_add(seg) {
            Some(t) => {
                total = t;
            },
            None => {
                proof {
                    lemma_prefix_not_longer(pts@, i as int + 1);
                }
                return None;
            },
        }
        i += 1;
    }
    assert(pts@.subrange(0, n as int) =~= pts@);
    Some(total)
}

} // verus!
