//! A byte encoding of maps, little-endian throughout:
//! the bounds as four `i64`; the number of intersections as a `u64`, then each position as two
//! `i32`; the number of roads as a `u64`, then for each road its two endpoints, its length and
//! the number of its points as `u64`, then its points.
use vstd::prelude::*;

use crate::geometry::{Point, polyline_len, polyline_length};
use crate::map::{road_valid, GpsBounds, IntersectionID, Road, RoadID, RouteSnapperMap};

verus! {

/// The eight bytes of `v`, least significant first.
pub open spec fn enc_u64(v: u64) -> Seq<u8> {
    seq![
        v as u8,
        (v >> 8u64) as u8,
        (v >> 16u64) as u8,
        (v >> 24u64) as u8,
        (v >> 32u64) as u8,
        (v >> 40u64) as u8,
        (v >> 48u64) as u8,
        (v >> 56u64) as u8,
    ]
}

/// The four bytes of `v`, least significant first.
pub open spec fn enc_u32(v: u32) -> Seq<u8> {
    seq![v as u8, (v >> 8u32) as u8, (v >> 16u32) as u8, (v >> 24u32) as u8]
}

/// The `u64` whose bytes, least significant first, are `b[pos..pos + 8]`.
#[verifier::opaque]
pub open spec fn u64_at(b: Seq<u8>, pos: int) -> u64 {
    b[pos] as u64 | (b[pos + 1] as u64) << 8u64 | (b[pos + 2] as u64) << 16u64 | (b[pos + 3]
        as u64) << 24u64 | (b[pos + 4] as u64) << 32u64 | (b[pos + 5] as u64) << 40u64 | (b[pos
        + 6] as u64) << 48u64 | (b[pos + 7] as u64) << 56u64
}

/// The `u32` whose bytes, least significant first, are `b[pos..pos + 4]`.
#[verifier::opaque]
pub open spec fn u32_at(b: Seq<u8>, pos: int) -> u32 {
    b[pos] as u32 | (b[pos + 1] as u32) << 8u32 | (b[pos + 2] as u32) << 16u32 | (b[pos + 3]
        as u32) << 24u32
}

pub open spec fn enc_point(p: Point) -> Seq<u8> {
    enc_u32(#[verifier::truncate] (p.x as u32)) + enc_u32(#[verifier::truncate] (p.y as u32))
}

pub open spec fn point_at(b: Seq<u8>, pos: int) -> Point {
    Point {
        x: #[verifier::truncate] (u32_at(b, pos) as i32),
        y: #[verifier::truncate] (u32_at(b, pos + 4) as i32),
    }
}

pub open spec fn enc_points(ps: Seq<Point>) -> Seq<u8>
    decreases ps.len(),
{
    if ps.len() == 0 {
        seq![]
    } else {
        enc_points(ps.drop_last()) + enc_point(ps.last())
    }
}

pub open spec fn enc_bounds(b: GpsBounds) -> Seq<u8> {
    enc_u64(#[verifier::truncate] (b.min_lon as u64)) + enc_u64(
        #[verifier::truncate] (b.min_lat as u64),
    ) + enc_u64(#[verifier::truncate] (b.max_lon as u64)) + enc_u64(
        #[verifier::truncate] (b.max_lat as u64),
    )
}

pub open spec fn enc_road(r: Road) -> Seq<u8> {
    enc_u64(r.i1.0 as u64) + enc_u64(r.i2.0 as u64) + enc_u64(r.length) + enc_u64(
        r.pts@.len() as u64,
    ) + enc_points(r.pts@)
}

pub open spec fn enc_roads(rs: Seq<Road>) -> Seq<u8>
    decreases rs.len(),
{
    if rs.len() == 0 {
        seq![]
    } else {
        enc_roads(rs.drop_last()) + enc_road(rs.last())
    }
}

/// The encoding of a map with these bounds, intersections and roads.
pub open spec fn encode_map(bounds: GpsBounds, ints: Seq<Point>, roads: Seq<Road>) -> Seq<u8> {
    enc_bounds(bounds) + enc_u64(ints.len() as u64) + enc_points(ints) + enc_u64(
        roads.len() as u64,
    ) + enc_roads(roads)
}

/// Why bytes do not hold a map.
#[derive(Clone, Copy, Debug, PartialEq, Eq, Structural)]
pub enum DecodeError {
    /// The bytes end too early, or go on after the last road.
    Malformed,
    /// The road at this position names a missing intersection, has fewer than two points, or
    /// has a length other than the length along its points.
    InvalidRoad { road: u64 },
}

/// A road as read from bytes: its two endpoints, its length and its points.
pub type RoadRecord = (u64, u64, u64, Seq<Point>);

/// `count` points from `pos` on, and the position after them.
pub open spec fn points_at(b: Seq<u8>, pos: nat, count: nat) -> Option<(Seq<Point>, nat)> {
    if pos + 8 * count <= b.len() {
        Some((Seq::new(count, |i: int| point_at(b, pos + 8 * i)), pos + 8 * count))
    } else {
        None
    }
}

/// One road from `pos` on, and the position after it.
pub open spec fn road_at(b: Seq<u8>, pos: nat) -> Option<(RoadRecord, nat)> {
    if pos + 32 <= b.len() {
        match points_at(b, pos + 32, u64_at(b, pos + 24int) as nat) {
            Some((pts, next)) => Some(
                ((u64_at(b, pos as int), u64_at(b, pos + 8int), u64_at(b, pos + 16int), pts), next),
            ),
            None => None,
        }
    } else {
        None
    }
}

/// `count` roads from `pos` on, and the position after them.
pub open spec fn roads_at(b: Seq<u8>, pos: nat, count: nat) -> Option<(Seq<RoadRecord>, nat)>
    decreases count,
{
    if count == 0 {
        Some((seq![], pos))
    } else {
        match roads_at(b, pos, (count - 1) as nat) {
            Some((rs, p)) => match road_at(b, p) {
                Some((r, next)) => Some((rs.push(r), next)),
                None => None,
            },
            None => None,
        }
    }
}

pub open spec fn bounds_at(b: Seq<u8>) -> GpsBounds {
    GpsBounds {
        min_lon: #[verifier::truncate] (u64_at(b, 0) as i64),
        min_lat: #[verifier::truncate] (u64_at(b, 8) as i64),
        max_lon: #[verifier::truncate] (u64_at(b, 16) as i64),
        max_lat: #[verifier::truncate] (u64_at(b, 24) as i64),
    }
}

/// What the bytes hold, read by the layout above: `None` where they end too early or go on
/// after the last road.
pub open spec fn decode_map(b: Seq<u8>) -> Option<(GpsBounds, Seq<Point>, Seq<RoadRecord>)> {
    if 40 <= b.len() {
        match points_at(b, 40, u64_at(b, 32) as nat) {
            Some((ints, p)) => if p + 8 <= b.len() {
                match roads_at(b, p + 8, u64_at(b, p as int) as nat) {
                    Some((roads, end)) => if end == b.len() {
                        Some((bounds_at(b), ints, roads))
                    } else {
                        None
                    },
                    None => None,
                }
            } else {
                None
            },
            None => None,
        }
    } else {
        None
    }
}

/// A record read from bytes is the road `r`.
pub open spec fn same_road(r: Road, rec: RoadRecord) -> bool {
    &&& r.i1.0 as u64 == rec.0
    &&& r.i2.0 as u64 == rec.1
    &&& r.length == rec.2
    &&& r.pts@ == rec.3
}

/// A record may stand as a road of a map with `n` intersections.
pub open spec fn record_valid(n: nat, rec: RoadRecord) -> bool {
    &&& rec.0 < n
    &&& rec.1 < n
    &&& rec.3.len() >= 2
    &&& rec.2 == polyline_length(rec.3)
}

/// The record that the encoding of road `r` reads back as.
pub open spec fn record_of(r: Road) -> RoadRecord {
    (r.i1.0 as u64, r.i2.0 as u64, r.length, r.pts@)
}

/// Where `b` holds `e` from `s` on, it holds each piece of `e` at the matching place.
proof fn lemma_slice_of_slice(b: Seq<u8>, s: int, e: Seq<u8>, i: int, j: int)
    requires
        0 <= s,
        s + e.len() <= b.len(),
        b.subrange(s, s + e.len()) == e,
        0 <= i <= j <= e.len(),
    ensures
        b.subrange(s + i, s + j) == e.subrange(i, j),
{
    assert(b.subrange(s + i, s + j) =~= e.subrange(i, j)) by {
        assert forall|k: int| 0 <= k < j - i implies b.subrange(s + i, s + j)[k] == e.subrange(
            i,
            j,
        )[k] by {
            assert(b.subrange(s, s + e.len())[i + k] == b[s + i + k]);
        }
    }
}

/// Where `b` holds `x + y` from `s` on, it holds `x` from `s` on and `y` right after.
proof fn lemma_split(b: Seq<u8>, s: int, x: Seq<u8>, y: Seq<u8>)
    requires
        0 <= s,
        s + x.len() + y.len() <= b.len(),
        b.subrange(s, s + x.len() + y.len()) == x + y,
    ensures
        b.subrange(s, s + x.len()) == x,
        b.subrange(s + x.len(), s + x.len() + y.len()) == y,
{
    lemma_slice_of_slice(b, s, x + y, 0, x.len() as int);
    lemma_slice_of_slice(b, s, x + y, x.len() as int, (x.len() + y.len()) as int);
    assert((x + y).subrange(0, x.len() as int) =~= x);
    assert((x + y).subrange(x.len() as int, (x.len() + y.len()) as int) =~= y);
}

proof fn lemma_enc_points_layout(ps: Seq<Point>)
    ensures
        enc_points(ps).len() == 8 * ps.len(),
        forall|i: int|
            0 <= i < ps.len() ==> enc_points(ps).subrange(8 * i, 8 * i + 8) == enc_point(
                #[trigger] ps[i],
            ),
    decreases ps.len(),
{
    if ps.len() > 0 {
        let pre = ps.drop_last();
        lemma_enc_points_layout(pre);
        let e = enc_points(ps);
        assert forall|i: int| 0 <= i < ps.len() implies e.subrange(8 * i, 8 * i + 8) == enc_point(
            #[trigger] ps[i],
        ) by {
            if i < pre.len() {
                assert(pre[i] == ps[i]);
                assert(e.subrange(8 * i, 8 * i + 8) =~= enc_points(pre).subrange(8 * i, 8 * i + 8));
            } else {
                assert(e.subrange(8 * i, 8 * i + 8) =~= enc_point(ps.last()));
            }
        }
    }
}

proof fn lemma_point_round_trip(b: Seq<u8>, pos: int, p: Point)
    requires
        0 <= pos,
        pos + 8 <= b.len(),
        b.subrange(pos, pos + 8) == enc_point(p),
    ensures
        point_at(b, pos) == p,
{
    lemma_slice_of_slice(b, pos, enc_point(p), 0, 4);
    lemma_slice_of_slice(b, pos, enc_point(p), 4, 8);
    assert(enc_point(p).subrange(0, 4) =~= enc_u32(p.x as u32));
    assert(enc_point(p).subrange(4, 8) =~= enc_u32(p.y as u32));
    lemma_u32_round_trip(p.x as u32, b, pos);
    lemma_u32_round_trip(p.y as u32, b, pos + 4);
    let (x, y) = (p.x, p.y);
    assert((x as u32) as i32 == x && (y as u32) as i32 == y) by (bit_vector);
}

proof fn lemma_points_round_trip(b: Seq<u8>, pos: nat, ps: Seq<Point>)
    requires
        pos + enc_points(ps).len() <= b.len(),
        b.subrange(pos as int, pos as int + enc_points(ps).len()) == enc_points(ps),
    ensures
        enc_points(ps).len() == 8 * ps.len(),
        points_at(b, pos, ps.len()) == Some((ps, pos + 8 * ps.len())),
{
    lemma_enc_points_layout(ps);
    let e = enc_points(ps);
    let got = Seq::new(ps.len(), |i: int| point_at(b, pos + 8 * i));
    assert forall|i: int| 0 <= i < ps.len() implies got[i] == ps[i] by {
        lemma_slice_of_slice(b, pos as int, e, 8 * i, 8 * i + 8);
        assert(e.subrange(8 * i, 8 * i + 8) == enc_point(ps[i]));
        lemma_point_round_trip(b, pos + 8 * i, ps[i]);
    }
    assert(got =~= ps);
}

proof fn lemma_road_round_trip(b: Seq<u8>, pos: nat, r: Road)
    requires
        pos + enc_road(r).len() <= b.len(),
        b.subrange(pos as int, pos as int + enc_road(r).len()) == enc_road(r),
        r.pts@.len() <= u64::MAX,
    ensures
        road_at(b, pos) == Some((record_of(r), pos + enc_road(r).len())),
{
    let s = pos as int;
    let e1 = enc_u64(r.i1.0 as u64);
    let e2 = enc_u64(r.i2.0 as u64);
    let e3 = enc_u64(r.length);
    let e4 = enc_u64(r.pts@.len() as u64);
    let pe = enc_points(r.pts@);
    lemma_split(b, s, e1 + e2 + e3 + e4, pe);
    lemma_split(b, s, e1 + e2 + e3, e4);
    lemma_split(b, s, e1 + e2, e3);
    lemma_split(b, s, e1, e2);
    lemma_u64_round_trip(r.i1.0 as u64, b, s);
    lemma_u64_round_trip(r.i2.0 as u64, b, s + 8);
    lemma_u64_round_trip(r.length, b, s + 16);
    lemma_u64_round_trip(r.pts@.len() as u64, b, s + 24);
    lemma_points_round_trip(b, pos + 32, r.pts@);
}

proof fn lemma_roads_round_trip(b: Seq<u8>, pos: nat, rs: Seq<Road>)
    requires
        pos + enc_roads(rs).len() <= b.len(),
        b.subrange(pos as int, pos as int + enc_roads(rs).len()) == enc_roads(rs),
        forall|k: int| 0 <= k < rs.len() ==> (#[trigger] rs[k]).pts@.len() <= u64::MAX,
    ensures
        roads_at(b, pos, rs.len()) == Some(
            (rs.map_values(|r: Road| record_of(r)), pos + enc_roads(rs).len()),
        ),
    decreases rs.len(),
{
    if rs.len() > 0 {
        let pre = rs.drop_last();
        let e = enc_roads(rs);
        let pe = enc_roads(pre);
        lemma_slice_of_slice(b, pos as int, e, 0, pe.len() as int);
        assert(e.subrange(0, pe.len() as int) =~= pe);
        assert forall|k: int| 0 <= k < pre.len() implies (#[trigger] pre[k]).pts@.len()
            <= u64::MAX by {
            assert(pre[k] == rs[k]);
        }
        lemma_roads_round_trip(b, pos, pre);
        lemma_slice_of_slice(b, pos as int, e, pe.len() as int, e.len() as int);
        assert(e.subrange(pe.len() as int, e.len() as int) =~= enc_road(rs.last()));
        lemma_road_round_trip(b, pos + pe.len(), rs.last());
        assert(rs.map_values(|r: Road| record_of(r)) =~= pre.map_values(|r: Road| record_of(r)).push(
            record_of(rs.last()),
        ));
    } else {
        assert(rs.map_values(|r: Road| record_of(r)) =~= seq![]);
    }
}

/// Decoding the encoding of a map gives back its bounds, its intersections and its roads.
pub proof fn lemma_decode_encode(bounds: GpsBounds, ints: Seq<Point>, roads: Seq<Road>)
    requires
        ints.len() <= u64::MAX,
        roads.len() <= u64::MAX,
        forall|k: int| 0 <= k < roads.len() ==> (#[trigger] roads[k]).pts@.len() <= u64::MAX,
    ensures
        decode_map(encode_map(bounds, ints, roads)) == Some(
            (bounds, ints, roads.map_values(|r: Road| record_of(r))),
        ),
{
    let b = encode_map(bounds, ints, roads);
    let e1 = enc_u64(bounds.min_lon as u64);
    let e2 = enc_u64(bounds.min_lat as u64);
    let e3 = enc_u64(bounds.max_lon as u64);
    let e4 = enc_u64(bounds.max_lat as u64);
    let e5 = enc_u64(ints.len() as u64);
    let pi = enc_points(ints);
    let e6 = enc_u64(roads.len() as u64);
    let er = enc_roads(roads);
    lemma_enc_points_layout(ints);
    let p = 40 + pi.len();
    assert(b =~= e1 + e2 + e3 + e4 + e5 + pi + e6 + er);
    assert(b.subrange(0, b.len() as int) =~= b);
    lemma_split(b, 0, e1 + e2 + e3 + e4 + e5 + pi + e6, er);
    lemma_split(b, 0, e1 + e2 + e3 + e4 + e5 + pi, e6);
    lemma_split(b, 0, e1 + e2 + e3 + e4 + e5, pi);
    lemma_split(b, 0, e1 + e2 + e3 + e4, e5);
    lemma_split(b, 0, e1 + e2 + e3, e4);
    lemma_split(b, 0, e1 + e2, e3);
    lemma_split(b, 0, e1, e2);
    lemma_u64_round_trip(bounds.min_lon as u64, b, 0);
    lemma_u64_round_trip(bounds.min_lat as u64, b, 8);
    lemma_u64_round_trip(bounds.max_lon as u64, b, 16);
    lemma_u64_round_trip(bounds.max_lat as u64, b, 24);
    lemma_u64_round_trip(ints.len() as u64, b, 32);
    lemma_u64_round_trip(roads.len() as u64, b, p as int);
    lemma_points_round_trip(b, 40, ints);
    lemma_roads_round_trip(b, p + 8, roads);
    let (a1, a2, a3, a4) = (bounds.min_lon, bounds.min_lat, bounds.max_lon, bounds.max_lat);
    assert((a1 as u64) as i64 == a1 && (a2 as u64) as i64 == a2 && (a3 as u64) as i64 == a3 && (
    a4 as u64) as i64 == a4) by (bit_vector);
    assert(bounds_at(b) == bounds);
}

fn push_u64(out: &mut Vec<u8>, v: u64)
    ensures
        final(out)@ == old(out)@ + enc_u64(v),
{
    out.push(v as u8);
    out.push((v >> 8u64) as u8);
    out.push((v >> 16u64) as u8);
    out.push((v >> 24u64) as u8);
    out.push((v >> 32u64) as u8);
    out.push((v >> 40u64) as u8);
    out.push((v >> 48u64) as u8);
    out.push((v >> 56u64) as u8);
    assert(out@ =~= old(out)@ + enc_u64(v));
}

fn push_u32(out: &mut Vec<u8>, v: u32)
    ensures
        final(out)@ == old(out)@ + enc_u32(v),
{
    out.push(v as u8);
    out.push((v >> 8u32) as u8);
    out.push((v >> 16u32) as u8);
    out.push((v >> 24u32) as u8);
    assert(out@ =~= old(out)@ + enc_u32(v));
}

fn push_point(out: &mut Vec<u8>, p: Point)
    ensures
        final(out)@ == old(out)@ + enc_point(p),
{
    push_u32(out, #[verifier::truncate] (p.x as u32));
    push_u32(out, #[verifier::truncate] (p.y as u32));
    assert(out@ =~= old(out)@ + enc_point(p));
}

fn push_points(out: &mut Vec<u8>, ps: &Vec<Point>)
    ensures
        final(out)@ == old(out)@ + enc_points(ps@),
{
    let ghost start = out@;
    let mut i: usize = 0;
    assert(ps@.subrange(0, 0) =~= seq![]);
    assert(out@ =~= start + enc_points(ps@.subrange(0, 0)));
    while i < ps.len()
        invariant
            i <= ps@.len(),
            out@ == start + enc_points(ps@.subrange(0, i as int)),
        decreases ps@.len() - i,
    {
        push_point(out, ps[i]);
        assert(ps@.subrange(0, i + 1).drop_last() =~= ps@.subrange(0, i as int));
        assert(out@ =~= start + enc_points(ps@.subrange(0, i + 1)));
        i += 1;
    }
    assert(ps@.subrange(0, i as int) =~= ps@);
}

impl RouteSnapperMap {
    /// The map's bytes, in the layout that `encode_map` describes.
    pub fn to_bytes(&self) -> (r: Vec<u8>)
        ensures
            r@ == encode_map(self.spec_gps_bounds(), self.spec_intersections(), self.spec_roads()),
    {
        let mut out: Vec<u8> = Vec::new();
        let b = self.gps_bounds();
        push_u64(&mut out, #[verifier::truncate] (b.min_lon as u64));
        push_u64(&mut out, #[verifier::truncate] (b.min_lat as u64));
        push_u64(&mut out, #[verifier::truncate] (b.max_lon as u64));
        push_u64(&mut out, #[verifier::truncate] (b.max_lat as u64));
        let ghost ints = self.spec_intersections();
        let ghost roads = self.spec_roads();
        let n = self.num_intersections();
        push_u64(&mut out, n as u64);
        let ghost head = out@;
        assert(out@ =~= enc_bounds(b) + enc_u64(n as u64));
        assert(ints.subrange(0, 0) =~= seq![]);
        assert(out@ =~= head + enc_points(ints.subrange(0, 0)));
        let mut i: usize = 0;
        while i < n
            invariant
                i <= n,
                n == ints.len(),
                ints == self.spec_intersections(),
                out@ == head + enc_points(ints.subrange(0, i as int)),
            decreases n - i,
        {
            push_point(&mut out, self.intersection(IntersectionID(i)));
            assert(ints.subrange(0, i + 1).drop_last() =~= ints.subrange(0, i as int));
            assert(out@ =~= head + enc_points(ints.subrange(0, i + 1)));
            i += 1;
        }
        assert(ints.subrange(0, n as int) =~= ints);
        let m = self.num_roads();
        push_u64(&mut out, m as u64);
        let ghost mid = out@;
        assert(roads.subrange(0, 0) =~= seq![]);
        assert(out@ =~= mid + enc_roads(roads.subrange(0, 0)));
        let mut j: usize = 0;
        while j < m
            invariant
                j <= m,
                m == roads.len(),
                roads == self.spec_roads(),
                out@ == mid + enc_roads(roads.subrange(0, j as int)),
            decreases m - j,
        {
            let road = self.road(RoadID(j));
            let ghost before = out@;
            push_u64(&mut out, road.i1.0 as u64);
            push_u64(&mut out, road.i2.0 as u64);
            push_u64(&mut out, road.length);
            push_u64(&mut out, road.pts.len() as u64);
            push_points(&mut out, &road.pts);
            assert(out@ =~= before + enc_road(*road));
            assert(roads.subrange(0, j + 1).drop_last() =~= roads.subrange(0, j as int));
            assert(out@ =~= mid + enc_roads(roads.subrange(0, j + 1)));
            j += 1;
        }
        assert(roads.subrange(0, m as int) =~= roads);
        assert(out@ =~= encode_map(b, ints, roads));
        out
    }
}

/// Reading back the bytes of a well-formed map gives the same map: the same bounds, the same
/// intersections, and for each road a record of the same endpoints, length and points, which is
/// valid in the map, so that decoding succeeds.
pub proof fn lemma_round_trip(m: &RouteSnapperMap)
    requires
        m.wf(),
    ensures
        decode_map(encode_map(m.spec_gps_bounds(), m.spec_intersections(), m.spec_roads()))
            matches Some((bounds, ints, recs)) && {
            &&& bounds == m.spec_gps_bounds()
            &&& ints == m.spec_intersections()
            &&& recs.len() == m.spec_roads().len()
            &&& forall|k: int|
                0 <= k < recs.len() ==> same_road(m.spec_roads()[k], #[trigger] recs[k])
                    && record_valid(ints.len(), recs[k])
        },
{
    let roads = m.spec_roads();
    let n = m.spec_intersections().len();
    lemma_decode_encode(m.spec_gps_bounds(), m.spec_intersections(), roads);
    let recs = roads.map_values(|r: Road| record_of(r));
    assert forall|k: int| 0 <= k < recs.len() implies same_road(roads[k], #[trigger] recs[k])
        && record_valid(n, recs[k]) by {
        assert(road_valid(n, roads[k]));
    }
}

/// A record read from bytes fixes the road it stands for.
pub proof fn lemma_same_road_unique(r1: Road, r2: Road, rec: RoadRecord)
    requires
        same_road(r1, rec),
        same_road(r2, rec),
    ensures
        r1.i1 == r2.i1,
        r1.i2 == r2.i2,
        r1.length == r2.length,
        r1.pts@ == r2.pts@,
{
}

/// Once reading runs out of bytes, reading more roads fails too.
proof fn lemma_roads_at_fails_on(b: Seq<u8>, pos: nat, k: nat, l: nat)
    requires
        k <= l,
        roads_at(b, pos, k) is None,
    ensures
        roads_at(b, pos, l) is None,
    decreases l - k,
{
    if k < l {
        lemma_roads_at_fails_on(b, pos, k, (l - 1) as nat);
    }
}

fn read_u64(b: &[u8], pos: usize) -> (r: u64)
    requires
        pos + 8 <= b@.len(),
    ensures
        r == u64_at(b@, pos as int),
{
    proof {
        reveal(u64_at);
    }
    b[pos] as u64 | (b[pos + 1] as u64) << 8u64 | (b[pos + 2] as u64) << 16u64 | (b[pos + 3]
        as u64) << 24u64 | (b[pos + 4] as u64) << 32u64 | (b[pos + 5] as u64) << 40u64 | (b[pos
        + 6] as u64) << 48u64 | (b[pos + 7] as u64) << 56u64
}

fn read_u32(b: &[u8], pos: usize) -> (r: u32)
    requires
        pos + 4 <= b@.len(),
    ensures
        r == u32_at(b@, pos as int),
{
    proof {
        reveal(u32_at);
    }
    b[pos] as u32 | (b[pos + 1] as u32) << 8u32 | (b[pos + 2] as u32) << 16u32 | (b[pos + 3]
        as u32) << 24u32
}

fn read_points(b: &[u8], pos: usize, count: u64) -> (r: Option<(Vec<Point>, usize)>)
    requires
        pos <= b@.len(),
    ensures
        match r {
            Some((ps, next)) => points_at(b@, pos as nat, count as nat) == Some(
                (ps@, next as nat),
            ),
            None => points_at(b@, pos as nat, count as nat) is None,
        },
{
    let avail = b.len() - pos;
    if count > (avail / 8) as u64 {
        assert(8 * count > avail) by (nonlinear_arith)
            requires
                count > avail / 8,
        ;
        return None;
    }
    assert(8 * count <= avail) by (nonlinear_arith)
        requires
            count <= avail / 8,
    ;
    let k = count as usize;
    let mut ps: Vec<Point> = Vec::new();
    let mut i: usize = 0;
    while i < k
        invariant
            i <= k,
            k == count,
            pos + 8 * k <= b@.len(),
            b@.len() <= usize::MAX,
            ps@ == Seq::new(i as nat, |j: int| point_at(b@, pos + 8 * j)),
        decreases k - i,
    {
        assert(8 * i + 8 <= 8 * k) by (nonlinear_arith)
            requires
                i < k,
        ;
        let at = pos + 8 * i;
        let x = read_u32(b, at);
        let y = read_u32(b, at + 4);
        ps.push(Point { x: #[verifier::truncate] (x as i32), y: #[verifier::truncate] (y as i32) });
        i += 1;
        assert(ps@ =~= Seq::new(i as nat, |j: int| point_at(b@, pos + 8 * j)));
    }
    Some((ps, pos + 8 * k))
}

/// What a road read from bytes stands for.
pub open spec fn record_view(t: (u64, u64, u64, Vec<Point>)) -> RoadRecord {
    (t.0, t.1, t.2, t.3@)
}

fn read_road(b: &[u8], pos: usize) -> (r: Option<((u64, u64, u64, Vec<Point>), usize)>)
    requires
        pos <= b@.len(),
    ensures
        match r {
            Some((rec, next)) => road_at(b@, pos as nat) == Some((record_view(rec), next as nat)),
            None => road_at(b@, pos as nat) is None,
        },
{
    if b.len() - pos < 32 {
        return None;
    }
    let i1 = read_u64(b, pos);
    let i2 = read_u64(b, pos + 8);
    let length = read_u64(b, pos + 16);
    let count = read_u64(b, pos + 24);
    match read_points(b, pos + 32, count) {
        Some((pts, next)) => Some(((i1, i2, length, pts), next)),
        None => None,
    }
}

impl RouteSnapperMap {
    /// Reads a map from bytes in the layout that `decode_map` describes. Fails with `Malformed`
    /// where the layout does not hold, else with the first road that could not stand in a map.
    pub fn from_bytes(bytes: &[u8]) -> (r: Result<RouteSnapperMap, DecodeError>)
        ensures
            match r {
                Ok(map) => decode_map(bytes@) matches Some((bounds, ints, recs)) && {
                    &&& map.wf()
                    &&& map.spec_gps_bounds() == bounds
                    &&& map.spec_intersections() == ints
                    &&& map.spec_roads().len() == recs.len()
                    &&& forall|k: int|
                        0 <= k < recs.len() ==> same_road(#[trigger] map.spec_roads()[k], recs[k])
                },
                Err(DecodeError::Malformed) => decode_map(bytes@) is None,
                Err(DecodeError::InvalidRoad { road }) => decode_map(bytes@) matches Some(
                    (bounds, ints, recs),
                ) && {
                    &&& road < recs.len()
                    &&& !record_valid(ints.len(), recs[road as int])
                    &&& forall|k: int| 0 <= k < road ==> record_valid(ints.len(), #[trigger] recs[k])
                },
            },
    {
        let len = bytes.len();
        if len < 40 {
            return Err(DecodeError::Malformed);
        }
        let bounds = GpsBounds {
            min_lon: #[verifier::truncate] (read_u64(bytes, 0) as i64),
            min_lat: #[verifier::truncate] (read_u64(bytes, 8) as i64),
            max_lon: #[verifier::truncate] (read_u64(bytes, 16) as i64),
            max_lat: #[verifier::truncate] (read_u64(bytes, 24) as i64),
        };
        let n = read_u64(bytes, 32);
        let (ints, p) = match read_points(bytes, 40, n) {
            Some(x) => x,
            None => {
                return Err(DecodeError::Malformed);
            },
        };
        if len - p < 8 {
            return Err(DecodeError::Malformed);
        }
        let m = read_u64(bytes, p);
        let mut recs: Vec<(u64, u64, u64, Vec<Point>)> = Vec::new();
        let mut pos = p + 8;
        let mut j: u64 = 0;
        while j < m
            invariant
                j <= m,
                len == bytes@.len(),
                p + 8 <= len,
                pos <= len,
                n == u64_at(bytes@, 32),
                points_at(bytes@, 40, n as nat) == Some((ints@, p as nat)),
                m == u64_at(bytes@, p as int),
                roads_at(bytes@, (p + 8) as nat, j as nat) == Some(
                    (recs@.map_values(|t: (u64, u64, u64, Vec<Point>)| record_view(t)), pos as nat),
                ),
            decreases m - j,
        {
            match read_road(bytes, pos) {
                Some((rec, next)) => {
                    let ghost before = recs@.map_values(
                        |t: (u64, u64, u64, Vec<Point>)| record_view(t),
                    );
                    let ghost rv = record_view(rec);
                    recs.push(rec);
                    pos = next;
                    assert(recs@.map_values(|t: (u64, u64, u64, Vec<Point>)| record_view(t))
                        =~= before.push(rv));
                },
                None => {
                    proof {
                        lemma_roads_at_fails_on(bytes@, (p + 8) as nat, (j + 1) as nat, m as nat);
                    }
                    return Err(DecodeError::Malformed);
                },
            }
            j += 1;
        }
        if pos != len {
            return Err(DecodeError::Malformed);
        }
        let ghost recs_view = recs@.map_values(|t: (u64, u64, u64, Vec<Point>)| record_view(t));
        assert(decode_map(bytes@) == Some((bounds_at(bytes@), ints@, recs_view)));
        let ni = ints.len();
        let mut roads: Vec<Road> = Vec::new();
        let mut k: usize = 0;
        while k < recs.len()
            invariant
                k <= recs@.len(),
                ni == ints@.len(),
                decode_map(bytes@) == Some((bounds_at(bytes@), ints@, recs_view)),
                recs_view == recs@.map_values(|t: (u64, u64, u64, Vec<Point>)| record_view(t)),
                roads@.len() == k,
                forall|q: int| 0 <= q < k ==> record_valid(ni as nat, #[trigger] recs_view[q]),
                forall|q: int| 0 <= q < k ==> same_road(#[trigger] roads@[q], recs_view[q]),
                forall|q: int| 0 <= q < k ==> road_valid(ni as nat, #[trigger] roads@[q]),
                forall|q: int| 0 <= q < k ==> (#[trigger] roads@[q]).pts@.len() <= usize::MAX,
            decreases recs@.len() - k,
        {
            let rec = &recs[k];
            assert(recs_view[k as int] == record_view(*rec));
            if rec.0 >= ni as u64 || rec.1 >= ni as u64 || rec.3.len() < 2 {
                return Err(DecodeError::InvalidRoad { road: k as u64 });
            }
            match polyline_len(&rec.3) {
                Some(l) => {
                    if l != rec.2 {
                        return Err(DecodeError::InvalidRoad { road: k as u64 });
                    }
                },
                None => {
                    return Err(DecodeError::InvalidRoad { road: k as u64 });
                },
            }
            let pts = rec.3.clone();
            assert(pts@ =~= rec.3@);
            roads.push(
                Road {
                    i1: IntersectionID(rec.0 as usize),
                    i2: IntersectionID(rec.1 as usize),
                    pts,
                    length: rec.2,
                },
            );
            k += 1;
        }
        Ok(RouteSnapperMap::from_parts(bounds, ints, roads))
    }
}

proof fn lemma_u64_round_trip(v: u64, b: Seq<u8>, pos: int)
    requires
        0 <= pos,
        pos + 8 <= b.len(),
        b.subrange(pos, pos + 8) == enc_u64(v),
    ensures
        u64_at(b, pos) == v,
{
    reveal(u64_at);
    let e = enc_u64(v);
    assert(b[pos] == e[0] && b[pos + 1] == e[1] && b[pos + 2] == e[2] && b[pos + 3] == e[3]);
    assert(b[pos + 4] == e[4] && b[pos + 5] == e[5] && b[pos + 6] == e[6] && b[pos + 7] == e[7]);
    let (b0, b1, b2, b3, b4, b5, b6, b7) = (
        v as u8,
        (v >> 8u64) as u8,
        (v >> 16u64) as u8,
        (v >> 24u64) as u8,
        (v >> 32u64) as u8,
        (v >> 40u64) as u8,
        (v >> 48u64) as u8,
        (v >> 56u64) as u8,
    );
    assert(v == (b0 as u64 | (b1 as u64) << 8u64 | (b2 as u64) << 16u64 | (b3 as u64) << 24u64 | (
    b4 as u64) << 32u64 | (b5 as u64) << 40u64 | (b6 as u64) << 48u64 | (b7 as u64) << 56u64))
        by (bit_vector)
        requires
            b0 == v as u8,
            b1 == (v >> 8u64) as u8,
            b2 == (v >> 16u64) as u8,
            b3 == (v >> 24u64) as u8,
            b4 == (v >> 32u64) as u8,
            b5 == (v >> 40u64) as u8,
            b6 == (v >> 48u64) as u8,
            b7 == (v >> 56u64) as u8,
    ;
}

proof fn lemma_u32_round_trip(v: u32, b: Seq<u8>, pos: int)
    requires
        0 <= pos,
        pos + 4 <= b.len(),
        b.subrange(pos, pos + 4) == enc_u32(v),
    ensures
        u32_at(b, pos) == v,
{
    reveal(u32_at);
    let e = enc_u32(v);
    assert(b[pos] == e[0] && b[pos + 1] == e[1] && b[pos + 2] == e[2] && b[pos + 3] == e[3]);
    let (b0, b1, b2, b3) = (v as u8, (v >> 8u32) as u8, (v >> 16u32) as u8, (v >> 24u32) as u8);
    assert(v == (b0 as u32 | (b1 as u32) << 8u32 | (b2 as u32) << 16u32 | (b3 as u32) << 24u32))
        by (bit_vector)
        requires
            b0 == v as u8,
            b1 == (v >> 8u32) as u8,
            b2 == (v >> 16u32) as u8,
            b3 == (v >> 24u32) as u8,
    ;
}

} // verus!
