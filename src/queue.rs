//! A binary min-heap of (distance, intersection) entries, ordered by distance and then by
//! intersection id.
use vstd::prelude::*;

verus! {

/// `a` comes no later than `b`: by distance, then by intersection id.
pub open spec fn entry_le(a: (u128, usize), b: (u128, usize)) -> bool {
    a.0 < b.0 || (a.0 == b.0 && a.1 <= b.1)
}

spec fn parent(i: int) -> int {
    (i - 1) / 2
}

/// Each entry comes no earlier than its parent.
spec fn is_heap(s: Seq<(u128, usize)>) -> bool {
    forall|i: int| 1 <= i < s.len() ==> entry_le(#[trigger] s[parent(i)], s[i])
}

/// A priority queue handing out its earliest entry first.
pub struct MinQueue {
    items: Vec<(u128, usize)>,
}

proof fn lemma_root_first(s: Seq<(u128, usize)>, i: int)
    requires
        is_heap(s),
        0 <= i < s.len(),
    ensures
        entry_le(s[0], s[i]),
    decreases i,
{
    if i > 0 {
        lemma_root_first(s, parent(i));
        assert(entry_le(s[parent(i)], s[i]));
    }
}

proof fn lemma_swap_keeps_entries(s: Seq<(u128, usize)>, i: int, j: int)
    requires
        0 <= i < s.len(),
        0 <= j < s.len(),
    ensures
        forall|y: (u128, usize)|
            #[trigger] s.update(i, s[j]).update(j, s[i]).contains(y) <==> s.contains(y),
{
    let t = s.update(i, s[j]).update(j, s[i]);
    assert forall|y: (u128, usize)| #[trigger] t.contains(y) <==> s.contains(y) by {
        if s.contains(y) {
            let k = choose|k: int| 0 <= k < s.len() && s[k] == y;
            let w = if k == i {
                j
            } else if k == j {
                i
            } else {
                k
            };
            assert(t[w] == y);
        }
        if t.contains(y) {
            let k = choose|k: int| 0 <= k < t.len() && t[k] == y;
            let w = if k == i {
                j
            } else if k == j {
                i
            } else {
                k
            };
            assert(s[w] == y);
        }
    }
}

impl MinQueue {
    /// The entries, in heap order.
    pub closed spec fn entries(&self) -> Seq<(u128, usize)> {
        self.items@
    }

    /// The heap property.
    pub closed spec fn wf(&self) -> bool {
        is_heap(self.items@)
    }

    pub fn new() -> (q: MinQueue)
        ensures
            q.wf(),
            q.entries().len() == 0,
    {
        MinQueue { items: Vec::new() }
    }

    /// Adds an entry.
    pub fn push(&mut self, x: (u128, usize))
        requires
            old(self).wf(),
        ensures
            final(self).wf(),
            forall|y: (u128, usize)|
                #[trigger] final(self).entries().contains(y) <==> old(self).entries().contains(y)
                    || y == x,
    {
        let ghost start = self.items@;
        self.items.push(x);
        let mut k: usize = self.items.len() - 1;
        proof {
            assert forall|y: (u128, usize)| #[trigger] self.items@.contains(y) <==> start.contains(y)
                || y == x by {
                if start.contains(y) {
                    let w = choose|w: int| 0 <= w < start.len() && start[w] == y;
                    assert(self.items@[w] == y);
                }
                if y == x {
                    assert(self.items@[k as int] == y);
                }
                if self.items@.contains(y) && y != x {
                    let w = choose|w: int| 0 <= w < self.items@.len() && self.items@[w] == y;
                    assert(start[w] == y);
                }
            }
        }
        while k > 0
            invariant
                k < self.items@.len(),
                forall|y: (u128, usize)|
                    #[trigger] self.items@.contains(y) <==> start.contains(y) || y == x,
                forall|i: int|
                    1 <= i < self.items@.len() && i != k ==> entry_le(
                        #[trigger] self.items@[parent(i)],
                        self.items@[i],
                    ),
                k > 0 ==> forall|c: int|
                    1 <= c < self.items@.len() && parent(c) == k ==> entry_le(
                        self.items@[parent(k as int)],
                        #[trigger] self.items@[c],
                    ),
            ensures
                is_heap(self.items@),
                forall|y: (u128, usize)|
                    #[trigger] self.items@.contains(y) <==> start.contains(y) || y == x,
            decreases k,
        {
            let p = (k - 1) / 2;
            let (kd, kn) = self.items[k];
            let (pd, pn) = self.items[p];
            if pd < kd || (pd == kd && pn <= kn) {
                assert(entry_le(self.items@[parent(k as int)], self.items@[k as int]));
                break;
            }
            let ghost before = self.items@;
            let a = self.items[k];
            let b = self.items[p];
            self.items.set(k, b);
            self.items.set(p, a);
            proof {
                lemma_swap_keeps_entries(before, k as int, p as int);
                assert(self.items@ == before.update(k as int, before[p as int]).update(
                    p as int,
                    before[k as int],
                ));
                assert forall|i: int|
                    1 <= i < self.items@.len() && i != p implies entry_le(
                    #[trigger] self.items@[parent(i)],
                    self.items@[i],
                ) by {
                    if i == k {
                    } else if parent(i) == k {
                    } else if parent(i) == p {
                        assert(entry_le(before[p as int], before[i]));
                    } else if i == p {
                    } else {
                    }
                }
                if p > 0 {
                    assert forall|c: int|
                        1 <= c < self.items@.len() && parent(c) == p implies entry_le(
                        self.items@[parent(p as int)],
                        #[trigger] self.items@[c],
                    ) by {
                        assert(entry_le(before[parent(p as int)], before[p as int]));
                        if c != k {
                            assert(entry_le(before[p as int], before[c]));
                        }
                    }
                }
            }
            k = p;
        }
    }

    /// Removes and returns an earliest entry; `None` where the queue is empty.
    pub fn pop(&mut self) -> (r: Option<(u128, usize)>)
        requires
            old(self).wf(),
        ensures
            final(self).wf(),
            match r {
                None => old(self).entries().len() == 0,
                Some(x) => {
                    &&& final(self).entries().len() == old(self).entries().len() - 1
                    &&& old(self).entries().contains(x)
                    &&& forall|y: (u128, usize)|
                        #[trigger] old(self).entries().contains(y) ==> entry_le(x, y)
                    &&& forall|y: (u128, usize)|
                        #[trigger] final(self).entries().contains(y) ==> old(self).entries().contains(y)
                    &&& forall|y: (u128, usize)|
                        old(self).entries().contains(y) && y != x ==> #[trigger] final(self).entries().contains(y)
                },
            },
    {
        let ghost start = self.items@;
        let n = self.items.len();
        if n == 0 {
            return None;
        }
        let top = self.items[0];
        proof {
            assert forall|y: (u128, usize)| #[trigger] start.contains(y) implies entry_le(top, y) by {
                let w = choose|w: int| 0 <= w < start.len() && start[w] == y;
                lemma_root_first(start, w);
            }
            assert(start[0] == top);
        }
        let last = self.items.pop().unwrap();
        if n == 1 {
            proof {
                assert forall|y: (u128, usize)| start.contains(y) && y != top implies #[trigger] self.items@.contains(y) by {
                    let w = choose|w: int| 0 <= w < start.len() && start[w] == y;
                }
            }
            return Some(top);
        }
        self.items.set(0, last);
        let ghost moved = self.items@;
        proof {
            assert(moved == start.drop_last().update(0, start.last()));
            assert forall|y: (u128, usize)| start.contains(y) && y != top implies #[trigger] moved.contains(y) by {
                let w = choose|w: int| 0 <= w < start.len() && start[w] == y;
                if w == start.len() - 1 {
                    assert(moved[0] == y);
                } else {
                    assert(w != 0);
                    assert(moved[w] == y);
                }
            }
            assert forall|y: (u128, usize)| #[trigger] moved.contains(y) implies start.contains(y) by {
                let w = choose|w: int| 0 <= w < moved.len() && moved[w] == y;
                if w == 0 {
                    assert(start[start.len() - 1] == y);
                } else {
                    assert(start[w] == y);
                }
            }
        }
        let len = self.items.len();
        let mut k: usize = 0;
        while k < len
            invariant
                len == self.items@.len(),
                k < len,
                forall|y: (u128, usize)| #[trigger] self.items@.contains(y) <==> moved.contains(y),
                forall|i: int|
                    1 <= i < len && parent(i) != k ==> entry_le(
                        #[trigger] self.items@[parent(i)],
                        self.items@[i],
                    ),
                k > 0 ==> forall|c: int|
                    1 <= c < len && parent(c) == k ==> entry_le(
                        self.items@[parent(k as int)],
                        #[trigger] self.items@[c],
                    ),
            ensures
                is_heap(self.items@),
                forall|y: (u128, usize)| #[trigger] self.items@.contains(y) <==> moved.contains(y),
            decreases len - k,
        {
            if k >= len / 2 {
                assert forall|i: int|
                    1 <= i < len && parent(i) == k implies entry_le(
                    #[trigger] self.items@[parent(i)],
                    self.items@[i],
                ) by {
                    assert(i >= 2 * k + 1);
                }
                break;
            }
            let c1 = 2 * k + 1;
            let c2 = c1 + 1;
            let mut m = c1;
            if c2 < len {
                let (d1, n1) = self.items[c1];
                let (d2, n2) = self.items[c2];
                if d2 < d1 || (d2 == d1 && n2 <= n1) {
                    m = c2;
                }
            }
            let (kd, kn) = self.items[k];
            let (md, mn) = self.items[m];
            if kd < md || (kd == md && kn <= mn) {
                proof {
                    assert forall|i: int|
                        1 <= i < len && parent(i) == k implies entry_le(
                        #[trigger] self.items@[parent(i)],
                        self.items@[i],
                    ) by {
                        assert(i == c1 || i == c2);
                    }
                }
                break;
            }
            let ghost before = self.items@;
            let a = self.items[k];
            let b = self.items[m];
            self.items.set(k, b);
            self.items.set(m, a);
            proof {
                lemma_swap_keeps_entries(before, k as int, m as int);
                assert(self.items@ == before.update(k as int, before[m as int]).update(
                    m as int,
                    before[k as int],
                ));
                assert forall|i: int|
                    1 <= i < len && parent(i) != m implies entry_le(
                    #[trigger] self.items@[parent(i)],
                    self.items@[i],
                ) by {
                    if parent(i) == k {
                        assert(i == c1 || i == c2);
                    } else if i == k {
                    } else {
                    }
                }
                assert forall|c: int|
                    1 <= c < len && parent(c) == m implies entry_le(
                    self.items@[parent(m as int)],
                    #[trigger] self.items@[c],
                ) by {
                    assert(entry_le(before[m as int], before[c]));
                }
            }
            k = m;
        }
        Some(top)
    }
}

} // verus!
