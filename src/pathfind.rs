//! Shortest paths between intersections, weighted by road length.
use vstd::prelude::*;

use crate::map::{adjacency_valid, connects, IntersectionID, Road, RoadID, RouteSnapperMap};
use crate::queue::{entry_le, MinQueue};

verus! {

/// `roads` and `nodes` describe a walk from intersection `a` to intersection `b` in a map with
/// `n` intersections and the road table `table`: road `roads[k]` joins `nodes[k]` and
/// `nodes[k + 1]`.
pub open spec fn is_path(
    table: Seq<Road>,
    n: nat,
    roads: Seq<RoadID>,
    nodes: Seq<IntersectionID>,
    a: nat,
    b: nat,
) -> bool {
    &&& nodes.len() == roads.len() + 1
    &&& nodes[0].0 == a
    &&& nodes.last().0 == b
    &&& a < n
    &&& forall|k: int| 0 <= k < nodes.len() ==> (#[trigger] nodes[k]).0 < n
    &&& forall|k: int|
        0 <= k < roads.len() ==> (#[trigger] roads[k]).0 < table.len() && connects(
            table[roads[k].0 as int],
            nodes[k].0 as nat,
            nodes[k + 1].0 as nat,
        )
}

/// The total length of a sequence of roads.
pub open spec fn path_cost(table: Seq<Road>, roads: Seq<RoadID>) -> nat
    decreases roads.len(),
{
    if roads.len() == 0 {
        0
    } else {
        table[roads[0].0 as int].length as nat + path_cost(table, roads.subrange(1, roads.len() as int))
    }
}

/// Some walk joins `a` to `b`.
pub open spec fn reachable(table: Seq<Road>, n: nat, a: nat, b: nat) -> bool {
    exists|roads: Seq<RoadID>, nodes: Seq<IntersectionID>| is_path(table, n, roads, nodes, a, b)
}

/// No walk from `a` to `b` is shorter than `roads`.
pub open spec fn is_shortest(table: Seq<Road>, n: nat, roads: Seq<RoadID>, a: nat, b: nat) -> bool {
    forall|other: Seq<RoadID>, nodes: Seq<IntersectionID>|
        is_path(table, n, other, nodes, a, b) ==> path_cost(table, roads) <= path_cost(
            table,
            other,
        )
}

/// Appending a road adds its length.
pub proof fn lemma_cost_push(table: Seq<Road>, roads: Seq<RoadID>, r: RoadID)
    ensures
        path_cost(table, roads.push(r)) == path_cost(table, roads) + table[r.0 as int].length,
    decreases roads.len(),
{
    if roads.len() > 0 {
        let rest = roads.subrange(1, roads.len() as int);
        lemma_cost_push(table, rest, r);
        assert(roads.push(r).subrange(1, roads.len() as int + 1) =~= rest.push(r));
        assert(roads.push(r)[0] == roads[0]);
        assert(path_cost(table, roads.push(r)) == table[roads[0].0 as int].length + path_cost(
            table,
            rest.push(r),
        ));
    } else {
        assert(roads.push(r).subrange(1, 1) =~= Seq::<RoadID>::empty());
        assert(roads.push(r)[0] == r);
        assert(path_cost(table, Seq::<RoadID>::empty()) == 0);
    }
}

/// Read backwards, a walk from `a` to `b` is a walk from `b` to `a` of the same length.
pub proof fn lemma_reverse_path(
    table: Seq<Road>,
    n: nat,
    roads: Seq<RoadID>,
    nodes: Seq<IntersectionID>,
    a: nat,
    b: nat,
)
    requires
        is_path(table, n, roads, nodes, a, b),
    ensures
        is_path(table, n, roads.reverse(), nodes.reverse(), b, a),
        path_cost(table, roads.reverse()) == path_cost(table, roads),
{
    let rr = roads.reverse();
    let rn = nodes.reverse();
    assert forall|k: int| 0 <= k < rn.len() implies (#[trigger] rn[k]).0 < n by {
        assert(rn[k] == nodes[nodes.len() - 1 - k]);
    }
    assert forall|k: int| 0 <= k < rr.len() implies (#[trigger] rr[k]).0 < table.len() && connects(
        table[rr[k].0 as int],
        rn[k].0 as nat,
        rn[k + 1].0 as nat,
    ) by {
        let j = roads.len() - 1 - k;
        assert(rr[k] == roads[j]);
        assert(rn[k] == nodes[j + 1]);
        assert(rn[k + 1] == nodes[j]);
    }
    lemma_cost_reverse(table, roads);
}

proof fn lemma_cost_reverse(table: Seq<Road>, roads: Seq<RoadID>)
    ensures
        path_cost(table, roads.reverse()) == path_cost(table, roads),
    decreases roads.len(),
{
    if roads.len() > 0 {
        let rest = roads.subrange(1, roads.len() as int);
        lemma_cost_reverse(table, rest);
        assert(roads.reverse() =~= rest.reverse().push(roads[0]));
        lemma_cost_push(table, rest.reverse(), roads[0]);
    } else {
        assert(roads.reverse() =~= roads);
    }
}

/// The graph is undirected: `b` can be reached from `a` exactly when `a` can be reached from `b`.
pub proof fn lemma_reachable_symmetric(m: &RouteSnapperMap, a: nat, b: nat)
    ensures
        reachable(m.spec_roads(), m.spec_intersections().len(), a, b) == reachable(
            m.spec_roads(),
            m.spec_intersections().len(),
            b,
            a,
        ),
{
    let table = m.spec_roads();
    let n = m.spec_intersections().len();
    if reachable(table, n, a, b) {
        let (roads, nodes) = choose|roads: Seq<RoadID>, nodes: Seq<IntersectionID>|
            is_path(table, n, roads, nodes, a, b);
        lemma_reverse_path(table, n, roads, nodes, a, b);
    }
    if reachable(table, n, b, a) {
        let (roads, nodes) = choose|roads: Seq<RoadID>, nodes: Seq<IntersectionID>|
            is_path(table, n, roads, nodes, b, a);
        lemma_reverse_path(table, n, roads, nodes, b, a);
    }
}

/// The graph is undirected: a shortest walk from `a` to `b` and a shortest walk from `b` to `a`
/// have the same length.
pub proof fn lemma_shortest_symmetric(
    m: &RouteSnapperMap,
    a: nat,
    b: nat,
    there: Seq<RoadID>,
    there_nodes: Seq<IntersectionID>,
    back: Seq<RoadID>,
    back_nodes: Seq<IntersectionID>,
)
    requires
        is_path(m.spec_roads(), m.spec_intersections().len(), there, there_nodes, a, b),
        is_shortest(m.spec_roads(), m.spec_intersections().len(), there, a, b),
        is_path(m.spec_roads(), m.spec_intersections().len(), back, back_nodes, b, a),
        is_shortest(m.spec_roads(), m.spec_intersections().len(), back, b, a),
    ensures
        path_cost(m.spec_roads(), there) == path_cost(m.spec_roads(), back),
{
    let table = m.spec_roads();
    let n = m.spec_intersections().len();
    lemma_reverse_path(table, n, there, there_nodes, a, b);
    lemma_reverse_path(table, n, back, back_nodes, b, a);
    assert(is_path(table, n, back.reverse(), back_nodes.reverse(), a, b));
    assert(is_path(table, n, there.reverse(), there_nodes.reverse(), b, a));
}

/// The number of `true` entries.
spec fn count_true(s: Seq<bool>) -> nat
    decreases s.len(),
{
    if s.len() == 0 {
        0
    } else {
        count_true(s.drop_last()) + if s.last() {
            1nat
        } else {
            0
        }
    }
}

proof fn lemma_count_true_le(s: Seq<bool>)
    ensures
        count_true(s) <= s.len(),
    decreases s.len(),
{
    if s.len() > 0 {
        lemma_count_true_le(s.drop_last());
    }
}

proof fn lemma_count_true_set(s: Seq<bool>, i: int)
    requires
        0 <= i < s.len(),
        !s[i],
    ensures
        count_true(s.update(i, true)) == count_true(s) + 1,
    decreases s.len(),
{
    let t = s.update(i, true);
    if i < s.len() - 1 {
        lemma_count_true_set(s.drop_last(), i);
        assert(t.drop_last() =~= s.drop_last().update(i, true));
    } else {
        assert(t.drop_last() =~= s.drop_last());
    }
}

/// The search's state: which intersections are settled (their distance is final), which are
/// reached, the best distance found to each, and the last road on that best walk.
spec fn search_inv(
    table: Seq<Road>,
    adj: Seq<Seq<(IntersectionID, RoadID)>>,
    n: nat,
    a: nat,
    settled: Seq<bool>,
    reached: Seq<bool>,
    dist: Seq<u128>,
    parent: Seq<(IntersectionID, RoadID)>,
    rank: Seq<nat>,
    count: nat,
    pending: int,
    done: int,
) -> bool {
    &&& settled.len() == n
    &&& reached.len() == n
    &&& dist.len() == n
    &&& parent.len() == n
    &&& rank.len() == n
    &&& a < n
    &&& reached[a as int]
    &&& dist[a as int] == 0
    &&& count == count_true(settled)
    &&& forall|v: int| 0 <= v < n && #[trigger] settled[v] ==> reached[v] && rank[v] < count
    &&& forall|v: int|
        0 <= v < n && #[trigger] reached[v] ==> dist[v] <= count * 0xffff_ffff_ffff_ffffnat
    &&& forall|v: int|
        0 <= v < n && v != a && #[trigger] reached[v] ==> {
            let (p, r) = parent[v];
            &&& p.0 < n
            &&& settled[p.0 as int]
            &&& r.0 < table.len()
            &&& connects(table[r.0 as int], p.0 as nat, v as nat)
            &&& dist[v] == dist[p.0 as int] + table[r.0 as int].length
            &&& settled[v] ==> rank[p.0 as int] < rank[v]
        }
    &&& forall|v: nat, roads: Seq<RoadID>, nodes: Seq<IntersectionID>|
        v < n && settled[v as int] && #[trigger] is_path(table, n, roads, nodes, a, v) ==> dist[v
            as int] <= path_cost(table, roads)
    &&& forall|x: int, k: int|
        0 <= x < n && #[trigger] settled[x] && 0 <= k < adj[x].len() && (x != pending || k < done)
            ==> {
            let (y, r) = #[trigger] adj[x][k];
            settled[y.0 as int] || (reached[y.0 as int] && dist[y.0 as int] <= dist[x]
                + table[r.0 as int].length)
        }
}

/// Every walk from the source to an intersection that is not settled passes a reached
/// intersection that is not settled, at a distance no greater than the walk's length.
proof fn lemma_frontier(
    table: Seq<Road>,
    adj: Seq<Seq<(IntersectionID, RoadID)>>,
    n: nat,
    a: nat,
    settled: Seq<bool>,
    reached: Seq<bool>,
    dist: Seq<u128>,
    parent: Seq<(IntersectionID, RoadID)>,
    rank: Seq<nat>,
    count: nat,
    roads: Seq<RoadID>,
    nodes: Seq<IntersectionID>,
    u: nat,
) -> (y: int)
    requires
        search_inv(table, adj, n, a, settled, reached, dist, parent, rank, count, -1, 0),
        adjacency_valid(n, table, adj),
        is_path(table, n, roads, nodes, a, u),
        u < n,
        !settled[u as int],
    ensures
        0 <= y < n,
        !settled[y],
        reached[y],
        dist[y] <= path_cost(table, roads),
    decreases roads.len(),
{
    if roads.len() == 0 {
        a as int
    } else {
        let last = roads.len() - 1;
        let pre_roads = roads.drop_last();
        let pre_nodes = nodes.drop_last();
        let x = nodes[last].0 as nat;
        let r = roads[last];
        assert(roads =~= pre_roads.push(r));
        lemma_cost_push(table, pre_roads, r);
        assert forall|k: int| 0 <= k < pre_nodes.len() implies (#[trigger] pre_nodes[k]).0 < n by {
            assert(nodes[k] == pre_nodes[k]);
        }
        assert forall|k: int| 0 <= k < pre_roads.len() implies (#[trigger] pre_roads[k]).0
            < table.len() && connects(
            table[pre_roads[k].0 as int],
            pre_nodes[k].0 as nat,
            pre_nodes[k + 1].0 as nat,
        ) by {
            assert(roads[k] == pre_roads[k]);
        }
        assert(is_path(table, n, pre_roads, pre_nodes, a, x));
        if !settled[x as int] {
            lemma_frontier(
                table, adj, n, a, settled, reached, dist, parent, rank, count, pre_roads, pre_nodes, x)
        } else {
            assert(dist[x as int] <= path_cost(table, pre_roads));
            let road = table[r.0 as int];
            let e = (nodes[last + 1], r);
            assert(connects(road, x, u));
            assert(adj[x as int].contains(e)) by {
                assert(adj[road.i1.0 as int].contains((road.i2, RoadID(r.0 as usize))));
                assert(adj[road.i2.0 as int].contains((road.i1, RoadID(r.0 as usize))));
            }
            let k = choose|k: int| 0 <= k < adj[x as int].len() && adj[x as int][k] == e;
            assert(adj[x as int][k] == e);
            u as int
        }
    }
}

impl RouteSnapperMap {
    /// A shortest walk from `i1` to `i2`: the roads taken and the intersections passed, from
    /// `i1` to `i2`; `None` where no walk joins them. The search is Dijkstra's, over the
    /// adjacency index with a binary heap, so it takes O((V + E) log E) steps. Among walks of
    /// equal length it keeps the first found, settling intersections by distance and then by
    /// lowest id, and scanning each intersection's roads in adjacency order.
    pub fn pathfind(&self, i1: IntersectionID, i2: IntersectionID) -> (res: Option<
        (Vec<RoadID>, Vec<IntersectionID>),
    >)
        requires
            self.wf(),
            i1.0 < self.spec_intersections().len(),
            i2.0 < self.spec_intersections().len(),
        ensures
            match res {
                Some((roads, nodes)) => {
                    &&& is_path(
                        self.spec_roads(),
                        self.spec_intersections().len(),
                        roads@,
                        nodes@,
                        i1.0 as nat,
                        i2.0 as nat,
                    )
                    &&& is_shortest(
                        self.spec_roads(),
                        self.spec_intersections().len(),
                        roads@,
                        i1.0 as nat,
                        i2.0 as nat,
                    )
                },
                None => !reachable(
                    self.spec_roads(),
                    self.spec_intersections().len(),
                    i1.0 as nat,
                    i2.0 as nat,
                ),
            },
            i1 == i2 ==> (res matches Some((roads, nodes)) && roads@.len() == 0 && nodes@ == seq![
                i1,
            ]),
    {
        let ghost table = self.spec_roads();
        let ghost adj = self.spec_adjacency();
        let n = self.num_intersections();
        let a = i1.0;
        let b = i2.0;
        if a == b {
            let mut nodes: Vec<IntersectionID> = Vec::new();
            nodes.push(i1);
            let roads: Vec<RoadID> = Vec::new();
            assert(nodes@ =~= seq![i1]);
            assert(path_cost(table, roads@) == 0);
            return Some((roads, nodes));
        }
        let mut settled: Vec<bool> = Vec::new();
        let mut reached: Vec<bool> = Vec::new();
        let mut dist: Vec<u128> = Vec::new();
        let mut parent: Vec<(IntersectionID, RoadID)> = Vec::new();
        let mut k: usize = 0;
        while k < n
            invariant
                k <= n,
                a < n,
                settled@.len() == k,
                reached@.len() == k,
                dist@.len() == k,
                parent@.len() == k,
                forall|v: int| 0 <= v < k ==> !#[trigger] settled@[v],
                forall|v: int| 0 <= v < k ==> #[trigger] reached@[v] == (v == a),
                forall|v: int| 0 <= v < k ==> #[trigger] dist@[v] == 0,
            decreases n - k,
        {
            settled.push(false);
            reached.push(k == a);
            dist.push(0);
            parent.push((IntersectionID(0), RoadID(0)));
            k += 1;
        }
        let ghost mut rank: Seq<nat> = Seq::new(n as nat, |v: int| 0nat);
        let ghost mut count: nat = 0;
        proof {
            assert(count_true(settled@) == 0) by {
                lemma_count_true_none(settled@);
            }
        }
        let mut queue = MinQueue::new();
        queue.push((0, a));
        loop
            invariant
                n == self.spec_intersections().len(),
                table == self.spec_roads(),
                adj == self.spec_adjacency(),
                self.wf(),
                a == i1.0,
                b == i2.0,
                a < n,
                b < n,
                a != b,
                !settled@[b as int],
                count <= n,
                search_inv(
                    table,
                    adj,
                    n as nat,
                    a as nat,
                    settled@,
                    reached@,
                    dist@,
                    parent@,
                    rank,
                    count,
                    -1,
                    0,
                ),
                queue.wf(),
                forall|v: int|
                    0 <= v < n && !settled@[v] && #[trigger] reached@[v] ==> queue.entries().contains(
                        (dist@[v], v as usize),
                    ),
                forall|e: (u128, usize)|
                    #[trigger] queue.entries().contains(e) ==> e.1 < n && reached@[e.1 as int]
                        && dist@[e.1 as int] <= e.0,
            decreases n - count, queue.entries().len(),
        {
            let ghost waiting = queue.entries();
            let (d, u) = match queue.pop() {
                Some(e) => e,
                None => {
                    proof {
                        assert forall|roads: Seq<RoadID>, nodes: Seq<IntersectionID>|
                            !is_path(table, n as nat, roads, nodes, a as nat, b as nat) by {
                            if is_path(table, n as nat, roads, nodes, a as nat, b as nat) {
                                let y = lemma_frontier(
                                    table, adj, n as nat, a as nat, settled@, reached@, dist@,
                                    parent@, rank, count, roads, nodes, b as nat);
                                assert(!waiting.contains((dist@[y], y as usize)));
                            }
                        }
                    }
                    return None;
                },
            };
            if settled[u] || d != dist[u] {
                continue;
            }
            proof {
                assert forall|v: int|
                    0 <= v < n && !settled@[v] && reached@[v] implies dist@[u as int] <= #[trigger] dist@[v] by {
                    assert(waiting.contains((dist@[v], v as usize)));
                    assert(entry_le((d, u), (dist@[v], v as usize)));
                }
            }
            proof {
                assert forall|roads: Seq<RoadID>, nodes: Seq<IntersectionID>|
                    #[trigger] is_path(table, n as nat, roads, nodes, a as nat, u as nat) implies dist@[u as int]
                    <= path_cost(table, roads) by {
                    let y = lemma_frontier(
                        table, adj, n as nat, a as nat, settled@, reached@, dist@, parent@, rank,
                        count, roads, nodes, u as nat);
                }
                lemma_count_true_set(settled@, u as int);
                lemma_count_true_le(settled@.update(u as int, true));
            }
            let ghost old_count = count;
            settled.set(u, true);
            proof {
                rank = rank.update(u as int, count);
                count = count + 1;
            }
            assert(search_inv(table, adj, n as nat, a as nat, settled@, reached@, dist@, parent@,
                rank, count, u as int, 0));
            if u == b {
                let mut roads: Vec<RoadID> = Vec::new();
                let mut nodes: Vec<IntersectionID> = Vec::new();
                nodes.push(i2);
                let mut cur: usize = b;
                assert(path_cost(table, roads@) == 0);
                while cur != a
                    invariant
                        n == self.spec_intersections().len(),
                        table == self.spec_roads(),
                        a == i1.0,
                        b == i2.0,
                        cur < n,
                        settled@[cur as int],
                        search_inv(table, adj, n as nat, a as nat, settled@, reached@, dist@,
                            parent@, rank, count, u as int, 0),
                        is_path(table, n as nat, roads@, nodes@, cur as nat, b as nat),
                        path_cost(table, roads@) + dist@[cur as int] == dist@[b as int],
                    decreases rank[cur as int],
                {
                    let (p, r) = parent[cur];
                    let ghost old_roads = roads@;
                    let ghost old_nodes = nodes@;
                    roads.insert(0, r);
                    nodes.insert(0, p);
                    proof {
                        assert(roads@.subrange(1, roads@.len() as int) =~= old_roads);
                        assert forall|k: int| 0 <= k < nodes@.len() implies (
                        #[trigger] nodes@[k]).0 < n by {
                            if k > 0 {
                                assert(nodes@[k] == old_nodes[k - 1]);
                            }
                        }
                        assert forall|k: int| 0 <= k < roads@.len() implies (
                        #[trigger] roads@[k]).0 < table.len() && connects(
                            table[roads@[k].0 as int],
                            nodes@[k].0 as nat,
                            nodes@[k + 1].0 as nat,
                        ) by {
                            if k > 0 {
                                assert(roads@[k] == old_roads[k - 1]);
                                assert(nodes@[k] == old_nodes[k - 1]);
                                assert(nodes@[k + 1] == old_nodes[k]);
                            }
                        }
                    }
                    cur = p.0;
                }
                proof {
                    assert forall|other: Seq<RoadID>, other_nodes: Seq<IntersectionID>|
                        is_path(table, n as nat, other, other_nodes, a as nat, b as nat) implies
                        path_cost(table, roads@) <= path_cost(table, other) by {
                    }
                }
                return Some((roads, nodes));
            }
            let neighbours = self.neighbours(IntersectionID(u));
            let du = dist[u];
            assert(du <= old_count * 0xffff_ffff_ffff_ffffnat);
            let mut k: usize = 0;
            while k < neighbours.len()
                invariant
                    n == self.spec_intersections().len(),
                    table == self.spec_roads(),
                    adj == self.spec_adjacency(),
                    self.wf(),
                    a == i1.0,
                    b == i2.0,
                    a < n,
                    b < n,
                    a != b,
                    u < n,
                    u != b,
                    !settled@[b as int],
                    settled@[u as int],
                    count == old_count + 1,
                    count <= n,
                    du == dist@[u as int],
                    du <= old_count * 0xffff_ffff_ffff_ffffnat,
                    neighbours@ == adj[u as int],
                    k <= neighbours@.len(),
                    search_inv(table, adj, n as nat, a as nat, settled@, reached@, dist@,
                        parent@, rank, count, u as int, k as int),
                    queue.wf(),
                    forall|v: int|
                        0 <= v < n && !settled@[v] && #[trigger] reached@[v]
                            ==> queue.entries().contains((dist@[v], v as usize)),
                    forall|e: (u128, usize)|
                        #[trigger] queue.entries().contains(e) ==> e.1 < n && reached@[e.1 as int]
                            && dist@[e.1 as int] <= e.0,
                decreases neighbours@.len() - k,
            {
                let (y, r) = neighbours[k];
                if !settled[y.0] {
                    let len = self.road(r).length;
                    proof {
                        assert(old_count * 0xffff_ffff_ffff_ffffnat + 0xffff_ffff_ffff_ffffnat
                            <= 0xffff_ffff_ffff_ffffnat * 0xffff_ffff_ffff_ffffnat) by (nonlinear_arith)
                            requires
                                old_count + 1 <= 0xffff_ffff_ffff_ffffnat,
                        ;
                    }
                    let nd: u128 = du + len as u128;
                    if !reached[y.0] || nd < dist[y.0] {
                        dist.set(y.0, nd);
                        reached.set(y.0, true);
                        parent.set(y.0, (IntersectionID(u), r));
                        queue.push((nd, y.0));
                    }
                }
                k += 1;
            }
        }
    }
}

/// No entry of an all-`false` sequence is counted.
proof fn lemma_count_true_none(s: Seq<bool>)
    requires
        forall|v: int| 0 <= v < s.len() ==> !#[trigger] s[v],
    ensures
        count_true(s) == 0,
    decreases s.len(),
{
    if s.len() > 0 {
        lemma_count_true_none(s.drop_last());
    }
}

} // verus!
