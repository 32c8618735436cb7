//! The graph model: intersections and roads under dense identifiers, with an adjacency index
//! built once, and the builder that makes it from a raw street network.
use std::collections::HashMap;
use vstd::prelude::*;

use crate::geometry::{Point, polyline_length, polyline_len};

verus! {

/// A dense road identifier: the road's index in the map's road table.
#[derive(Clone, Copy, Debug, PartialEq, Eq, PartialOrd, Ord, Hash, Structural)]
pub struct RoadID(pub usize);

/// A dense intersection identifier: the intersection's index in the map's intersection table.
#[derive(Clone, Copy, Debug, PartialEq, Eq, PartialOrd, Ord, Hash, Structural)]
pub struct IntersectionID(pub usize);

/// The geographic extent that the planar frame was projected from, in units of 1e-7 degree.
#[derive(Clone, Copy, Debug, PartialEq, Eq, Structural)]
pub struct GpsBounds {
    pub min_lon: i64,
    pub min_lat: i64,
    pub max_lon: i64,
    pub max_lat: i64,
}

/// A road of a built map: its two endpoints, its centerline and its length along it.
#[derive(Debug)]
pub struct Road {
    pub i1: IntersectionID,
    pub i2: IntersectionID,
    pub pts: Vec<Point>,
    pub length: u64,
}

/// An intersection of the raw network, under the importer's identifier.
#[derive(Clone, Copy, Debug)]
pub struct RawIntersection {
    pub id: u64,
    pub point: Point,
}

/// A road of the raw network: its identifier, its endpoints' identifiers and its centerline.
#[derive(Debug)]
pub struct RawRoad {
    pub id: u64,
    pub i1: u64,
    pub i2: u64,
    pub pts: Vec<Point>,
}

/// The raw network that a map is built from.
#[derive(Debug)]
pub struct StreetNetwork {
    pub gps_bounds: GpsBounds,
    pub intersections: Vec<RawIntersection>,
    pub roads: Vec<RawRoad>,
}

/// Why a raw network cannot be built into a map.
#[derive(Clone, Copy, Debug, PartialEq, Eq, Structural)]
pub enum ValidationError {
    /// Two intersections share this identifier.
    DuplicateIntersection { intersection: u64 },
    /// The road names an intersection that the network does not hold.
    UnknownIntersection { road: u64, intersection: u64 },
    /// The road's centerline has fewer than two points.
    TooFewPoints { road: u64 },
    /// The road's length does not fit in a `u64`.
    TooLong { road: u64 },
}

/// The street graph. Its tables are filled once, by the builder, and never change.
pub struct RouteSnapperMap {
    gps_bounds: GpsBounds,
    intersections: Vec<Point>,
    roads: Vec<Road>,
    adjacency: Vec<Vec<(IntersectionID, RoadID)>>,
}

/// Road `r` joins intersections `a` and `b`, in either order.
pub open spec fn connects(r: Road, a: nat, b: nat) -> bool {
    (r.i1.0 == a && r.i2.0 == b) || (r.i1.0 == b && r.i2.0 == a)
}

/// A road of a map with `n` intersections is valid: its endpoints are intersections of the map,
/// its centerline has at least two points, and its length is the length along the centerline.
pub open spec fn road_valid(n: nat, r: Road) -> bool {
    &&& r.i1.0 < n
    &&& r.i2.0 < n
    &&& r.pts@.len() >= 2
    &&& r.length == polyline_length(r.pts@)
}

/// The adjacency index lists, for each intersection `i`, exactly the pairs `(j, r)` where road `r`
/// joins `i` and `j`.
pub open spec fn adjacency_valid(
    n: nat,
    roads: Seq<Road>,
    adjacency: Seq<Seq<(IntersectionID, RoadID)>>,
) -> bool {
    &&& adjacency.len() == n
    &&& forall|i: int, k: int|
        0 <= i < n && 0 <= k < adjacency[i].len() ==> {
            let (j, r) = #[trigger] adjacency[i][k];
            r.0 < roads.len() && connects(roads[r.0 as int], i as nat, j.0 as nat)
        }
    &&& forall|r: int|
        0 <= r < roads.len() ==> {
            &&& adjacency[(#[trigger] roads[r]).i1.0 as int].contains((roads[r].i2, RoadID(r as usize)))
            &&& adjacency[roads[r].i2.0 as int].contains((roads[r].i1, RoadID(r as usize)))
        }
}

/// The position, among the first `k` intersections, of the first one with identifier `ext`.
pub open spec fn first_index(ints: Seq<RawIntersection>, ext: u64, k: nat) -> Option<nat>
    decreases k,
{
    if k == 0 {
        None
    } else {
        match first_index(ints, ext, (k - 1) as nat) {
            Some(i) => Some(i),
            None => if ints[k - 1].id == ext {
                Some((k - 1) as nat)
            } else {
                None
            },
        }
    }
}

/// The dense id that the builder gives to the intersection with identifier `ext`: its position
/// among the network's intersections.
pub open spec fn dense_id(ints: Seq<RawIntersection>, ext: u64) -> Option<nat> {
    first_index(ints, ext, ints.len())
}

/// The first repeated identifier among the first `k` intersections.
pub open spec fn duplicate_error(ints: Seq<RawIntersection>, k: nat) -> Option<ValidationError>
    decreases k,
{
    if k == 0 {
        None
    } else {
        match duplicate_error(ints, (k - 1) as nat) {
            Some(e) => Some(e),
            None => if first_index(ints, ints[k - 1].id, (k - 1) as nat) is Some {
                Some(ValidationError::DuplicateIntersection { intersection: ints[k - 1].id })
            } else {
                None
            },
        }
    }
}

/// What is wrong with one raw road, checked in this order: its first endpoint, its second
/// endpoint, the number of its points, its length.
pub open spec fn road_error(ints: Seq<RawIntersection>, r: RawRoad) -> Option<ValidationError> {
    if dense_id(ints, r.i1) is None {
        Some(ValidationError::UnknownIntersection { road: r.id, intersection: r.i1 })
    } else if dense_id(ints, r.i2) is None {
        Some(ValidationError::UnknownIntersection { road: r.id, intersection: r.i2 })
    } else if r.pts@.len() < 2 {
        Some(ValidationError::TooFewPoints { road: r.id })
    } else if polyline_length(r.pts@) > u64::MAX {
        Some(ValidationError::TooLong { road: r.id })
    } else {
        None
    }
}

/// The error of the first faulty road among the first `k`.
pub open spec fn roads_error(ints: Seq<RawIntersection>, roads: Seq<RawRoad>, k: nat) -> Option<
    ValidationError,
>
    decreases k,
{
    if k == 0 {
        None
    } else {
        match roads_error(ints, roads, (k - 1) as nat) {
            Some(e) => Some(e),
            None => road_error(ints, roads[k - 1]),
        }
    }
}

/// The error that building the network reports: the first repeated intersection identifier, or
/// else the first faulty road; `None` where the network is valid.
pub open spec fn network_error(net: StreetNetwork) -> Option<ValidationError> {
    let ints = net.intersections@;
    match duplicate_error(ints, ints.len()) {
        Some(e) => Some(e),
        None => roads_error(ints, net.roads@, net.roads@.len()),
    }
}

/// `out` is the road that the builder makes of the raw road `r`.
pub open spec fn built_from(ints: Seq<RawIntersection>, out: Road, r: RawRoad) -> bool {
    &&& dense_id(ints, r.i1) == Some(out.i1.0 as nat)
    &&& dense_id(ints, r.i2) == Some(out.i2.0 as nat)
    &&& out.pts@ == r.pts@
    &&& out.length == polyline_length(r.pts@)
}

impl RouteSnapperMap {
    /// The frame's geographic extent.
    pub closed spec fn spec_gps_bounds(&self) -> GpsBounds {
        self.gps_bounds
    }

    /// The intersections' positions; an intersection's id is its index here.
    pub closed spec fn spec_intersections(&self) -> Seq<Point> {
        self.intersections@
    }

    /// The roads; a road's id is its index here.
    pub closed spec fn spec_roads(&self) -> Seq<Road> {
        self.roads@
    }

    /// The adjacency index: for each intersection, its (neighbour, road) pairs.
    pub closed spec fn spec_adjacency(&self) -> Seq<Seq<(IntersectionID, RoadID)>> {
        self.adjacency@.map_values(|l: Vec<(IntersectionID, RoadID)>| l@)
    }

    /// The map's invariant: every road is valid and the adjacency index matches the roads; and,
    /// as of every table in memory, the tables' lengths fit in a `usize`.
    pub open spec fn wf(&self) -> bool {
        &&& self.spec_intersections().len() <= usize::MAX
        &&& self.spec_roads().len() <= usize::MAX
        &&& forall|r: int|
            0 <= r < self.spec_roads().len() ==> (#[trigger] self.spec_roads()[r]).pts@.len()
                <= usize::MAX
        &&& forall|r: int|
            0 <= r < self.spec_roads().len() ==> road_valid(
                self.spec_intersections().len(),
                #[trigger] self.spec_roads()[r],
            )
        &&& adjacency_valid(
            self.spec_intersections().len(),
            self.spec_roads(),
            self.spec_adjacency(),
        )
    }

    /// Builds the map of a raw network. Intersections get dense ids in the order of the
    /// network, roads keep their order, and each road's length is computed along its centerline.
    /// Fails with the first fault in the network, see `network_error`.
    pub fn new(streets: &StreetNetwork) -> (res: Result<RouteSnapperMap, ValidationError>)
        ensures
            match res {
                Ok(map) => {
                    &&& network_error(*streets) is None
                    &&& map.wf()
                    &&& map.spec_gps_bounds() == streets.gps_bounds
                    &&& map.spec_intersections() == streets.intersections@.map_values(
                        |i: RawIntersection| i.point,
                    )
                    &&& map.spec_roads().len() == streets.roads@.len()
                    &&& forall|k: int|
                        0 <= k < streets.roads@.len() ==> built_from(
                            streets.intersections@,
                            #[trigger] map.spec_roads()[k],
                            streets.roads@[k],
                        )
                },
                Err(e) => network_error(*streets) == Some(e),
            },
    {
        let ghost ints = streets.intersections@;
        let ghost raws = streets.roads@;
        let n = streets.intersections.len();
        let mut intersections: Vec<Point> = Vec::new();
        let mut id_lookup: HashMap<u64, usize> = HashMap::new();
        let mut k: usize = 0;
        while k < n
            invariant
                k <= n,
                n == ints.len(),
                ints == streets.intersections@,
                duplicate_error(ints, k as nat) is None,
                intersections@ == ints.subrange(0, k as int).map_values(
                    |i: RawIntersection| i.point,
                ),
                forall|ext: u64|
                    #![trigger id_lookup@.contains_key(ext)]
                    #![trigger first_index(ints, ext, k as nat)]
                    id_lookup@.contains_key(ext) <==> first_index(ints, ext, k as nat) is Some,
                forall|ext: u64|
                    id_lookup@.contains_key(ext) ==> first_index(ints, ext, k as nat) == Some(
                        id_lookup@[ext] as nat,
                    ),
            decreases n - k,
        {
            let raw = &streets.intersections[k];
            if id_lookup.contains_key(&raw.id) {
                proof {
                    lemma_duplicate_error_kept(ints, (k + 1) as nat, n as nat);
                }
                return Err(ValidationError::DuplicateIntersection { intersection: raw.id });
            }
            id_lookup.insert(raw.id, k);
            intersections.push(raw.point);
            k += 1;
            assert(intersections@ =~= ints.subrange(0, k as int).map_values(
                |i: RawIntersection| i.point,
            ));
        }
        assert(ints.subrange(0, n as int) =~= ints);
        let m = streets.roads.len();
        let mut roads: Vec<Road> = Vec::new();
        let mut j: usize = 0;
        while j < m
            invariant
                j <= m,
                m == raws.len(),
                n == ints.len(),
                ints == streets.intersections@,
                raws == streets.roads@,
                duplicate_error(ints, n as nat) is None,
                roads_error(ints, raws, j as nat) is None,
                roads@.len() == j,
                forall|q: int| 0 <= q < j ==> built_from(ints, #[trigger] roads@[q], raws[q]),
                forall|q: int| 0 <= q < j ==> road_valid(n as nat, #[trigger] roads@[q]),
                forall|q: int| 0 <= q < j ==> (#[trigger] roads@[q]).pts@.len() <= usize::MAX,
                forall|ext: u64|
                    #![trigger id_lookup@.contains_key(ext)]
                    #![trigger dense_id(ints, ext)]
                    id_lookup@.contains_key(ext) <==> dense_id(ints, ext) is Some,
                forall|ext: u64|
                    id_lookup@.contains_key(ext) ==> dense_id(ints, ext) == Some(
                        id_lookup@[ext] as nat,
                    ),
            decreases m - j,
        {
            let raw = &streets.roads[j];
            let i1 = match id_lookup.get(&raw.i1) {
                Some(i) => *i,
                None => {
                    proof {
                        lemma_roads_error_kept(ints, raws, (j + 1) as nat, m as nat);
                    }
                    return Err(
                        ValidationError::UnknownIntersection { road: raw.id, intersection: raw.i1 },
                    );
                },
            };
            let i2 = match id_lookup.get(&raw.i2) {
                Some(i) => *i,
                None => {
                    proof {
                        lemma_roads_error_kept(ints, raws, (j + 1) as nat, m as nat);
                    }
                    return Err(
                        ValidationError::UnknownIntersection { road: raw.id, intersection: raw.i2 },
                    );
                },
            };
            if raw.pts.len() < 2 {
                proof {
                    lemma_roads_error_kept(ints, raws, (j + 1) as nat, m as nat);
                }
                return Err(ValidationError::TooFewPoints { road: raw.id });
            }
            let length = match polyline_len(&raw.pts) {
                Some(l) => l,
                None => {
                    proof {
                        lemma_roads_error_kept(ints, raws, (j + 1) as nat, m as nat);
                    }
                    return Err(ValidationError::TooLong { road: raw.id });
                },
            };
            proof {
                lemma_first_index_bound(ints, raw.i1, n as nat);
                lemma_first_index_bound(ints, raw.i2, n as nat);
            }
            let pts = raw.pts.clone();
            assert(pts@ =~= raw.pts@);
            roads.push(Road { i1: IntersectionID(i1), i2: IntersectionID(i2), pts, length });
            j += 1;
        }
        Ok(RouteSnapperMap::from_parts(streets.gps_bounds, intersections, roads))
    }

    /// Assembles a map from its tables, whose roads must be valid, and builds its adjacency
    /// index.
    pub(crate) fn from_parts(gps_bounds: GpsBounds, intersections: Vec<Point>, roads: Vec<Road>) -> (map:
        RouteSnapperMap)
        requires
            forall|r: int|
                0 <= r < roads@.len() ==> road_valid(intersections@.len(), #[trigger] roads@[r]),
            forall|r: int| 0 <= r < roads@.len() ==> (#[trigger] roads@[r]).pts@.len() <= usize::MAX,
        ensures
            map.wf(),
            map.spec_gps_bounds() == gps_bounds,
            map.spec_intersections() == intersections@,
            map.spec_roads() == roads@,
    {
        let n = intersections.len();
        let m = roads.len();
        let adjacency = build_adjacency(n, &roads);
        let map = RouteSnapperMap { gps_bounds, intersections, roads, adjacency };
        assert(map.spec_adjacency() =~= adjacency@.map_values(
            |l: Vec<(IntersectionID, RoadID)>| l@,
        ));
        map
    }

    /// The frame's geographic extent.
    pub fn gps_bounds(&self) -> (r: GpsBounds)
        ensures
            r == self.spec_gps_bounds(),
    {
        self.gps_bounds
    }

    /// The number of intersections; their ids are `0` up to it.
    pub fn num_intersections(&self) -> (r: usize)
        ensures
            r == self.spec_intersections().len(),
    {
        self.intersections.len()
    }

    /// The number of roads; their ids are `0` up to it.
    pub fn num_roads(&self) -> (r: usize)
        ensures
            r == self.spec_roads().len(),
    {
        self.roads.len()
    }

    /// The position of an intersection.
    pub fn intersection(&self, i: IntersectionID) -> (r: Point)
        requires
            i.0 < self.spec_intersections().len(),
        ensures
            r == self.spec_intersections()[i.0 as int],
    {
        self.intersections[i.0]
    }

    /// A road: its endpoints, centerline and length.
    pub fn road(&self, r: RoadID) -> (road: &Road)
        requires
            r.0 < self.spec_roads().len(),
        ensures
            *road == self.spec_roads()[r.0 as int],
    {
        &self.roads[r.0]
    }

    /// The (neighbour, road) pairs of the roads at an intersection.
    pub fn neighbours(&self, i: IntersectionID) -> (r: &Vec<(IntersectionID, RoadID)>)
        requires
            self.wf(),
            i.0 < self.spec_intersections().len(),
        ensures
            r@ == self.spec_adjacency()[i.0 as int],
    {
        &self.adjacency[i.0]
    }
}

/// Lists, for each of `n` intersections, the (neighbour, road) pairs of the roads at it, in the
/// order of the roads.
fn build_adjacency(n: usize, roads: &Vec<Road>) -> (adjacency: Vec<Vec<(IntersectionID, RoadID)>>)
    requires
        forall|r: int| 0 <= r < roads@.len() ==> road_valid(n as nat, #[trigger] roads@[r]),
    ensures
        adjacency_valid(
            n as nat,
            roads@,
            adjacency@.map_values(|l: Vec<(IntersectionID, RoadID)>| l@),
        ),
{
    let mut adjacency: Vec<Vec<(IntersectionID, RoadID)>> = Vec::new();
    let mut i: usize = 0;
    while i < n
        invariant
            i <= n,
            adjacency@.len() == i,
            forall|q: int| 0 <= q < i ==> (#[trigger] adjacency@[q])@.len() == 0,
        decreases n - i,
    {
        adjacency.push(Vec::new());
        i += 1;
    }
    let m = roads.len();
    let mut r: usize = 0;
    while r < m
        invariant
            r <= m,
            m == roads@.len(),
            adjacency@.len() == n,
            forall|q: int| 0 <= q < m ==> road_valid(n as nat, #[trigger] roads@[q]),
            forall|a: int, k: int|
                0 <= a < n && 0 <= k < adjacency@[a]@.len() ==> {
                    let (b, q) = #[trigger] adjacency@[a]@[k];
                    q.0 < r && connects(roads@[q.0 as int], a as nat, b.0 as nat)
                },
            forall|q: int|
                0 <= q < r ==> {
                    &&& adjacency@[(#[trigger] roads@[q]).i1.0 as int]@.contains(
                        (roads@[q].i2, RoadID(q as usize)),
                    )
                    &&& adjacency@[roads@[q].i2.0 as int]@.contains(
                        (roads@[q].i1, RoadID(q as usize)),
                    )
                },
        decreases m - r,
    {
        let a = roads[r].i1;
        let b = roads[r].i2;
        let ghost before = adjacency@;
        adjacency[a.0].push((b, RoadID(r)));
        adjacency[b.0].push((a, RoadID(r)));
        proof {
            assert forall|x: int| 0 <= x < n implies before[x]@.is_prefix_of(
                #[trigger] adjacency@[x]@,
            ) by {
                if x == a.0 || x == b.0 {
                }
            }
            assert forall|q: int| 0 <= q < r + 1 implies {
                &&& adjacency@[(#[trigger] roads@[q]).i1.0 as int]@.contains(
                    (roads@[q].i2, RoadID(q as usize)),
                )
                &&& adjacency@[roads@[q].i2.0 as int]@.contains((roads@[q].i1, RoadID(q as usize)))
            } by {
                let x = roads@[q].i1.0 as int;
                let y = roads@[q].i2.0 as int;
                if q < r {
                    let e1 = (roads@[q].i2, RoadID(q as usize));
                    let k1 = choose|k: int| 0 <= k < before[x]@.len() && before[x]@[k] == e1;
                    assert(adjacency@[x]@[k1] == e1);
                    let e2 = (roads@[q].i1, RoadID(q as usize));
                    let k2 = choose|k: int| 0 <= k < before[y]@.len() && before[y]@[k] == e2;
                    assert(adjacency@[y]@[k2] == e2);
                } else {
                    assert(adjacency@[x]@[before[x]@.len() as int] == (b, RoadID(r)));
                    let last = adjacency@[y]@.len() - 1;
                    assert(adjacency@[y]@[last] == (a, RoadID(r)));
                }
            }
        }
        r += 1;
    }
    assert forall|q: int| 0 <= q < m implies {
        &&& adjacency@[(#[trigger] roads@[q]).i1.0 as int]@.contains((roads@[q].i2, RoadID(q as usize)))
        &&& adjacency@[roads@[q].i2.0 as int]@.contains((roads@[q].i1, RoadID(q as usize)))
    } by {}
    let ghost view = adjacency@.map_values(|l: Vec<(IntersectionID, RoadID)>| l@);
    assert forall|q: int| 0 <= q < m implies {
        &&& view[(#[trigger] roads@[q]).i1.0 as int].contains((roads@[q].i2, RoadID(q as usize)))
        &&& view[roads@[q].i2.0 as int].contains((roads@[q].i1, RoadID(q as usize)))
    } by {}
    adjacency
}

/// Once a repeated identifier is found among a prefix, it is the error of every longer prefix.
proof fn lemma_duplicate_error_kept(ints: Seq<RawIntersection>, k: nat, l: nat)
    requires
        k <= l,
        duplicate_error(ints, k) is Some,
    ensures
        duplicate_error(ints, l) == duplicate_error(ints, k),
    decreases l - k,
{
    if k < l {
        lemma_duplicate_error_kept(ints, k, (l - 1) as nat);
    }
}

/// Once a faulty road is found among a prefix, it is the error of every longer prefix.
proof fn lemma_roads_error_kept(ints: Seq<RawIntersection>, roads: Seq<RawRoad>, k: nat, l: nat)
    requires
        k <= l,
        roads_error(ints, roads, k) is Some,
    ensures
        roads_error(ints, roads, l) == roads_error(ints, roads, k),
    decreases l - k,
{
    if k < l {
        lemma_roads_error_kept(ints, roads, k, (l - 1) as nat);
    }
}

/// Every road of a well-formed map joins two intersections of the map.
pub proof fn lemma_road_endpoints_valid(m: &RouteSnapperMap)
    requires
        m.wf(),
    ensures
        forall|r: int|
            0 <= r < m.spec_roads().len() ==> (#[trigger] m.spec_roads()[r]).i1.0 < m.spec_intersections().len()
                && m.spec_roads()[r].i2.0 < m.spec_intersections().len(),
{
    assert forall|r: int| 0 <= r < m.spec_roads().len() implies (
    #[trigger] m.spec_roads()[r]).i1.0 < m.spec_intersections().len()
        && m.spec_roads()[r].i2.0 < m.spec_intersections().len() by {
        assert(road_valid(m.spec_intersections().len(), m.spec_roads()[r]));
    }
}

/// In a network without repeated intersection identifiers, the builder numbers intersections
/// densely: the `k`-th intersection gets id `k`, so the ids are exactly `0` up to the number of
/// intersections, each given once, and no identifier maps outside that range.
pub proof fn lemma_dense_ids(net: StreetNetwork)
    requires
        duplicate_error(net.intersections@, net.intersections@.len()) is None,
    ensures
        forall|k: int|
            0 <= k < net.intersections@.len() ==> dense_id(
                net.intersections@,
                (#[trigger] net.intersections@[k]).id,
            ) == Some(k as nat),
        forall|ext: u64|
            #[trigger] dense_id(net.intersections@, ext) matches Some(i) ==> i
                < net.intersections@.len(),
{
    let ints = net.intersections@;
    let n = ints.len();
    assert forall|k: int| 0 <= k < n implies dense_id(ints, (#[trigger] ints[k]).id) == Some(
        k as nat,
    ) by {
        lemma_no_duplicate_prefix(ints, (k + 1) as nat, n);
        lemma_first_index_found(ints, k as nat);
        lemma_first_index_kept(ints, ints[k].id, (k + 1) as nat, n);
    }
    assert forall|ext: u64| (#[trigger] dense_id(ints, ext) matches Some(i) ==> i < n) by {
        lemma_first_index_bound(ints, ext, n);
    }
}

/// A prefix of a network without repeated identifiers has none either.
proof fn lemma_no_duplicate_prefix(ints: Seq<RawIntersection>, k: nat, l: nat)
    requires
        k <= l,
        duplicate_error(ints, l) is None,
    ensures
        duplicate_error(ints, k) is None,
    decreases l - k,
{
    if k < l {
        lemma_no_duplicate_prefix(ints, k, (l - 1) as nat);
    }
}

/// Without repeats, the `k`-th intersection is the first with its identifier.
proof fn lemma_first_index_found(ints: Seq<RawIntersection>, k: nat)
    requires
        k < ints.len(),
        duplicate_error(ints, k + 1) is None,
    ensures
        first_index(ints, ints[k as int].id, k + 1) == Some(k),
{
}

/// A position found among a prefix stays the first among every longer prefix.
proof fn lemma_first_index_kept(ints: Seq<RawIntersection>, ext: u64, k: nat, l: nat)
    requires
        k <= l,
        first_index(ints, ext, k) is Some,
    ensures
        first_index(ints, ext, l) == first_index(ints, ext, k),
    decreases l - k,
{
    if k < l {
        lemma_first_index_kept(ints, ext, k, (l - 1) as nat);
    }
}

/// A position found among the first `k` intersections lies below `k`.
proof fn lemma_first_index_bound(ints: Seq<RawIntersection>, ext: u64, k: nat)
    ensures
        first_index(ints, ext, k) matches Some(i) ==> i < k,
    decreases k,
{
    if k > 0 {
        lemma_first_index_bound(ints, ext, (k - 1) as nat);
    }
}

} // verus!
