use route_snapper::{
    DecodeError, distance, integer_sqrt, polyline_len, GpsBounds, IntersectionID, Point, RawIntersection,
    RawRoad, RoadID, RouteSnapperMap, StreetNetwork, ValidationError,
};

fn pt(x: i32, y: i32) -> Point {
    Point { x, y }
}

fn bounds() -> GpsBounds {
    GpsBounds { min_lon: -1_000_000, min_lat: 515_000_000, max_lon: 0, max_lat: 516_000_000 }
}

fn raw_int(id: u64, x: i32, y: i32) -> RawIntersection {
    RawIntersection { id, point: pt(x, y) }
}

fn raw_road(id: u64, i1: u64, i2: u64, pts: Vec<Point>) -> RawRoad {
    RawRoad { id, i1, i2, pts }
}

/// Four corners A, B, C, D of a square of side 10, with roads A-B, B-C, C-D, D-A, and an
/// isolated intersection E. External ids are deliberately sparse.
fn square() -> StreetNetwork {
    StreetNetwork {
        gps_bounds: bounds(),
        intersections: vec![
            raw_int(100, 0, 0),
            raw_int(200, 10, 0),
            raw_int(300, 10, 10),
            raw_int(400, 0, 10),
            raw_int(500, 50, 50),
        ],
        roads: vec![
            raw_road(1, 100, 200, vec![pt(0, 0), pt(10, 0)]),
            raw_road(2, 200, 300, vec![pt(10, 0), pt(10, 10)]),
            raw_road(3, 300, 400, vec![pt(10, 10), pt(0, 10)]),
            raw_road(4, 400, 100, vec![pt(0, 10), pt(0, 0)]),
        ],
    }
}

fn total(map: &RouteSnapperMap, roads: &[RoadID]) -> u64 {
    roads.iter().map(|r| map.road(*r).length).sum()
}

const A: IntersectionID = IntersectionID(0);
const B: IntersectionID = IntersectionID(1);
const C: IntersectionID = IntersectionID(2);
const D: IntersectionID = IntersectionID(3);
const E: IntersectionID = IntersectionID(4);

#[test]
fn builds_dense_ids_in_order() {
    let map = RouteSnapperMap::new(&square()).unwrap();
    assert_eq!(map.num_intersections(), 5);
    assert_eq!(map.num_roads(), 4);
    assert_eq!(map.intersection(C), pt(10, 10));
    assert_eq!(map.intersection(E), pt(50, 50));
    assert_eq!(map.gps_bounds(), bounds());
    let r = map.road(RoadID(3));
    assert_eq!((r.i1, r.i2), (D, A));
    assert_eq!(r.pts, vec![pt(0, 10), pt(0, 0)]);
    assert_eq!(r.length, 10);
}

#[test]
fn every_road_endpoint_is_a_valid_id() {
    let map = RouteSnapperMap::new(&square()).unwrap();
    for i in 0..map.num_roads() {
        let r = map.road(RoadID(i));
        assert!(r.i1.0 < map.num_intersections());
        assert!(r.i2.0 < map.num_intersections());
    }
}

#[test]
fn adjacency_lists_roads_in_order() {
    let map = RouteSnapperMap::new(&square()).unwrap();
    assert_eq!(map.neighbours(A), &vec![(B, RoadID(0)), (D, RoadID(3))]);
    assert_eq!(map.neighbours(C), &vec![(B, RoadID(1)), (D, RoadID(2))]);
    assert!(map.neighbours(E).is_empty());
}

#[test]
fn square_shortest_path_is_deterministic() {
    let map = RouteSnapperMap::new(&square()).unwrap();
    let (roads, nodes) = map.pathfind(A, C).unwrap();
    assert_eq!(total(&map, &roads), 20);
    assert_eq!(roads, vec![RoadID(0), RoadID(1)]);
    assert_eq!(nodes, vec![A, B, C]);
    // Asking again gives the same answer.
    assert_eq!(map.pathfind(A, C), Some((roads, nodes)));
}

#[test]
fn isolated_intersection_is_unreachable() {
    let map = RouteSnapperMap::new(&square()).unwrap();
    assert_eq!(map.pathfind(A, E), None);
    assert_eq!(map.pathfind(E, C), None);
}

#[test]
fn path_to_itself_is_empty() {
    let map = RouteSnapperMap::new(&square()).unwrap();
    assert_eq!(map.pathfind(B, B), Some((vec![], vec![B])));
    assert_eq!(map.pathfind(E, E), Some((vec![], vec![E])));
}

#[test]
fn path_lengths_are_symmetric() {
    let map = RouteSnapperMap::new(&square()).unwrap();
    for a in 0..4 {
        for b in 0..4 {
            let (there, _) = map.pathfind(IntersectionID(a), IntersectionID(b)).unwrap();
            let (back, _) = map.pathfind(IntersectionID(b), IntersectionID(a)).unwrap();
            assert_eq!(total(&map, &there), total(&map, &back));
        }
    }
    let (roads, nodes) = map.pathfind(C, A).unwrap();
    assert_eq!(roads, vec![RoadID(1), RoadID(0)]);
    assert_eq!(nodes, vec![C, B, A]);
}

/// A triangle where the two-road detour is shorter than the direct road.
#[test]
fn prefers_shorter_detour_over_direct_road() {
    let net = StreetNetwork {
        gps_bounds: bounds(),
        intersections: vec![raw_int(7, 0, 0), raw_int(8, 3, 4), raw_int(9, 6, 0)],
        roads: vec![
            // Direct but winding: 0,0 -> 3,-40 -> 6,0
            raw_road(10, 7, 9, vec![pt(0, 0), pt(3, -40), pt(6, 0)]),
            raw_road(11, 7, 8, vec![pt(0, 0), pt(3, 4)]),
            raw_road(12, 8, 9, vec![pt(3, 4), pt(6, 0)]),
        ],
    };
    let map = RouteSnapperMap::new(&net).unwrap();
    let (roads, nodes) = map.pathfind(IntersectionID(0), IntersectionID(2)).unwrap();
    assert_eq!(roads, vec![RoadID(1), RoadID(2)]);
    assert_eq!(nodes, vec![IntersectionID(0), IntersectionID(1), IntersectionID(2)]);
    assert_eq!(total(&map, &roads), 10);
}

/// Brute force over all simple walks on a small graph agrees with the search.
#[test]
fn matches_brute_force_minimum() {
    let net = StreetNetwork {
        gps_bounds: bounds(),
        intersections: vec![
            raw_int(1, 0, 0),
            raw_int(2, 4, 0),
            raw_int(3, 8, 0),
            raw_int(4, 4, 3),
            raw_int(5, 8, 6),
        ],
        roads: vec![
            raw_road(1, 1, 2, vec![pt(0, 0), pt(4, 0)]),
            raw_road(2, 2, 3, vec![pt(4, 0), pt(8, 0)]),
            raw_road(3, 1, 4, vec![pt(0, 0), pt(4, 3)]),
            raw_road(4, 4, 5, vec![pt(4, 3), pt(8, 6)]),
            raw_road(5, 3, 5, vec![pt(8, 0), pt(8, 6)]),
            raw_road(6, 2, 4, vec![pt(4, 0), pt(4, 3)]),
            raw_road(7, 5, 5, vec![pt(8, 6), pt(9, 6), pt(8, 6)]),
        ],
    };
    let map = RouteSnapperMap::new(&net).unwrap();
    let n = map.num_intersections();
    fn best(map: &RouteSnapperMap, at: usize, to: usize, seen: &mut Vec<bool>) -> Option<u64> {
        if at == to {
            return Some(0);
        }
        seen[at] = true;
        let mut result: Option<u64> = None;
        for r in 0..map.num_roads() {
            let road = map.road(RoadID(r));
            let next = if road.i1.0 == at {
                road.i2.0
            } else if road.i2.0 == at {
                road.i1.0
            } else {
                continue;
            };
            if seen[next] {
                continue;
            }
            if let Some(rest) = best(map, next, to, seen) {
                let c = rest + road.length;
                result = Some(result.map_or(c, |x| x.min(c)));
            }
        }
        seen[at] = false;
        result
    }
    for a in 0..n {
        for b in 0..n {
            let expected = best(&map, a, b, &mut vec![false; n]);
            let got = map.pathfind(IntersectionID(a), IntersectionID(b));
            match got {
                Some((roads, nodes)) => {
                    assert_eq!(Some(total(&map, &roads)), expected);
                    assert_eq!(nodes.len(), roads.len() + 1);
                    assert_eq!(nodes[0], IntersectionID(a));
                    assert_eq!(*nodes.last().unwrap(), IntersectionID(b));
                }
                None => assert_eq!(expected, None),
            }
        }
    }
}

#[test]
fn disconnected_components_are_unreachable() {
    let net = StreetNetwork {
        gps_bounds: bounds(),
        intersections: vec![raw_int(1, 0, 0), raw_int(2, 1, 0), raw_int(3, 5, 5), raw_int(4, 6, 5)],
        roads: vec![
            raw_road(1, 1, 2, vec![pt(0, 0), pt(1, 0)]),
            raw_road(2, 3, 4, vec![pt(5, 5), pt(6, 5)]),
        ],
    };
    let map = RouteSnapperMap::new(&net).unwrap();
    assert_eq!(map.pathfind(IntersectionID(0), IntersectionID(3)), None);
    assert_eq!(map.pathfind(IntersectionID(3), IntersectionID(1)), None);
    assert!(map.pathfind(IntersectionID(2), IntersectionID(3)).is_some());
}

#[test]
fn road_length_follows_the_polyline() {
    let net = StreetNetwork {
        gps_bounds: bounds(),
        intersections: vec![raw_int(1, 0, 0), raw_int(2, 3, 4)],
        roads: vec![raw_road(1, 1, 2, vec![pt(0, 0), pt(3, 0), pt(3, 4)])],
    };
    let map = RouteSnapperMap::new(&net).unwrap();
    assert_eq!(map.road(RoadID(0)).length, 7);
    assert_ne!(map.road(RoadID(0)).length, 5);
}

#[test]
fn segment_lengths_round_down() {
    assert_eq!(distance(pt(0, 0), pt(3, 4)), 5);
    assert_eq!(distance(pt(0, 0), pt(1, 1)), 1);
    assert_eq!(distance(pt(-3, -4), pt(0, 0)), 5);
    assert_eq!(distance(pt(0, 0), pt(0, 0)), 0);
    assert_eq!(distance(pt(i32::MIN, i32::MIN), pt(i32::MAX, i32::MAX)), 6_074_000_998);
    assert_eq!(integer_sqrt(0), 0);
    assert_eq!(integer_sqrt(15), 3);
    assert_eq!(integer_sqrt(16), 4);
    assert_eq!(integer_sqrt(u64::MAX as u128), 4_294_967_295);
}

#[test]
fn polyline_lengths() {
    assert_eq!(polyline_len(&vec![]), Some(0));
    assert_eq!(polyline_len(&vec![pt(1, 1)]), Some(0));
    assert_eq!(polyline_len(&vec![pt(0, 0), pt(6, 8), pt(6, 0)]), Some(18));
}

#[test]
fn unknown_endpoint_is_rejected() {
    let mut net = square();
    net.roads.push(raw_road(9, 300, 999, vec![pt(10, 10), pt(20, 20)]));
    assert_eq!(
        RouteSnapperMap::new(&net).err(),
        Some(ValidationError::UnknownIntersection { road: 9, intersection: 999 })
    );
    let mut net = square();
    net.roads.insert(1, raw_road(8, 777, 100, vec![pt(10, 10), pt(0, 0)]));
    assert_eq!(
        RouteSnapperMap::new(&net).err(),
        Some(ValidationError::UnknownIntersection { road: 8, intersection: 777 })
    );
}

#[test]
fn short_polyline_is_rejected() {
    let mut net = square();
    net.roads.push(raw_road(9, 300, 500, vec![pt(10, 10)]));
    assert_eq!(RouteSnapperMap::new(&net).err(), Some(ValidationError::TooFewPoints { road: 9 }));
}

#[test]
fn duplicate_intersection_is_rejected() {
    let mut net = square();
    net.intersections.push(raw_int(300, 1, 1));
    assert_eq!(
        RouteSnapperMap::new(&net).err(),
        Some(ValidationError::DuplicateIntersection { intersection: 300 })
    );
}

#[test]
fn first_fault_is_reported() {
    let mut net = square();
    net.roads.insert(0, raw_road(20, 100, 200, vec![]));
    net.roads.push(raw_road(21, 1, 2, vec![pt(0, 0), pt(1, 1)]));
    assert_eq!(RouteSnapperMap::new(&net).err(), Some(ValidationError::TooFewPoints { road: 20 }));
}

#[test]
fn empty_network_builds_empty_map() {
    let net = StreetNetwork { gps_bounds: bounds(), intersections: vec![], roads: vec![] };
    let map = RouteSnapperMap::new(&net).unwrap();
    assert_eq!(map.num_intersections(), 0);
    assert_eq!(map.num_roads(), 0);
}

#[test]
fn self_loop_is_never_on_a_shortest_path() {
    let net = StreetNetwork {
        gps_bounds: bounds(),
        intersections: vec![raw_int(1, 0, 0), raw_int(2, 5, 0)],
        roads: vec![
            raw_road(1, 1, 1, vec![pt(0, 0), pt(0, 3), pt(0, 0)]),
            raw_road(2, 1, 2, vec![pt(0, 0), pt(5, 0)]),
        ],
    };
    let map = RouteSnapperMap::new(&net).unwrap();
    assert_eq!(map.road(RoadID(0)).length, 6);
    assert_eq!(
        map.pathfind(IntersectionID(0), IntersectionID(1)),
        Some((vec![RoadID(1)], vec![IntersectionID(0), IntersectionID(1)]))
    );
}

fn same_map(a: &RouteSnapperMap, b: &RouteSnapperMap) {
    assert_eq!(a.gps_bounds(), b.gps_bounds());
    assert_eq!(a.num_intersections(), b.num_intersections());
    assert_eq!(a.num_roads(), b.num_roads());
    for i in 0..a.num_intersections() {
        assert_eq!(a.intersection(IntersectionID(i)), b.intersection(IntersectionID(i)));
        assert_eq!(a.neighbours(IntersectionID(i)), b.neighbours(IntersectionID(i)));
    }
    for r in 0..a.num_roads() {
        let (x, y) = (a.road(RoadID(r)), b.road(RoadID(r)));
        assert_eq!((x.i1, x.i2, &x.pts, x.length), (y.i1, y.i2, &y.pts, y.length));
    }
}

#[test]
fn bytes_round_trip() {
    let map = RouteSnapperMap::new(&square()).unwrap();
    let bytes = map.to_bytes();
    // Header, five positions, road count, four roads of two points each.
    assert_eq!(bytes.len(), 40 + 5 * 8 + 8 + 4 * (32 + 2 * 8));
    let back = RouteSnapperMap::from_bytes(&bytes).unwrap();
    same_map(&map, &back);
    assert_eq!(back.to_bytes(), bytes);
    assert_eq!(back.pathfind(A, C), map.pathfind(A, C));
}

#[test]
fn bytes_are_little_endian() {
    let net = StreetNetwork {
        gps_bounds: GpsBounds { min_lon: -1, min_lat: 2, max_lon: 3, max_lat: 258 },
        intersections: vec![raw_int(1, -2, 513), raw_int(2, 1, 513)],
        roads: vec![raw_road(5, 1, 2, vec![pt(-2, 513), pt(1, 513)])],
    };
    let bytes = RouteSnapperMap::new(&net).unwrap().to_bytes();
    assert_eq!(&bytes[0..8], &[0xff; 8]);
    assert_eq!(&bytes[8..16], &[2, 0, 0, 0, 0, 0, 0, 0]);
    assert_eq!(&bytes[24..32], &[2, 1, 0, 0, 0, 0, 0, 0]);
    assert_eq!(&bytes[32..40], &[2, 0, 0, 0, 0, 0, 0, 0]);
    assert_eq!(&bytes[40..48], &[0xfe, 0xff, 0xff, 0xff, 1, 2, 0, 0]);
    assert_eq!(&bytes[56..64], &[1, 0, 0, 0, 0, 0, 0, 0]);
    // Road: endpoints 0 and 1, length 3, two points.
    assert_eq!(&bytes[64..72], &[0; 8]);
    assert_eq!(&bytes[72..80], &[1, 0, 0, 0, 0, 0, 0, 0]);
    assert_eq!(&bytes[80..88], &[3, 0, 0, 0, 0, 0, 0, 0]);
    assert_eq!(&bytes[88..96], &[2, 0, 0, 0, 0, 0, 0, 0]);
    assert_eq!(bytes.len(), 112);
    let back = RouteSnapperMap::from_bytes(&bytes).unwrap();
    assert_eq!(back.gps_bounds().min_lon, -1);
    assert_eq!(back.intersection(IntersectionID(0)), pt(-2, 513));
}

#[test]
fn empty_map_round_trips() {
    let net = StreetNetwork { gps_bounds: bounds(), intersections: vec![], roads: vec![] };
    let map = RouteSnapperMap::new(&net).unwrap();
    let bytes = map.to_bytes();
    assert_eq!(bytes.len(), 48);
    same_map(&map, &RouteSnapperMap::from_bytes(&bytes).unwrap());
}

#[test]
fn truncated_or_padded_bytes_are_malformed() {
    let bytes = RouteSnapperMap::new(&square()).unwrap().to_bytes();
    assert_eq!(RouteSnapperMap::from_bytes(&[]).err(), Some(DecodeError::Malformed));
    assert_eq!(RouteSnapperMap::from_bytes(&bytes[..39]).err(), Some(DecodeError::Malformed));
    assert_eq!(
        RouteSnapperMap::from_bytes(&bytes[..bytes.len() - 1]).err(),
        Some(DecodeError::Malformed)
    );
    let mut longer = bytes.clone();
    longer.push(0);
    assert_eq!(RouteSnapperMap::from_bytes(&longer).err(), Some(DecodeError::Malformed));
    // An intersection count far beyond the bytes.
    let mut huge = bytes.clone();
    huge[39] = 0x7f;
    assert_eq!(RouteSnapperMap::from_bytes(&huge).err(), Some(DecodeError::Malformed));
}

#[test]
fn invalid_roads_are_reported() {
    let bytes = RouteSnapperMap::new(&square()).unwrap().to_bytes();
    let first_road = 40 + 5 * 8 + 8;
    let road_size = 32 + 2 * 8;
    // Second road's first endpoint set to 9: there are only five intersections.
    let mut bad = bytes.clone();
    bad[first_road + road_size] = 9;
    assert_eq!(
        RouteSnapperMap::from_bytes(&bad).err(),
        Some(DecodeError::InvalidRoad { road: 1 })
    );
    // Third road's length changed from 10 to 11.
    let mut bad = bytes.clone();
    bad[first_road + 2 * road_size + 16] = 11;
    assert_eq!(
        RouteSnapperMap::from_bytes(&bad).err(),
        Some(DecodeError::InvalidRoad { road: 2 })
    );
}
