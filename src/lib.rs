//! A compact street graph for snapping routes to roads: intersections and roads with dense
//! identifiers, an adjacency index built once, and a verified shortest-path search.
pub mod codec;
pub mod geometry;
pub mod map;
pub mod pathfind;
mod queue;

pub use codec::DecodeError;
pub use geometry::{distance, integer_sqrt, polyline_len, Point};
pub use map::{
    GpsBounds, IntersectionID, RawIntersection, RawRoad, Road, RoadID, RouteSnapperMap,
    StreetNetwork, ValidationError,
};
