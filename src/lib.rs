//! Intersection of polygons with holes on integer coordinates, by tracing the
//! boundaries of both polygons through their crossings.
//!
//! `geometry` holds points, segments and the segment-crossing test; `polygon` the
//! even-odd membership test, the tagging of each ring against the other polygon and
//! `Polygon::clip`; `tracer` the walk that joins both tagged lists into output rings.

pub mod geometry;
pub mod polygon;
pub mod tracer;

pub use geometry::{Line, Point};
pub use polygon::{ClipRes, Polygon};
pub use tracer::{ClipError, Vertex};
