//! A static, array-backed spatial index for the line segments of planar
//! polylines and rings, together with the exact geometric algorithms it
//! accelerates: segment-set self- and cross-intersection, point-in-ring
//! containment by winding numbers, and rectangular clipping support.
//!
//! Everything here works on exact integer coordinates, so every contract
//! is provable; quantization from other coordinate domains is the
//! caller's concern.

pub mod clip;
pub mod clip_seg;
pub mod coordinate;
pub mod flatbush;
pub mod graph;
pub mod hilbert;
pub mod layout;
pub mod min_heap;
pub mod path;
pub mod polygon;
pub mod rectangle;
pub mod rtree;
pub mod seg_isect;
pub mod segment_union;
pub mod validate;
pub mod winding;

pub use coordinate::Coordinate;
pub use flatbush::Flatbush;
pub use min_heap::MinHeap;
pub use path::{ContainRelation, SegmentPath};
pub use polygon::Polygon;
pub use rectangle::Rectangle;
pub use rtree::SegRTree;
pub use segment_union::SegmentUnion;
pub use validate::ValidationError;
