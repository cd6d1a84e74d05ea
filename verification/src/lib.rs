//! A plane path kernel: continuous chains of curve pieces with arc-length
//! queries, welding, subsections, offsetting, intersection and containment.
//!
//! Everything is stated over fixed-point integers. [`geometry`] holds the
//! scalars, the points and the tolerance comparisons. [`segment`] says what
//! a path asks of its pieces, and [`line`] is the straight piece on the
//! integer grid. [`path`] holds the paths and their algorithms, whose
//! contracts speak of the model in [`chain`]. [`laws`] and [`line_laws`]
//! state what holds of every path and of paths of straight pieces.
pub mod chain;
pub mod geometry;
pub mod laws;
pub mod line;
pub mod line_laws;
pub mod numeric;
pub mod path;
pub mod segment;

pub use crate::geometry::{N, P2, V2, MIN_START_TO_END, THICKNESS};
pub use crate::line::LineSegment;
pub use crate::path::{convex_hull, Path, PathError, StartOffsetState, VecPath};
pub use crate::segment::{Intersection, Segment};
