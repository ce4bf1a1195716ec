//! Local-search heuristics for small travelling-salesman instances.
//!
//! Coordinates are integers in a caller-chosen unit, and the distance between
//! two points is the Euclidean distance rounded down to that unit, so that tour
//! lengths are exact integers and every comparison the searches make is exact.
pub mod point;
pub mod metric;
pub mod tour;
pub mod two_opt;
pub mod random;
pub mod nearest_neighbor;
pub mod hillclimb;
