//! A static spatial index over fixed-dimension integer-coordinate points.
//!
//! Two index variants share the same implicit balanced-tree layout and the
//! same pruned recursive search algorithms:
//!
//! - [`KdTree`] owns its points and reorders them in place during
//!   construction.
//! - [`KdIndexTree`] borrows a caller-owned point slice and owns only a
//!   reordered permutation of positions into it.
//!
//! Coordinates are `i64` values bounded by [`COORD_LIMIT`], so every squared
//! Euclidean distance is computed exactly in `u128` and every query result is
//! characterised exactly by the contracts.  Radius queries take an `i64`
//! radius `epsilon` and match points whose squared distance is at most
//! `epsilon * epsilon` (a negative radius matches nothing); nearest-neighbour
//! queries report squared distances.

use vstd::prelude::*;

pub mod geom;
pub mod kd_index_tree;
pub mod kd_tree;
pub mod knn_list;
pub mod laws;
pub mod model;
pub mod select;
pub mod unified;

pub use kd_index_tree::KdIndexTree;
pub use kd_tree::KdTree;
pub use unified::UnifiedKdTreeTestApi;

verus! {

/// Largest coordinate magnitude the indices accept.
///
/// Keeping every coordinate in `[-COORD_LIMIT, COORD_LIMIT]` bounds each
/// per-axis squared difference by `2^62`, so sums of squares over any
/// dimension fit comfortably in `u128`.
pub const COORD_LIMIT: i64 = 1073741824;

} // verus!
