//! A k-d tree: a binary space-partitioning index over fixed-dimension integer
//! points, supporting batch construction by repeated median selection,
//! incremental insertion, and exact k-nearest-neighbor search by
//! branch-and-bound traversal.

pub mod kdtree;
pub mod knn;
pub mod utils;

pub use crate::kdtree::Error;
pub use crate::kdtree::KDTree;
