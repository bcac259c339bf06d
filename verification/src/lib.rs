//! A two-dimensional spatial index over an integer grid.
//!
//! Values are stored under axis-aligned bounding boxes in a tree whose nodes
//! live in one append-only arena and refer to each other by slot index.

pub mod text;
pub mod point;
pub mod bounding_box;
pub mod r_tree;
pub mod hull;

pub use crate::bounding_box::BoundingBox;
pub use crate::hull::{ConvexHull, ConvexHulls};
pub use crate::point::Point;
pub use crate::r_tree::query::Finder;
pub use crate::r_tree::walk::WalkCallbackPayload;
pub use crate::r_tree::{RTree, RTreeEntry, RTreeNode};
