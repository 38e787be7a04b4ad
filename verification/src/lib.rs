//! A geometry session toolkit: a linear-BVH spatial index over axis-aligned
//! bounding boxes, together with the small scene bookkeeping types around it
//! (colors, graph, object tree).
//!
//! Coordinates are plain signed integers: the caller picks a fixed-point
//! scale, and every box, ray and world extent is expressed in those units.

use vstd::prelude::*;

mod guid;
mod text;
pub mod aabb;
pub mod bvh;
pub mod color;
pub mod edge;
pub mod graph;
pub mod morton;
pub mod sort;
pub mod tree;
pub mod treenode;
pub mod vertex;

pub use aabb::Aabb;
pub use bvh::BVH;
pub use color::Color;
pub use edge::Edge;
pub use graph::Graph;
pub use guid::new_guid;
pub use morton::{calculate_morton_code, expand_bits};
pub use tree::Tree;
pub use treenode::TreeNode;
pub use vertex::Vertex;

verus! {

/// A coordinate magnitude that every box corner, ray origin and world extent
/// must stay within, so that all index arithmetic fits in `i64`.
pub const COORD_LIMIT: i64 = 0x100_0000_0000;

/// The largest world extent the Morton generator accepts; large enough for
/// any extent the estimator derives from valid boxes.
pub const WORLD_LIMIT: i64 = 0x800_0000_0000;

} // verus!
