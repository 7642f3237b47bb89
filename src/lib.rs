//! Axis-aligned bounding boxes in any fixed number of dimensions, with integer
//! coordinates, as the envelope type of an R-tree.

pub mod aabb;
pub mod extent;
pub mod laws;
mod scalar;

pub use aabb::AABB;
pub use extent::Extent;
