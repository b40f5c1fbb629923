//! A sparse voxel octree over an exact integer grid.
//!
//! The root cube spans one world unit on each axis and is centred on the
//! origin. Every length and coordinate is a whole number of grid units, with
//! [`grid::UNIT`] grid units to the world unit, so that the centre and the
//! edge of every octant down to [`grid::MAX_DEPTH`] are represented exactly.
//!
//! - [`grid`]: points, cubes and the size of an octant at each depth.
//! - [`color`]: the colour that an octant carries.
//! - [`octant`]: the node of the tree, and how it is subdivided.
//! - [`descent`]: from a point down to the leaf that holds it.
//! - [`ray`]: rays, and the distance from a point to the root cube.
//! - [`march`]: a ray's way through the leaves of the tree.
//! - [`octree`]: the tree, and what a ray meets in it.
//! - [`walk`]: all the octants of a tree, breadth first.
//! - [`numeric`]: the integer square root, and bounds on products.
pub mod color;
pub mod descent;
pub mod error;
pub mod grid;
pub mod march;
pub mod numeric;
pub mod octant;
pub mod octree;
pub mod ray;
pub mod walk;

pub use crate::color::Color;
pub use crate::error::OctreeError;
pub use crate::grid::Point3;
pub use crate::octant::Octant;
pub use crate::octree::{Octree, RaycastHit};
pub use crate::ray::Ray;
