//! What the octree refuses.
use vstd::prelude::*;

verus! {

/// Why the octree refused an operation.
#[derive(Clone, Copy, Debug, PartialEq, Eq, Structural)]
pub enum OctreeError {
    /// The geometry handed in cannot be represented: an octant deeper than
    /// the grid resolves, a point outside the world, or a ray direction that
    /// is not of unit length.
    InvalidGeometry,
}

} // verus!
