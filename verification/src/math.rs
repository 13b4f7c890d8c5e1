use vstd::prelude::*;

verus! {

/// A position or a size in a voxel grid.
#[derive(Clone, Copy, Debug, PartialEq, Eq, Structural)]
pub struct Vec3i {
    pub x: usize,
    pub y: usize,
    pub z: usize,
}

impl Vec3i {
    pub fn new(x: usize, y: usize, z: usize) -> (v: Self)
        ensures
            v.x == x,
            v.y == y,
            v.z == z,
    {
        Vec3i { x, y, z }
    }

    /// Number of cells in a grid of this size.
    pub open spec fn volume(self) -> nat {
        (self.x * self.y * self.z) as nat
    }
}

} // verus!
