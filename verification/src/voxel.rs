//! Dense three-dimensional grids of voxels.
use vstd::prelude::*;
use crate::math::Vec3i;

verus! {

/// A grid of `size.x * size.y * size.z` cells stored in one vector.
pub struct Matrix<T> {
    pub size: Vec3i,
    pub data: Vec<T>,
}

/// Number of cells of a grid of size `size`, which must fit in a `usize`.
pub fn volume(size: Vec3i) -> (n: usize)
    requires
        size.volume() <= usize::MAX,
    ensures
        n == size.volume(),
{
    if size.x == 0 || size.y == 0 || size.z == 0 {
        proof {
            assert(size.x * size.y * size.z == 0) by (nonlinear_arith)
                requires
                    size.x == 0 || size.y == 0 || size.z == 0,
            ;
        }
        0
    } else {
        proof {
            assert(size.x * size.y <= size.x * size.y * size.z) by (nonlinear_arith)
                requires
                    size.z >= 1,
                    size.x >= 1,
                    size.y >= 1,
            ;
        }
        size.x * size.y * size.z
    }
}

impl<T: Copy> Matrix<T> {
    /// The vector holds one value per cell.
    pub open spec fn wf(&self) -> bool {
        self.data@.len() == self.size.volume()
    }

    /// A grid of size `size` whose cells all hold `value`.
    pub fn new(size: Vec3i, value: T) -> (m: Self)
        requires
            size.volume() <= usize::MAX,
        ensures
            m.wf(),
            m.size == size,
            m.data@ == Seq::new(size.volume(), |_k: int| value),
    {
        let n = volume(size);
        let mut data: Vec<T> = Vec::new();
        let mut k: usize = 0;
        while k < n
            invariant
                k <= n,
                data@ == Seq::new(k as nat, |_q: int| value),
            decreases n - k,
        {
            data.push(value);
            k = k + 1;
        }
        Matrix { size, data }
    }
}

} // verus!
