//! Flat storage for the voxel grid and for the two silhouette planes, each
//! with its own index formula.

use vstd::prelude::*;
use vstd::slice::slice_subrange;
use crate::point::Point;

verus! {

/// Index of the voxel `p` in a grid of edge `d`: `(x·d + y)·d + z`.
pub open spec fn cell_index(d: u8, p: Point) -> int {
    (p.0 * d + p.1) * d + p.2
}

/// Index `a·d + b` in a plane of edge `d`. The front plane is indexed by
/// `(x, z)`, the right plane by `(z, y)`.
pub open spec fn plane_index(d: u8, a: u8, b: u8) -> int {
    a * d + b
}

/// In a flat layout with rows of length `d`, a position is found again from
/// its index: `a·d + b` determines `a` and `b < d`.
pub proof fn lemma_flat_index(d: int, a: int, b: int, a2: int, b2: int)
    requires
        0 <= a,
        0 <= a2,
        0 <= b < d,
        0 <= b2 < d,
    ensures
        a * d + b == a2 * d + b2 ==> a == a2 && b == b2,
        a < a2 ==> a * d + b < a2 * d + b2,
        0 <= a * d + b,
{
    assert(a * d + b == a2 * d + b2 ==> a == a2) by (nonlinear_arith)
        requires
            0 <= a,
            0 <= a2,
            0 <= b < d,
            0 <= b2 < d,
    ;
    assert(a < a2 ==> a * d + b < a2 * d + b2) by (nonlinear_arith)
        requires
            0 <= a,
            0 <= a2,
            0 <= b < d,
            0 <= b2 < d,
    ;
    assert(0 <= a * d) by (nonlinear_arith)
        requires
            0 <= a,
            0 <= d,
    ;
}

/// The last position of a `rows × d` layout lies before `rows · d`.
pub proof fn lemma_flat_bound(d: int, rows: int, a: int, b: int)
    requires
        0 <= a < rows,
        0 <= b < d,
    ensures
        0 <= a * d + b < rows * d,
{
    assert(a * d + b < rows * d) by (nonlinear_arith)
        requires
            0 <= a < rows,
            0 <= b < d,
    ;
    assert(0 <= a * d) by (nonlinear_arith)
        requires
            0 <= a,
            0 <= d,
    ;
}

/// A plane index lies inside the plane.
pub proof fn lemma_plane_index_bound(d: u8, a: u8, b: u8)
    requires
        a < d,
        b < d,
    ensures
        0 <= plane_index(d, a, b) < d * d,
{
    assert(a * d + b < d * d) by (nonlinear_arith)
        requires
            0 <= a < d,
            0 <= b < d,
    ;
    assert(0 <= a * d) by (nonlinear_arith)
        requires
            0 <= a,
            0 <= d,
    ;
}

/// Distinct cells of a plane have distinct indices.
pub proof fn lemma_plane_index_injective(d: u8, a: u8, b: u8, a2: u8, b2: u8)
    requires
        a < d,
        b < d,
        a2 < d,
        b2 < d,
        plane_index(d, a, b) == plane_index(d, a2, b2),
    ensures
        a == a2,
        b == b2,
{
    assert(a == a2) by (nonlinear_arith)
        requires
            0 <= b < d,
            0 <= b2 < d,
            0 <= a,
            0 <= a2,
            a * d + b == a2 * d + b2,
    ;
}

/// A cell index lies inside the grid.
pub proof fn lemma_cell_index_bound(d: u8, p: Point)
    requires
        p.in_box(d),
    ensures
        0 <= cell_index(d, p) < d * d * d,
        0 <= p.0 * d + p.1 < d * d,
{
    lemma_plane_index_bound(d, p.0, p.1);
    let q = p.0 * d + p.1;
    assert(q * d + p.2 < d * d * d) by (nonlinear_arith)
        requires
            0 <= q < d * d,
            0 <= p.2 < d,
    ;
    assert(0 <= q * d) by (nonlinear_arith)
        requires
            0 <= q,
            0 <= d,
    ;
}

/// Distinct voxels have distinct cell indices.
pub proof fn lemma_cell_index_injective(d: u8, p: Point, q: Point)
    requires
        p.in_box(d),
        q.in_box(d),
        cell_index(d, p) == cell_index(d, q),
    ensures
        p == q,
{
    let a = p.0 * d + p.1;
    let b = q.0 * d + q.1;
    lemma_cell_index_bound(d, p);
    lemma_cell_index_bound(d, q);
    assert(a == b) by (nonlinear_arith)
        requires
            0 <= p.2 < d,
            0 <= q.2 < d,
            0 <= a,
            0 <= b,
            a * d + p.2 == b * d + q.2,
    ;
    lemma_plane_index_injective(d, p.0, p.1, q.0, q.1);
}

/// The cube of an edge length fits every `usize`.
pub proof fn lemma_cube_fits(d: u8)
    ensures
        0 <= d * d <= 65025,
        0 <= d * d * d <= 16581375,
{
    assert(0 <= d * d <= 65025 && 0 <= d * d * d <= 16581375) by (nonlinear_arith)
        requires
            0 <= d <= 255,
    ;
}

/// A `d × d × d` grid of values, stored flat.
#[derive(Debug, Clone, Eq, PartialEq)]
pub struct Grid3<T> {
    pub d: u8,
    pub data: Vec<T>,
}

/// A `d × d` plane indexed by `(x, z)`, stored flat.
#[derive(Debug, Clone, Eq, PartialEq)]
pub struct GridFront<T> {
    pub d: u8,
    pub data: Vec<T>,
}

/// A `d × d` plane indexed by `(y, z)` and stored row by row in `z`.
#[derive(Debug, Clone, Eq, PartialEq)]
pub struct GridRight<T> {
    pub d: u8,
    pub data: Vec<T>,
}

impl<T: Copy> Grid3<T> {
    /// The grid holds one value for each voxel.
    pub open spec fn wf(&self) -> bool {
        self.data@.len() == self.d * self.d * self.d
    }

    /// The value at voxel `p`.
    pub open spec fn spec_get(&self, p: Point) -> T {
        self.data@[cell_index(self.d, p)]
    }

    /// A grid of edge `d` with `init` in every voxel.
    pub fn new(d: u8, init: T) -> (g: Grid3<T>)
        ensures
            g.wf(),
            g.d == d,
            forall|i: int| 0 <= i < g.data@.len() ==> g.data@[i] == init,
    {
        proof {
            lemma_cube_fits(d);
        }
        let size: usize = d as usize;
        let total: usize = size * size * size;
        let mut data: Vec<T> = Vec::new();
        let mut i: usize = 0;
        while i < total
            invariant
                i <= total,
                data@.len() == i,
                forall|k: int| 0 <= k < i ==> data@[k] == init,
            decreases total - i,
        {
            data.push(init);
            i += 1;
        }
        Grid3 { d, data }
    }

    /// The flat index of voxel `p`.
    #[inline(always)]
    pub fn at(&self, p: Point) -> (i: usize)
        requires
            p.in_box(self.d),
        ensures
            i == cell_index(self.d, p),
            i < self.d * self.d * self.d,
    {
        proof {
            lemma_cube_fits(self.d);
            lemma_cell_index_bound(self.d, p);
        }
        let d: usize = self.d as usize;
        let x: usize = p.0 as usize;
        let y: usize = p.1 as usize;
        let z: usize = p.2 as usize;
        (x * d + y) * d + z
    }

    /// Reads the value at voxel `p`.
    pub fn get(&self, p: Point) -> (v: T)
        requires
            self.wf(),
            p.in_box(self.d),
        ensures
            v == self.spec_get(p),
    {
        let i: usize = self.at(p);
        self.data[i]
    }

    /// Writes `v` at voxel `p`.
    pub fn set(&mut self, p: Point, v: T)
        requires
            old(self).wf(),
            p.in_box(old(self).d),
        ensures
            final(self).wf(),
            final(self).d == old(self).d,
            final(self).data@ == old(self).data@.update(cell_index(old(self).d, p), v),
    {
        let i: usize = self.at(p);
        self.data.set(i, v);
    }
}

impl<T: Copy> GridFront<T> {
    /// The plane holds one value for each `(x, z)`.
    pub open spec fn wf(&self) -> bool {
        self.data@.len() == self.d * self.d
    }

    /// The value at `(x, z)`.
    pub open spec fn spec_get(&self, x: u8, z: u8) -> T {
        self.data@[plane_index(self.d, x, z)]
    }

    /// Wraps a flat vector as a front plane of edge `d`.
    pub fn from_vec(d: u8, data: Vec<T>) -> (g: GridFront<T>)
        ensures
            g.d == d,
            g.data == data,
    {
        GridFront { d, data }
    }

    /// The flat index of the column that voxel `p` projects to: `x·d + z`.
    #[inline(always)]
    pub fn at(&self, p: Point) -> (i: usize)
        requires
            p.in_box(self.d),
        ensures
            i == plane_index(self.d, p.0, p.2),
            i < self.d * self.d,
    {
        proof {
            lemma_cube_fits(self.d);
            lemma_plane_index_bound(self.d, p.0, p.2);
        }
        (p.0 as usize) * (self.d as usize) + (p.2 as usize)
    }

    /// Reads the value at `(x, z)`.
    pub fn get(&self, x: u8, z: u8) -> (v: T)
        requires
            self.wf(),
            x < self.d,
            z < self.d,
        ensures
            v == self.spec_get(x, z),
    {
        let i: usize = self.at(Point(x, 0, z));
        self.data[i]
    }

    /// Writes `v` at `(x, z)`.
    pub fn set(&mut self, x: u8, z: u8, v: T)
        requires
            old(self).wf(),
            x < old(self).d,
            z < old(self).d,
        ensures
            final(self).wf(),
            final(self).d == old(self).d,
            final(self).data@ == old(self).data@.update(plane_index(old(self).d, x, z), v),
    {
        let i: usize = self.at(Point(x, 0, z));
        self.data.set(i, v);
    }
}

impl<T: Copy> GridRight<T> {
    /// The plane holds one value for each `(y, z)`.
    pub open spec fn wf(&self) -> bool {
        self.data@.len() == self.d * self.d
    }

    /// The value at `(y, z)`.
    pub open spec fn spec_get(&self, y: u8, z: u8) -> T {
        self.data@[plane_index(self.d, z, y)]
    }

    /// Wraps a flat vector as a right plane of edge `d`.
    pub fn from_vec(d: u8, data: Vec<T>) -> (g: GridRight<T>)
        ensures
            g.d == d,
            g.data == data,
    {
        GridRight { d, data }
    }

    /// The flat index of the column that voxel `p` projects to: `z·d + y`.
    #[inline(always)]
    pub fn at(&self, p: Point) -> (i: usize)
        requires
            p.in_box(self.d),
        ensures
            i == plane_index(self.d, p.2, p.1),
            i < self.d * self.d,
    {
        proof {
            lemma_cube_fits(self.d);
            lemma_plane_index_bound(self.d, p.2, p.1);
        }
        (p.2 as usize) * (self.d as usize) + (p.1 as usize)
    }

    /// Reads the value at `(y, z)`.
    pub fn get(&self, y: u8, z: u8) -> (v: T)
        requires
            self.wf(),
            y < self.d,
            z < self.d,
        ensures
            v == self.spec_get(y, z),
    {
        let i: usize = self.at(Point(0, y, z));
        self.data[i]
    }

    /// Writes `v` at `(y, z)`.
    pub fn set(&mut self, y: u8, z: u8, v: T)
        requires
            old(self).wf(),
            y < old(self).d,
            z < old(self).d,
        ensures
            final(self).wf(),
            final(self).d == old(self).d,
            final(self).data@ == old(self).data@.update(plane_index(old(self).d, z, y), v),
    {
        let i: usize = self.at(Point(0, y, z));
        self.data.set(i, v);
    }

    /// The values of row `z`, for `y = 0, 1, …, d − 1`.
    pub fn row(&self, z: usize) -> (r: &[T])
        requires
            self.wf(),
            z < self.d,
        ensures
            r@ == self.data@.subrange(z * self.d, (z + 1) * self.d),
            r@.len() == self.d,
    {
        proof {
            lemma_cube_fits(self.d);
            assert((z + 1) * self.d <= self.d * self.d) by (nonlinear_arith)
                requires
                    0 <= z < self.d,
            ;
            assert((z + 1) * self.d == z * self.d + self.d) by (nonlinear_arith);
            assert(0 <= z * self.d) by (nonlinear_arith)
                requires
                    0 <= z,
                    0 <= self.d,
            ;
        }
        let d: usize = self.d as usize;
        slice_subrange(self.data.as_slice(), z * d, (z + 1) * d)
    }
}

} // verus!
