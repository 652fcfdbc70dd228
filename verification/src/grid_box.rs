//! One object's state: the label of every voxel and, for each cell of the two
//! silhouettes, how many placed voxels project onto it.

use vstd::prelude::*;
use crate::box_view::{
    lemma_blank, lemma_blank_of_unused, lemma_block_is_counted, lemma_cells_apart,
    lemma_cover_zero, lemma_put, lemma_remove, is_block, zeros16, zeros8, BoxView, FORBIDDEN, OFF,
};
use crate::face::{face_index, make_face, shadow_on};
use crate::grids::{
    cell_index, lemma_cell_index_bound, lemma_cube_fits, lemma_flat_bound,
    lemma_plane_index_bound, Grid3, GridFront, GridRight,
};
use crate::hole::{
    clear_positions16, clear_positions8, on_ys, xz_entries, xzy_entries, xzy_view,
    zero_positions16, zero_positions8, Hole, HoleXZYY,
};
use crate::point::{Point, MAX_D};

verus! {

/// One object: the label grid and the two planes of silhouette counters.
#[derive(Debug, Clone, Eq, PartialEq)]
pub struct GridBox {
    pub d: u8,
    pub grid: Grid3<u16>,
    pub front: GridFront<u8>,
    pub right: GridRight<u8>,
}

impl View for GridBox {
    type V = BoxView;

    open spec fn view(&self) -> BoxView {
        BoxView { d: self.d, grid: self.grid.data@, front: self.front.data@, right: self.right.data@ }
    }
}

impl GridBox {
    /// The three parts agree on the edge length and the content is well formed.
    pub open spec fn wf(&self) -> bool {
        &&& self.grid.d == self.d
        &&& self.front.d == self.d
        &&& self.right.d == self.d
        &&& self@.wf()
    }

    /// The empty object for a front and a right silhouette, each given as
    /// `d` rows (one for each `z`) of `d` bytes `'0'` or `'1'`. Voxel
    /// `(x, y, z)` may be used if the front image is on at row `z`, column `x`
    /// and the right image is on at row `z`, column `y`.
    pub fn new(d: u8, front: &[Vec<u8>], right: &[Vec<u8>]) -> (b: GridBox)
        requires
            d <= MAX_D,
            front@.len() == d,
            right@.len() == d,
            forall|i: int| 0 <= i < d ==> (#[trigger] front@[i])@.len() <= d,
            forall|i: int| 0 <= i < d ==> (#[trigger] right@[i])@.len() <= d,
        ensures
            b.wf(),
            b.d == d,
            b@.is_blank(),
            forall|x: u8, z: u8|
                x < d && z < d ==> #[trigger] b@.front_at(x, z) == (if shadow_on(
                    front@,
                    z as int,
                    x as int,
                ) {
                    0u8
                } else {
                    OFF
                }),
            forall|y: u8, z: u8|
                y < d && z < d ==> #[trigger] b@.right_at(y, z) == (if shadow_on(
                    right@,
                    z as int,
                    y as int,
                ) {
                    0u8
                } else {
                    OFF
                }),
    {
        let mut grid: Grid3<u16> = Grid3::new(d, 0);
        let fplane: GridFront<u8> = GridFront::from_vec(d, make_face(front, false));
        let rplane: GridRight<u8> = GridRight::from_vec(d, make_face(right, true));
        proof {
            assert forall|x: u8, z: u8| x < d && z < d implies #[trigger] fplane.spec_get(x, z)
                == fplane.data@[face_index(d as int, z as int, x as int, false)] by {}
            assert forall|y: u8, z: u8| y < d && z < d implies #[trigger] rplane.spec_get(y, z)
                == rplane.data@[face_index(d as int, z as int, y as int, true)] by {}
        }
        proof {
            assert forall|q: Point| q.in_box(d) implies #[trigger] grid.spec_get(q) == 0 by {
                lemma_cell_index_bound(d, q);
            }
        }
        let mut x: u8 = 0;
        while x < d
            invariant
                x <= d,
                d <= MAX_D,
                grid.wf(),
                grid.d == d,
                fplane.wf(),
                fplane.d == d,
                rplane.wf(),
                rplane.d == d,
                forall|i: int| 0 <= i < grid.data@.len() ==> grid.data@[i] == 0 || grid.data@[i]
                    == FORBIDDEN,
                forall|q: Point|
                    q.in_box(d) ==> #[trigger] grid.spec_get(q) == (if q.0 < x && (fplane.spec_get(
                        q.0,
                        q.2,
                    ) == OFF || rplane.spec_get(q.1, q.2) == OFF) {
                        FORBIDDEN
                    } else {
                        0u16
                    }),
            decreases d - x,
        {
            let mut y: u8 = 0;
            while y < d
                invariant
                    x < d,
                    y <= d,
                    d <= MAX_D,
                    grid.wf(),
                    grid.d == d,
                    fplane.wf(),
                    fplane.d == d,
                    rplane.wf(),
                    rplane.d == d,
                    forall|i: int| 0 <= i < grid.data@.len() ==> grid.data@[i] == 0 || grid.data@[i]
                        == FORBIDDEN,
                    forall|q: Point|
                        q.in_box(d) ==> #[trigger] grid.spec_get(q) == (if (q.0 < x || (q.0 == x
                            && q.1 < y)) && (fplane.spec_get(q.0, q.2) == OFF || rplane.spec_get(
                            q.1,
                            q.2,
                        ) == OFF) {
                            FORBIDDEN
                        } else {
                            0u16
                        }),
                decreases d - y,
            {
                let mut z: u8 = 0;
                while z < d
                    invariant
                        x < d,
                        y < d,
                        z <= d,
                        d <= MAX_D,
                        grid.wf(),
                        grid.d == d,
                        fplane.wf(),
                        fplane.d == d,
                        rplane.wf(),
                        rplane.d == d,
                        forall|i: int|
                            0 <= i < grid.data@.len() ==> grid.data@[i] == 0 || grid.data@[i]
                                == FORBIDDEN,
                        forall|q: Point|
                            q.in_box(d) ==> #[trigger] grid.spec_get(q) == (if (q.0 < x || (q.0 == x
                                && (q.1 < y || (q.1 == y && q.2 < z)))) && (fplane.spec_get(
                                q.0,
                                q.2,
                            ) == OFF || rplane.spec_get(q.1, q.2) == OFF) {
                                FORBIDDEN
                            } else {
                                0u16
                            }),
                    decreases d - z,
                {
                    let p: Point = Point::new(x, y, z);
                    if fplane.get(x, z) == OFF || rplane.get(y, z) == OFF {
                        let ghost before = grid;
                        grid.set(p, FORBIDDEN);
                        proof {
                            lemma_cell_index_bound(d, p);
                            assert forall|i: int| 0 <= i < grid.data@.len() implies grid.data@[i]
                                == 0 || grid.data@[i] == FORBIDDEN by {
                                if i != cell_index(d, p) {
                                    assert(grid.data@[i] == before.data@[i]);
                                }
                            }
                            assert forall|q: Point| q.in_box(d) implies #[trigger] grid.spec_get(q)
                                == (if q == p {
                                FORBIDDEN
                            } else {
                                before.spec_get(q)
                            }) by {
                                lemma_cells_apart(d, p, q);
                                lemma_cells_apart(d, p, p);
                            }
                        }
                    }
                    z += 1;
                }
                y += 1;
            }
            x += 1;
        }
        let b = GridBox { d, grid, front: fplane, right: rplane };
        proof {
            let v = b@;
            assert forall|q: Point| q.in_box(d) implies !is_block(#[trigger] v.label(q)) by {
                assert(v.label(q) == grid.spec_get(q));
            }
            assert forall|q: Point| q.in_box(v.d) implies ((#[trigger] v.label(q) == FORBIDDEN)
                <==> (v.front_at(q.0, q.2) == OFF || v.right_at(q.1, q.2) == OFF)) by {
                assert(v.label(q) == grid.spec_get(q));
            }
            assert forall|a: u8, z: u8|
                a < v.d && z < v.d && #[trigger] v.front_at(a, z) != OFF implies v.front_at(a, z)
                == v.front_cover(a, z, v.d as nat) by {
                lemma_cover_zero(v, a, z, d as nat);
                lemma_plane_index_bound(d, a, z);
                assert(v.front_at(a, z) == fplane.data@[face_index(
                    d as int,
                    z as int,
                    a as int,
                    false,
                )]);
            }
            assert forall|a: u8, z: u8|
                a < v.d && z < v.d && #[trigger] v.right_at(a, z) != OFF implies v.right_at(a, z)
                == v.right_cover(a, z, v.d as nat) by {
                lemma_cover_zero(v, a, z, d as nat);
                lemma_plane_index_bound(d, z, a);
                assert(v.right_at(a, z) == rplane.data@[face_index(
                    d as int,
                    z as int,
                    a as int,
                    true,
                )]);
            }
            assert(v.wf());
            lemma_blank_of_unused(v);
            assert forall|a: u8, z: u8| a < d && z < d implies #[trigger] b@.front_at(a, z) == (
            if shadow_on(front@, z as int, a as int) {
                0u8
            } else {
                OFF
            }) by {
                assert(v.front_at(a, z) == b.front.data@[face_index(
                    d as int,
                    z as int,
                    a as int,
                    false,
                )]);
            }
            assert forall|a: u8, z: u8| a < d && z < d implies #[trigger] b@.right_at(a, z) == (
            if shadow_on(right@, z as int, a as int) {
                0u8
            } else {
                OFF
            }) by {
                assert(v.right_at(a, z) == b.right.data@[face_index(
                    d as int,
                    z as int,
                    a as int,
                    true,
                )]);
            }
        }
        b
    }

    /// The label of voxel `p`.
    pub fn label(&self, p: Point) -> (l: u16)
        requires
            self.wf(),
            p.in_box(self.d),
        ensures
            l == self@.label(p),
    {
        self.grid.get(p)
    }

    /// Gives the free voxel `p` to block `block_id` and counts it in both
    /// silhouette cells that it projects onto.
    pub fn put(&mut self, p: Point, block_id: u16)
        requires
            old(self).wf(),
            old(self)@.free(p),
            is_block(block_id),
        ensures
            final(self).wf(),
            final(self)@ == old(self)@.put(p, block_id),
            final(self)@.blank() == old(self)@.blank(),
            final(self)@.front_at(p.0, p.2) >= 1,
            final(self)@.right_at(p.1, p.2) >= 1,
            forall|q: Point|
                q.in_box(old(self).d) && #[trigger] final(self)@.label(q) == block_id ==> final(self)@.front_at(q.0, q.2) >= 1 && final(self)@.right_at(q.1, q.2) >= 1,
    {
        proof {
            lemma_put(self@, p, block_id);
            lemma_cell_index_bound(self.d, p);
            lemma_plane_index_bound(self.d, p.0, p.2);
            lemma_plane_index_bound(self.d, p.2, p.1);
        }
        self.grid.set(p, block_id);
        let f: u8 = self.front.get(p.0, p.2);
        self.front.set(p.0, p.2, f + 1);
        let r: u8 = self.right.get(p.1, p.2);
        self.right.set(p.1, p.2, r + 1);
        proof {
            assert forall|q: Point|
                q.in_box(self.d) && #[trigger] self@.label(q) == block_id implies self@.front_at(
                q.0,
                q.2,
            ) >= 1 && self@.right_at(q.1, q.2) >= 1 by {
                lemma_block_is_counted(self@, q);
            }
        }
    }

    /// Empties the block voxel `p` and takes it out of both counters.
    pub fn remove(&mut self, p: Point)
        requires
            old(self).wf(),
            old(self)@.taken(p),
        ensures
            final(self).wf(),
            final(self)@ == old(self)@.remove(p),
            final(self)@.blank() == old(self)@.blank(),
    {
        proof {
            lemma_remove(self@, p);
            lemma_cell_index_bound(self.d, p);
            lemma_plane_index_bound(self.d, p.0, p.2);
            lemma_plane_index_bound(self.d, p.2, p.1);
        }
        self.grid.set(p, 0);
        let f: u8 = self.front.get(p.0, p.2);
        self.front.set(p.0, p.2, f - 1);
        let r: u8 = self.right.get(p.1, p.2);
        self.right.set(p.1, p.2, r - 1);
    }

    /// Lists what may be used in this object. The three position lists hold
    /// the positions that are zero now, so the hole of an object on which
    /// nothing is placed fits that object for good.
    pub fn make_hole(&self) -> (h: Hole)
        requires
            self.wf(),
        ensures
            h.grid@ == zeros16(self@.grid, self@.grid.len()),
            h.front@ == zeros8(self@.front, self@.front.len()),
            h.right@ == zeros8(self@.right, self@.right.len()),
            xzy_view(h.x_z_yy@) == xzy_entries(self@, self.d as nat),
            self@.is_blank() ==> h.fits(self@),
    {
        Hole {
            x_z_yy: self.make_hole_xzy(),
            grid: zero_positions16(&self.grid.data),
            front: zero_positions8(&self.front.data),
            right: zero_positions8(&self.right.data),
        }
    }

    /// Lists, for every front silhouette cell `(x, z)` that is on, the `y`s
    /// whose right silhouette cell `(y, z)` is on: `x` ascending, then `z`,
    /// then `y`.
    pub fn make_hole_xzy(&self) -> (v: Vec<HoleXZYY>)
        requires
            self.wf(),
        ensures
            xzy_view(v@) == xzy_entries(self@, self.d as nat),
    {
        let d: u8 = self.d;
        let mut v: Vec<HoleXZYY> = Vec::new();
        let mut x: u8 = 0;
        assert(xzy_view(v@) =~= xzy_entries(self@, 0));
        while x < d
            invariant
                x <= d,
                d == self.d,
                self.wf(),
                xzy_view(v@) == xzy_entries(self@, x as nat),
            decreases d - x,
        {
            let ghost start = xzy_view(v@);
            let mut z: u8 = 0;
            assert(xzy_view(v@) =~= start + xz_entries(self@, x, 0));
            while z < d
                invariant
                    x < d,
                    z <= d,
                    d == self.d,
                    self.wf(),
                    start == xzy_entries(self@, x as nat),
                    xzy_view(v@) == start + xz_entries(self@, x, z as nat),
                decreases d - z,
            {
                if self.front.get(x, z) != OFF {
                    let row: &[u8] = self.right.row(z as usize);
                    let mut ys: Vec<u8> = Vec::new();
                    let mut y: u8 = 0;
                    while y < d
                        invariant
                            y <= d,
                            z < d,
                            d == self.d,
                            self.wf(),
                            row@ == self.right.data@.subrange(z * d, (z + 1) * d),
                            row@.len() == d,
                            ys@ == on_ys(self@, z, y as nat),
                        decreases d - y,
                    {
                        proof {
                            lemma_plane_index_bound(d, z, y);
                            lemma_flat_bound(d as int, d as int, z as int, y as int);
                            lemma_flat_bound(d as int, d as int, z as int, 0);
                            lemma_flat_bound(
                                d as int,
                                d as int,
                                z as int,
                                d as int - 1,
                            );
                            assert((z + 1) * d == z * d + d) by (nonlinear_arith);
                            assert(row@[y as int] == self@.right_at(y, z));
                        }
                        if row[y as usize] != OFF {
                            ys.push(y);
                        }
                        y += 1;
                    }
                    let ghost before = xzy_view(v@);
                    v.push((x, z, ys));
                    assert(xzy_view(v@) =~= before.push((x, z, ys@)));
                    assert(xzy_view(v@) =~= start + xz_entries(self@, x, (z + 1) as nat));
                }
                z += 1;
            }
            x += 1;
        }
        v
    }

    /// Empties the object: every position that the hole lists is set to
    /// zero, which restores the state right after construction.
    pub fn reset(&mut self, hole: &Hole)
        requires
            old(self).wf(),
            hole.fits(old(self)@),
        ensures
            final(self).wf(),
            final(self)@ == old(self)@.blank(),
            old(self)@.is_blank() ==> final(self)@ == old(self)@,
    {
        let ghost start = self@;
        let ghost goal = self@.blank();
        proof {
            lemma_cube_fits(self.d);
            lemma_blank(start);
        }
        clear_positions16(&mut self.grid.data, &hole.grid, Ghost(goal.grid));
        clear_positions8(&mut self.front.data, &hole.front, Ghost(goal.front));
        clear_positions8(&mut self.right.data, &hole.right, Ghost(goal.right));
        proof {
            assert(self@.grid =~= goal.grid);
            assert(self@.front =~= goal.front);
            assert(self@.right =~= goal.right);
        }
    }
}

} // verus!
