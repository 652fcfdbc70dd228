//! The mathematical content of one object: the label of every voxel, the
//! two planes of coverage counters, and what placing and emptying a voxel do
//! to them.

use vstd::prelude::*;
use crate::grids::{
    cell_index, lemma_cell_index_bound, lemma_cell_index_injective, lemma_cube_fits,
    lemma_plane_index_bound, lemma_plane_index_injective, plane_index,
};
use crate::point::{Point, MAX_D};

verus! {

/// Label of a voxel that must stay empty, because it projects onto a
/// silhouette cell that is off.
pub const FORBIDDEN: u16 = 0xFFFF;

/// Counter value of a silhouette cell that is off.
pub const OFF: u8 = 0xFF;

/// A label that names a block: neither empty nor forbidden.
pub open spec fn is_block(label: u16) -> bool {
    label != 0 && label != FORBIDDEN
}

/// The mathematical content of a `GridBox`.
#[verifier::ext_equal]
pub struct BoxView {
    pub d: u8,
    pub grid: Seq<u16>,
    pub front: Seq<u8>,
    pub right: Seq<u8>,
}

impl BoxView {
    /// The label of voxel `p`.
    pub open spec fn label(self, p: Point) -> u16 {
        self.grid[cell_index(self.d, p)]
    }

    /// The counter of the front silhouette cell `(x, z)`.
    pub open spec fn front_at(self, x: u8, z: u8) -> u8 {
        self.front[plane_index(self.d, x, z)]
    }

    /// The counter of the right silhouette cell `(y, z)`.
    pub open spec fn right_at(self, y: u8, z: u8) -> u8 {
        self.right[plane_index(self.d, z, y)]
    }

    /// Number of `y < n` for which voxel `(x, y, z)` belongs to a block.
    pub open spec fn front_cover(self, x: u8, z: u8, n: nat) -> nat
        decreases n,
    {
        if n == 0 {
            0
        } else {
            self.front_cover(x, z, (n - 1) as nat) + if is_block(
                self.label(Point(x, (n - 1) as u8, z)),
            ) {
                1nat
            } else {
                0nat
            }
        }
    }

    /// Number of `x < n` for which voxel `(x, y, z)` belongs to a block.
    pub open spec fn right_cover(self, y: u8, z: u8, n: nat) -> nat
        decreases n,
    {
        if n == 0 {
            0
        } else {
            self.right_cover(y, z, (n - 1) as nat) + if is_block(
                self.label(Point((n - 1) as u8, y, z)),
            ) {
                1nat
            } else {
                0nat
            }
        }
    }

    /// The three arrays have the right sizes; a voxel is forbidden exactly
    /// when one of its two silhouette cells is off; and every counter that is
    /// on equals the number of block voxels that project onto its cell.
    pub open spec fn wf(self) -> bool {
        &&& self.d <= MAX_D
        &&& self.grid.len() == self.d * self.d * self.d
        &&& self.front.len() == self.d * self.d
        &&& self.right.len() == self.d * self.d
        &&& forall|p: Point|
            p.in_box(self.d) ==> ((#[trigger] self.label(p) == FORBIDDEN) <==> (self.front_at(
                p.0,
                p.2,
            ) == OFF || self.right_at(p.1, p.2) == OFF))
        &&& forall|x: u8, z: u8|
            x < self.d && z < self.d && #[trigger] self.front_at(x, z) != OFF ==> self.front_at(
                x,
                z,
            ) == self.front_cover(x, z, self.d as nat)
        &&& forall|y: u8, z: u8|
            y < self.d && z < self.d && #[trigger] self.right_at(y, z) != OFF ==> self.right_at(
                y,
                z,
            ) == self.right_cover(y, z, self.d as nat)
    }

    /// Voxel `p` is inside the grid and empty.
    pub open spec fn free(self, p: Point) -> bool {
        p.in_box(self.d) && self.label(p) == 0
    }

    /// Voxel `p` is inside the grid and belongs to a block.
    pub open spec fn taken(self, p: Point) -> bool {
        p.in_box(self.d) && is_block(self.label(p))
    }

    /// The state after voxel `p` has been given to block `id`.
    pub open spec fn put(self, p: Point, id: u16) -> BoxView {
        let f = plane_index(self.d, p.0, p.2);
        let r = plane_index(self.d, p.2, p.1);
        BoxView {
            d: self.d,
            grid: self.grid.update(cell_index(self.d, p), id),
            front: self.front.update(f, (self.front[f] + 1) as u8),
            right: self.right.update(r, (self.right[r] + 1) as u8),
        }
    }

    /// The state after voxel `p` has been emptied.
    pub open spec fn remove(self, p: Point) -> BoxView {
        let f = plane_index(self.d, p.0, p.2);
        let r = plane_index(self.d, p.2, p.1);
        BoxView {
            d: self.d,
            grid: self.grid.update(cell_index(self.d, p), 0),
            front: self.front.update(f, (self.front[f] - 1) as u8),
            right: self.right.update(r, (self.right[r] - 1) as u8),
        }
    }

    /// The state with the same silhouettes and nothing placed: the state
    /// right after construction.
    pub open spec fn blank(self) -> BoxView {
        BoxView {
            d: self.d,
            grid: Seq::new(
                self.grid.len(),
                |i: int|
                    if self.grid[i] == FORBIDDEN {
                        FORBIDDEN
                    } else {
                        0u16
                    },
            ),
            front: Seq::new(
                self.front.len(),
                |i: int|
                    if self.front[i] == OFF {
                        OFF
                    } else {
                        0u8
                    },
            ),
            right: Seq::new(
                self.right.len(),
                |i: int|
                    if self.right[i] == OFF {
                        OFF
                    } else {
                        0u8
                    },
            ),
        }
    }

    /// Nothing is placed.
    pub open spec fn is_blank(self) -> bool {
        self.blank() == self
    }

    /// Every voxel that may be used projects onto two silhouette cells that
    /// are covered.
    pub open spec fn covered(self) -> bool {
        forall|p: Point|
            p.in_box(self.d) && #[trigger] self.label(p) != FORBIDDEN ==> self.front_at(p.0, p.2)
                >= 1 && self.right_at(p.1, p.2) >= 1
    }
}

/// A cover count never exceeds the number of voxels counted.
pub proof fn lemma_cover_bound(v: BoxView, a: u8, z: u8, n: nat)
    ensures
        v.front_cover(a, z, n) <= n,
        v.right_cover(a, z, n) <= n,
    decreases n,
{
    if n > 0 {
        lemma_cover_bound(v, a, z, (n - 1) as nat);
    }
}

/// A column that holds a block voxel has a positive cover count.
pub proof fn lemma_cover_positive(v: BoxView, p: Point, n: nat)
    requires
        p.in_box(v.d),
        is_block(v.label(p)),
    ensures
        p.1 < n ==> v.front_cover(p.0, p.2, n) >= 1,
        p.0 < n ==> v.right_cover(p.1, p.2, n) >= 1,
    decreases n,
{
    if n > 0 {
        lemma_cover_positive(v, p, (n - 1) as nat);
        if p.1 == n - 1 {
            assert(Point(p.0, (n - 1) as u8, p.2) == p);
        }
        if p.0 == n - 1 {
            assert(Point((n - 1) as u8, p.1, p.2) == p);
        }
    }
}

/// How a cover count changes when the label of one voxel changes.
pub open spec fn cover_shift(before: u16, after: u16) -> int {
    (if is_block(after) {
        1int
    } else {
        0int
    }) - (if is_block(before) {
        1int
    } else {
        0int
    })
}

/// Changing the label of voxel `p` shifts the cover of the front column of
/// `p`, once the count has passed `p`, and leaves every other count alone.
pub proof fn lemma_front_cover_update(v: BoxView, w: BoxView, p: Point, x: u8, z: u8, n: nat)
    requires
        p.in_box(v.d),
        w.d == v.d,
        w.grid == v.grid.update(cell_index(v.d, p), w.label(p)),
        v.grid.len() == v.d * v.d * v.d,
        x < v.d,
        z < v.d,
        n <= v.d,
    ensures
        w.front_cover(x, z, n) == v.front_cover(x, z, n) + if x == p.0 && z == p.2 && p.1 < n {
            cover_shift(v.label(p), w.label(p))
        } else {
            0
        },
    decreases n,
{
    if n > 0 {
        lemma_front_cover_update(v, w, p, x, z, (n - 1) as nat);
        let q = Point(x, (n - 1) as u8, z);
        lemma_cell_index_bound(v.d, p);
        lemma_cell_index_bound(v.d, q);
        if q != p {
            if cell_index(v.d, q) == cell_index(v.d, p) {
                lemma_cell_index_injective(v.d, p, q);
            }
            assert(w.label(q) == v.label(q));
        }
    }
}

/// Changing the label of voxel `p` shifts the cover of the right column of
/// `p`, once the count has passed `p`, and leaves every other count alone.
pub proof fn lemma_right_cover_update(v: BoxView, w: BoxView, p: Point, y: u8, z: u8, n: nat)
    requires
        p.in_box(v.d),
        w.d == v.d,
        w.grid == v.grid.update(cell_index(v.d, p), w.label(p)),
        v.grid.len() == v.d * v.d * v.d,
        y < v.d,
        z < v.d,
        n <= v.d,
    ensures
        w.right_cover(y, z, n) == v.right_cover(y, z, n) + if y == p.1 && z == p.2 && p.0 < n {
            cover_shift(v.label(p), w.label(p))
        } else {
            0
        },
    decreases n,
{
    if n > 0 {
        lemma_right_cover_update(v, w, p, y, z, (n - 1) as nat);
        let q = Point((n - 1) as u8, y, z);
        lemma_cell_index_bound(v.d, p);
        lemma_cell_index_bound(v.d, q);
        if q != p {
            if cell_index(v.d, q) == cell_index(v.d, p) {
                lemma_cell_index_injective(v.d, p, q);
            }
            assert(w.label(q) == v.label(q));
        }
    }
}

/// Which counters a change at voxel `p` touches.
pub proof fn lemma_counters_apart(d: u8, p: Point, a: u8, b: u8)
    requires
        p.in_box(d),
        a < d,
        b < d,
    ensures
        0 <= plane_index(d, a, b) < d * d,
        plane_index(d, a, b) == plane_index(d, p.0, p.2) <==> a == p.0 && b == p.2,
        plane_index(d, a, b) == plane_index(d, p.2, p.1) <==> a == p.2 && b == p.1,
{
    lemma_plane_index_bound(d, a, b);
    if plane_index(d, a, b) == plane_index(d, p.0, p.2) {
        lemma_plane_index_injective(d, a, b, p.0, p.2);
    }
    if plane_index(d, a, b) == plane_index(d, p.2, p.1) {
        lemma_plane_index_injective(d, a, b, p.2, p.1);
    }
}

/// Which labels a change at voxel `p` touches.
pub proof fn lemma_cells_apart(d: u8, p: Point, q: Point)
    requires
        p.in_box(d),
        q.in_box(d),
    ensures
        0 <= cell_index(d, q) < d * d * d,
        cell_index(d, q) == cell_index(d, p) <==> q == p,
{
    lemma_cell_index_bound(d, q);
    if cell_index(d, q) == cell_index(d, p) {
        lemma_cell_index_injective(d, p, q);
    }
}

/// Where no voxel belongs to a block, every cover count is zero.
pub proof fn lemma_cover_zero(v: BoxView, a: u8, z: u8, n: nat)
    requires
        forall|q: Point| q.in_box(v.d) ==> !is_block(#[trigger] v.label(q)),
        a < v.d,
        z < v.d,
        n <= v.d,
    ensures
        v.front_cover(a, z, n) == 0,
        v.right_cover(a, z, n) == 0,
    decreases n,
{
    if n > 0 {
        lemma_cover_zero(v, a, z, (n - 1) as nat);
        assert(Point(a, (n - 1) as u8, z).in_box(v.d));
        assert(Point((n - 1) as u8, a, z).in_box(v.d));
    }
}

/// The blank state of a well-formed state is well formed and blank.
pub proof fn lemma_blank(v: BoxView)
    requires
        v.wf(),
    ensures
        v.blank().wf(),
        v.blank().is_blank(),
        v.is_blank() <==> (forall|q: Point| q.in_box(v.d) ==> !is_block(#[trigger] v.label(q))),
{
    let w = v.blank();
    assert forall|q: Point| q.in_box(v.d) implies (#[trigger] w.label(q) == (if v.label(q)
        == FORBIDDEN {
        FORBIDDEN
    } else {
        0u16
    }) && w.front_at(q.0, q.2) == (if v.front_at(q.0, q.2) == OFF {
        OFF
    } else {
        0u8
    }) && w.right_at(q.1, q.2) == (if v.right_at(q.1, q.2) == OFF {
        OFF
    } else {
        0u8
    })) by {
        lemma_cell_index_bound(v.d, q);
        lemma_plane_index_bound(v.d, q.0, q.2);
        lemma_plane_index_bound(v.d, q.2, q.1);
    }
    assert forall|q: Point| q.in_box(w.d) implies ((#[trigger] w.label(q) == FORBIDDEN) <==> (
    w.front_at(q.0, q.2) == OFF || w.right_at(q.1, q.2) == OFF)) by {
        assert(v.label(q) == FORBIDDEN <==> (v.front_at(q.0, q.2) == OFF || v.right_at(q.1, q.2)
            == OFF));
    }
    assert forall|x: u8, z: u8|
        x < w.d && z < w.d && #[trigger] w.front_at(x, z) != OFF implies w.front_at(x, z)
        == w.front_cover(x, z, w.d as nat) by {
        lemma_cover_zero(w, x, z, w.d as nat);
        lemma_plane_index_bound(v.d, x, z);
    }
    assert forall|y: u8, z: u8|
        y < w.d && z < w.d && #[trigger] w.right_at(y, z) != OFF implies w.right_at(y, z)
        == w.right_cover(y, z, w.d as nat) by {
        lemma_cover_zero(w, y, z, w.d as nat);
        lemma_plane_index_bound(v.d, z, y);
    }
    assert(w.blank().grid =~= w.grid);
    assert(w.blank().front =~= w.front);
    assert(w.blank().right =~= w.right);
    if v.is_blank() {
        assert forall|q: Point| q.in_box(v.d) implies !is_block(#[trigger] v.label(q)) by {
            assert(w.label(q) == v.label(q));
        }
    }
    if forall|q: Point| q.in_box(v.d) ==> !is_block(#[trigger] v.label(q)) {
        lemma_blank_of_unused(v);
    }
}

/// A well-formed state without block voxels is blank.
pub proof fn lemma_blank_of_unused(v: BoxView)
    requires
        v.wf(),
        forall|q: Point| q.in_box(v.d) ==> !is_block(#[trigger] v.label(q)),
    ensures
        v.is_blank(),
{
    let w = v.blank();
    let d = v.d;
    lemma_cube_fits(d);
    assert forall|i: int| 0 <= i < v.grid.len() implies w.grid[i] == v.grid[i] by {
        let z = (i % (d as int)) as u8;
        let xy = i / (d as int);
        let y = (xy % (d as int)) as u8;
        let x = (xy / (d as int)) as u8;
        lemma_split_index(d as int, (d * d) as int, i);
        lemma_split_index(d as int, d as int, xy);
        let q = Point(x, y, z);
        assert(q.in_box(d));
        assert(cell_index(d, q) == i);
        assert(!is_block(v.label(q)));
    }
    assert forall|i: int| 0 <= i < v.front.len() implies w.front[i] == v.front[i] by {
        let z = (i % (d as int)) as u8;
        let x = (i / (d as int)) as u8;
        lemma_split_index(d as int, d as int, i);
        lemma_cover_zero(v, x, z, d as nat);
        assert(v.front_at(x, z) == v.front[i]);
    }
    assert forall|i: int| 0 <= i < v.right.len() implies w.right[i] == v.right[i] by {
        let y = (i % (d as int)) as u8;
        let z = (i / (d as int)) as u8;
        lemma_split_index(d as int, d as int, i);
        lemma_cover_zero(v, y, z, d as nat);
        assert(v.right_at(y, z) == v.right[i]);
    }
    assert(w.grid =~= v.grid);
    assert(w.front =~= v.front);
    assert(w.right =~= v.right);
}

/// An index below `rows · d` splits into a row below `rows` and a column
/// below `d`.
pub proof fn lemma_split_index(d: int, rows: int, i: int)
    requires
        0 < d,
        0 <= i < rows * d,
    ensures
        0 <= i / d < rows,
        0 <= i % d < d,
        (i / d) * d + i % d == i,
{
    vstd::arithmetic::div_mod::lemma_fundamental_div_mod(i, d);
    vstd::arithmetic::div_mod::lemma_mod_bound(i, d);
    assert(i / d < rows) by (nonlinear_arith)
        requires
            0 < d,
            0 <= i < rows * d,
            i == d * (i / d) + i % d,
            0 <= i % d < d,
    ;
    assert(0 <= i / d) by (nonlinear_arith)
        requires
            0 < d,
            0 <= i,
            i == d * (i / d) + i % d,
            0 <= i % d < d,
    ;
    assert((i / d) * d == d * (i / d)) by (nonlinear_arith);
}

/// Placing a block voxel on a free cell keeps the state well formed, raises
/// the two counters of the cell by one and changes no other label.
pub proof fn lemma_put(v: BoxView, p: Point, id: u16)
    requires
        v.wf(),
        v.free(p),
        is_block(id),
    ensures
        v.front_at(p.0, p.2) < v.d,
        v.right_at(p.1, p.2) < v.d,
        v.put(p, id).wf(),
        v.put(p, id).blank() == v.blank(),
        v.put(p, id).label(p) == id,
        v.put(p, id).front_at(p.0, p.2) == v.front_at(p.0, p.2) + 1,
        v.put(p, id).right_at(p.1, p.2) == v.right_at(p.1, p.2) + 1,
        forall|q: Point|
            q.in_box(v.d) && q != p ==> #[trigger] v.put(p, id).label(q) == v.label(q),
{
    let w = v.put(p, id);
    let d = v.d;
    lemma_cells_apart(d, p, p);
    lemma_counters_apart(d, p, p.0, p.2);
    lemma_counters_apart(d, p, p.2, p.1);
    assert(v.label(p) != FORBIDDEN);
    assert(w.label(p) == id);
    lemma_front_cover_update(v, w, p, p.0, p.2, d as nat);
    lemma_right_cover_update(v, w, p, p.1, p.2, d as nat);
    lemma_cover_bound(w, p.0, p.2, d as nat);
    lemma_cover_bound(w, p.1, p.2, d as nat);
    assert forall|q: Point| q.in_box(d) && q != p implies #[trigger] w.label(q) == v.label(
        q,
    ) by {
        lemma_cells_apart(d, p, q);
    }
    assert forall|x: u8, z: u8| x < d && z < d implies #[trigger] w.front_at(x, z) == (if x == p.0
        && z == p.2 {
        (v.front_at(x, z) + 1) as u8
    } else {
        v.front_at(x, z)
    }) by {
        lemma_counters_apart(d, p, x, z);
    }
    assert forall|y: u8, z: u8| y < d && z < d implies #[trigger] w.right_at(y, z) == (if y == p.1
        && z == p.2 {
        (v.right_at(y, z) + 1) as u8
    } else {
        v.right_at(y, z)
    }) by {
        lemma_counters_apart(d, p, z, y);
    }
    assert forall|q: Point| q.in_box(w.d) implies ((#[trigger] w.label(q) == FORBIDDEN) <==> (
    w.front_at(q.0, q.2) == OFF || w.right_at(q.1, q.2) == OFF)) by {
        lemma_cells_apart(d, p, q);
        assert(v.label(q) == FORBIDDEN <==> (v.front_at(q.0, q.2) == OFF || v.right_at(q.1, q.2)
            == OFF));
    }
    assert forall|x: u8, z: u8|
        x < w.d && z < w.d && #[trigger] w.front_at(x, z) != OFF implies w.front_at(x, z)
        == w.front_cover(x, z, w.d as nat) by {
        lemma_front_cover_update(v, w, p, x, z, d as nat);
        assert(v.front_at(x, z) != OFF);
    }
    assert forall|y: u8, z: u8|
        y < w.d && z < w.d && #[trigger] w.right_at(y, z) != OFF implies w.right_at(y, z)
        == w.right_cover(y, z, w.d as nat) by {
        lemma_right_cover_update(v, w, p, y, z, d as nat);
        assert(v.right_at(y, z) != OFF);
    }
    assert(w.blank().grid =~= v.blank().grid);
    assert(w.blank().front =~= v.blank().front);
    assert(w.blank().right =~= v.blank().right);
}

/// Emptying a block voxel keeps the state well formed, lowers the two
/// counters of the cell by one and changes no other label.
pub proof fn lemma_remove(v: BoxView, p: Point)
    requires
        v.wf(),
        v.taken(p),
    ensures
        1 <= v.front_at(p.0, p.2) <= v.d,
        1 <= v.right_at(p.1, p.2) <= v.d,
        v.remove(p).wf(),
        v.remove(p).blank() == v.blank(),
        v.remove(p).label(p) == 0,
        v.remove(p).front_at(p.0, p.2) == v.front_at(p.0, p.2) - 1,
        v.remove(p).right_at(p.1, p.2) == v.right_at(p.1, p.2) - 1,
        forall|q: Point|
            q.in_box(v.d) && q != p ==> #[trigger] v.remove(p).label(q) == v.label(q),
{
    let w = v.remove(p);
    let d = v.d;
    lemma_cells_apart(d, p, p);
    lemma_counters_apart(d, p, p.0, p.2);
    lemma_counters_apart(d, p, p.2, p.1);
    assert(v.label(p) != FORBIDDEN);
    assert(w.label(p) == 0);
    lemma_front_cover_update(v, w, p, p.0, p.2, d as nat);
    lemma_right_cover_update(v, w, p, p.1, p.2, d as nat);
    lemma_cover_bound(v, p.0, p.2, d as nat);
    lemma_cover_bound(v, p.1, p.2, d as nat);
    lemma_cover_positive(v, p, d as nat);
    assert forall|q: Point| q.in_box(d) && q != p implies #[trigger] w.label(q) == v.label(
        q,
    ) by {
        lemma_cells_apart(d, p, q);
    }
    assert forall|x: u8, z: u8| x < d && z < d implies #[trigger] w.front_at(x, z) == (if x == p.0
        && z == p.2 {
        (v.front_at(x, z) - 1) as u8
    } else {
        v.front_at(x, z)
    }) by {
        lemma_counters_apart(d, p, x, z);
    }
    assert forall|y: u8, z: u8| y < d && z < d implies #[trigger] w.right_at(y, z) == (if y == p.1
        && z == p.2 {
        (v.right_at(y, z) - 1) as u8
    } else {
        v.right_at(y, z)
    }) by {
        lemma_counters_apart(d, p, z, y);
    }
    assert forall|q: Point| q.in_box(w.d) implies ((#[trigger] w.label(q) == FORBIDDEN) <==> (
    w.front_at(q.0, q.2) == OFF || w.right_at(q.1, q.2) == OFF)) by {
        lemma_cells_apart(d, p, q);
        assert(v.label(q) == FORBIDDEN <==> (v.front_at(q.0, q.2) == OFF || v.right_at(q.1, q.2)
            == OFF));
    }
    assert forall|x: u8, z: u8|
        x < w.d && z < w.d && #[trigger] w.front_at(x, z) != OFF implies w.front_at(x, z)
        == w.front_cover(x, z, w.d as nat) by {
        lemma_front_cover_update(v, w, p, x, z, d as nat);
        assert(v.front_at(x, z) != OFF);
    }
    assert forall|y: u8, z: u8|
        y < w.d && z < w.d && #[trigger] w.right_at(y, z) != OFF implies w.right_at(y, z)
        == w.right_cover(y, z, w.d as nat) by {
        lemma_right_cover_update(v, w, p, y, z, d as nat);
        assert(v.right_at(y, z) != OFF);
    }
    assert(w.blank().grid =~= v.blank().grid);
    assert(w.blank().front =~= v.blank().front);
    assert(w.blank().right =~= v.blank().right);
}

/// Whatever has been placed on an object since it was made, emptying every
/// usable voxel leads back to the state in which it was made: placing and
/// emptying voxels never change the blank state, and the state in which
/// the object was made is its own blank state.
pub proof fn lemma_blank_is_where_it_started(fresh: BoxView, v: BoxView)
    requires
        fresh.is_blank(),
        v.blank() == fresh.blank(),
    ensures
        v.blank() == fresh,
{
}

/// Placing a voxel and emptying it again restores labels and counters.
pub proof fn lemma_put_then_remove(v: BoxView, p: Point, id: u16)
    requires
        v.wf(),
        v.free(p),
        is_block(id),
    ensures
        v.put(p, id).taken(p),
        v.put(p, id).remove(p) == v,
{
    lemma_put(v, p, id);
    lemma_cells_apart(v.d, p, p);
    lemma_counters_apart(v.d, p, p.0, p.2);
    lemma_counters_apart(v.d, p, p.2, p.1);
    let w = v.put(p, id).remove(p);
    assert(w.grid =~= v.grid);
    assert(w.front =~= v.front);
    assert(w.right =~= v.right);
}

/// In a well-formed state every block voxel has both of its counters at one
/// or more.
pub proof fn lemma_block_is_counted(v: BoxView, q: Point)
    requires
        v.wf(),
        v.taken(q),
    ensures
        1 <= v.front_at(q.0, q.2) <= v.d,
        1 <= v.right_at(q.1, q.2) <= v.d,
{
    lemma_remove(v, q);
}

/// The number of empty voxels.
pub open spec fn free_cells(v: BoxView) -> nat {
    zeros16(v.grid, v.grid.len()).len()
}

/// Writing a label that is not zero over a zero shortens the list of zero
/// positions by one.
pub proof fn lemma_zeros16_fill(s: Seq<u16>, n: nat, i: int, label: u16)
    requires
        n <= s.len(),
        0 <= i < s.len(),
        s[i] == 0,
        label != 0,
    ensures
        zeros16(s.update(i, label), n).len() == zeros16(s, n).len() - if i < n {
            1int
        } else {
            0int
        },
    decreases n,
{
    if n > 0 {
        lemma_zeros16_fill(s, (n - 1) as nat, i, label);
    }
}

/// Placing a voxel leaves one empty voxel fewer.
pub proof fn lemma_put_fills(v: BoxView, p: Point, id: u16)
    requires
        v.wf(),
        v.free(p),
        is_block(id),
    ensures
        free_cells(v) >= 1,
        free_cells(v.put(p, id)) == free_cells(v) - 1,
{
    lemma_cell_index_bound(v.d, p);
    lemma_zeros16_fill(v.grid, v.grid.len(), cell_index(v.d, p), id);
}

/// The voxels `pts` are distinct and all empty in `v`.
pub open spec fn placeable(v: BoxView, pts: Seq<Point>) -> bool {
    pts.no_duplicates() && forall|k: int| 0 <= k < pts.len() ==> v.free(#[trigger] pts[k])
}

impl BoxView {
    /// `self` is `old` with the voxels `pts` given to block `id` and nothing
    /// else changed.
    pub open spec fn grew_by(self, old: BoxView, pts: Seq<Point>, id: u16) -> bool {
        &&& self.d == old.d
        &&& self.blank() == old.blank()
        &&& forall|p: Point|
            p.in_box(self.d) ==> #[trigger] self.label(p) == (if pts.contains(p) {
                id
            } else {
                old.label(p)
            })
    }

    /// `self` is `old` with the voxels `pts` emptied and nothing else
    /// changed.
    pub open spec fn shrank_by(self, old: BoxView, pts: Seq<Point>) -> bool {
        &&& self.d == old.d
        &&& self.blank() == old.blank()
        &&& forall|p: Point|
            p.in_box(self.d) ==> #[trigger] self.label(p) == (if pts.contains(p) {
                0u16
            } else {
                old.label(p)
            })
    }
}

/// Two well-formed states with the same silhouettes and the same labels are
/// the same state.
pub proof fn lemma_same_labels(v: BoxView, w: BoxView)
    requires
        v.wf(),
        w.wf(),
        v.d == w.d,
        v.blank() == w.blank(),
        forall|p: Point| p.in_box(v.d) ==> #[trigger] v.label(p) == w.label(p),
    ensures
        v == w,
{
    let d = v.d;
    lemma_cube_fits(d);
    assert(v.blank().grid.len() == w.blank().grid.len());
    assert(v.blank().front.len() == w.blank().front.len());
    assert(v.blank().right.len() == w.blank().right.len());
    assert forall|i: int| 0 <= i < v.grid.len() implies w.grid[i] == v.grid[i] by {
        let z = (i % (d as int)) as u8;
        let xy = i / (d as int);
        let y = (xy % (d as int)) as u8;
        let x = (xy / (d as int)) as u8;
        lemma_split_index(d as int, (d * d) as int, i);
        lemma_split_index(d as int, d as int, xy);
        let q = Point(x, y, z);
        assert(q.in_box(d));
        assert(cell_index(d, q) == i);
        assert(v.label(q) == w.label(q));
    }
    assert forall|x: u8, z: u8, n: nat| x < d && z < d && n <= d implies v.front_cover(x, z, n)
        == w.front_cover(x, z, n) && v.right_cover(x, z, n) == w.right_cover(x, z, n) by {
        lemma_same_covers(v, w, x, z, n);
    }
    assert forall|i: int| 0 <= i < v.front.len() implies w.front[i] == v.front[i] by {
        let z = (i % (d as int)) as u8;
        let x = (i / (d as int)) as u8;
        lemma_split_index(d as int, d as int, i);
        assert(v.front_at(x, z) == v.front[i]);
        assert(w.front_at(x, z) == w.front[i]);
        assert(v.blank().front[i] == w.blank().front[i]);
        assert(v.blank().front[i] == (if v.front[i] == OFF {
            OFF
        } else {
            0u8
        }));
        assert(w.front.len() == v.front.len());
        assert(w.blank().front[i] == (if w.front[i] == OFF {
            OFF
        } else {
            0u8
        }));
        assert(v.front[i] == OFF <==> w.front[i] == OFF);
        lemma_same_covers(v, w, x, z, d as nat);
        if v.front[i] != OFF {
            assert(v.front_at(x, z) == v.front_cover(x, z, d as nat));
            assert(w.front_at(x, z) == w.front_cover(x, z, d as nat));
        }
    }
    assert forall|i: int| 0 <= i < v.right.len() implies w.right[i] == v.right[i] by {
        let y = (i % (d as int)) as u8;
        let z = (i / (d as int)) as u8;
        lemma_split_index(d as int, d as int, i);
        assert(v.right_at(y, z) == v.right[i]);
        assert(w.right_at(y, z) == w.right[i]);
        assert(v.blank().right[i] == w.blank().right[i]);
        assert(v.blank().right[i] == (if v.right[i] == OFF {
            OFF
        } else {
            0u8
        }));
        assert(w.right.len() == v.right.len());
        assert(w.blank().right[i] == (if w.right[i] == OFF {
            OFF
        } else {
            0u8
        }));
        assert(v.right[i] == OFF <==> w.right[i] == OFF);
        lemma_same_covers(v, w, y, z, d as nat);
        if v.right[i] != OFF {
            assert(v.right_at(y, z) == v.right_cover(y, z, d as nat));
            assert(w.right_at(y, z) == w.right_cover(y, z, d as nat));
        }
    }
    assert(w.grid =~= v.grid);
    assert(w.front =~= v.front);
    assert(w.right =~= v.right);
}

proof fn lemma_same_covers(v: BoxView, w: BoxView, a: u8, z: u8, n: nat)
    requires
        v.d == w.d,
        a < v.d,
        z < v.d,
        n <= v.d,
        forall|p: Point| p.in_box(v.d) ==> #[trigger] v.label(p) == w.label(p),
    ensures
        v.front_cover(a, z, n) == w.front_cover(a, z, n),
        v.right_cover(a, z, n) == w.right_cover(a, z, n),
    decreases n,
{
    if n > 0 {
        lemma_same_covers(v, w, a, z, (n - 1) as nat);
        assert(Point(a, (n - 1) as u8, z).in_box(v.d));
        assert(Point((n - 1) as u8, a, z).in_box(v.d));
    }
}

/// One more voxel placed: the state has grown by the list with that voxel
/// appended, and the longer list is still placeable in the old state.
pub proof fn lemma_grew_by_step(old: BoxView, g: BoxView, pts: Seq<Point>, id: u16, r: Point)
    requires
        g.wf(),
        g.grew_by(old, pts, id),
        placeable(old, pts),
        g.free(r),
        is_block(id),
    ensures
        !pts.contains(r),
        g.put(r, id).wf(),
        g.put(r, id).grew_by(old, pts.push(r), id),
        placeable(old, pts.push(r)),
        free_cells(g.put(r, id)) == free_cells(g) - 1,
        free_cells(g) >= 1,
{
    lemma_put(g, r, id);
    lemma_put_fills(g, r, id);
    let w = g.put(r, id);
    let longer = pts.push(r);
    assert(!pts.contains(r));
    assert forall|p: Point| p.in_box(w.d) implies #[trigger] w.label(p) == (if longer.contains(p) {
        id
    } else {
        old.label(p)
    }) by {
        if p == r {
            assert(longer[pts.len() as int] == r);
        } else {
            if pts.contains(p) {
                let m = choose|m: int| 0 <= m < pts.len() && pts[m] == p;
                assert(longer[m] == p);
            }
            if longer.contains(p) {
                let m = choose|m: int| 0 <= m < longer.len() && longer[m] == p;
                assert(pts[m] == p);
            }
        }
    }
    assert forall|k: int| 0 <= k < longer.len() implies old.free(#[trigger] longer[k]) by {
        if k < pts.len() {
            assert(longer[k] == pts[k]);
        }
    }
    assert forall|i: int, j: int| 0 <= i < longer.len() && 0 <= j < longer.len() && i
        != j implies longer[i] != longer[j] by {
        if i < pts.len() && j < pts.len() {
            assert(pts[i] != pts[j]);
        } else if i < pts.len() {
            assert(pts.contains(pts[i]));
        } else {
            assert(pts.contains(pts[j]));
        }
    }
}

/// The positions below `n` at which `s` holds an empty label, ascending.
pub open spec fn zeros16(s: Seq<u16>, n: nat) -> Seq<usize>
    decreases n,
{
    if n == 0 {
        Seq::<usize>::empty()
    } else {
        let rest = zeros16(s, (n - 1) as nat);
        if s[n - 1] == 0 {
            rest.push((n - 1) as usize)
        } else {
            rest
        }
    }
}

/// The positions below `n` at which `s` holds a zero counter, ascending.
pub open spec fn zeros8(s: Seq<u8>, n: nat) -> Seq<usize>
    decreases n,
{
    if n == 0 {
        Seq::<usize>::empty()
    } else {
        let rest = zeros8(s, (n - 1) as nat);
        if s[n - 1] == 0 {
            rest.push((n - 1) as usize)
        } else {
            rest
        }
    }
}

/// `zeros16` lists exactly the positions that hold zero.
pub proof fn lemma_zeros16(s: Seq<u16>, n: nat)
    requires
        n <= s.len(),
        n <= usize::MAX,
    ensures
        forall|m: int|
            0 <= m < zeros16(s, n).len() ==> (#[trigger] zeros16(s, n)[m]) < n && s[zeros16(
                s,
                n,
            )[m] as int] == 0,
        forall|i: int| 0 <= i < n && s[i] == 0 ==> zeros16(s, n).contains(i as usize),
    decreases n,
{
    if n > 0 {
        let rest = zeros16(s, (n - 1) as nat);
        lemma_zeros16(s, (n - 1) as nat);
        let all = zeros16(s, n);
        assert forall|i: int| 0 <= i < n && s[i] == 0 implies all.contains(i as usize) by {
            if i < n - 1 {
                let m = choose|m: int| 0 <= m < rest.len() && rest[m] == i as usize;
                assert(all[m] == i as usize);
            } else {
                assert(all[all.len() - 1] == i as usize);
            }
        }
    }
}

/// `zeros8` lists exactly the positions that hold zero.
pub proof fn lemma_zeros8(s: Seq<u8>, n: nat)
    requires
        n <= s.len(),
        n <= usize::MAX,
    ensures
        forall|m: int|
            0 <= m < zeros8(s, n).len() ==> (#[trigger] zeros8(s, n)[m]) < n && s[zeros8(
                s,
                n,
            )[m] as int] == 0,
        forall|i: int| 0 <= i < n && s[i] == 0 ==> zeros8(s, n).contains(i as usize),
    decreases n,
{
    if n > 0 {
        let rest = zeros8(s, (n - 1) as nat);
        lemma_zeros8(s, (n - 1) as nat);
        let all = zeros8(s, n);
        assert forall|i: int| 0 <= i < n && s[i] == 0 implies all.contains(i as usize) by {
            if i < n - 1 {
                let m = choose|m: int| 0 <= m < rest.len() && rest[m] == i as usize;
                assert(all[m] == i as usize);
            } else {
                assert(all[all.len() - 1] == i as usize);
            }
        }
    }
}

} // verus!
