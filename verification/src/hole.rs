//! The hole of an object: the voxels that may be used, listed once so that
//! the classifier can walk them and a reset can empty them fast.

use vstd::prelude::*;
use crate::box_view::{lemma_zeros16, lemma_zeros8, zeros16, zeros8, BoxView, OFF};

verus! {

/// The `y < n` whose right silhouette cell `(y, z)` is on, ascending.
pub open spec fn on_ys(v: BoxView, z: u8, n: nat) -> Seq<u8>
    decreases n,
{
    if n == 0 {
        Seq::<u8>::empty()
    } else {
        let rest = on_ys(v, z, (n - 1) as nat);
        if v.right_at((n - 1) as u8, z) != OFF {
            rest.push((n - 1) as u8)
        } else {
            rest
        }
    }
}

/// For a fixed `x`: one entry `(x, z, ys)` for each `z < n` whose front
/// silhouette cell `(x, z)` is on, with the `ys` that are on in row `z` of
/// the right silhouette.
pub open spec fn xz_entries(v: BoxView, x: u8, n: nat) -> Seq<(u8, u8, Seq<u8>)>
    decreases n,
{
    if n == 0 {
        Seq::<(u8, u8, Seq<u8>)>::empty()
    } else {
        let rest = xz_entries(v, x, (n - 1) as nat);
        if v.front_at(x, (n - 1) as u8) != OFF {
            rest.push((x, (n - 1) as u8, on_ys(v, (n - 1) as u8, v.d as nat)))
        } else {
            rest
        }
    }
}

/// The entries of `xz_entries` for `x = 0, …, n − 1`, one `x` after the other.
pub open spec fn xzy_entries(v: BoxView, n: nat) -> Seq<(u8, u8, Seq<u8>)>
    decreases n,
{
    if n == 0 {
        Seq::<(u8, u8, Seq<u8>)>::empty()
    } else {
        xzy_entries(v, (n - 1) as nat) + xz_entries(v, (n - 1) as u8, v.d as nat)
    }
}

/// One column of usable voxels: `x`, `z` and the usable `y`s.
pub type HoleXZYY = (u8, u8, Vec<u8>);

/// The columns of a hole as mathematical values.
pub open spec fn xzy_view(h: Seq<HoleXZYY>) -> Seq<(u8, u8, Seq<u8>)> {
    Seq::new(h.len(), |i: int| (h[i].0, h[i].1, h[i].2@))
}

/// Every column lies inside a grid of edge `d`.
pub open spec fn xzy_in_box(h: Seq<(u8, u8, Seq<u8>)>, d: u8) -> bool {
    forall|i: int|
        0 <= i < h.len() ==> (#[trigger] h[i]).0 < d && h[i].1 < d && forall|k: int|
            0 <= k < h[i].2.len() ==> #[trigger] h[i].2[k] < d
}

/// The voxels that may be used, listed once when an object is made: by
/// column for the classifier, and as flat positions of the label grid and of
/// the two counter planes for a fast reset.
pub struct Hole {
    pub x_z_yy: Vec<HoleXZYY>,
    pub grid: Vec<usize>,
    pub front: Vec<usize>,
    pub right: Vec<usize>,
}

impl Hole {
    /// The hole lists exactly what may be used in an object with the
    /// silhouettes of `v`.
    pub open spec fn fits(&self, v: BoxView) -> bool {
        &&& self.grid@ == zeros16(v.blank().grid, v.grid.len())
        &&& self.front@ == zeros8(v.blank().front, v.front.len())
        &&& self.right@ == zeros8(v.blank().right, v.right.len())
        &&& xzy_view(self.x_z_yy@) == xzy_entries(v.blank(), v.d as nat)
    }
}

/// The entries of a hole lie inside the grid.
pub proof fn lemma_entries_in_box(v: BoxView)
    ensures
        xzy_in_box(xzy_entries(v, v.d as nat), v.d),
{
    lemma_xzy_entries_in_box(v, v.d as nat);
}

proof fn lemma_on_ys_in_box(v: BoxView, z: u8, n: nat)
    requires
        n <= v.d,
    ensures
        forall|k: int| 0 <= k < on_ys(v, z, n).len() ==> #[trigger] on_ys(v, z, n)[k] < n,
    decreases n,
{
    if n > 0 {
        let rest = on_ys(v, z, (n - 1) as nat);
        lemma_on_ys_in_box(v, z, (n - 1) as nat);
        assert forall|k: int| 0 <= k < on_ys(v, z, n).len() implies #[trigger] on_ys(v, z, n)[k]
            < n by {
            if k < rest.len() {
                assert(on_ys(v, z, n)[k] == rest[k]);
            }
        }
    }
}

proof fn lemma_xz_entries_in_box(v: BoxView, x: u8, n: nat)
    requires
        n <= v.d,
        x < v.d,
    ensures
        xzy_in_box(xz_entries(v, x, n), v.d),
    decreases n,
{
    if n > 0 {
        lemma_xz_entries_in_box(v, x, (n - 1) as nat);
        lemma_on_ys_in_box(v, (n - 1) as u8, v.d as nat);
    }
}

proof fn lemma_xzy_entries_in_box(v: BoxView, n: nat)
    requires
        n <= v.d,
    ensures
        xzy_in_box(xzy_entries(v, n), v.d),
    decreases n,
{
    if n > 0 {
        lemma_xzy_entries_in_box(v, (n - 1) as nat);
        lemma_xz_entries_in_box(v, (n - 1) as u8, v.d as nat);
    }
}

/// The positions of `data` that hold an empty label, ascending.
pub fn zero_positions16(data: &Vec<u16>) -> (r: Vec<usize>)
    ensures
        r@ == zeros16(data@, data@.len()),
{
    let mut r: Vec<usize> = Vec::new();
    let mut i: usize = 0;
    while i < data.len()
        invariant
            i <= data@.len(),
            r@ == zeros16(data@, i as nat),
        decreases data@.len() - i,
    {
        if data[i] == 0 {
            r.push(i);
        }
        i += 1;
    }
    r
}

/// The positions of `data` that hold a zero counter, ascending.
pub fn zero_positions8(data: &Vec<u8>) -> (r: Vec<usize>)
    ensures
        r@ == zeros8(data@, data@.len()),
{
    let mut r: Vec<usize> = Vec::new();
    let mut i: usize = 0;
    while i < data.len()
        invariant
            i <= data@.len(),
            r@ == zeros8(data@, i as nat),
        decreases data@.len() - i,
    {
        if data[i] == 0 {
            r.push(i);
        }
        i += 1;
    }
    r
}

/// Sets the listed positions of `data` to zero. Where the list holds the
/// zero positions of `goal`, and `data` differs from `goal` at those positions
/// only, `data` becomes `goal`.
pub(crate) fn clear_positions16(data: &mut Vec<u16>, positions: &Vec<usize>, Ghost(goal): Ghost<Seq<u16>>)
    requires
        goal.len() == old(data)@.len(),
        goal.len() <= usize::MAX,
        positions@ == zeros16(goal, goal.len()),
        forall|j: int| 0 <= j < goal.len() && goal[j] != 0 ==> old(data)@[j] == goal[j],
    ensures
        final(data)@ == goal,
{
    proof {
        lemma_zeros16(goal, goal.len());
    }
    let mut i: usize = 0;
    while i < positions.len()
        invariant
            i <= positions@.len(),
            data@.len() == goal.len(),
            positions@ == zeros16(goal, goal.len()),
            forall|m: int|
                0 <= m < positions@.len() ==> (#[trigger] positions@[m]) < goal.len()
                    && goal[positions@[m] as int] == 0,
            forall|m: int| 0 <= m < i ==> data@[(#[trigger] positions@[m]) as int] == 0,
            forall|j: int| 0 <= j < goal.len() && goal[j] != 0 ==> #[trigger] data@[j] == goal[j],
        decreases positions@.len() - i,
    {
        data.set(positions[i], 0);
        i += 1;
    }
    proof {
        assert forall|j: int| 0 <= j < goal.len() implies data@[j] == goal[j] by {
            if goal[j] == 0 {
                let m = choose|m: int| 0 <= m < positions@.len() && positions@[m] == j as usize;
                assert(data@[positions@[m] as int] == 0);
            }
        }
        assert(data@ =~= goal);
    }
}

/// Sets the listed positions of `data` to zero. Where the list holds the
/// zero positions of `goal`, and `data` differs from `goal` at those positions
/// only, `data` becomes `goal`.
pub(crate) fn clear_positions8(data: &mut Vec<u8>, positions: &Vec<usize>, Ghost(goal): Ghost<Seq<u8>>)
    requires
        goal.len() == old(data)@.len(),
        goal.len() <= usize::MAX,
        positions@ == zeros8(goal, goal.len()),
        forall|j: int| 0 <= j < goal.len() && goal[j] != 0 ==> old(data)@[j] == goal[j],
    ensures
        final(data)@ == goal,
{
    proof {
        lemma_zeros8(goal, goal.len());
    }
    let mut i: usize = 0;
    while i < positions.len()
        invariant
            i <= positions@.len(),
            data@.len() == goal.len(),
            positions@ == zeros8(goal, goal.len()),
            forall|m: int|
                0 <= m < positions@.len() ==> (#[trigger] positions@[m]) < goal.len()
                    && goal[positions@[m] as int] == 0,
            forall|m: int| 0 <= m < i ==> data@[(#[trigger] positions@[m]) as int] == 0,
            forall|j: int| 0 <= j < goal.len() && goal[j] != 0 ==> #[trigger] data@[j] == goal[j],
        decreases positions@.len() - i,
    {
        data.set(positions[i], 0);
        i += 1;
    }
    proof {
        assert forall|j: int| 0 <= j < goal.len() implies data@[j] == goal[j] by {
            if goal[j] == 0 {
                let m = choose|m: int| 0 <= m < positions@.len() && positions@[m] == j as usize;
                assert(data@[positions@[m] as int] == 0);
            }
        }
        assert(data@ =~= goal);
    }
}

} // verus!
