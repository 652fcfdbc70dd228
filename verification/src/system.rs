//! The two objects together with the catalogue of their blocks, and the two
//! ways of taking blocks away again.

use vstd::prelude::*;
use vstd::set_lib::{lemma_int_range, lemma_len_subset, set_int_range};
use rand_pcg::Mcg128Xsl64;
use crate::block_set::{
    first_small, shared_view, BlockSet, BlockSetView, SharedBlock, SharedEntry, HALF_ID_BASE,
};
use crate::box_view::{is_block, lemma_remove, placeable, BoxView};
use crate::grid_box::GridBox;
use crate::grids::{
    cell_index, lemma_cell_index_bound, lemma_cell_index_injective, lemma_cube_fits, Grid3,
    GridFront, GridRight,
};
use crate::grow::{congruent, grown};
use crate::point::{Point, MAX_D};
use crate::random::{random_below, random_ratio};
use crate::score::MAX_CELLS;

verus! {

/// The voxels of a shared block in the first object (`side` 1) or in the
/// second (any other `side`).
pub open spec fn voxels_of(e: SharedEntry, side: int) -> Seq<Point> {
    if side == 1 {
        e.1
    } else {
        e.2
    }
}

/// The voxels of the blocks that only the first object (`side` 1) or only
/// the second (any other `side`) has.
pub open spec fn halves_of(b: BlockSetView, side: int) -> Seq<Point> {
    if side == 1 {
        b.half1
    } else {
        b.half2
    }
}

/// The voxels `pts` are distinct voxels of the grid, all labelled `id`.
pub open spec fn block_in(g: BoxView, pts: Seq<Point>, id: u16) -> bool {
    pts.no_duplicates() && forall|k: int|
        0 <= k < pts.len() ==> (#[trigger] pts[k]).in_box(g.d) && g.label(pts[k]) == id
}

/// The voxels `pts` are distinct voxels of the grid, labelled with ids of
/// single-object blocks that have been handed out.
pub open spec fn halves_in(g: BoxView, pts: Seq<Point>, next_id: u16) -> bool {
    pts.no_duplicates() && forall|k: int|
        0 <= k < pts.len() ==> (#[trigger] pts[k]).in_box(g.d) && HALF_ID_BASE <= g.label(pts[k])
            < next_id
}

/// One object agrees with the catalogue: the voxels of every shared block
/// carry its id and form one connected region, and the voxels of the
/// single-object blocks carry ids of such blocks.
pub open spec fn side_ok(g: BoxView, b: BlockSetView, side: int) -> bool {
    &&& g.wf()
    &&& forall|i: int|
        0 <= i < b.shared.len() ==> block_in(g, voxels_of(#[trigger] b.shared[i], side), b.shared[i].0)
            && grown(voxels_of(b.shared[i], side))
    &&& halves_in(g, halves_of(b, side), b.next_half_id)
}

/// The catalogue lists the voxel `p` on the given side, in a shared block or
/// among the voxels of the single-object blocks.
pub open spec fn listed(b: BlockSetView, side: int, p: Point) -> bool {
    halves_of(b, side).contains(p) || exists|i: int|
        0 <= i < b.shared.len() && #[trigger] voxels_of(b.shared[i], side).contains(p)
}

/// Every voxel of the object that belongs to a block is listed in the
/// catalogue.
pub open spec fn all_listed(g: BoxView, b: BlockSetView, side: int) -> bool {
    forall|p: Point| p.in_box(g.d) && is_block(#[trigger] g.label(p)) ==> listed(b, side, p)
}

/// A shared block has as many voxels in one object as in the other, at
/// least one, and its two voxel lists are congruent under a rotation.
pub open spec fn pair_ok(e: SharedEntry) -> bool {
    e.1.len() == e.2.len() && e.1.len() >= 1 && congruent(e.1, e.2)
}

/// The two objects and the catalogue agree.
pub open spec fn system_ok(g1: BoxView, g2: BoxView, b: BlockSetView) -> bool {
    &&& side_ok(g1, b, 1)
    &&& side_ok(g2, b, 2)
    &&& all_listed(g1, b, 1)
    &&& all_listed(g2, b, 2)
    &&& g1.d == g2.d
    &&& b.wf()
    &&& forall|i: int| 0 <= i < b.shared.len() ==> pair_ok(#[trigger] b.shared[i])
    &&& b.next_half_id <= HALF_ID_BASE + b.half1.len() + b.half2.len()
    &&& b.shared.len() + b.stock.len() <= MAX_CELLS
}

/// What the catalogue says of a shared block holds in both objects: its
/// two voxel lists have the same length, each is one connected region of its
/// object under the id of the block, and a rotation of the cube with a shift
/// carries the voxels of the second object to those of the first.
pub proof fn lemma_shared_block_shape(g1: BoxView, g2: BoxView, b: BlockSetView, i: int)
    requires
        system_ok(g1, g2, b),
        0 <= i < b.shared.len(),
    ensures
        b.shared[i].1.len() == b.shared[i].2.len(),
        block_in(g1, b.shared[i].1, b.shared[i].0),
        block_in(g2, b.shared[i].2, b.shared[i].0),
        grown(b.shared[i].1),
        grown(b.shared[i].2),
        congruent(b.shared[i].2, b.shared[i].1),
{
    assert(pair_ok(b.shared[i]));
    assert(block_in(g1, voxels_of(b.shared[i], 1), b.shared[i].0));
    assert(block_in(g2, voxels_of(b.shared[i], 2), b.shared[i].0));
    crate::grow::lemma_congruent_symmetric(b.shared[i].1, b.shared[i].2);
}

/// `after` holds every record of `before` where `before` holds it, with new
/// records behind, and `after` has no id in stock that `before` has not.
pub open spec fn catalogue_extends(before: BlockSetView, after: BlockSetView) -> bool {
    &&& before.shared.is_prefix_of(after.shared)
    &&& before.half1.is_prefix_of(after.half1)
    &&& before.half2.is_prefix_of(after.half2)
    &&& after.stock.is_prefix_of(before.stock)
    &&& before.next_half_id <= after.next_half_id
}

/// Extending a catalogue twice is extending it.
pub proof fn lemma_catalogue_extends_twice(a: BlockSetView, b: BlockSetView, c: BlockSetView)
    requires
        catalogue_extends(a, b),
        catalogue_extends(b, c),
    ensures
        catalogue_extends(a, c),
{
}

/// The catalogue after every shared block of at most `th` voxels has been
/// taken out, the first such block first, again and again.
pub open spec fn drained(b: BlockSetView, th: nat) -> BlockSetView
    decreases b.shared.len(),
{
    let i = first_small(b.shared, th, 0);
    if 0 <= i < b.shared.len() {
        drained(b.pop_shared(i), th)
    } else {
        b
    }
}

/// The voxels, on one side, of the blocks that `drained` takes out, in the
/// order of taking.
pub open spec fn drained_voxels(b: BlockSetView, th: nat, side: int) -> Seq<Point>
    decreases b.shared.len(),
{
    let i = first_small(b.shared, th, 0);
    if 0 <= i < b.shared.len() {
        voxels_of(b.shared[i], side) + drained_voxels(b.pop_shared(i), th, side)
    } else {
        Seq::<Point>::empty()
    }
}

/// Taking small shared blocks out leaves the records of single-object
/// blocks alone.
pub proof fn lemma_drained_halves(b: BlockSetView, th: nat)
    ensures
        drained(b, th).half1 == b.half1,
        drained(b, th).half2 == b.half2,
        drained(b, th).next_half_id == b.next_half_id,
    decreases b.shared.len(),
{
    let i = first_small(b.shared, th, 0);
    if 0 <= i < b.shared.len() {
        lemma_drained_halves(b.pop_shared(i), th);
    }
}

/// Distinct voxels of a grid of edge `d` are at most `d³`.
pub proof fn lemma_distinct_points_fit(pts: Seq<Point>, d: u8)
    requires
        pts.no_duplicates(),
        forall|k: int| 0 <= k < pts.len() ==> (#[trigger] pts[k]).in_box(d),
    ensures
        pts.len() <= d * d * d,
{
    let idx = Seq::new(pts.len(), |k: int| cell_index(d, pts[k]));
    lemma_cube_fits(d);
    assert forall|i: int, j: int| 0 <= i < idx.len() && 0 <= j < idx.len() && i != j implies idx[i]
        != idx[j] by {
        if idx[i] == idx[j] {
            lemma_cell_index_injective(d, pts[i], pts[j]);
        }
    }
    idx.unique_seq_to_set();
    lemma_int_range(0, d * d * d);
    assert forall|a: int| idx.to_set().contains(a) implies set_int_range(0, d * d * d).contains(
        a,
    ) by {
        let k = choose|k: int| 0 <= k < idx.len() && idx[k] == a;
        lemma_cell_index_bound(d, pts[k]);
    }
    lemma_len_subset(idx.to_set(), set_int_range(0, d * d * d));
}

/// A grid of edge at most `MAX_D` has at most `MAX_CELLS` voxels.
pub proof fn lemma_max_cells(d: u8)
    requires
        d <= MAX_D,
    ensures
        d * d * d <= MAX_CELLS,
{
    assert(d * d * d <= 2744) by (nonlinear_arith)
        requires
            0 <= d <= 14,
    ;
}

/// One more voxel emptied: the state has shrunk by the list with that voxel
/// appended.
pub proof fn lemma_shrank_by_step(old: BoxView, g: BoxView, pts: Seq<Point>, r: Point)
    requires
        g.wf(),
        g.shrank_by(old, pts),
        g.taken(r),
    ensures
        g.remove(r).wf(),
        g.remove(r).shrank_by(old, pts.push(r)),
{
    lemma_remove(g, r);
    let w = g.remove(r);
    let longer = pts.push(r);
    assert forall|p: Point| p.in_box(w.d) implies #[trigger] w.label(p) == (if longer.contains(p) {
        0u16
    } else {
        old.label(p)
    }) by {
        if p == r {
            assert(longer[pts.len() as int] == r);
        } else {
            if pts.contains(p) {
                let m = choose|m: int| 0 <= m < pts.len() && pts[m] == p;
                assert(longer[m] == p);
            }
            if longer.contains(p) {
                let m = choose|m: int| 0 <= m < longer.len() && longer[m] == p;
                assert(pts[m] == p);
            }
        }
    }
}

/// Empties the voxels `pts`, which are distinct and all belong to blocks.
pub fn remove_all(grid: &mut GridBox, pts: &Vec<Point>)
    requires
        old(grid).wf(),
        pts@.no_duplicates(),
        forall|k: int| 0 <= k < pts@.len() ==> old(grid)@.taken(#[trigger] pts@[k]),
    ensures
        final(grid).wf(),
        final(grid)@.shrank_by(old(grid)@, pts@),
{
    let ghost start = grid@;
    let mut k: usize = 0;
    assert(pts@.take(0) =~= Seq::<Point>::empty());
    while k < pts.len()
        invariant
            k <= pts@.len(),
            grid.wf(),
            grid@.shrank_by(start, pts@.take(k as int)),
            pts@.no_duplicates(),
            forall|j: int| k <= j < pts@.len() ==> grid@.taken(#[trigger] pts@[j]),
        decreases pts@.len() - k,
    {
        let p: Point = pts[k];
        proof {
            lemma_shrank_by_step(start, grid@, pts@.take(k as int), p);
            lemma_remove(grid@, p);
            assert(pts@.take(k + 1) =~= pts@.take(k as int).push(p));
            assert forall|j: int| k + 1 <= j < pts@.len() implies grid@.remove(p).taken(
                #[trigger] pts@[j],
            ) by {
                assert(pts@[j] != pts@[k as int]);
                assert(grid@.taken(pts@[j]));
            }
        }
        grid.remove(p);
        k += 1;
    }
    assert(pts@.take(pts@.len() as int) =~= pts@);
}

/// Shrinking twice is shrinking by both lists.
pub proof fn lemma_shrank_twice(g: BoxView, h: BoxView, k: BoxView, a: Seq<Point>, b: Seq<Point>)
    requires
        h.shrank_by(g, a),
        k.shrank_by(h, b),
    ensures
        k.shrank_by(g, a + b),
{
    assert forall|p: Point| p.in_box(k.d) implies #[trigger] k.label(p) == (if (a + b).contains(p) {
        0u16
    } else {
        g.label(p)
    }) by {
        assert(h.label(p) == (if a.contains(p) {
            0u16
        } else {
            g.label(p)
        }));
        if a.contains(p) {
            let m = choose|m: int| 0 <= m < a.len() && a[m] == p;
            assert((a + b)[m] == p);
        }
        if b.contains(p) {
            let m = choose|m: int| 0 <= m < b.len() && b[m] == p;
            assert((a + b)[a.len() + m] == p);
        }
        if (a + b).contains(p) {
            let m = choose|m: int| 0 <= m < (a + b).len() && (a + b)[m] == p;
            if m < a.len() {
                assert(a[m] == p);
            } else {
                assert(b[m - a.len()] == p);
            }
        }
    }
}

/// The list at position `a` after a swap-remove at `i` is a list that was
/// there before, at a position other than `i`.
pub open spec fn origin_of(len: int, i: int, a: int) -> int {
    if a == i {
        len - 1
    } else {
        a
    }
}

/// One side still agrees with the catalogue after the voxels of the shared
/// block at `i` have been emptied and the block taken out.
proof fn lemma_side_after_pop(g: BoxView, h: BoxView, b: BlockSetView, i: int, side: int)
    requires
        side_ok(g, b, side),
        b.wf(),
        0 <= i < b.shared.len(),
        h.wf(),
        h.shrank_by(g, voxels_of(b.shared[i], side)),
    ensures
        side_ok(h, b.pop_shared(i), side),
{
    let gone = voxels_of(b.shared[i], side);
    let id = b.shared[i].0;
    let c = b.pop_shared(i);
    assert(block_in(g, gone, id));
    assert forall|a: int| 0 <= a < c.shared.len() implies block_in(
        h,
        voxels_of(#[trigger] c.shared[a], side),
        c.shared[a].0,
    ) && grown(voxels_of(c.shared[a], side)) by {
        let o = origin_of(b.shared.len() as int, i, a);
        assert(c.shared[a] == b.shared[o]);
        let pts = voxels_of(b.shared[o], side);
        assert(block_in(g, pts, b.shared[o].0));
        assert(b.shared[o].0 != b.shared[i].0);
        assert forall|k: int| 0 <= k < pts.len() implies (#[trigger] pts[k]).in_box(h.d) && h.label(
            pts[k],
        ) == b.shared[o].0 by {
            if gone.contains(pts[k]) {
                let m = choose|m: int| 0 <= m < gone.len() && gone[m] == pts[k];
                assert(g.label(gone[m]) == id);
            }
        }
    }
    let halves = halves_of(b, side);
    assert(halves_of(c, side) == halves);
    assert forall|k: int| 0 <= k < halves.len() implies (#[trigger] halves[k]).in_box(h.d)
        && HALF_ID_BASE <= h.label(halves[k]) < c.next_half_id by {
        if gone.contains(halves[k]) {
            let m = choose|m: int| 0 <= m < gone.len() && gone[m] == halves[k];
            assert(g.label(gone[m]) == id);
        }
    }
}

/// After the voxels of the shared block at `i` have been emptied and the
/// block taken out, every block voxel of the object is still listed.
proof fn lemma_listed_after_pop(g: BoxView, h: BoxView, b: BlockSetView, i: int, side: int)
    requires
        all_listed(g, b, side),
        0 <= i < b.shared.len(),
        h.shrank_by(g, voxels_of(b.shared[i], side)),
    ensures
        all_listed(h, b.pop_shared(i), side),
{
    let gone = voxels_of(b.shared[i], side);
    let c = b.pop_shared(i);
    assert(halves_of(c, side) == halves_of(b, side));
    assert forall|p: Point| p.in_box(h.d) && is_block(#[trigger] h.label(p)) implies listed(
        c,
        side,
        p,
    ) by {
        assert(!gone.contains(p));
        assert(is_block(g.label(p)));
        assert(listed(b, side, p));
        if !halves_of(b, side).contains(p) {
            let o = choose|o: int|
                0 <= o < b.shared.len() && #[trigger] voxels_of(b.shared[o], side).contains(p);
            let a = if o == b.shared.len() - 1 {
                i
            } else {
                o
            };
            assert(c.shared[a] == b.shared[o]);
            assert(voxels_of(c.shared[a], side).contains(p));
        }
    }
}

/// After the voxels of the single-object blocks have been emptied and
/// forgotten, every block voxel of the object is still listed.
proof fn lemma_listed_without_halves(g: BoxView, h: BoxView, b: BlockSetView, side: int)
    requires
        all_listed(g, b, side),
        h.shrank_by(g, halves_of(b, side)),
    ensures
        all_listed(h, without_halves(b), side),
{
    let c = without_halves(b);
    assert forall|p: Point| p.in_box(h.d) && is_block(#[trigger] h.label(p)) implies listed(
        c,
        side,
        p,
    ) by {
        assert(!halves_of(b, side).contains(p));
        assert(is_block(g.label(p)));
        assert(listed(b, side, p));
        let o = choose|o: int|
            0 <= o < b.shared.len() && #[trigger] voxels_of(b.shared[o], side).contains(p);
        assert(c.shared[o] == b.shared[o]);
        assert(voxels_of(c.shared[o], side).contains(p));
    }
}

/// After a shared block has grown and has been pushed, every block voxel of
/// the object is listed.
proof fn lemma_listed_after_grow(
    g: BoxView,
    h: BoxView,
    b: BlockSetView,
    side: int,
    id: u16,
    v1: Seq<Point>,
    v2: Seq<Point>,
)
    requires
        all_listed(g, b, side),
        h.grew_by(g, voxels_of((id, v1, v2), side), id),
    ensures
        all_listed(h, with_shared_block(b, id, v1, v2), side),
{
    let c = with_shared_block(b, id, v1, v2);
    let pts = voxels_of((id, v1, v2), side);
    assert(halves_of(c, side) == halves_of(b, side));
    assert forall|p: Point| p.in_box(h.d) && is_block(#[trigger] h.label(p)) implies listed(
        c,
        side,
        p,
    ) by {
        if pts.contains(p) {
            assert(c.shared[b.shared.len() as int] == (id, v1, v2));
            assert(voxels_of(c.shared[b.shared.len() as int], side).contains(p));
        } else {
            assert(is_block(g.label(p)));
            assert(listed(b, side, p));
            if !halves_of(b, side).contains(p) {
                let o = choose|o: int|
                    0 <= o < b.shared.len() && #[trigger] voxels_of(b.shared[o], side).contains(p);
                assert(c.shared[o] == b.shared[o]);
                assert(voxels_of(c.shared[o], side).contains(p));
            }
        }
    }
}

/// After a single-object block has been recorded, every block voxel of the
/// object is listed, whether the block was placed in this object or in the
/// other.
proof fn lemma_listed_after_flood(
    g: BoxView,
    h: BoxView,
    b: BlockSetView,
    side: int,
    place: u8,
    added: Seq<Point>,
)
    requires
        all_listed(g, b, side),
        side == 1 || side == 2,
        ((place == 1) == (side == 1)) ==> h.grew_by(g, added, b.next_half_id),
        ((place == 1) != (side == 1)) ==> h == g,
    ensures
        all_listed(h, with_half_block(b, place, added), side),
{
    let c = with_half_block(b, place, added);
    let old_halves = halves_of(b, side);
    assert forall|p: Point| p.in_box(h.d) && is_block(#[trigger] h.label(p)) implies listed(
        c,
        side,
        p,
    ) by {
        if (place == 1) == (side == 1) && added.contains(p) {
            let m = choose|m: int| 0 <= m < added.len() && added[m] == p;
            assert(halves_of(c, side) =~= old_halves + added);
            assert(halves_of(c, side)[old_halves.len() + m] == p);
        } else {
            assert(is_block(g.label(p)));
            assert(listed(b, side, p));
            if old_halves.contains(p) {
                let m = choose|m: int| 0 <= m < old_halves.len() && old_halves[m] == p;
                if (place == 1) == (side == 1) {
                    assert(halves_of(c, side) =~= old_halves + added);
                }
                assert(halves_of(c, side)[m] == p);
            } else {
                let o = choose|o: int|
                    0 <= o < b.shared.len() && #[trigger] voxels_of(b.shared[o], side).contains(p);
                assert(c.shared[o] == b.shared[o]);
                assert(voxels_of(c.shared[o], side).contains(p));
            }
        }
    }
}

/// The system still agrees after the shared block at `i` has been taken out
/// and its voxels emptied in both objects.
pub proof fn lemma_system_after_pop(
    g1: BoxView,
    g2: BoxView,
    b: BlockSetView,
    i: int,
    h1: BoxView,
    h2: BoxView,
)
    requires
        system_ok(g1, g2, b),
        0 <= i < b.shared.len(),
        h1.wf(),
        h2.wf(),
        h1.shrank_by(g1, b.shared[i].1),
        h2.shrank_by(g2, b.shared[i].2),
        b.pop_shared(i).wf(),
    ensures
        system_ok(h1, h2, b.pop_shared(i)),
{
    lemma_side_after_pop(g1, h1, b, i, 1);
    lemma_side_after_pop(g2, h2, b, i, 2);
    lemma_listed_after_pop(g1, h1, b, i, 1);
    lemma_listed_after_pop(g2, h2, b, i, 2);
    let c = b.pop_shared(i);
    assert forall|a: int| 0 <= a < c.shared.len() implies pair_ok(#[trigger] c.shared[a]) by {
        let o = origin_of(b.shared.len() as int, i, a);
        assert(c.shared[a] == b.shared[o]);
    }
}

/// The catalogue with the single-object blocks forgotten.
pub open spec fn without_halves(b: BlockSetView) -> BlockSetView {
    BlockSetView {
        half1: Seq::empty(),
        half2: Seq::empty(),
        next_half_id: HALF_ID_BASE,
        ..b
    }
}

/// One side still agrees with the catalogue after the voxels of its
/// single-object blocks have been emptied and forgotten.
proof fn lemma_side_without_halves(g: BoxView, h: BoxView, b: BlockSetView, side: int)
    requires
        side_ok(g, b, side),
        b.wf(),
        h.wf(),
        h.shrank_by(g, halves_of(b, side)),
    ensures
        side_ok(h, without_halves(b), side),
{
    let gone = halves_of(b, side);
    let c = without_halves(b);
    assert forall|a: int| 0 <= a < c.shared.len() implies block_in(
        h,
        voxels_of(#[trigger] c.shared[a], side),
        c.shared[a].0,
    ) && grown(voxels_of(c.shared[a], side)) by {
        assert(c.shared[a] == b.shared[a]);
        let pts = voxels_of(b.shared[a], side);
        assert(block_in(g, pts, b.shared[a].0));
        assert forall|k: int| 0 <= k < pts.len() implies (#[trigger] pts[k]).in_box(h.d) && h.label(
            pts[k],
        ) == b.shared[a].0 by {
            if gone.contains(pts[k]) {
                let m = choose|m: int| 0 <= m < gone.len() && gone[m] == pts[k];
                assert(g.label(gone[m]) >= HALF_ID_BASE);
            }
        }
    }
    assert(halves_of(c, side) =~= Seq::<Point>::empty());
}

/// The system still agrees after the single-object blocks have been emptied
/// in both objects and forgotten.
pub proof fn lemma_system_without_halves(
    g1: BoxView,
    g2: BoxView,
    b: BlockSetView,
    h1: BoxView,
    h2: BoxView,
)
    requires
        system_ok(g1, g2, b),
        h1.wf(),
        h2.wf(),
        h1.shrank_by(g1, b.half1),
        h2.shrank_by(g2, b.half2),
    ensures
        system_ok(h1, h2, without_halves(b)),
{
    lemma_side_without_halves(g1, h1, b, 1);
    lemma_side_without_halves(g2, h2, b, 2);
    lemma_listed_without_halves(g1, h1, b, 1);
    lemma_listed_without_halves(g2, h2, b, 2);
    let c = without_halves(b);
    assert forall|a: int| 0 <= a < c.shared.len() implies pair_ok(#[trigger] c.shared[a]) by {
        assert(c.shared[a] == b.shared[a]);
    }
}

/// The voxels of a shared block, or of the single-object blocks, belong to
/// blocks of the grid.
pub proof fn lemma_listed_are_taken(g: BoxView, b: BlockSetView, side: int)
    requires
        side_ok(g, b, side),
        b.wf(),
    ensures
        forall|i: int, k: int|
            0 <= i < b.shared.len() && 0 <= k < voxels_of(b.shared[i], side).len() ==> g.taken(
                #[trigger] voxels_of(b.shared[i], side)[k],
            ),
        forall|k: int| 0 <= k < halves_of(b, side).len() ==> g.taken(#[trigger] halves_of(b, side)[k]),
{
    assert forall|i: int, k: int|
        0 <= i < b.shared.len() && 0 <= k < voxels_of(b.shared[i], side).len() implies g.taken(
        #[trigger] voxels_of(b.shared[i], side)[k],
    ) by {
        assert(block_in(g, voxels_of(b.shared[i], side), b.shared[i].0));
    }
}

/// The catalogue after the next shared id has been handed out and a block
/// pushed under it.
pub open spec fn with_shared_block(
    b: BlockSetView,
    id: u16,
    v1: Seq<Point>,
    v2: Seq<Point>,
) -> BlockSetView {
    BlockSetView { shared: b.shared.push((id, v1, v2)), stock: b.without_next_id().stock, ..b }
}

/// The catalogue after the voxels `added` have been recorded for a new
/// single-object block of the object `place`.
pub open spec fn with_half_block(b: BlockSetView, place: u8, added: Seq<Point>) -> BlockSetView {
    if place == 1 {
        BlockSetView { half1: b.half1 + added, next_half_id: (b.next_half_id + 1) as u16, ..b }
    } else {
        BlockSetView { half2: b.half2 + added, next_half_id: (b.next_half_id + 1) as u16, ..b }
    }
}

/// `after` has everything that `before` has placed, under the same labels.
pub open spec fn extends(before: BoxView, after: BoxView) -> bool {
    &&& after.d == before.d
    &&& after.blank() == before.blank()
    &&& forall|p: Point|
        p.in_box(before.d) && #[trigger] before.label(p) != 0 ==> after.label(p) == before.label(p)
}

/// When empty voxels are given to a block, everything listed in the
/// catalogue keeps its label.
proof fn lemma_side_keeps(g: BoxView, h: BoxView, b: BlockSetView, side: int, pts: Seq<Point>, id: u16)
    requires
        side_ok(g, b, side),
        b.wf(),
        h.wf(),
        h.grew_by(g, pts, id),
        placeable(g, pts),
    ensures
        side_ok(h, b, side),
        extends(g, h),
{
    assert forall|p: Point| p.in_box(g.d) && #[trigger] g.label(p) != 0 implies h.label(p)
        == g.label(p) by {
        if pts.contains(p) {
            let m = choose|m: int| 0 <= m < pts.len() && pts[m] == p;
            assert(g.free(pts[m]));
        }
        assert(h.label(p) == (if pts.contains(p) {
            id
        } else {
            g.label(p)
        }));
    }
    assert forall|a: int| 0 <= a < b.shared.len() implies block_in(
        h,
        voxels_of(#[trigger] b.shared[a], side),
        b.shared[a].0,
    ) && grown(voxels_of(b.shared[a], side)) by {
        let list = voxels_of(b.shared[a], side);
        assert(block_in(g, list, b.shared[a].0));
        assert forall|k: int| 0 <= k < list.len() implies (#[trigger] list[k]).in_box(h.d) && h.label(
            list[k],
        ) == b.shared[a].0 by {
            assert(g.label(list[k]) != 0);
        }
    }
    let halves = halves_of(b, side);
    assert forall|k: int| 0 <= k < halves.len() implies (#[trigger] halves[k]).in_box(h.d)
        && HALF_ID_BASE <= h.label(halves[k]) < b.next_half_id by {
        assert(g.label(halves[k]) != 0);
    }
}

/// With one more empty voxel, the shared blocks are still at most as many as
/// the grid has voxels.
proof fn lemma_blocks_fit(g: BoxView, b: BlockSetView, extra: Point)
    requires
        side_ok(g, b, 1),
        b.wf(),
        forall|i: int| 0 <= i < b.shared.len() ==> pair_ok(#[trigger] b.shared[i]),
        g.free(extra),
    ensures
        b.shared.len() + 1 <= MAX_CELLS,
{
    let firsts = Seq::new(b.shared.len(), |i: int| b.shared[i].1[0]).push(extra);
    assert forall|k: int| 0 <= k < firsts.len() implies (#[trigger] firsts[k]).in_box(g.d) && (k
        < b.shared.len() ==> g.label(firsts[k]) == b.shared[k].0) by {
        if k < b.shared.len() {
            assert(pair_ok(b.shared[k]));
            assert(block_in(g, voxels_of(b.shared[k], 1), b.shared[k].0));
            assert(voxels_of(b.shared[k], 1)[0] == firsts[k]);
        }
    }
    assert forall|i: int, j: int|
        0 <= i < firsts.len() && 0 <= j < firsts.len() && i != j implies firsts[i] != firsts[j] by {
        if i < b.shared.len() && j < b.shared.len() {
            assert(b.shared[i].0 != b.shared[j].0);
        } else if i < b.shared.len() {
            assert(g.label(firsts[i]) == b.shared[i].0);
        } else {
            assert(g.label(firsts[j]) == b.shared[j].0);
        }
    }
    lemma_distinct_points_fit(firsts, g.d);
    lemma_max_cells(g.d);
}

/// The voxels of the single-object blocks are so few that the next id for
/// such a block fits.
pub proof fn lemma_half_ids_fit(g1: BoxView, g2: BoxView, b: BlockSetView)
    requires
        system_ok(g1, g2, b),
    ensures
        HALF_ID_BASE <= b.next_half_id <= HALF_ID_BASE + 2 * MAX_CELLS,
        b.shared.len() + b.stock.len() + 1 < HALF_ID_BASE,
{
    lemma_distinct_points_fit(b.half1, g1.d);
    lemma_distinct_points_fit(b.half2, g2.d);
    lemma_max_cells(g1.d);
}

/// The system still agrees after a shared block has grown from empty voxels
/// of both objects and has been pushed under the next shared id.
pub proof fn lemma_system_after_grow(
    g1: BoxView,
    g2: BoxView,
    b: BlockSetView,
    h1: BoxView,
    h2: BoxView,
    id: u16,
    v1: Seq<Point>,
    v2: Seq<Point>,
)
    requires
        system_ok(g1, g2, b),
        id == b.next_shared_id(),
        h1.wf(),
        h2.wf(),
        h1.grew_by(g1, v1, id),
        h2.grew_by(g2, v2, id),
        placeable(g1, v1),
        placeable(g2, v2),
        v1.len() == v2.len(),
        v1.len() >= 1,
        grown(v1),
        grown(v2),
        congruent(v1, v2),
        with_shared_block(b, id, v1, v2).wf(),
    ensures
        system_ok(h1, h2, with_shared_block(b, id, v1, v2)),
        extends(g1, h1),
        extends(g2, h2),
{
    let c = with_shared_block(b, id, v1, v2);
    lemma_side_keeps(g1, h1, b, 1, v1, id);
    lemma_side_keeps(g2, h2, b, 2, v2, id);
    lemma_listed_after_grow(g1, h1, b, 1, id, v1, v2);
    lemma_listed_after_grow(g2, h2, b, 2, id, v1, v2);
    assert(g1.free(v1[0]));
    lemma_blocks_fit(g1, b, v1[0]);
    assert forall|a: int| 0 <= a < c.shared.len() implies block_in(
        h1,
        voxels_of(#[trigger] c.shared[a], 1),
        c.shared[a].0,
    ) && grown(voxels_of(c.shared[a], 1)) && block_in(h2, voxels_of(c.shared[a], 2), c.shared[a].0)
        && grown(voxels_of(c.shared[a], 2)) && pair_ok(c.shared[a]) by {
        if a < b.shared.len() {
            assert(c.shared[a] == b.shared[a]);
        } else {
            assert(c.shared[a] == (id, v1, v2));
            assert forall|k: int| 0 <= k < v1.len() implies (#[trigger] v1[k]).in_box(h1.d)
                && h1.label(v1[k]) == id by {
                assert(g1.free(v1[k]));
                assert(v1.contains(v1[k]));
            }
            assert forall|k: int| 0 <= k < v2.len() implies (#[trigger] v2[k]).in_box(h2.d)
                && h2.label(v2[k]) == id by {
                assert(g2.free(v2[k]));
                assert(v2.contains(v2[k]));
            }
        }
    }
    assert(halves_of(c, 1) == halves_of(b, 1));
    assert(halves_of(c, 2) == halves_of(b, 2));
}

/// One side agrees with the catalogue after a single-object block has been
/// recorded, whether the block was placed on this side or on the other.
proof fn lemma_side_after_flood(
    g: BoxView,
    h: BoxView,
    b: BlockSetView,
    side: int,
    place: u8,
    added: Seq<Point>,
)
    requires
        side_ok(g, b, side),
        b.wf(),
        b.next_half_id < 0xFFFF,
        h.wf(),
        side == 1 || side == 2,
        (place == 1) == (side == 1) ==> h.grew_by(g, added, b.next_half_id) && placeable(g, added),
        (place == 1) != (side == 1) ==> h == g,
    ensures
        side_ok(h, with_half_block(b, place, added), side),
        extends(g, h),
{
    let c = with_half_block(b, place, added);
    let id = b.next_half_id;
    if (place == 1) == (side == 1) {
        lemma_side_keeps(g, h, b, side, added, id);
        let halves = halves_of(c, side);
        let old_halves = halves_of(b, side);
        assert(halves =~= old_halves + added);
        assert forall|k: int| 0 <= k < halves.len() implies (#[trigger] halves[k]).in_box(h.d)
            && HALF_ID_BASE <= h.label(halves[k]) < c.next_half_id by {
            if k < old_halves.len() {
                assert(halves[k] == old_halves[k]);
            } else {
                assert(halves[k] == added[k - old_halves.len()]);
                assert(g.free(added[k - old_halves.len()]));
                assert(added.contains(added[k - old_halves.len()]));
            }
        }
        assert forall|i: int, j: int|
            0 <= i < halves.len() && 0 <= j < halves.len() && i != j implies halves[i]
            != halves[j] by {
            if i < old_halves.len() && j < old_halves.len() {
                assert(old_halves[i] != old_halves[j]);
            } else if i >= old_halves.len() && j >= old_halves.len() {
                assert(added[i - old_halves.len()] != added[j - old_halves.len()]);
            } else if i < old_halves.len() {
                assert(g.label(old_halves[i]) != 0);
                assert(g.free(added[j - old_halves.len()]));
            } else {
                assert(g.label(old_halves[j]) != 0);
                assert(g.free(added[i - old_halves.len()]));
            }
        }
    } else {
        assert(halves_of(c, side) == halves_of(b, side));
    }
    assert forall|a: int| 0 <= a < c.shared.len() implies block_in(
        h,
        voxels_of(#[trigger] c.shared[a], side),
        c.shared[a].0,
    ) && grown(voxels_of(c.shared[a], side)) by {
        assert(c.shared[a] == b.shared[a]);
    }
}

/// The system still agrees after a single-object block has flooded from an
/// empty voxel of the object `place` and has been recorded.
pub proof fn lemma_system_after_flood(
    g1: BoxView,
    g2: BoxView,
    b: BlockSetView,
    h1: BoxView,
    h2: BoxView,
    place: u8,
    added: Seq<Point>,
)
    requires
        system_ok(g1, g2, b),
        h1.wf(),
        h2.wf(),
        added.len() >= 1,
        place == 1 ==> h2 == g2 && h1.grew_by(g1, added, b.next_half_id) && placeable(g1, added),
        place != 1 ==> h1 == g1 && h2.grew_by(g2, added, b.next_half_id) && placeable(g2, added),
    ensures
        system_ok(h1, h2, with_half_block(b, place, added)),
        extends(g1, h1),
        extends(g2, h2),
{
    lemma_half_ids_fit(g1, g2, b);
    lemma_side_after_flood(g1, h1, b, 1, place, added);
    lemma_side_after_flood(g2, h2, b, 2, place, added);
    lemma_listed_after_flood(g1, h1, b, 1, place, added);
    lemma_listed_after_flood(g2, h2, b, 2, place, added);
    let c = with_half_block(b, place, added);
    assert forall|a: int| 0 <= a < c.shared.len() implies pair_ok(#[trigger] c.shared[a]) by {
        assert(c.shared[a] == b.shared[a]);
    }
}

/// Extending twice is extending.
pub proof fn lemma_extends_twice(a: BoxView, b: BoxView, c: BoxView)
    requires
        extends(a, b),
        extends(b, c),
    ensures
        extends(a, c),
{
    assert forall|p: Point| p.in_box(a.d) && #[trigger] a.label(p) != 0 implies c.label(p)
        == a.label(p) by {
        assert(b.label(p) == a.label(p));
    }
}

/// The mathematical content of a `GridSystem`.
#[verifier::ext_equal]
pub struct SystemView {
    pub g1: BoxView,
    pub g2: BoxView,
    pub blocks: BlockSetView,
}

/// The two objects and the catalogue of their blocks.
#[derive(Clone)]
pub struct GridSystem {
    pub grid_1: GridBox,
    pub grid_2: GridBox,
    pub block: BlockSet,
}

impl View for GridSystem {
    type V = SystemView;

    open spec fn view(&self) -> SystemView {
        SystemView { g1: self.grid_1@, g2: self.grid_2@, blocks: self.block@ }
    }
}

/// `after` is `before` with the single-object blocks erased and, if `th` is
/// not zero, every shared block of at most `th` voxels erased too.
pub open spec fn erased(before: SystemView, after: SystemView, th: nat) -> bool {
    let cleared = without_halves(before.blocks);
    if th > 0 {
        &&& after.blocks == drained(cleared, th)
        &&& after.g1.shrank_by(before.g1, before.blocks.half1 + drained_voxels(cleared, th, 1))
        &&& after.g2.shrank_by(before.g2, before.blocks.half2 + drained_voxels(cleared, th, 2))
    } else {
        &&& after.blocks == cleared
        &&& after.g1.shrank_by(before.g1, before.blocks.half1)
        &&& after.g2.shrank_by(before.g2, before.blocks.half2)
    }
}

/// `after` is `before` with the shared block at `i` erased.
pub open spec fn popped(before: SystemView, after: SystemView, i: int) -> bool {
    &&& after.blocks == before.blocks.pop_shared(i)
    &&& after.g1.shrank_by(before.g1, before.blocks.shared[i].1)
    &&& after.g2.shrank_by(before.g2, before.blocks.shared[i].2)
}

/// A copy of a vector of labels.
pub fn copy_labels(v: &Vec<u16>) -> (r: Vec<u16>)
    ensures
        r@ == v@,
{
    let mut r: Vec<u16> = Vec::new();
    let mut i: usize = 0;
    while i < v.len()
        invariant
            i <= v@.len(),
            r@ == v@.take(i as int),
        decreases v@.len() - i,
    {
        r.push(v[i]);
        i += 1;
        assert(r@ =~= v@.take(i as int));
    }
    assert(v@.take(v@.len() as int) =~= v@);
    r
}

/// A copy of a vector of counters.
pub fn copy_counters(v: &Vec<u8>) -> (r: Vec<u8>)
    ensures
        r@ == v@,
{
    let mut r: Vec<u8> = Vec::new();
    let mut i: usize = 0;
    while i < v.len()
        invariant
            i <= v@.len(),
            r@ == v@.take(i as int),
        decreases v@.len() - i,
    {
        r.push(v[i]);
        i += 1;
        assert(r@ =~= v@.take(i as int));
    }
    assert(v@.take(v@.len() as int) =~= v@);
    r
}

/// A copy of a vector of voxels.
pub fn copy_points(v: &Vec<Point>) -> (r: Vec<Point>)
    ensures
        r@ == v@,
{
    let mut r: Vec<Point> = Vec::new();
    let mut i: usize = 0;
    while i < v.len()
        invariant
            i <= v@.len(),
            r@ == v@.take(i as int),
        decreases v@.len() - i,
    {
        r.push(v[i]);
        i += 1;
        assert(r@ =~= v@.take(i as int));
    }
    assert(v@.take(v@.len() as int) =~= v@);
    r
}

/// A copy of one object.
pub fn copy_box(g: &GridBox) -> (r: GridBox)
    ensures
        r@ == g@,
        g.wf() ==> r.wf(),
{
    GridBox {
        d: g.d,
        grid: Grid3 { d: g.grid.d, data: copy_labels(&g.grid.data) },
        front: GridFront { d: g.front.d, data: copy_counters(&g.front.data) },
        right: GridRight { d: g.right.d, data: copy_counters(&g.right.data) },
    }
}

/// A copy of a catalogue.
pub fn copy_blocks(b: &BlockSet) -> (r: BlockSet)
    ensures
        r@ == b@,
{
    let mut shared: Vec<SharedBlock> = Vec::new();
    let mut i: usize = 0;
    while i < b.shared.len()
        invariant
            i <= b.shared@.len(),
            shared@.len() == i,
            shared_view(shared@) == shared_view(b.shared@).take(i as int),
        decreases b.shared@.len() - i,
    {
        let ghost before = shared_view(shared@);
        let ghost prev = shared@;
        let entry: SharedBlock = (
            b.shared[i].0,
            copy_points(&b.shared[i].1),
            copy_points(&b.shared[i].2),
        );
        shared.push(entry);
        i += 1;
        proof {
            let now = shared_view(shared@);
            let want = shared_view(b.shared@).take(i as int);
            assert(shared@ == prev.push(entry));
            assert(now.len() == i && want.len() == i);
            assert forall|k: int| 0 <= k < now.len() implies now[k] == want[k] by {
                assert(want[k] == shared_view(b.shared@)[k]);
                if k < i - 1 {
                    assert(shared@[k] == prev[k]);
                    assert(before[k] == want[k]);
                } else {
                    assert(shared@[k] == entry);
                }
            }
            assert(now =~= want);
        }
    }
    assert(shared_view(b.shared@).take(b.shared@.len() as int) =~= shared_view(b.shared@));
    BlockSet {
        shared,
        shared_id_stock: copy_labels(&b.shared_id_stock),
        half1: copy_points(&b.half1),
        half2: copy_points(&b.half2),
        next_half_id: b.next_half_id,
    }
}

impl GridSystem {
    /// Both objects are well formed and agree with the catalogue.
    pub open spec fn wf(&self) -> bool {
        &&& self.grid_1.wf()
        &&& self.grid_2.wf()
        &&& system_ok(self.grid_1@, self.grid_2@, self.block@)
    }

    /// A copy of the whole state, to go back to.
    pub fn snapshot(&self) -> (r: GridSystem)
        ensures
            r@ == self@,
            self.wf() ==> r.wf(),
    {
        GridSystem {
            grid_1: copy_box(&self.grid_1),
            grid_2: copy_box(&self.grid_2),
            block: copy_blocks(&self.block),
        }
    }

    /// Erases the blocks that only one object has and then, if
    /// `erase_small_th` is not zero, every shared block of at most
    /// `erase_small_th` voxels. The ids of erased shared blocks go to the
    /// stock.
    pub fn erase_half(&mut self, erase_small_th: usize)
        requires
            old(self).wf(),
        ensures
            final(self).wf(),
            erased(old(self)@, final(self)@, erase_small_th as nat),
    {
        let ghost start = self@;
        let ghost cleared = without_halves(start.blocks);
        let ghost th: nat = erase_small_th as nat;
        proof {
            lemma_listed_are_taken(self.grid_1@, self.block@, 1);
            lemma_listed_are_taken(self.grid_2@, self.block@, 2);
        }
        remove_all(&mut self.grid_1, &self.block.half1);
        remove_all(&mut self.grid_2, &self.block.half2);
        self.block.half_reset();
        proof {
            lemma_system_without_halves(start.g1, start.g2, start.blocks, self.grid_1@, self.grid_2@);
            assert(self.block@ == cleared);
        }
        if erase_small_th > 0 {
            let ghost mut gone1: Seq<Point> = start.blocks.half1;
            let ghost mut gone2: Seq<Point> = start.blocks.half2;
            loop
                invariant
                    self.wf(),
                    th == erase_small_th,
                    cleared == without_halves(start.blocks),
                    drained(self.block@, th) == drained(cleared, th),
                    gone1 + drained_voxels(self.block@, th, 1) == start.blocks.half1
                        + drained_voxels(cleared, th, 1),
                    gone2 + drained_voxels(self.block@, th, 2) == start.blocks.half2
                        + drained_voxels(cleared, th, 2),
                    self.grid_1@.shrank_by(start.g1, gone1),
                    self.grid_2@.shrank_by(start.g2, gone2),
                ensures
                    self.wf(),
                    self.block@ == drained(cleared, th),
                    self.grid_1@.shrank_by(
                        start.g1,
                        start.blocks.half1 + drained_voxels(cleared, th, 1),
                    ),
                    self.grid_2@.shrank_by(
                        start.g2,
                        start.blocks.half2 + drained_voxels(cleared, th, 2),
                    ),
                decreases self.block@.shared.len(),
            {
                let ghost before = self@;
                proof {
                    lemma_listed_are_taken(self.grid_1@, self.block@, 1);
                    lemma_listed_are_taken(self.grid_2@, self.block@, 2);
                    lemma_first_small(before.blocks.shared, th, 0);
                }
                match self.block.pop_small(erase_small_th) {
                    Some((p1, p2)) => {
                        let ghost i = first_small(before.blocks.shared, th, 0);
                        proof {
                            assert(block_in(before.g1, voxels_of(before.blocks.shared[i], 1), before.blocks.shared[i].0));
                            assert(block_in(before.g2, voxels_of(before.blocks.shared[i], 2), before.blocks.shared[i].0));
                            assert forall|k: int| 0 <= k < p1@.len() implies before.g1.taken(
                                #[trigger] p1@[k],
                            ) by {
                                assert(p1@[k] == voxels_of(before.blocks.shared[i], 1)[k]);
                            }
                            assert forall|k: int| 0 <= k < p2@.len() implies before.g2.taken(
                                #[trigger] p2@[k],
                            ) by {
                                assert(p2@[k] == voxels_of(before.blocks.shared[i], 2)[k]);
                            }
                        }
                        remove_all(&mut self.grid_1, &p1);
                        remove_all(&mut self.grid_2, &p2);
                        proof {
                            lemma_system_after_pop(
                                before.g1,
                                before.g2,
                                before.blocks,
                                i,
                                self.grid_1@,
                                self.grid_2@,
                            );
                            lemma_shrank_twice(start.g1, before.g1, self.grid_1@, gone1, p1@);
                            lemma_shrank_twice(start.g2, before.g2, self.grid_2@, gone2, p2@);
                            assert((gone1 + p1@) + drained_voxels(self.block@, th, 1) =~= gone1 + (
                            p1@ + drained_voxels(self.block@, th, 1)));
                            assert((gone2 + p2@) + drained_voxels(self.block@, th, 2) =~= gone2 + (
                            p2@ + drained_voxels(self.block@, th, 2)));
                            gone1 = gone1 + p1@;
                            gone2 = gone2 + p2@;
                        }
                    },
                    None => {
                        proof {
                            assert(gone1 + Seq::<Point>::empty() =~= gone1);
                            assert(gone2 + Seq::<Point>::empty() =~= gone2);
                        }
                        break ;
                    },
                }
            }
        }
    }

    /// Erases the shared block at position `i`.
    pub fn erase_shared_at(&mut self, i: usize)
        requires
            old(self).wf(),
            i < old(self)@.blocks.shared.len(),
        ensures
            final(self).wf(),
            popped(old(self)@, final(self)@, i as int),
    {
        let ghost before = self@;
        proof {
            lemma_listed_are_taken(self.grid_1@, self.block@, 1);
            lemma_listed_are_taken(self.grid_2@, self.block@, 2);
            assert(block_in(before.g1, voxels_of(before.blocks.shared[i as int], 1), before.blocks.shared[i as int].0));
            assert(block_in(before.g2, voxels_of(before.blocks.shared[i as int], 2), before.blocks.shared[i as int].0));
        }
        let (p1, p2) = self.block.pop_shared(i);
        proof {
            assert forall|k: int| 0 <= k < p1@.len() implies before.g1.taken(#[trigger] p1@[k]) by {
                assert(p1@[k] == voxels_of(before.blocks.shared[i as int], 1)[k]);
            }
            assert forall|k: int| 0 <= k < p2@.len() implies before.g2.taken(#[trigger] p2@[k]) by {
                assert(p2@[k] == voxels_of(before.blocks.shared[i as int], 2)[k]);
            }
        }
        remove_all(&mut self.grid_1, &p1);
        remove_all(&mut self.grid_2, &p2);
        proof {
            lemma_system_after_pop(
                before.g1,
                before.g2,
                before.blocks,
                i as int,
                self.grid_1@,
                self.grid_2@,
            );
        }
    }

    /// With a chance of `chance`, and if there is a shared block at all,
    /// erases one shared block picked at random.
    pub fn erase_shared(&mut self, rng: &mut Mcg128Xsl64, chance: Chance)
        requires
            old(self).wf(),
            chance.wf(),
        ensures
            final(self).wf(),
            final(self)@ == old(self)@ || exists|i: int|
                0 <= i < old(self)@.blocks.shared.len() && #[trigger] popped(
                    old(self)@,
                    final(self)@,
                    i,
                ),
            old(self)@.blocks.shared.len() == 0 || chance.numerator == 0 ==> final(self)@ == old(
                self,
            )@,
            old(self)@.blocks.shared.len() > 0 && chance.numerator == chance.denominator
                ==> final(self)@ != old(self)@,
    {
        if self.block.shared.len() > 0 && random_ratio(rng, chance.numerator, chance.denominator) {
            let i: usize = random_below(rng, self.block.shared.len());
            let ghost before = self@;
            self.erase_shared_at(i);
            assert(popped(before, self@, i as int));
            assert(self@.blocks.shared.len() != before.blocks.shared.len());
        }
    }
}

/// The first small block, if there is one, lies in the list and is small,
/// and no block before it is.
pub proof fn lemma_first_small(s: Seq<SharedEntry>, th: nat, from: int)
    requires
        0 <= from <= s.len(),
    ensures
        from <= first_small(s, th, from) <= s.len(),
        first_small(s, th, from) < s.len() ==> s[first_small(s, th, from)].1.len() <= th,
        forall|k: int| from <= k < first_small(s, th, from) ==> (#[trigger] s[k]).1.len() > th,
    decreases s.len() - from,
{
    if from < s.len() && s[from].1.len() > th {
        lemma_first_small(s, th, from + 1);
    }
}

/// A chance, as a fraction of two whole numbers.
#[derive(Debug, Copy, Clone, PartialEq, Eq)]
pub struct Chance {
    pub numerator: u32,
    pub denominator: u32,
}

impl Chance {
    /// The fraction lies between zero and one.
    pub open spec fn wf(self) -> bool {
        self.denominator > 0 && self.numerator <= self.denominator
    }
}

} // verus!
