//! The score of a state: the shares of its shared blocks and the costs of
//! its single-object blocks, and how it changes when a block is added.

use vstd::prelude::*;
use crate::block_set::{sum_shares, BlockSetView, HALF_ID_BASE, SharedEntry};
use crate::box_view::{placeable, BoxView};
use crate::point::Point;
use crate::score::{half_cost, lemma_share_bounds, share, MAX_CELLS, SCORE_UNIT};
use crate::system::{
    extends, halves_of, lemma_distinct_points_fit, lemma_half_ids_fit, lemma_listed_are_taken,
    lemma_max_cells, lemma_system_after_flood, system_ok, with_half_block, with_shared_block,
    SystemView,
};

verus! {

/// A bound on the score of any state: five units for each voxel of a grid of
/// the largest size.
pub const SCORE_CEILING: u64 = 5 * MAX_CELLS * SCORE_UNIT;

/// The number of the voxels `pts` that carry the label `id`.
pub open spec fn count_label(g: BoxView, pts: Seq<Point>, id: u16) -> nat
    decreases pts.len(),
{
    if pts.len() == 0 {
        0
    } else {
        count_label(g, pts.drop_last(), id) + if g.label(pts.last()) == id {
            1nat
        } else {
            0nat
        }
    }
}

/// The number of voxels of the single-object block `id`.
pub open spec fn half_size(g1: BoxView, g2: BoxView, b: BlockSetView, id: u16) -> nat {
    count_label(g1, b.half1, id) + count_label(g2, b.half2, id)
}

/// The cost of the single-object blocks with ids from `from` up to, but not
/// including, `to`.
pub open spec fn half_total(g1: BoxView, g2: BoxView, b: BlockSetView, from: int, to: int) -> nat
    decreases to - from,
{
    if to <= from {
        0
    } else {
        half_total(g1, g2, b, from, to - 1) + half_cost(half_size(g1, g2, b, (to - 1) as u16))
    }
}

/// The score of a state: the shares of the shared blocks and the costs of
/// the single-object blocks.
pub open spec fn total_score(s: SystemView) -> nat {
    sum_shares(s.blocks.shared) + half_total(
        s.g1,
        s.g2,
        s.blocks,
        HALF_ID_BASE as int,
        s.blocks.next_half_id as int,
    )
}

proof fn lemma_count_same(g: BoxView, h: BoxView, pts: Seq<Point>, id: u16)
    requires
        forall|k: int| 0 <= k < pts.len() ==> h.label(#[trigger] pts[k]) == g.label(pts[k]),
    ensures
        count_label(h, pts, id) == count_label(g, pts, id),
    decreases pts.len(),
{
    if pts.len() > 0 {
        assert forall|k: int| 0 <= k < pts.drop_last().len() implies h.label(
            #[trigger] pts.drop_last()[k],
        ) == g.label(pts.drop_last()[k]) by {
            assert(pts.drop_last()[k] == pts[k]);
        }
        lemma_count_same(g, h, pts.drop_last(), id);
        assert(pts.last() == pts[pts.len() - 1]);
    }
}

proof fn lemma_count_concat(g: BoxView, a: Seq<Point>, b: Seq<Point>, id: u16)
    ensures
        count_label(g, a + b, id) == count_label(g, a, id) + count_label(g, b, id),
    decreases b.len(),
{
    if b.len() == 0 {
        assert(a + b =~= a);
    } else {
        lemma_count_concat(g, a, b.drop_last(), id);
        assert((a + b).drop_last() =~= a + b.drop_last());
        assert((a + b).last() == b.last());
    }
}

proof fn lemma_count_all(g: BoxView, pts: Seq<Point>, id: u16)
    ensures
        (forall|k: int| 0 <= k < pts.len() ==> g.label(#[trigger] pts[k]) == id) ==> count_label(
            g,
            pts,
            id,
        ) == pts.len(),
        (forall|k: int| 0 <= k < pts.len() ==> g.label(#[trigger] pts[k]) != id) ==> count_label(
            g,
            pts,
            id,
        ) == 0,
    decreases pts.len(),
{
    if pts.len() > 0 {
        lemma_count_all(g, pts.drop_last(), id);
        assert(pts.last() == pts[pts.len() - 1]);
        if forall|k: int| 0 <= k < pts.len() ==> g.label(#[trigger] pts[k]) == id {
            assert forall|k: int| 0 <= k < pts.drop_last().len() implies g.label(
                #[trigger] pts.drop_last()[k],
            ) == id by {
                assert(pts.drop_last()[k] == pts[k]);
            }
        }
        if forall|k: int| 0 <= k < pts.len() ==> g.label(#[trigger] pts[k]) != id {
            assert forall|k: int| 0 <= k < pts.drop_last().len() implies g.label(
                #[trigger] pts.drop_last()[k],
            ) != id by {
                assert(pts.drop_last()[k] == pts[k]);
            }
        }
    }
}

proof fn lemma_half_total_same(
    g1: BoxView,
    g2: BoxView,
    b: BlockSetView,
    h1: BoxView,
    h2: BoxView,
    c: BlockSetView,
    from: int,
    to: int,
)
    requires
        0 <= from,
        to <= 0xFFFF,
        forall|id: u16| from <= id < to ==> half_size(h1, h2, c, id) == half_size(g1, g2, b, id),
    ensures
        half_total(h1, h2, c, from, to) == half_total(g1, g2, b, from, to),
    decreases to - from,
{
    if to > from {
        lemma_half_total_same(g1, g2, b, h1, h2, c, from, to - 1);
        let id = (to - 1) as u16;
        assert(half_size(h1, h2, c, id) == half_size(g1, g2, b, id));
    }
}

/// The number of the voxels `pts` whose label lies in `[from, to)`.
pub open spec fn count_labels_in(g: BoxView, pts: Seq<Point>, from: int, to: int) -> nat
    decreases pts.len(),
{
    if pts.len() == 0 {
        0
    } else {
        count_labels_in(g, pts.drop_last(), from, to) + if from <= g.label(pts.last()) < to {
            1nat
        } else {
            0nat
        }
    }
}

proof fn lemma_count_labels_in(g: BoxView, pts: Seq<Point>, from: int, to: int)
    requires
        0 <= from < to,
        to <= 0x10000,
    ensures
        count_labels_in(g, pts, from, to) == count_labels_in(g, pts, from, to - 1) + count_label(
            g,
            pts,
            (to - 1) as u16,
        ),
        count_labels_in(g, pts, from, to) <= pts.len(),
    decreases pts.len(),
{
    if pts.len() > 0 {
        lemma_count_labels_in(g, pts.drop_last(), from, to);
    }
}

proof fn lemma_sum_shares_bound(s: Seq<SharedEntry>)
    ensures
        sum_shares(s) <= s.len() * SCORE_UNIT,
    decreases s.len(),
{
    if s.len() > 0 {
        lemma_sum_shares_bound(s.drop_last());
        lemma_share_bounds(s.last().1.len());
        assert(s.len() * SCORE_UNIT == (s.len() - 1) * SCORE_UNIT + SCORE_UNIT) by (nonlinear_arith);
    }
}

proof fn lemma_half_total_bound(g1: BoxView, g2: BoxView, b: BlockSetView, from: int, to: int)
    requires
        0 <= from <= to,
        to <= 0x10000,
    ensures
        half_total(g1, g2, b, from, to) <= (count_labels_in(g1, b.half1, from, to)
            + count_labels_in(g2, b.half2, from, to) + (to - from)) * SCORE_UNIT,
    decreases to - from,
{
    if to > from {
        lemma_half_total_bound(g1, g2, b, from, to - 1);
        lemma_count_labels_in(g1, b.half1, from, to);
        lemma_count_labels_in(g2, b.half2, from, to);
        let size = half_size(g1, g2, b, (to - 1) as u16);
        lemma_share_bounds(size);
        let before = count_labels_in(g1, b.half1, from, to - 1) + count_labels_in(
            g2,
            b.half2,
            from,
            to - 1,
        ) + (to - 1 - from);
        assert((before + size + 1) * SCORE_UNIT == before * SCORE_UNIT + size * SCORE_UNIT
            + SCORE_UNIT) by (nonlinear_arith);
    } else {
        lemma_count_labels_empty(g1, b.half1, from, to);
        lemma_count_labels_empty(g2, b.half2, from, to);
    }
}

proof fn lemma_count_labels_empty(g: BoxView, pts: Seq<Point>, from: int, to: int)
    requires
        to <= from,
    ensures
        count_labels_in(g, pts, from, to) == 0,
    decreases pts.len(),
{
    if pts.len() > 0 {
        lemma_count_labels_empty(g, pts.drop_last(), from, to);
    }
}

/// No state that agrees with its catalogue scores more than the ceiling.
pub proof fn lemma_score_ceiling(s: SystemView)
    requires
        system_ok(s.g1, s.g2, s.blocks),
    ensures
        total_score(s) <= SCORE_CEILING,
{
    let b = s.blocks;
    lemma_sum_shares_bound(b.shared);
    lemma_half_ids_fit(s.g1, s.g2, b);
    lemma_half_total_bound(s.g1, s.g2, b, HALF_ID_BASE as int, b.next_half_id as int);
    lemma_count_labels_in(s.g1, b.half1, HALF_ID_BASE as int, (b.next_half_id + 1) as int);
    lemma_count_labels_in(s.g2, b.half2, HALF_ID_BASE as int, (b.next_half_id + 1) as int);
    lemma_distinct_points_fit(b.half1, s.g1.d);
    lemma_distinct_points_fit(b.half2, s.g2.d);
    lemma_max_cells(s.g1.d);
    let halves = count_labels_in(
        s.g1,
        b.half1,
        HALF_ID_BASE as int,
        b.next_half_id as int,
    ) + count_labels_in(s.g2, b.half2, HALF_ID_BASE as int, b.next_half_id as int) + (
    b.next_half_id - HALF_ID_BASE);
    assert(halves <= 4 * MAX_CELLS);
    assert(halves * SCORE_UNIT <= 4 * MAX_CELLS * SCORE_UNIT) by (nonlinear_arith)
        requires
            halves <= 4 * MAX_CELLS,
    ;
    assert(b.shared.len() * SCORE_UNIT <= MAX_CELLS * SCORE_UNIT) by (nonlinear_arith)
        requires
            b.shared.len() <= MAX_CELLS,
    ;
}

/// A new shared block adds its share to the score.
pub proof fn lemma_score_after_grow(
    g1: BoxView,
    g2: BoxView,
    b: BlockSetView,
    h1: BoxView,
    h2: BoxView,
    id: u16,
    v1: Seq<Point>,
    v2: Seq<Point>,
)
    requires
        system_ok(g1, g2, b),
        extends(g1, h1),
        extends(g2, h2),
    ensures
        total_score(SystemView { g1: h1, g2: h2, blocks: with_shared_block(b, id, v1, v2) })
            == total_score(SystemView { g1, g2, blocks: b }) + share(v1.len()),
{
    let c = with_shared_block(b, id, v1, v2);
    assert(c.shared.drop_last() =~= b.shared);
    assert forall|hid: u16| HALF_ID_BASE <= hid < b.next_half_id implies half_size(h1, h2, c, hid)
        == half_size(g1, g2, b, hid) by {
        lemma_listed_are_taken(g1, b, 1);
        lemma_listed_are_taken(g2, b, 2);
        assert forall|k: int| 0 <= k < b.half1.len() implies h1.label(#[trigger] b.half1[k])
            == g1.label(b.half1[k]) by {
            assert(g1.taken(halves_of(b, 1)[k]));
        }
        assert forall|k: int| 0 <= k < b.half2.len() implies h2.label(#[trigger] b.half2[k])
            == g2.label(b.half2[k]) by {
            assert(g2.taken(halves_of(b, 2)[k]));
        }
        lemma_count_same(g1, h1, b.half1, hid);
        lemma_count_same(g2, h2, b.half2, hid);
    }
    lemma_half_total_same(g1, g2, b, h1, h2, c, HALF_ID_BASE as int, b.next_half_id as int);
}

/// A new single-object block adds its cost to the score.
pub proof fn lemma_score_after_flood(
    g1: BoxView,
    g2: BoxView,
    b: BlockSetView,
    h1: BoxView,
    h2: BoxView,
    place: u8,
    added: Seq<Point>,
)
    requires
        system_ok(g1, g2, b),
        h1.wf(),
        h2.wf(),
        added.len() >= 1,
        place == 1 ==> h2 == g2 && h1.grew_by(g1, added, b.next_half_id) && placeable(g1, added),
        place != 1 ==> h1 == g1 && h2.grew_by(g2, added, b.next_half_id) && placeable(g2, added),
    ensures
        total_score(SystemView { g1: h1, g2: h2, blocks: with_half_block(b, place, added) })
            == total_score(SystemView { g1, g2, blocks: b }) + half_cost(added.len()),
{
    let c = with_half_block(b, place, added);
    let id = b.next_half_id;
    lemma_half_ids_fit(g1, g2, b);
    lemma_system_after_flood(g1, g2, b, h1, h2, place, added);
    lemma_listed_are_taken(g1, b, 1);
    lemma_listed_are_taken(g2, b, 2);
    assert forall|k: int| 0 <= k < b.half1.len() implies h1.label(#[trigger] b.half1[k])
        == g1.label(b.half1[k]) && g1.label(b.half1[k]) < id by {
        assert(g1.taken(halves_of(b, 1)[k]));
    }
    assert forall|k: int| 0 <= k < b.half2.len() implies h2.label(#[trigger] b.half2[k])
        == g2.label(b.half2[k]) && g2.label(b.half2[k]) < id by {
        assert(g2.taken(halves_of(b, 2)[k]));
    }
    let h = if place == 1 {
        h1
    } else {
        h2
    };
    let g = if place == 1 {
        g1
    } else {
        g2
    };
    assert forall|k: int| 0 <= k < added.len() implies h.label(#[trigger] added[k]) == id by {
        assert(g.free(added[k]));
        assert(added.contains(added[k]));
    }
    assert forall|hid: u16| HALF_ID_BASE <= hid <= id implies half_size(h1, h2, c, hid) == half_size(
        g1,
        g2,
        b,
        hid,
    ) + if hid == id {
        added.len()
    } else {
        0
    } by {
        lemma_count_same(g1, h1, b.half1, hid);
        lemma_count_same(g2, h2, b.half2, hid);
        lemma_count_all(h, added, hid);
        if place == 1 {
            lemma_count_concat(h1, b.half1, added, hid);
        } else {
            lemma_count_concat(h2, b.half2, added, hid);
        }
    }
    lemma_count_all(g1, b.half1, id);
    lemma_count_all(g2, b.half2, id);
    lemma_half_total_same(g1, g2, b, h1, h2, c, HALF_ID_BASE as int, id as int);
    assert(half_size(h1, h2, c, id) == added.len());
}

} // verus!
