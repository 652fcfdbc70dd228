//! The greedy fill: blocks are added until both objects cover their
//! silhouettes, shared blocks where both objects still need a voxel and
//! single-object blocks where only one does.

use vstd::prelude::*;
use rand_pcg::Mcg128Xsl64;
use crate::box_view::{free_cells, BoxView};
use crate::classify::{
    can_of, hole_points, lemma_offered_is_free, lemma_satisfied_is_covered, yet_of, yet_yet_of,
    YetPointSet,
};
use crate::flood::{
    flood_run, flood_start, recorded_since, saturated, single_update_loop, FloodView, TOO_DEAR,
};
use crate::grow::{all_six, grow_shared_block, grown_from, usable};
use crate::hole::{lemma_entries_in_box, xzy_entries, xzy_view, HoleXZYY};
use crate::point::Point;
use crate::score::{half_cost, share, share_of};
use crate::system::{
    catalogue_extends, extends, halves_of, lemma_catalogue_extends_twice, lemma_extends_twice,
    lemma_half_ids_fit, lemma_system_after_flood, lemma_system_after_grow, with_half_block,
    system_ok, with_shared_block, GridSystem, SystemView,
};
use crate::tally::{
    lemma_score_after_flood, lemma_score_after_grow, lemma_score_ceiling, total_score,
    SCORE_CEILING,
};

verus! {

/// The columns `hole` are those of the hole of an object with the
/// silhouettes of `v`.
pub open spec fn hole_matches(hole: Seq<HoleXZYY>, v: BoxView) -> bool {
    xzy_view(hole) == xzy_entries(v.blank(), v.d as nat)
}

/// What one round of the fill draws: the voxel that the classifier offers
/// for each object, if it offers one, and the two orders of the six
/// directions in which a shared block grows.
pub struct Pick {
    pub p1: Option<Point>,
    pub p2: Option<Point>,
    pub directions1: Seq<u8>,
    pub directions2: Seq<u8>,
}

/// The classifier, walking the hole of the object `v`, may offer `p`: a
/// voxel of the most urgent class that is not empty, or nothing if all
/// three classes are empty.
pub open spec fn offers(v: BoxView, p: Option<Point>) -> bool {
    let pts = hole_points(xzy_entries(v.blank(), v.d as nat));
    if yet_yet_of(v, pts).len() > 0 {
        p is Some && yet_yet_of(v, pts).contains(p->0)
    } else if yet_of(v, pts).len() > 0 {
        p is Some && yet_of(v, pts).contains(p->0)
    } else if can_of(v, pts).len() > 0 {
        p is Some && can_of(v, pts).contains(p->0)
    } else {
        p is None
    }
}

/// The state after a shared block has grown from `p1` and `p2`, with the
/// directions tried in the orders given, and has been recorded under the
/// next shared id.
pub open spec fn shared_step(
    s: SystemView,
    p1: Point,
    p2: Point,
    directions1: Seq<u8>,
    directions2: Seq<u8>,
) -> SystemView {
    let id = s.blocks.next_shared_id() as u16;
    let end = grown_from(s.g1, s.g2, p1, p2, id, directions1, directions2);
    SystemView {
        g1: end.g1,
        g2: end.g2,
        blocks: with_shared_block(s.blocks, id, end.pp1, end.pp2),
    }
}

/// The share of the block that `shared_step` adds.
pub open spec fn shared_share(
    s: SystemView,
    p1: Point,
    p2: Point,
    directions1: Seq<u8>,
    directions2: Seq<u8>,
) -> nat {
    share(
        grown_from(
            s.g1,
            s.g2,
            p1,
            p2,
            s.blocks.next_shared_id() as u16,
            directions1,
            directions2,
        ).pp1.len(),
    )
}

/// The voxels of the block that floods from `p` in the object `place` with
/// `room` as cut-off.
pub open spec fn flooded(s: SystemView, p: Point, room: u64, place: u8) -> FloodView {
    let id = s.blocks.next_half_id;
    if place == 1 {
        flood_run(flood_start(s.g1, p, id), id, room)
    } else {
        flood_run(flood_start(s.g2, p, id), id, room)
    }
}

/// The state after a single-object block has flooded from `p` in the object
/// `place` and has been recorded; the state as it was if `room` is at most
/// `TOO_DEAR`.
pub open spec fn single_step(s: SystemView, p: Point, room: u64, place: u8) -> SystemView {
    if room <= TOO_DEAR {
        s
    } else if place == 1 {
        SystemView {
            g1: flooded(s, p, room, place).g,
            g2: s.g2,
            blocks: with_half_block(s.blocks, place, flooded(s, p, room, place).added),
        }
    } else {
        SystemView {
            g1: s.g1,
            g2: flooded(s, p, room, place).g,
            blocks: with_half_block(s.blocks, place, flooded(s, p, room, place).added),
        }
    }
}

/// The cost of the block that `single_step` adds; `TOO_DEAR` if it adds
/// none.
pub open spec fn single_cost(s: SystemView, p: Point, room: u64, place: u8) -> nat {
    if room <= TOO_DEAR {
        TOO_DEAR as nat
    } else {
        half_cost(flooded(s, p, room, place).added.len())
    }
}

/// One round of the fill in the state `s` with `room` left below the
/// cut-off: with a voxel of both objects a shared block is grown; with a
/// voxel of one object only, a single-object block floods from it. Gives the
/// new state and the score of the block.
pub open spec fn fill_round(s: SystemView, pick: Pick, room: u64) -> (SystemView, nat) {
    match (pick.p1, pick.p2) {
        (Some(a), Some(b)) => (
            shared_step(s, a, b, pick.directions1, pick.directions2),
            shared_share(s, a, b, pick.directions1, pick.directions2),
        ),
        (Some(a), None) => (single_step(s, a, room, 1), single_cost(s, a, room, 1)),
        (None, Some(b)) => (single_step(s, b, room, 2), single_cost(s, b, room, 2)),
        (None, None) => (s, 0nat),
    }
}

/// A fill under way: the state, the score added so far, and whether the last
/// block has brought the score up to the cut-off.
#[verifier::ext_equal]
pub struct FillView {
    pub sys: SystemView,
    pub score: nat,
    pub failed: bool,
}

/// The fill from the state `start` after one round for each of `picks`.
/// Before the first round it has failed if the cut-off is zero; a round
/// fails if its block costs as much as was left below the cut-off.
pub open spec fn fill_state(start: SystemView, picks: Seq<Pick>, cut_off: u64) -> FillView
    decreases picks.len(),
{
    if picks.len() == 0 {
        FillView { sys: start, score: 0, failed: cut_off == 0 }
    } else {
        let before = fill_state(start, picks.drop_last(), cut_off);
        let room = (cut_off - before.score) as u64;
        let round = fill_round(before.sys, picks.last(), room);
        FillView { sys: round.0, score: before.score + round.1, failed: round.1 >= room }
    }
}

/// A round with `pick` follows on `before`: the fill has not failed, an
/// object is still uncovered, and the pick is what the classifiers of the
/// two objects offer, with each order holding the six directions.
pub open spec fn round_follows(before: FillView, pick: Pick) -> bool {
    &&& !before.failed
    &&& !(before.sys.g1.covered() && before.sys.g2.covered())
    &&& offers(before.sys.g1, pick.p1)
    &&& offers(before.sys.g2, pick.p2)
    &&& all_six(pick.directions1)
    &&& all_six(pick.directions2)
}

/// Every round of `picks` follows on the rounds before it.
pub open spec fn rounds_follow(start: SystemView, picks: Seq<Pick>, cut_off: u64) -> bool {
    forall|k: int|
        0 <= k < picks.len() ==> round_follows(
            fill_state(start, picks.take(k), cut_off),
            #[trigger] picks[k],
        )
}

/// The fill from `start` with the rounds `picks` ends in the state `end`
/// with the result `r`: it has failed, or both objects are covered and `r`
/// is the score added.
#[verifier::opaque]
pub open spec fn fill_run(
    start: SystemView,
    picks: Seq<Pick>,
    cut_off: u64,
    end: SystemView,
    r: Option<u64>,
) -> bool {
    let last = fill_state(start, picks, cut_off);
    &&& rounds_follow(start, picks, cut_off)
    &&& end == last.sys
    &&& if last.failed {
        r is None
    } else {
        r == Some(last.score as u64) && end.g1.covered() && end.g2.covered()
    }
}

/// One more round keeps the rounds following on each other.
proof fn lemma_rounds_push(start: SystemView, picks: Seq<Pick>, cut_off: u64, pick: Pick)
    requires
        rounds_follow(start, picks, cut_off),
        round_follows(fill_state(start, picks, cut_off), pick),
    ensures
        rounds_follow(start, picks.push(pick), cut_off),
        picks.push(pick).drop_last() == picks,
        picks.push(pick).last() == pick,
{
    let more = picks.push(pick);
    assert(more.drop_last() =~= picks);
    assert forall|k: int| 0 <= k < more.len() implies round_follows(
        fill_state(start, more.take(k), cut_off),
        #[trigger] more[k],
    ) by {
        if k < picks.len() {
            assert(more.take(k) =~= picks.take(k));
            assert(more[k] == picks[k]);
        } else {
            assert(more.take(k) =~= picks);
        }
    }
}

/// Voxels without an empty neighbour have none after more has been placed.
pub proof fn lemma_saturated_stays(g: BoxView, h: BoxView, pts: Seq<Point>)
    requires
        extends(g, h),
        saturated(g, pts),
        forall|k: int| 0 <= k < pts.len() ==> (#[trigger] pts[k]).in_box(g.d),
    ensures
        saturated(h, pts),
{
    assert forall|k: int, dir: u8| 0 <= k < pts.len() && dir < 6 implies !(#[trigger] usable(
        h,
        pts[k],
        dir,
    )) by {
        if usable(h, pts[k], dir) {
            crate::point::lemma_next_cell_in_box(pts[k], g.d, dir);
            let y = pts[k].spec_next_cell(h.d, dir)->0;
            assert(h.label(y) == 0);
            if g.label(y) != 0 {
                assert(h.label(y) == g.label(y));
            }
            assert(usable(g, pts[k], dir));
        }
    }
}

/// The voxels recorded since position `n` have no empty neighbour after a
/// round, if they had none before and those that the round has added have
/// none.
proof fn lemma_saturated_more(
    g: BoxView,
    h: BoxView,
    halves: Seq<Point>,
    n: int,
    added: Seq<Point>,
)
    requires
        extends(g, h),
        0 <= n <= halves.len(),
        forall|k: int| 0 <= k < halves.len() ==> (#[trigger] halves[k]).in_box(g.d),
        saturated(g, halves.skip(n)),
        saturated(h, added),
    ensures
        saturated(h, (halves + added).skip(n)),
{
    let before = halves.skip(n);
    let all = (halves + added).skip(n);
    assert forall|k: int| 0 <= k < before.len() implies (#[trigger] before[k]).in_box(g.d) by {
        assert(before[k] == halves[k + n]);
    }
    lemma_saturated_stays(g, h, before);
    assert forall|k: int, dir: u8| 0 <= k < all.len() && dir < 6 implies !(#[trigger] usable(
        h,
        all[k],
        dir,
    )) by {
        if k < before.len() {
            assert(all[k] == before[k]);
            assert(!usable(h, before[k], dir));
        } else {
            assert(all[k] == added[k - before.len()]);
            assert(!usable(h, added[k - before.len()], dir));
        }
    }
}

/// Grows a new shared block from the empty voxels `p1` of the first object
/// and `p2` of the second, under the next shared id, records it and returns
/// its share.
pub fn add_shared_block(
    rng: &mut Mcg128Xsl64,
    grid: &mut GridSystem,
    p1: Point,
    p2: Point,
) -> (added: u64)
    requires
        old(grid).wf(),
        old(grid)@.g1.free(p1),
        old(grid)@.g2.free(p2),
    ensures
        final(grid).wf(),
        extends(old(grid)@.g1, final(grid)@.g1),
        extends(old(grid)@.g2, final(grid)@.g2),
        catalogue_extends(old(grid)@.blocks, final(grid)@.blocks),
        final(grid)@.blocks.shared.len() == old(grid)@.blocks.shared.len() + 1,
        final(grid)@.blocks.shared.last().0 == old(grid)@.blocks.next_shared_id(),
        final(grid)@.blocks.shared.last().1[0] == p1,
        final(grid)@.blocks.shared.last().2[0] == p2,
        added == share(final(grid)@.blocks.shared.last().1.len()),
        total_score(final(grid)@) == total_score(old(grid)@) + added,
        free_cells(final(grid)@.g1) < free_cells(old(grid)@.g1),
        free_cells(final(grid)@.g2) < free_cells(old(grid)@.g2),
        exists|directions1: Seq<u8>, directions2: Seq<u8>|
            all_six(directions1) && all_six(directions2) && final(grid)@ == #[trigger] shared_step(
                old(grid)@,
                p1,
                p2,
                directions1,
                directions2,
            ) && added == shared_share(old(grid)@, p1, p2, directions1, directions2),
{
    let ghost now = grid@;
    proof {
        lemma_half_ids_fit(now.g1, now.g2, now.blocks);
    }
    let block_id: u16 = grid.block.gen_shared_block_id();
    let (pp1, pp2) = grow_shared_block(
        rng,
        &mut grid.grid_1,
        &mut grid.grid_2,
        block_id,
        p1,
        p2,
    );
    let added: u64 = share_of(pp1.len());
    let ghost v1 = pp1@;
    let ghost v2 = pp2@;
    grid.block.push_shared(block_id, pp1, pp2);
    proof {
        assert(grid.block@ == with_shared_block(now.blocks, block_id, v1, v2));
        lemma_system_after_grow(
            now.g1,
            now.g2,
            now.blocks,
            grid.grid_1@,
            grid.grid_2@,
            block_id,
            v1,
            v2,
        );
        lemma_score_after_grow(
            now.g1,
            now.g2,
            now.blocks,
            grid.grid_1@,
            grid.grid_2@,
            block_id,
            v1,
            v2,
        );
        let (d1, d2) = choose|d1: Seq<u8>, d2: Seq<u8>|
            all_six(d1) && all_six(d2) && ({
                let end = #[trigger] grown_from(now.g1, now.g2, p1, p2, block_id, d1, d2);
                &&& v1 == end.pp1
                &&& v2 == end.pp2
                &&& grid.grid_1@ == end.g1
                &&& grid.grid_2@ == end.g2
            });
        assert(grid@ =~= shared_step(now, p1, p2, d1, d2));
    }
    added
}

/// Floods a new block that only the object `place` has from its empty voxel
/// `p`, as `single_update_loop` does with `room` as cut-off, and returns the
/// cost. Nothing is placed if `room` is at most `TOO_DEAR`.
pub fn add_single_block(grid: &mut GridSystem, p: Point, room: u64, place: u8) -> (cost: u64)
    requires
        old(grid).wf(),
        place == 1 || place == 2,
        place == 1 ==> old(grid)@.g1.free(p),
        place == 2 ==> old(grid)@.g2.free(p),
    ensures
        final(grid).wf(),
        extends(old(grid)@.g1, final(grid)@.g1),
        extends(old(grid)@.g2, final(grid)@.g2),
        catalogue_extends(old(grid)@.blocks, final(grid)@.blocks),
        room <= TOO_DEAR ==> cost == TOO_DEAR && final(grid)@ == old(grid)@,
        final(grid)@ == single_step(old(grid)@, p, room, place),
        cost == single_cost(old(grid)@, p, room, place),
        room > TOO_DEAR && cost < room ==> saturated(
            if place == 1 {
                final(grid)@.g1
            } else {
                final(grid)@.g2
            },
            flooded(old(grid)@, p, room, place).added,
        ),
        room > TOO_DEAR ==> {
            &&& total_score(final(grid)@) == total_score(old(grid)@) + cost
            &&& free_cells(final(grid)@.g1) + free_cells(final(grid)@.g2) < free_cells(
                old(grid)@.g1,
            ) + free_cells(old(grid)@.g2)
            &&& final(grid)@.blocks == with_half_block(
                old(grid)@.blocks,
                place,
                recorded_since(
                    final(grid)@.blocks,
                    place,
                    halves_of(old(grid)@.blocks, place as int).len() as int,
                ),
            )
        },
{
    let ghost now = grid@;
    proof {
        lemma_half_ids_fit(now.g1, now.g2, now.blocks);
        lemma_extends_twice(now.g1, now.g1, now.g1);
        lemma_extends_twice(now.g2, now.g2, now.g2);
    }
    let cost: u64 = if place == 1 {
        single_update_loop(&mut grid.grid_1, p, &mut grid.block, room, 1)
    } else {
        single_update_loop(&mut grid.grid_2, p, &mut grid.block, room, 2)
    };
    proof {
        if room > TOO_DEAR {
            let seen = recorded_since(
                grid.block@,
                place,
                halves_of(now.blocks, place as int).len() as int,
            );
            lemma_system_after_flood(
                now.g1,
                now.g2,
                now.blocks,
                grid.grid_1@,
                grid.grid_2@,
                place,
                seen,
            );
            lemma_score_after_flood(
                now.g1,
                now.g2,
                now.blocks,
                grid.grid_1@,
                grid.grid_2@,
                place,
                seen,
            );
            assert(seen == flooded(now, p, room, place).added);
            assert(grid@ =~= single_step(now, p, room, place));
        } else {
            assert(grid@ =~= now);
        }
    }
    cost
}

/// One round of the fill with the voxels `p1` and `p2` that the classifiers
/// offer and `room` left below the cut-off: a shared block with a voxel of
/// both objects, a single-object block with a voxel of one. Returns the
/// score of the block, with the pick that the round has made.
fn fill_once(
    rng: &mut Mcg128Xsl64,
    grid: &mut GridSystem,
    p1: Option<Point>,
    p2: Option<Point>,
    room: u64,
    Ghost(n1): Ghost<int>,
    Ghost(n2): Ghost<int>,
) -> (r: (u64, Ghost<Pick>))
    requires
        old(grid).wf(),
        offers(old(grid)@.g1, p1),
        offers(old(grid)@.g2, p2),
        !(old(grid)@.g1.covered() && old(grid)@.g2.covered()),
        0 <= n1 <= old(grid)@.blocks.half1.len(),
        0 <= n2 <= old(grid)@.blocks.half2.len(),
        saturated(old(grid)@.g1, recorded_since(old(grid)@.blocks, 1, n1)),
        saturated(old(grid)@.g2, recorded_since(old(grid)@.blocks, 2, n2)),
    ensures
        final(grid).wf(),
        r.1@.p1 == p1,
        r.1@.p2 == p2,
        all_six(r.1@.directions1),
        all_six(r.1@.directions2),
        fill_round(old(grid)@, r.1@, room) == (final(grid)@, r.0 as nat),
        extends(old(grid)@.g1, final(grid)@.g1),
        extends(old(grid)@.g2, final(grid)@.g2),
        catalogue_extends(old(grid)@.blocks, final(grid)@.blocks),
        r.0 < room ==> {
            &&& total_score(final(grid)@) == total_score(old(grid)@) + r.0
            &&& free_cells(final(grid)@.g1) + free_cells(final(grid)@.g2) < free_cells(
                old(grid)@.g1,
            ) + free_cells(old(grid)@.g2)
            &&& saturated(final(grid)@.g1, recorded_since(final(grid)@.blocks, 1, n1))
            &&& saturated(final(grid)@.g2, recorded_since(final(grid)@.blocks, 2, n2))
        },
        r.0 >= room ==> total_score(final(grid)@) + TOO_DEAR >= total_score(old(grid)@) + room,
{
    let ghost now = grid@;
    let ghost plain: Seq<u8> = seq![0u8, 1u8, 2u8, 3u8, 4u8, 5u8];
    let ghost mut pick = Pick { p1, p2, directions1: plain, directions2: plain };
    proof {
        assert forall|d: u8| d < 6 implies plain.contains(d) by {
            assert(plain[d as int] == d);
        }
        lemma_satisfied_is_covered(now.g1);
        lemma_satisfied_is_covered(now.g2);
        lemma_extends_twice(now.g1, now.g1, now.g1);
        lemma_extends_twice(now.g2, now.g2, now.g2);
    }
    let added: u64 = match (p1, p2) {
        (Some(a), Some(b)) => {
            proof {
                lemma_offered_is_free(now.g1, a);
                lemma_offered_is_free(now.g2, b);
            }
            let share: u64 = add_shared_block(rng, grid, a, b);
            proof {
                let (d1, d2) = choose|d1: Seq<u8>, d2: Seq<u8>|
                    all_six(d1) && all_six(d2) && grid@ == #[trigger] shared_step(
                        now,
                        a,
                        b,
                        d1,
                        d2,
                    ) && share == shared_share(now, a, b, d1, d2);
                pick = Pick { p1, p2, directions1: d1, directions2: d2 };
                assert(halves_of(grid@.blocks, 1) =~= halves_of(now.blocks, 1) + Seq::<
                    Point,
                >::empty());
                assert(halves_of(grid@.blocks, 2) =~= halves_of(now.blocks, 2) + Seq::<
                    Point,
                >::empty());
                lemma_round_saturated(now, grid@, n1, 1, Seq::<Point>::empty());
                lemma_round_saturated(now, grid@, n2, 2, Seq::<Point>::empty());
            }
            share
        },
        (Some(a), None) => {
            proof {
                lemma_offered_is_free(now.g1, a);
            }
            let cost: u64 = add_single_block(grid, a, room, 1);
            proof {
                if room > TOO_DEAR && cost < room {
                    assert(halves_of(grid@.blocks, 2) =~= halves_of(now.blocks, 2) + Seq::<
                        Point,
                    >::empty());
                    lemma_round_saturated(now, grid@, n1, 1, flooded(now, a, room, 1).added);
                    lemma_round_saturated(now, grid@, n2, 2, Seq::<Point>::empty());
                }
            }
            cost
        },
        (None, Some(b)) => {
            proof {
                lemma_offered_is_free(now.g2, b);
            }
            let cost: u64 = add_single_block(grid, b, room, 2);
            proof {
                if room > TOO_DEAR && cost < room {
                    assert(halves_of(grid@.blocks, 1) =~= halves_of(now.blocks, 1) + Seq::<
                        Point,
                    >::empty());
                    lemma_round_saturated(now, grid@, n1, 1, Seq::<Point>::empty());
                    lemma_round_saturated(now, grid@, n2, 2, flooded(now, b, room, 2).added);
                }
            }
            cost
        },
        (None, None) => {
            // An unsatisfied object has a voxel on offer: this cannot be
            // reached.
            proof {
                assert(false);
            }
            0
        },
    };
    (added, Ghost(pick))
}

/// The next round of the fill, if there is one: the classifiers walk the
/// holes; if both find their object satisfied there is none; else each
/// offers a voxel if it has one, and the round is made with them. Returns
/// the score of the block that the round has added, with the pick made.
fn fill_next(
    rng: &mut Mcg128Xsl64,
    hole_1: &[HoleXZYY],
    hole_2: &[HoleXZYY],
    grid: &mut GridSystem,
    room: u64,
    Ghost(n1): Ghost<int>,
    Ghost(n2): Ghost<int>,
) -> (r: (Option<u64>, Ghost<Pick>))
    requires
        old(grid).wf(),
        hole_matches(hole_1@, old(grid).grid_1@),
        hole_matches(hole_2@, old(grid).grid_2@),
        0 <= n1 <= old(grid)@.blocks.half1.len(),
        0 <= n2 <= old(grid)@.blocks.half2.len(),
        saturated(old(grid)@.g1, recorded_since(old(grid)@.blocks, 1, n1)),
        saturated(old(grid)@.g2, recorded_since(old(grid)@.blocks, 2, n2)),
    ensures
        final(grid).wf(),
        hole_matches(hole_1@, final(grid).grid_1@),
        hole_matches(hole_2@, final(grid).grid_2@),
        extends(old(grid)@.g1, final(grid)@.g1),
        extends(old(grid)@.g2, final(grid)@.g2),
        catalogue_extends(old(grid)@.blocks, final(grid)@.blocks),
        r.0 is None <==> old(grid)@.g1.covered() && old(grid)@.g2.covered(),
        r.0 is None ==> final(grid)@ == old(grid)@,
        r.0 matches Some(added) ==> {
            &&& round_follows(
                FillView { sys: old(grid)@, score: 0, failed: false },
                r.1@,
            )
            &&& fill_round(old(grid)@, r.1@, room) == (final(grid)@, added as nat)
            &&& added < room ==> {
                &&& total_score(final(grid)@) == total_score(old(grid)@) + added
                &&& free_cells(final(grid)@.g1) + free_cells(final(grid)@.g2) < free_cells(
                    old(grid)@.g1,
                ) + free_cells(old(grid)@.g2)
                &&& saturated(final(grid)@.g1, recorded_since(final(grid)@.blocks, 1, n1))
                &&& saturated(final(grid)@.g2, recorded_since(final(grid)@.blocks, 2, n2))
            }
            &&& added >= room ==> total_score(final(grid)@) + TOO_DEAR >= total_score(old(grid)@)
                + room
        },
{
    let ghost now = grid@;
    proof {
        lemma_entries_in_box(now.g1.blank());
        lemma_entries_in_box(now.g2.blank());
        lemma_satisfied_is_covered(now.g1);
        lemma_satisfied_is_covered(now.g2);
        lemma_extends_twice(now.g1, now.g1, now.g1);
        lemma_extends_twice(now.g2, now.g2, now.g2);
    }
    let yet1: YetPointSet = grid.grid_1.make_yet_points(hole_1);
    let yet2: YetPointSet = grid.grid_2.make_yet_points(hole_2);
    if yet1.satisfied() && yet2.satisfied() {
        let ghost none = Pick {
            p1: None,
            p2: None,
            directions1: Seq::empty(),
            directions2: Seq::empty(),
        };
        return (None, Ghost(none));
    }
    let p1: Option<Point> = yet1.chose(rng);
    let p2: Option<Point> = yet2.chose(rng);
    proof {
        assert(offers(now.g1, p1));
        assert(offers(now.g2, p2));
    }
    let (added, pick) = fill_once(rng, grid, p1, p2, room, Ghost(n1), Ghost(n2));
    (Some(added), pick)
}

/// Adds blocks until both objects cover their silhouettes. As long as the
/// classifier finds an object unsatisfied, it offers a voxel for each object
/// that has one to offer: with a voxel of both, a shared block is grown from
/// the two; with a voxel of one object only, a single-object block floods
/// from it. The fill fails as soon as the score added reaches `cut_off`, and
/// only then; else it returns the score added. What it builds is what
/// `fill_state` gives for the voxels and the orders of directions drawn.
pub fn fill_all(
    rng: &mut Mcg128Xsl64,
    hole_1: &[HoleXZYY],
    hole_2: &[HoleXZYY],
    grid: &mut GridSystem,
    cut_off: u64,
) -> (r: Option<u64>)
    requires
        old(grid).wf(),
        hole_matches(hole_1@, old(grid).grid_1@),
        hole_matches(hole_2@, old(grid).grid_2@),
    ensures
        final(grid).wf(),
        exists|picks: Seq<Pick>| #[trigger] fill_run(old(grid)@, picks, cut_off, final(grid)@, r),
        extends(old(grid)@.g1, final(grid)@.g1),
        extends(old(grid)@.g2, final(grid)@.g2),
        catalogue_extends(old(grid)@.blocks, final(grid)@.blocks),
        r matches Some(score) ==> {
            &&& score < cut_off
            &&& final(grid)@.g1.covered()
            &&& final(grid)@.g2.covered()
            &&& total_score(final(grid)@) == total_score(old(grid)@) + score
            &&& saturated(
                final(grid)@.g1,
                recorded_since(final(grid)@.blocks, 1, old(grid)@.blocks.half1.len() as int),
            )
            &&& saturated(
                final(grid)@.g2,
                recorded_since(final(grid)@.blocks, 2, old(grid)@.blocks.half2.len() as int),
            )
        },
        r is None ==> total_score(final(grid)@) + TOO_DEAR >= total_score(old(grid)@) + cut_off,
        cut_off > SCORE_CEILING + TOO_DEAR ==> r is Some,
        old(grid)@.g1.covered() && old(grid)@.g2.covered() ==> final(grid)@ == old(grid)@ && r == (
        if cut_off > 0 {
            Some(0u64)
        } else {
            None
        }),
{
    let ghost start = grid@;
    let ghost mut picks: Seq<Pick> = Seq::empty();
    let ghost n1 = start.blocks.half1.len() as int;
    let ghost n2 = start.blocks.half2.len() as int;
    let mut score: u64 = 0;
    proof {
        lemma_extends_twice(start.g1, start.g1, start.g1);
        lemma_extends_twice(start.g2, start.g2, start.g2);
        assert(recorded_since(start.blocks, 1, n1) =~= Seq::<Point>::empty());
        assert(recorded_since(start.blocks, 2, n2) =~= Seq::<Point>::empty());
    }
    if cut_off == 0 {
        proof {
            lemma_fill_ends(start, picks, cut_off, grid@, 0, None);
        }
        return None;
    }
    loop
        invariant
            start == old(grid)@,
            n1 == start.blocks.half1.len(),
            n2 == start.blocks.half2.len(),
            cut_off > 0,
            grid.wf(),
            hole_matches(hole_1@, grid.grid_1@),
            hole_matches(hole_2@, grid.grid_2@),
            rounds_follow(start, picks, cut_off),
            fill_state(start, picks, cut_off) == (FillView {
                sys: grid@,
                score: score as nat,
                failed: false,
            }),
            saturated(grid@.g1, recorded_since(grid@.blocks, 1, n1)),
            saturated(grid@.g2, recorded_since(grid@.blocks, 2, n2)),
            extends(start.g1, grid@.g1),
            extends(start.g2, grid@.g2),
            catalogue_extends(start.blocks, grid@.blocks),
            score < cut_off,
            total_score(grid@) == total_score(start) + score,
            start.g1.covered() && start.g2.covered() ==> grid@ == start && score == 0,
        ensures
            grid.wf(),
            fill_run(start, picks, cut_off, grid@, Some(score)),
            saturated(grid@.g1, recorded_since(grid@.blocks, 1, n1)),
            saturated(grid@.g2, recorded_since(grid@.blocks, 2, n2)),
            extends(start.g1, grid@.g1),
            extends(start.g2, grid@.g2),
            catalogue_extends(start.blocks, grid@.blocks),
            score < cut_off,
            total_score(grid@) == total_score(start) + score,
            grid@.g1.covered(),
            grid@.g2.covered(),
            start.g1.covered() && start.g2.covered() ==> grid@ == start && score == 0,
        decreases free_cells(grid@.g1) + free_cells(grid@.g2),
    {
        let ghost now = grid@;
        let ghost before = FillView { sys: now, score: score as nat, failed: false };
        let (round, Ghost(pick)) = fill_next(
            rng,
            hole_1,
            hole_2,
            grid,
            cut_off - score,
            Ghost(n1),
            Ghost(n2),
        );
        let added: u64 = match round {
            Some(added) => added,
            None => {
                proof {
                    lemma_fill_ends(start, picks, cut_off, grid@, score as nat, Some(score));
                }
                break ;
            },
        };
        proof {
            lemma_catalogue_extends_twice(start.blocks, now.blocks, grid@.blocks);
            lemma_extends_twice(start.g1, now.g1, grid@.g1);
            lemma_extends_twice(start.g2, now.g2, grid@.g2);
            lemma_fill_round(start, picks, cut_off, before, pick, grid@, added as nat);
            picks = picks.push(pick);
        }
        if added >= cut_off - score {
            proof {
                lemma_score_ceiling(grid@);
                lemma_fill_ends(start, picks, cut_off, grid@, (score + added) as nat, None);
            }
            return None;
        }
        score = score + added;
    }
    Some(score)
}

/// The fill ends where its rounds have led.
proof fn lemma_fill_ends(
    start: SystemView,
    picks: Seq<Pick>,
    cut_off: u64,
    end: SystemView,
    score: nat,
    r: Option<u64>,
)
    requires
        rounds_follow(start, picks, cut_off),
        fill_state(start, picks, cut_off) == (FillView { sys: end, score, failed: r is None }),
        r matches Some(s) ==> s == score && end.g1.covered() && end.g2.covered(),
    ensures
        fill_run(start, picks, cut_off, end, r),
{
    reveal(fill_run);
}

/// One more round carries the fill on.
proof fn lemma_fill_round(
    start: SystemView,
    picks: Seq<Pick>,
    cut_off: u64,
    before: FillView,
    pick: Pick,
    next: SystemView,
    added: nat,
)
    requires
        rounds_follow(start, picks, cut_off),
        fill_state(start, picks, cut_off) == before,
        before.score < cut_off,
        round_follows(FillView { sys: before.sys, score: 0, failed: before.failed }, pick),
        fill_round(before.sys, pick, (cut_off - before.score) as u64) == (next, added),
    ensures
        rounds_follow(start, picks.push(pick), cut_off),
        fill_state(start, picks.push(pick), cut_off) == (FillView {
            sys: next,
            score: before.score + added,
            failed: added >= cut_off - before.score,
        }),
{
    lemma_rounds_push(start, picks, cut_off, pick);
}

/// After a round that has added the voxels `added` to the single-object
/// blocks of one side, or none, the voxels recorded there since position `n`
/// have no empty neighbour, if they had none before and `added` has none.
proof fn lemma_round_saturated(
    now: SystemView,
    next: SystemView,
    n: int,
    side: int,
    added: Seq<Point>,
)
    requires
        system_ok(now.g1, now.g2, now.blocks),
        side == 1 || side == 2,
        0 <= n <= halves_of(now.blocks, side).len(),
        halves_of(next.blocks, side) == halves_of(now.blocks, side) + added,
        side == 1 ==> extends(now.g1, next.g1) && saturated(now.g1, halves_of(now.blocks, 1).skip(n))
            && saturated(next.g1, added),
        side == 2 ==> extends(now.g2, next.g2) && saturated(now.g2, halves_of(now.blocks, 2).skip(n))
            && saturated(next.g2, added),
    ensures
        side == 1 ==> saturated(next.g1, halves_of(next.blocks, 1).skip(n)),
        side == 2 ==> saturated(next.g2, halves_of(next.blocks, 2).skip(n)),
{
    let halves = halves_of(now.blocks, side);
    if side == 1 {
        assert(crate::system::side_ok(now.g1, now.blocks, 1));
        lemma_saturated_more(now.g1, next.g1, halves, n, added);
    } else {
        assert(crate::system::side_ok(now.g2, now.blocks, 2));
        lemma_saturated_more(now.g2, next.g2, halves, n, added);
    }
}

} // verus!
