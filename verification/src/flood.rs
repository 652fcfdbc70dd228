//! The flood that builds a block for one object alone: from an empty voxel
//! it spreads to every empty voxel it can reach, until its cost reaches the
//! cut-off.

use vstd::prelude::*;
use crate::block_set::{BlockSet, BlockSetView, HALF_ID_BASE};
use crate::box_view::{
    free_cells, is_block, lemma_grew_by_step, lemma_put, lemma_put_fills, placeable, BoxView,
};
use crate::grid_box::GridBox;
use crate::grow::{attached, grown, usable};
use crate::point::{lemma_next_cell_in_box, Point};
use crate::score::{half_cost, half_cost_of, MAX_CELLS, SCORE_UNIT};
use crate::system::{halves_of, lemma_distinct_points_fit, lemma_max_cells, with_half_block};

verus! {

/// What a single-object block costs when the room left below the cut-off is
/// too small to start one: two units, the cost of the smallest such block.
pub const TOO_DEAR: u64 = 2 * SCORE_UNIT;

/// The voxels recorded for the object `place` behind the first `before`.
pub open spec fn recorded_since(b: BlockSetView, place: u8, before: int) -> Seq<Point> {
    halves_of(b, place as int).skip(before)
}

/// No voxel of `pts` has an empty neighbour in `g`.
pub open spec fn saturated(g: BoxView, pts: Seq<Point>) -> bool {
    forall|k: int, dir: u8| 0 <= k < pts.len() && dir < 6 ==> !(#[trigger] usable(g, pts[k], dir))
}

/// Every voxel of `pts` that still has an empty neighbour waits on the
/// stack, or is the voxel `now.0` being tried, with that neighbour in a
/// direction from `now.1` on.
pub open spec fn frontier_ok(
    g: BoxView,
    pts: Seq<Point>,
    stack: Seq<Point>,
    now: Option<(Point, u8)>,
) -> bool {
    forall|k: int, dir: u8|
        0 <= k < pts.len() && dir < 6 && #[trigger] usable(g, pts[k], dir) ==> stack.contains(pts[k])
            || (now matches Some(t) && pts[k] == t.0 && dir >= t.1)
}

/// A flood under way: the object, the voxels placed so far, the placed
/// voxels that are still to be tried, and whether the cost of the block has
/// reached the cut-off.
#[verifier::ext_equal]
pub struct FloodView {
    pub g: BoxView,
    pub added: Seq<Point>,
    pub stack: Seq<Point>,
    pub full: bool,
}

/// The flood after voxel `q` has been tried in direction `dir`: if the
/// neighbour is empty it is placed; it is put on the stack unless the cost
/// of the block has now reached `cut_off`.
pub open spec fn flood_try(s: FloodView, q: Point, dir: u8, id: u16, cut_off: u64) -> FloodView {
    match q.spec_next_cell(s.g.d, dir) {
        Some(r) => if s.g.label(r) == 0 {
            let added = s.added.push(r);
            let g = s.g.put(r, id);
            if half_cost(added.len()) >= cut_off {
                FloodView { g, added, stack: s.stack, full: true }
            } else {
                FloodView { g, added, stack: s.stack.push(r), full: false }
            }
        } else {
            s
        },
        None => s,
    }
}

/// The flood after voxel `q` has been tried in the directions from `dir`
/// on, in rising order, up to the one in which the cut-off is reached.
pub open spec fn flood_dirs(s: FloodView, q: Point, dir: u8, id: u16, cut_off: u64) -> FloodView
    decreases 6 - dir,
{
    if dir >= 6 || s.full {
        s
    } else {
        flood_dirs(flood_try(s, q, dir, id, cut_off), q, (dir + 1) as u8, id, cut_off)
    }
}

/// The object is well formed and the voxels on the stack lie in its grid.
pub open spec fn flood_ready(s: FloodView, id: u16) -> bool {
    &&& s.g.wf()
    &&& is_block(id)
    &&& forall|k: int| 0 <= k < s.stack.len() ==> (#[trigger] s.stack[k]).in_box(s.g.d)
}

/// What a flood has left to do at most: two for each empty voxel and one
/// for each voxel on the stack.
pub open spec fn flood_measure(s: FloodView) -> nat {
    2 * free_cells(s.g) + s.stack.len()
}

/// Trying a voxel leaves no more to do than there was.
pub proof fn lemma_flood_dirs(s: FloodView, q: Point, dir: u8, id: u16, cut_off: u64)
    requires
        flood_ready(s, id),
        q.in_box(s.g.d),
        dir <= 6,
    ensures
        flood_ready(flood_dirs(s, q, dir, id, cut_off), id),
        flood_measure(flood_dirs(s, q, dir, id, cut_off)) <= flood_measure(s),
        flood_dirs(s, q, dir, id, cut_off).g.d == s.g.d,
    decreases 6 - dir,
{
    if dir < 6 && !s.full {
        let t = flood_try(s, q, dir, id, cut_off);
        lemma_next_cell_in_box(q, s.g.d, dir);
        match q.spec_next_cell(s.g.d, dir) {
            Some(r) => {
                if s.g.label(r) == 0 {
                    lemma_put(s.g, r, id);
                    crate::box_view::lemma_put_fills(s.g, r, id);
                    assert forall|k: int| 0 <= k < t.stack.len() implies (
                    #[trigger] t.stack[k]).in_box(t.g.d) by {
                        if k < s.stack.len() {
                            assert(t.stack[k] == s.stack[k]);
                        }
                    }
                }
            },
            None => {},
        }
        lemma_flood_dirs(t, q, (dir + 1) as u8, id, cut_off);
    }
}

/// The flood run to its end: as long as the cut-off is not reached and a
/// voxel is on the stack, the voxel on top is taken off and tried in the six
/// directions.
pub open spec fn flood_run(s: FloodView, id: u16, cut_off: u64) -> FloodView
    decreases flood_measure(s),
    when flood_ready(s, id)
{
    if s.full || s.stack.len() == 0 {
        s
    } else {
        let rest = FloodView { stack: s.stack.drop_last(), ..s };
        proof {
            assert forall|k: int| 0 <= k < rest.stack.len() implies (#[trigger] rest.stack[k]).in_box(
                rest.g.d,
            ) by {
                assert(rest.stack[k] == s.stack[k]);
            }
            lemma_flood_dirs(rest, s.stack.last(), 0, id, cut_off);
        }
        flood_run(flood_dirs(rest, s.stack.last(), 0, id, cut_off), id, cut_off)
    }
}

/// The flood as it starts: the first voxel is placed and waits on the
/// stack.
pub open spec fn flood_start(g: BoxView, p: Point, id: u16) -> FloodView {
    FloodView {
        g: g.put(p, id),
        added: Seq::<Point>::empty().push(p),
        stack: Seq::<Point>::empty().push(p),
        full: false,
    }
}

/// The flood has not gone on beyond the cut-off: unless the block has one
/// or two voxels, it was cheaper than `cut_off` before its last voxel.
pub open spec fn stopped_in_time(size: nat, cut_off: u64) -> bool {
    size >= 3 ==> half_cost((size - 1) as nat) < cut_off
}

/// What holds while a single-object block floods from the state `old`.
pub open spec fn flood_inv(old: BoxView, g: BoxView, added: Seq<Point>, id: u16) -> bool {
    &&& g.wf()
    &&& is_block(id)
    &&& added.len() >= 1
    &&& g.grew_by(old, added, id)
    &&& placeable(old, added)
    &&& grown(added)
    &&& free_cells(g) + added.len() == free_cells(old)
}

/// One step of the flood: voxel `k` gets its empty neighbour `r`.
proof fn lemma_flood_step(
    old: BoxView,
    g: BoxView,
    added: Seq<Point>,
    id: u16,
    k: int,
    dir: u8,
    r: Point,
)
    requires
        flood_inv(old, g, added, id),
        0 <= k < added.len(),
        dir < 6,
        added[k].spec_next_cell(g.d, dir) == Some(r),
        g.free(r),
    ensures
        flood_inv(old, g.put(r, id), added.push(r), id),
        free_cells(g) >= 1,
        free_cells(g.put(r, id)) == free_cells(g) - 1,
        added.len() + 1 <= MAX_CELLS,
        !added.contains(r),
{
    lemma_grew_by_step(old, g, added, id, r);
    assert(old.free(added[k]));
    lemma_next_cell_in_box(added[k], g.d, dir);
    let longer = added.push(r);
    assert forall|i: int| 0 < i < longer.len() implies #[trigger] attached(longer, i) by {
        if i < added.len() {
            assert(attached(added, i));
            let j = choose|j: int| 0 <= j < i && (#[trigger] added[j]).adjacent(added[i]);
            assert(longer[j].adjacent(longer[i]));
        } else {
            assert(longer[k].adjacent(longer[i]));
        }
    }
    lemma_distinct_points_fit(longer, g.d);
    lemma_max_cells(g.d);
}

/// After voxel `q` has got its neighbour `r` in direction `dir`, the
/// frontier is right again with `r` on the stack and `q` tried up to `dir`.
proof fn lemma_frontier_step(
    g: BoxView,
    added: Seq<Point>,
    stack: Seq<Point>,
    q: Point,
    dir: u8,
    r: Point,
    id: u16,
)
    requires
        g.wf(),
        g.free(r),
        is_block(id),
        dir < 6,
        q.spec_next_cell(g.d, dir) == Some(r),
        frontier_ok(g, added, stack, Some((q, dir))),
    ensures
        frontier_ok(
            g.put(r, id),
            added.push(r),
            stack.push(r),
            Some((q, (dir + 1) as u8)),
        ),
{
    let w = g.put(r, id);
    let longer = added.push(r);
    let higher = stack.push(r);
    lemma_put(g, r, id);
    assert(higher[stack.len() as int] == r);
    assert forall|k: int, e: u8|
        0 <= k < longer.len() && e < 6 && #[trigger] usable(w, longer[k], e) implies higher.contains(
        longer[k],
    ) || (longer[k] == q && e >= dir + 1) by {
        if k < added.len() {
            let x = added[k];
            let y = x.spec_next_cell(g.d, e)->0;
            assert(w.free(y));
            assert(y != r);
            assert(g.label(y) == w.label(y));
            assert(usable(g, added[k], e));
            if stack.contains(x) {
                let m = choose|m: int| 0 <= m < stack.len() && stack[m] == x;
                assert(higher[m] == x);
            }
        }
    }
}

/// Skipping a direction in which `q` has no empty neighbour keeps the
/// frontier right.
proof fn lemma_frontier_skip(g: BoxView, added: Seq<Point>, stack: Seq<Point>, q: Point, dir: u8)
    requires
        dir < 6,
        !usable(g, q, dir),
        frontier_ok(g, added, stack, Some((q, dir))),
    ensures
        frontier_ok(g, added, stack, Some((q, (dir + 1) as u8))),
{
}

/// Tries the placed voxel `q` in the six directions and places each empty
/// neighbour; stops, and says so, when the cost of the block reaches
/// `cut_off`.
fn flood_from(
    grid: &mut GridBox,
    block: &mut BlockSet,
    stack: &mut Vec<Point>,
    count: &mut u64,
    q: Point,
    cut_off: u64,
    place: u8,
    Ghost(start): Ghost<BoxView>,
    Ghost(b0): Ghost<BlockSetView>,
) -> (full: bool)
    requires
        old(grid).wf(),
        HALF_ID_BASE <= b0.next_half_id < 0xFFFF,
        ({
            let added = recorded_since(old(block)@, place, halves_of(b0, place as int).len() as int);
            &&& old(block)@ == with_half_block(b0, place, added)
            &&& flood_inv(start, old(grid)@, added, b0.next_half_id)
            &&& *old(count) == added.len()
            &&& added.contains(q)
            &&& forall|s: int| 0 <= s < old(stack)@.len() ==> added.contains(#[trigger] old(stack)@[s])
            &&& frontier_ok(old(grid)@, added, old(stack)@, Some((q, 0u8)))
            &&& added.len() >= 2 ==> half_cost(added.len()) < cut_off
        }),
    ensures
        final(grid).wf(),
        ({
            let before = halves_of(b0, place as int).len() as int;
            let added = recorded_since(final(block)@, place, before);
            &&& final(block)@ == with_half_block(b0, place, added)
            &&& flood_inv(start, final(grid)@, added, b0.next_half_id)
            &&& *final(count) == added.len()
            &&& added[0] == recorded_since(old(block)@, place, before)[0]
            &&& forall|s: int| 0 <= s < final(stack)@.len() ==> added.contains(#[trigger] final(stack)@[s])
            &&& full ==> half_cost(added.len()) >= cut_off && added.len() >= 2
            &&& !full ==> frontier_ok(final(grid)@, added, final(stack)@, None)
            &&& !full && added.len() >= 2 ==> half_cost(added.len()) < cut_off
            &&& stopped_in_time(added.len(), cut_off)
            &&& (FloodView { g: final(grid)@, added, stack: final(stack)@, full }) == flood_dirs(
                FloodView {
                    g: old(grid)@,
                    added: recorded_since(old(block)@, place, before),
                    stack: old(stack)@,
                    full: false,
                },
                q,
                0,
                b0.next_half_id,
                cut_off,
            )
        }),
        2 * free_cells(final(grid)@) + final(stack)@.len() <= 2 * free_cells(old(grid)@) + old(
            stack,
        )@.len(),
{
    let d: u8 = grid.d;
    let block_id: u16 = (block.next_half_id - 1) as u16;
    let ghost before = halves_of(b0, place as int).len() as int;
    let ghost first = recorded_since(block@, place, before)[0];
    let ghost entry = FloodView {
        g: grid@,
        added: recorded_since(block@, place, before),
        stack: stack@,
        full: false,
    };
    let mut full: bool = false;
    let mut dir: u8 = 0;
    while dir < 6 && !full
        invariant
            dir <= 6,
            flood_dirs(
                FloodView {
                    g: grid@,
                    added: recorded_since(block@, place, before),
                    stack: stack@,
                    full,
                },
                q,
                dir,
                block_id,
                cut_off,
            ) == flood_dirs(entry, q, 0, block_id, cut_off),
            d == grid.d,
            grid.wf(),
            HALF_ID_BASE <= b0.next_half_id < 0xFFFF,
            block_id == b0.next_half_id,
            before == halves_of(b0, place as int).len(),
            block@ == with_half_block(b0, place, recorded_since(block@, place, before)),
            flood_inv(start, grid@, recorded_since(block@, place, before), block_id),
            *count == recorded_since(block@, place, before).len(),
            recorded_since(block@, place, before).contains(q),
            recorded_since(block@, place, before)[0] == first,
            forall|s: int|
                0 <= s < stack@.len() ==> recorded_since(block@, place, before).contains(
                    #[trigger] stack@[s],
                ),
            full ==> half_cost(recorded_since(block@, place, before).len()) >= cut_off
                && recorded_since(block@, place, before).len() >= 2,
            !full && recorded_since(block@, place, before).len() >= 2 ==> half_cost(
                recorded_since(block@, place, before).len(),
            ) < cut_off,
            stopped_in_time(recorded_since(block@, place, before).len(), cut_off),
            !full ==> frontier_ok(
                grid@,
                recorded_since(block@, place, before),
                stack@,
                Some((q, dir)),
            ),
            2 * free_cells(grid@) + stack@.len() <= 2 * free_cells(old(grid)@) + old(stack)@.len(),
        decreases 6 - dir, if full { 0int } else { 1int },
    {
        let ghost added = recorded_since(block@, place, before);
        let ghost k = choose|k: int| 0 <= k < added.len() && added[k] == q;
        let ghost cur = FloodView { g: grid@, added, stack: stack@, full };
        proof {
            assert(start.free(added[k]));
            lemma_next_cell_in_box(q, d, dir);
            assert(flood_dirs(cur, q, dir, block_id, cut_off) == flood_dirs(
                flood_try(cur, q, dir, block_id, cut_off),
                q,
                (dir + 1) as u8,
                block_id,
                cut_off,
            ));
        }
        let mut placed: bool = false;
        match q.next_cell(d, dir) {
            Some(r) => {
                if grid.label(r) == 0 {
                    proof {
                        lemma_flood_step(start, grid@, added, block_id, k, dir, r);
                        lemma_frontier_step(grid@, added, stack@, q, dir, r, block_id);
                    }
                    grid.put(r, block_id);
                    block.push_half(place, r);
                    *count = *count + 1;
                    proof {
                        assert(halves_of(block@, place as int) =~= halves_of(b0, place as int) + (
                        added.push(r)));
                        assert(recorded_since(block@, place, before) =~= added.push(r));
                        assert(added.push(r)[k] == q);
                        assert forall|s: int| 0 <= s < stack@.len() implies added.push(r).contains(
                            #[trigger] stack@[s],
                        ) by {
                            let m = choose|m: int| 0 <= m < added.len() && added[m] == stack@[s];
                            assert(added.push(r)[m] == stack@[s]);
                        }
                        assert(added.push(r)[added.len() as int] == r);
                    }
                    if half_cost_of(*count) >= cut_off {
                        full = true;
                    } else {
                        stack.push(r);
                        proof {
                            let higher = stack@;
                            assert forall|s: int| 0 <= s < higher.len() implies added.push(
                                r,
                            ).contains(#[trigger] higher[s]) by {
                                if s < higher.len() - 1 {
                                    let m = choose|m: int|
                                        0 <= m < added.len() && added[m] == higher[s];
                                    assert(added.push(r)[m] == higher[s]);
                                }
                            }
                        }
                    }
                    placed = true;
                }
            },
            None => {},
        }
        proof {
            if !placed {
                lemma_frontier_skip(grid@, added, stack@, q, dir);
            }
            assert((FloodView {
                g: grid@,
                added: recorded_since(block@, place, before),
                stack: stack@,
                full,
            }) =~= flood_try(cur, q, dir, block_id, cut_off));
        }
        dir += 1;
    }
    proof {
        if !full {
            let added = recorded_since(block@, place, before);
            assert forall|k: int, e: u8|
                0 <= k < added.len() && e < 6 && #[trigger] usable(grid@, added[k], e) implies stack@.contains(
                added[k],
            ) by {}
        }
    }
    full
}

/// Starts a block that only the object `place` has at its empty voxel `p`
/// and floods it: every voxel placed is tried in the six directions, and
/// each empty neighbour is placed too, until no placed voxel has an empty
/// neighbour or the cost of the block reaches `cut_off`. Returns the cost of
/// the block. If `cut_off` is at most `TOO_DEAR`, nothing is placed and
/// `TOO_DEAR` is returned.
pub fn single_update_loop(
    grid: &mut GridBox,
    p: Point,
    block: &mut BlockSet,
    cut_off: u64,
    place: u8,
) -> (cost: u64)
    requires
        old(grid).wf(),
        old(grid)@.free(p),
        HALF_ID_BASE <= old(block).next_half_id < 0xFFFF,
    ensures
        final(grid).wf(),
        cut_off <= TOO_DEAR ==> cost == TOO_DEAR && final(grid)@ == old(grid)@ && final(block)@ == old(
            block,
        )@,
        cut_off > TOO_DEAR ==> ({
            let before = halves_of(old(block)@, place as int).len() as int;
            let added = recorded_since(final(block)@, place, before);
            &&& final(block)@ == with_half_block(old(block)@, place, added)
            &&& added.len() >= 1
            &&& added[0] == p
            &&& placeable(old(grid)@, added)
            &&& grown(added)
            &&& final(grid)@.grew_by(old(grid)@, added, old(block).next_half_id)
            &&& cost == half_cost(added.len())
            &&& (cost >= cut_off && added.len() >= 2) || (saturated(final(grid)@, added) && (
            added.len() >= 2 ==> cost < cut_off))
            &&& stopped_in_time(added.len(), cut_off)
            &&& free_cells(final(grid)@) + added.len() == free_cells(old(grid)@)
            &&& ({
                let end = flood_run(
                    flood_start(old(grid)@, p, old(block).next_half_id),
                    old(block).next_half_id,
                    cut_off,
                );
                final(grid)@ == end.g && added == end.added
            })
        }),
{
    if cut_off <= TOO_DEAR {
        return TOO_DEAR;
    }
    let ghost start = grid@;
    let ghost b0 = block@;
    let ghost before = halves_of(b0, place as int).len() as int;
    let block_id: u16 = block.gen_half_block_id();
    let mut count: u64 = 1;
    let mut stack: Vec<Point> = Vec::new();
    stack.push(p);
    proof {
        let none = Seq::<Point>::empty();
        assert(start.grew_by(start, none, block_id));
        lemma_grew_by_step(start, start, none, block_id, p);
    }
    grid.put(p, block_id);
    block.push_half(place, p);
    proof {
        let added = Seq::<Point>::empty().push(p);
        assert(halves_of(block@, place as int) =~= halves_of(b0, place as int) + added);
        assert(recorded_since(block@, place, before) =~= added);
        assert(block@ == with_half_block(b0, place, added));
        assert(added[0] == p);
        assert(stack@[0] == p);
    }
    let mut full: bool = false;
    let ghost goal = flood_run(flood_start(start, p, block_id), block_id, cut_off);
    proof {
        assert(stack@ =~= Seq::<Point>::empty().push(p));
    }
    while !full && stack.len() > 0
        invariant
            grid.wf(),
            flood_run(
                FloodView {
                    g: grid@,
                    added: recorded_since(block@, place, before),
                    stack: stack@,
                    full,
                },
                block_id,
                cut_off,
            ) == goal,
            forall|s: int| 0 <= s < stack@.len() ==> (#[trigger] stack@[s]).in_box(grid.d),
            HALF_ID_BASE <= b0.next_half_id < 0xFFFF,
            block_id == b0.next_half_id,
            before == halves_of(b0, place as int).len(),
            block@ == with_half_block(b0, place, recorded_since(block@, place, before)),
            flood_inv(start, grid@, recorded_since(block@, place, before), block_id),
            count == recorded_since(block@, place, before).len(),
            recorded_since(block@, place, before)[0] == p,
            forall|s: int|
                0 <= s < stack@.len() ==> recorded_since(block@, place, before).contains(
                    #[trigger] stack@[s],
                ),
            full ==> half_cost(recorded_since(block@, place, before).len()) >= cut_off
                && recorded_since(block@, place, before).len() >= 2,
            !full && recorded_since(block@, place, before).len() >= 2 ==> half_cost(
                recorded_since(block@, place, before).len(),
            ) < cut_off,
            stopped_in_time(recorded_since(block@, place, before).len(), cut_off),
            !full ==> frontier_ok(grid@, recorded_since(block@, place, before), stack@, None),
        decreases 2 * free_cells(grid@) + stack@.len(), if full { 0int } else { 1int },
    {
        let ghost below = stack@;
        let ghost added = recorded_since(block@, place, before);
        let ghost cur = FloodView { g: grid@, added, stack: below, full };
        let q: Point = stack.pop().unwrap();
        proof {
            assert(flood_ready(cur, block_id));
            assert(stack@ == below.drop_last());
            assert(q == below.last());
            let rest = FloodView { stack: below.drop_last(), ..cur };
            let k = choose|k: int| 0 <= k < added.len() && added[k] == below[below.len() - 1];
            assert(start.free(added[k]));
            assert forall|s: int| 0 <= s < rest.stack.len() implies (#[trigger] rest.stack[s]).in_box(
                rest.g.d,
            ) by {
                assert(rest.stack[s] == below[s]);
            }
            lemma_flood_dirs(rest, q, 0, block_id, cut_off);
            assert(!cur.full && cur.stack.len() > 0);
            assert(flood_run(cur, block_id, cut_off) == flood_run(
                flood_dirs(rest, q, 0, block_id, cut_off),
                block_id,
                cut_off,
            ));
            assert(added.contains(below[below.len() - 1]));
            assert forall|s: int| 0 <= s < stack@.len() implies added.contains(
                #[trigger] stack@[s],
            ) by {
                assert(stack@[s] == below[s]);
            }
            assert forall|k: int, e: u8|
                0 <= k < added.len() && e < 6 && #[trigger] usable(grid@, added[k], e) implies stack@.contains(
                added[k],
            ) || (added[k] == q && e >= 0) by {
                if added[k] != q {
                    let m = choose|m: int| 0 <= m < below.len() && below[m] == added[k];
                    assert(stack@[m] == added[k]);
                }
            }
        }
        full =
        flood_from(grid, block, &mut stack, &mut count, q, cut_off, place, Ghost(start), Ghost(b0));
    }
    proof {
        let added = recorded_since(block@, place, before);
        let end = FloodView { g: grid@, added, stack: stack@, full };
        assert(flood_ready(end, block_id));
        assert(flood_run(end, block_id, cut_off) == end);
        lemma_distinct_points_fit(added, grid.d);
        lemma_max_cells(grid.d);
        if !full {
            assert forall|k: int, e: u8| 0 <= k < added.len() && e < 6 implies !(#[trigger] usable(grid@, added[k], e)) by {
                if usable(grid@, added[k], e) {
                    assert(stack@.contains(added[k]));
                }
            }
        }
    }
    half_cost_of(count)
}

} // verus!
