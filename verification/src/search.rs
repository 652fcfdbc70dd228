//! The outer search: erase a part of the current solution, fill again, keep
//! the result if it is better; and the driver that restarts this search
//! until the time is used up.

use vstd::prelude::*;
use rand_pcg::Mcg128Xsl64;
use std::time::Instant;
use crate::block_set::{sum_shares, BlockSet, BlockSetView, HALF_ID_BASE};
use crate::clock::{elapsed_nanos, now};
use crate::fill::{fill_all, fill_run, Pick};
use crate::flood::TOO_DEAR;
use crate::tally::{lemma_score_ceiling, total_score, SCORE_CEILING};
use crate::box_view::{BoxView, FORBIDDEN, OFF};
use crate::face::shadow_on;
use crate::grid_box::GridBox;
use crate::hole::Hole;
use crate::point::MAX_D;
use crate::score::NO_SCORE;
use crate::system::{
    erased, lemma_drained_halves, popped, system_ok, Chance, GridSystem, SystemView,
};

verus! {

/// The parameters of the search.
#[derive(Debug, Copy, Clone)]
pub struct McParams {
    /// The number of restarts that the time is divided among.
    pub mc_run: u64,
    /// After a step that was kept, shared blocks of at most this many voxels
    /// are erased; zero erases none.
    pub erase_small_th: usize,
    /// The chance that a step erases one more shared block, picked at random.
    pub erase_shared_p: Chance,
}

impl Default for McParams {
    fn default() -> (r: McParams)
        ensures
            r == (McParams {
                mc_run: 0,
                erase_small_th: 0,
                erase_shared_p: Chance { numerator: 0, denominator: 1 },
            }),
    {
        McParams { mc_run: 0, erase_small_th: 0, erase_shared_p: Chance { numerator: 0, denominator: 1 } }
    }
}

/// What the solver is given: the two pairs of silhouettes, each image as
/// rows of the bytes `'0'` and `'1'`, the parameters, and the time allowed,
/// in nanoseconds from `start`.
pub struct SolveInput {
    pub start: Instant,
    pub limit: u128,
    pub front1: Vec<Vec<u8>>,
    pub right1: Vec<Vec<u8>>,
    pub front2: Vec<Vec<u8>>,
    pub right2: Vec<Vec<u8>>,
    pub params: McParams,
}

/// The best solution found: the labels of both objects, its score, and the
/// number of search steps made.
pub struct SolveResult {
    pub g1: Vec<u16>,
    pub g2: Vec<u16>,
    pub score: u64,
    pub run_count: u32,
}

/// The mathematical content of a `SolveResult`.
#[verifier::ext_equal]
pub struct ResultView {
    pub g1: Seq<u16>,
    pub g2: Seq<u16>,
    pub score: u64,
    pub run_count: u32,
}

impl View for SolveResult {
    type V = ResultView;

    open spec fn view(&self) -> ResultView {
        ResultView { g1: self.g1@, g2: self.g2@, score: self.score, run_count: self.run_count }
    }
}

/// The state `s` is a solution: both objects cover their silhouettes and
/// agree with the catalogue of blocks.
pub open spec fn is_solution(s: SystemView) -> bool {
    system_ok(s.g1, s.g2, s.blocks) && s.g1.covered() && s.g2.covered()
}

/// The object `v` has the silhouettes of the images `front` and `right`: a
/// silhouette cell is on exactly where the image holds `'1'`.
pub open spec fn has_silhouettes(v: BoxView, d: u8, front: Seq<Vec<u8>>, right: Seq<Vec<u8>>) -> bool {
    &&& v.d == d
    &&& forall|x: u8, z: u8|
        x < d && z < d ==> ((#[trigger] v.front_at(x, z) != OFF) <==> shadow_on(
            front,
            z as int,
            x as int,
        ))
    &&& forall|y: u8, z: u8|
        y < d && z < d ==> ((#[trigger] v.right_at(y, z) != OFF) <==> shadow_on(
            right,
            z as int,
            y as int,
        ))
}

/// The labels of a grid as a result shows them: the id of the block for a
/// voxel of a block, and 0 for a voxel that is empty or forbidden.
pub open spec fn shown(grid: Seq<u16>) -> Seq<u16> {
    Seq::new(
        grid.len(),
        |i: int|
            if grid[i] == FORBIDDEN {
                0u16
            } else {
                grid[i]
            },
    )
}

/// The labels of a grid as a result shows them, computed.
pub fn show_labels(grid: &Vec<u16>) -> (r: Vec<u16>)
    ensures
        r@ == shown(grid@),
{
    let mut r: Vec<u16> = Vec::new();
    let mut i: usize = 0;
    while i < grid.len()
        invariant
            i <= grid@.len(),
            r@.len() == i,
            forall|k: int| 0 <= k < i ==> r@[k] == shown(grid@)[k],
        decreases grid@.len() - i,
    {
        let label: u16 = grid[i];
        r.push(
            if label == FORBIDDEN {
                0
            } else {
                label
            },
        );
        i += 1;
    }
    assert(r@ =~= shown(grid@));
    r
}

impl ResultView {
    /// The result before anything is found: no labels, no score, no steps.
    pub open spec fn worst() -> ResultView {
        ResultView { g1: Seq::empty(), g2: Seq::empty(), score: NO_SCORE, run_count: 0 }
    }

    /// The result holds the labels and the score of the state `s`.
    pub open spec fn records(self, s: SystemView) -> bool {
        self.g1 == shown(s.g1.grid) && self.g2 == shown(s.g2.grid) && self.score == total_score(s)
    }
}

impl SolveResult {
    /// The result holds the labels and the score of the state `s`.
    pub open spec fn records(&self, s: SystemView) -> bool {
        self@.records(s)
    }

    /// The result before anything is found: no labels, and a score that
    /// every solution beats.
    pub fn worst() -> (r: SolveResult)
        ensures
            r.g1@.len() == 0,
            r.g2@.len() == 0,
            r.score == NO_SCORE,
            r.run_count == 0,
            r@ == ResultView::worst(),
    {
        let r = SolveResult { g1: Vec::new(), g2: Vec::new(), score: NO_SCORE, run_count: 0 };
        assert(r@ =~= ResultView::worst());
        r
    }

    /// Takes over the labels of `g1` and `g2` with the score `score` if that
    /// score is better than the one held, and says whether it did.
    pub fn set_best(&mut self, g1: &GridBox, g2: &GridBox, score: u64) -> (better: bool)
        ensures
            better == (score < old(self).score),
            final(self).run_count == old(self).run_count,
            better ==> final(self).g1@ == shown(g1@.grid) && final(self).g2@ == shown(g2@.grid)
                && final(self).score == score,
            !better ==> *final(self) == *old(self) && final(self)@ == old(self)@,
    {
        if score < self.score {
            self.g1 = show_labels(&g1.grid.data);
            self.g2 = show_labels(&g2.grid.data);
            self.score = score;
            true
        } else {
            false
        }
    }
}

/// No block that only one object has is recorded in the state `s`.
pub open spec fn without_single_blocks(s: SystemView) -> bool {
    s.blocks.half1.len() == 0 && s.blocks.half2.len() == 0 && s.blocks.next_half_id
        == HALF_ID_BASE
}

impl GridSystem {
    /// No block that only one object has is recorded.
    pub open spec fn no_halves(&self) -> bool {
        without_single_blocks(self@)
    }
}

/// What a run carries from one step to the next: the state of the two
/// objects, the best result so far, the score to beat, and whether the last
/// step was kept, so that the next step begins by erasing.
#[verifier::ext_equal]
pub struct RunView {
    pub sys: SystemView,
    pub best: ResultView,
    pub score: u64,
    pub need_erase: bool,
}

/// A run as it starts: without a score to beat, and as after a step that
/// was kept.
pub open spec fn run_start(sys: SystemView, best: ResultView) -> RunView {
    RunView { sys, best, score: NO_SCORE, need_erase: true }
}

/// What one step draws: the position of the shared block that the chance
/// erasure takes, if it takes one, and the rounds of the fill.
pub struct StepDraw {
    pub erase: Option<int>,
    pub picks: Seq<Pick>,
}

/// The cut-off for the fill of a step: what the score to beat leaves above
/// the shares of the shared blocks of `sys`.
pub open spec fn room_to_beat(score: u64, sys: SystemView) -> u64 {
    let shares = sum_shares(sys.blocks.shared);
    if score >= shares {
        (score - shares) as u64
    } else {
        0
    }
}

/// The course of one step from `a` to `b`. The state `kept` is the one to go
/// back to: that of `a`, with the single-object blocks and the small shared
/// blocks erased if the step before was kept. In `mid` the chance erasure
/// has taken a shared block out, if it has taken one. The fill runs from
/// `mid` to `end` with the result `r`. The step is kept exactly if the fill
/// succeeds: then `b` holds `end`, with the score of `end` to beat; if not,
/// `b` holds `kept` and the score to beat of `a`.
pub open spec fn step_with(
    a: RunView,
    b: RunView,
    th: nat,
    kept: SystemView,
    mid: SystemView,
    draw: StepDraw,
    end: SystemView,
    r: Option<u64>,
) -> bool {
    &&& if a.need_erase {
        erased(a.sys, kept, th)
    } else {
        kept == a.sys
    }
    &&& match draw.erase {
        Some(i) => 0 <= i < kept.blocks.shared.len() && popped(kept, mid, i),
        None => mid == kept,
    }
    &&& fill_run(mid, draw.picks, room_to_beat(a.score, mid), end, r)
    &&& b.need_erase == (r is Some)
    &&& match r {
        Some(added) => b.sys == end && b.score == sum_shares(mid.blocks.shared) + added,
        None => b.sys == kept && b.score == a.score,
    }
}

/// One step of the search leads from `a` to `b`, with `th` as the size up
/// to which shared blocks are erased. If the step is kept, `b` holds a
/// solution with a score below the score to beat, which is the new score to
/// beat, and the best result takes it over if it beats that too. If not,
/// score and best result stay, and the state is the one of `a`, with the
/// single-object blocks and the small shared blocks erased if the step
/// before was kept. A step is kept for certain if the score to beat lies
/// above every score that a state can have. The step takes the course of
/// `step_with` for what it draws.
pub open spec fn step_of(a: RunView, b: RunView, th: nat) -> bool {
    &&& exists|kept: SystemView, mid: SystemView, draw: StepDraw, end: SystemView, r: Option<u64>|
        #[trigger] step_with(a, b, th, kept, mid, draw, end, r)
    &&& b.sys.g1.blank() == a.sys.g1.blank()
    &&& b.sys.g2.blank() == a.sys.g2.blank()
    &&& b.best.run_count == a.best.run_count
    &&& a.score > 2 * SCORE_CEILING + TOO_DEAR ==> b.need_erase
    &&& b.need_erase ==> {
        &&& b.score < a.score
        &&& b.score == total_score(b.sys)
        &&& is_solution(b.sys)
        &&& if b.score < a.best.score {
            b.best.records(b.sys)
        } else {
            b.best == a.best
        }
    }
    &&& !b.need_erase ==> {
        &&& b.score == a.score
        &&& b.best == a.best
        &&& without_single_blocks(b.sys)
        &&& if a.need_erase {
            erased(a.sys, b.sys, th)
        } else {
            b.sys == a.sys
        }
    }
}

/// `n` steps of the search, one after the other, lead from `a` to `b`.
pub open spec fn steps_of(a: RunView, b: RunView, n: nat, th: nat) -> bool
    decreases n,
{
    if n == 0 {
        a == b
    } else {
        exists|m: RunView| steps_of(a, m, (n - 1) as nat, th) && #[trigger] step_of(m, b, th)
    }
}

/// The score of a state without single-object blocks is the sum of the
/// shares of its shared blocks.
pub proof fn lemma_score_without_halves(s: SystemView)
    requires
        s.blocks.next_half_id == HALF_ID_BASE,
    ensures
        total_score(s) == crate::block_set::sum_shares(s.blocks.shared),
{
}

/// One step of the search. If `need_erase` is set, the single-object blocks
/// and the small shared blocks are erased first; the state then reached is
/// the one that a rejected step goes back to. Next, by chance, one more
/// shared block is erased, and the objects are filled again with the score
/// still to beat as cut-off. If the fill succeeds the new state is kept: it
/// is a solution with a score below `score`, and `best` takes it over if it
/// beats `best` too. If not, the state goes back. Returns the score of the
/// state it leaves and whether the step was kept.
pub fn mc_step(
    rng: &mut Mcg128Xsl64,
    hole_1: &Hole,
    hole_2: &Hole,
    grid: &mut GridSystem,
    best: &mut SolveResult,
    params: McParams,
    score: u64,
    need_erase: bool,
) -> (r: (u64, bool))
    requires
        old(grid).wf(),
        hole_1.fits(old(grid).grid_1@),
        hole_2.fits(old(grid).grid_2@),
        params.erase_shared_p.wf(),
        need_erase || old(grid).no_halves(),
    ensures
        final(grid).wf(),
        step_of(
            RunView { sys: old(grid)@, best: old(best)@, score, need_erase },
            RunView { sys: final(grid)@, best: final(best)@, score: r.0, need_erase: r.1 },
            params.erase_small_th as nat,
        ),
{
    if need_erase {
        grid.erase_half(params.erase_small_th);
    }
    let before_state: GridSystem = grid.snapshot();
    let ghost begin = RunView { sys: old(grid)@, best: old(best)@, score, need_erase };
    let ghost kept = grid@;
    grid.erase_shared(rng, params.erase_shared_p);
    let ghost mid = grid@;
    let ghost erase: Option<int> = if mid == kept {
        None
    } else {
        Some(
            choose|i: int| 0 <= i < kept.blocks.shared.len() && #[trigger] popped(kept, mid, i),
        )
    };
    proof {
        assert(grid@.g1.blank() == kept.g1.blank());
        assert(grid@.g2.blank() == kept.g2.blank());
        assert forall|i: int| 0 <= i < grid@.blocks.shared.len() implies (
        #[trigger] grid@.blocks.shared[i]).1.len() > 0 by {
            assert(crate::system::pair_ok(grid@.blocks.shared[i]));
        }
        lemma_drained_halves(
            crate::system::without_halves(old(grid)@.blocks),
            params.erase_small_th as nat,
        );
        assert(kept.blocks.next_half_id == HALF_ID_BASE);
        assert(kept.blocks.half1.len() == 0 && kept.blocks.half2.len() == 0);
        lemma_score_without_halves(grid@);
        lemma_score_ceiling(grid@);
    }
    let sos: u64 = grid.block.shared_only_score();
    let cut_off: u64 = if score >= sos {
        score - sos
    } else {
        0
    };
    let filled: Option<u64> = fill_all(rng, &hole_1.x_z_yy, &hole_2.x_z_yy, grid, cut_off);
    let ghost end = grid@;
    let ghost picks = choose|picks: Seq<Pick>| #[trigger] fill_run(mid, picks, cut_off, end, filled);
    let ghost draw = StepDraw { erase, picks };
    match filled {
        Some(added) => {
            let new_score: u64 = sos + added;
            best.set_best(&grid.grid_1, &grid.grid_2, new_score);
            proof {
                let after = RunView { sys: grid@, best: best@, score: new_score, need_erase: true };
                assert(step_with(
                    begin,
                    after,
                    params.erase_small_th as nat,
                    kept,
                    mid,
                    draw,
                    end,
                    filled,
                ));
            }
            (new_score, true)
        },
        None => {
            *grid = before_state;
            proof {
                let after = RunView { sys: grid@, best: best@, score, need_erase: false };
                assert(step_with(
                    begin,
                    after,
                    params.erase_small_th as nat,
                    kept,
                    mid,
                    draw,
                    end,
                    filled,
                ));
            }
            (score, false)
        },
    }
}

/// One run of the search: steps are made until the time since `start`, which
/// is read every 256 steps, exceeds `limit` nanoseconds, or the count of
/// steps reaches the largest number it can hold. The run starts without a
/// score to beat, so that its first step is kept and leaves a solution in
/// `best`; every further step that is kept lowers the score to beat.
/// Returns the count of steps, of which the last was not made: 1 if the
/// time was over before the first step, else a multiple of 256 or the
/// largest count. Objects and `best` are left as the steps made leave them.
pub fn mc_run(
    start: Instant,
    limit: u128,
    rng: &mut Mcg128Xsl64,
    hole_1: &Hole,
    hole_2: &Hole,
    grid: &mut GridSystem,
    best: &mut SolveResult,
    params: McParams,
) -> (steps: u32)
    requires
        old(grid).wf(),
        hole_1.fits(old(grid).grid_1@),
        hole_2.fits(old(grid).grid_2@),
        params.erase_shared_p.wf(),
    ensures
        final(grid).wf(),
        final(grid)@.g1.blank() == old(grid)@.g1.blank(),
        final(grid)@.g2.blank() == old(grid)@.g2.blank(),
        steps >= 1,
        steps == 1 || steps % 256 == 0 || steps == u32::MAX,
        limit == u128::MAX ==> steps == u32::MAX,
        exists|end: RunView|
            end.sys == final(grid)@ && end.best == final(best)@ && #[trigger] steps_of(
                run_start(old(grid)@, old(best)@),
                end,
                (steps - 1) as nat,
                params.erase_small_th as nat,
            ),
        steps >= 2 ==> final(best).score <= SCORE_CEILING,
        final(best).run_count == old(best).run_count,
        final(best)@ == old(best)@ || (final(best).score < old(best).score && exists|s: SystemView|
            #[trigger] is_solution(s) && final(best).records(s) && s.g1.blank() == old(
                grid,
            )@.g1.blank() && s.g2.blank() == old(grid)@.g2.blank()),
{
    let ghost th = params.erase_small_th as nat;
    let ghost begin = run_start(grid@, best@);
    let mut score: u64 = NO_SCORE;
    let mut elapsed: u128 = elapsed_nanos(&start);
    let mut step: u32 = 0;
    let mut need_erase: bool = true;
    loop
        invariant_except_break
            step < u32::MAX,
            step >= 1 ==> best.score <= SCORE_CEILING,
            step >= 1 ==> elapsed <= limit,
            step == 0 ==> score == NO_SCORE,
            steps_of(begin, RunView { sys: grid@, best: best@, score, need_erase }, step as nat, th),
        invariant
            th == params.erase_small_th,
            begin == run_start(old(grid)@, old(best)@),
            grid.wf(),
            hole_1.fits(grid.grid_1@),
            hole_2.fits(grid.grid_2@),
            grid@.g1.blank() == old(grid)@.g1.blank(),
            grid@.g2.blank() == old(grid)@.g2.blank(),
            params.erase_shared_p.wf(),
            need_erase || grid.no_halves(),
            best.run_count == old(best).run_count,
            best@ == old(best)@ || (best.score < old(best).score && exists|s: SystemView|
                #[trigger] is_solution(s) && best.records(s) && s.g1.blank() == old(
                    grid,
                )@.g1.blank() && s.g2.blank() == old(grid)@.g2.blank()),
        ensures
            grid.wf(),
            grid@.g1.blank() == old(grid)@.g1.blank(),
            grid@.g2.blank() == old(grid)@.g2.blank(),
            step >= 1,
            step == 1 || step % 256 == 0 || step == u32::MAX,
            limit == u128::MAX ==> step == u32::MAX,
            steps_of(
                begin,
                RunView { sys: grid@, best: best@, score, need_erase },
                (step - 1) as nat,
                th,
            ),
            step >= 2 ==> best.score <= SCORE_CEILING,
            best.run_count == old(best).run_count,
            best@ == old(best)@ || (best.score < old(best).score && exists|s: SystemView|
                #[trigger] is_solution(s) && best.records(s) && s.g1.blank() == old(
                    grid,
                )@.g1.blank() && s.g2.blank() == old(grid)@.g2.blank()),
        decreases u32::MAX - step,
    {
        step += 1;
        if step == u32::MAX {
            break ;
        }
        if step % 256 == 0 {
            elapsed = elapsed_nanos(&start);
        }
        if elapsed > limit {
            break ;
        }
        let ghost before = RunView { sys: grid@, best: best@, score, need_erase };
        let (new_score, accepted) = mc_step(
            rng,
            hole_1,
            hole_2,
            grid,
            best,
            params,
            score,
            need_erase,
        );
        proof {
            let after = RunView { sys: grid@, best: best@, score: new_score, need_erase: accepted };
            assert(step_of(before, after, th));
            assert(steps_of(begin, after, step as nat, th));
            if accepted {
                lemma_score_ceiling(grid@);
            }
            if accepted && new_score < before.best.score {
                assert(is_solution(grid@) && best.records(grid@));
            }
        }
        score = new_score;
        need_erase = accepted;
    }
    step
}

/// The count of steps after `steps` more have been counted: their sum, or
/// the largest count if the sum is beyond it.
pub open spec fn counted(run_count: u32, steps: u32) -> u32 {
    if steps > u32::MAX - run_count {
        u32::MAX
    } else {
        (run_count + steps) as u32
    }
}

/// One run of the search from the state `fresh` leads from the best result
/// `a` to `b`: the run counts some number of steps, of which it makes all
/// but the last, and `b` is the best result that they leave, with the steps
/// counted.
pub open spec fn run_of(fresh: SystemView, a: ResultView, b: ResultView, th: nat) -> bool {
    exists|end: RunView, steps: u32|
        steps >= 1 && #[trigger] steps_of(run_start(fresh, a), end, (steps - 1) as nat, th) && b == (
        ResultView { run_count: counted(a.run_count, steps), ..end.best })
}

/// `k` runs of the search, each from the state `fresh`, lead from the best
/// result `a` to `b`.
pub open spec fn runs_of(fresh: SystemView, a: ResultView, b: ResultView, k: nat, th: nat) -> bool
    decreases k,
{
    if k == 0 {
        a == b
    } else {
        exists|m: ResultView| runs_of(fresh, a, m, (k - 1) as nat, th) && #[trigger] run_of(
            fresh,
            m,
            b,
            th,
        )
    }
}

/// The state `fresh` holds the two empty objects for the silhouettes given
/// and an empty catalogue.
pub open spec fn fresh_for(
    fresh: SystemView,
    d: u8,
    front1: Seq<Vec<u8>>,
    right1: Seq<Vec<u8>>,
    front2: Seq<Vec<u8>>,
    right2: Seq<Vec<u8>>,
) -> bool {
    &&& fresh.g1.wf()
    &&& fresh.g2.wf()
    &&& fresh.g1.is_blank()
    &&& fresh.g2.is_blank()
    &&& has_silhouettes(fresh.g1, d, front1, right1)
    &&& has_silhouettes(fresh.g2, d, front2, right2)
    &&& fresh.blocks == BlockSetView::empty()
}

/// The time for the next run, in nanoseconds: the whole milliseconds that
/// are left of `limit` after `elapsed`, divided evenly among the `rest_run`
/// runs still to be made, in whole milliseconds; nothing if no time is left.
pub fn sub_budget(limit: u128, elapsed: u128, rest_run: u64) -> (r: Option<u128>)
    requires
        rest_run > 0,
    ensures
        limit <= elapsed ==> r is None,
        limit > elapsed ==> r == Some(
            ((((limit - elapsed) / 1_000_000) / (rest_run as int)) * 1_000_000) as u128,
        ),
{
    if limit <= elapsed {
        return None;
    }
    let total_mill: u128 = (limit - elapsed) / 1_000_000;
    let part: u128 = total_mill / (rest_run as u128);
    assert(part * 1_000_000 <= limit) by (nonlinear_arith)
        requires
            part <= total_mill,
            total_mill * 1_000_000 <= limit - elapsed,
            elapsed >= 0,
    ;
    Some(part * 1_000_000)
}

/// Solves an instance: builds both objects from their silhouettes and runs
/// the search `params.mc_run` times, each time from the empty objects and
/// with an equal part of the time that is left. Returns the best solution
/// that any run has found, with the steps of all runs counted: the result
/// of as many runs as the time has allowed, one after the other, each
/// handing its best result on to the next.
pub fn mc_solve(rng: &mut Mcg128Xsl64, input: &SolveInput, d: u8) -> (best: SolveResult)
    requires
        d <= MAX_D,
        input.front1@.len() == d,
        input.right1@.len() == d,
        input.front2@.len() == d,
        input.right2@.len() == d,
        forall|i: int| 0 <= i < d ==> (#[trigger] input.front1@[i])@.len() <= d,
        forall|i: int| 0 <= i < d ==> (#[trigger] input.right1@[i])@.len() <= d,
        forall|i: int| 0 <= i < d ==> (#[trigger] input.front2@[i])@.len() <= d,
        forall|i: int| 0 <= i < d ==> (#[trigger] input.right2@[i])@.len() <= d,
        input.params.erase_shared_p.wf(),
    ensures
        (best.score == NO_SCORE && best.g1@.len() == 0 && best.g2@.len() == 0) || exists|
            s: SystemView,
        |
            #[trigger] is_solution(s) && best.records(s) && has_silhouettes(
                s.g1,
                d,
                input.front1@,
                input.right1@,
            ) && has_silhouettes(s.g2, d, input.front2@, input.right2@),
        exists|fresh: SystemView, k: nat|
            k <= input.params.mc_run && fresh_for(
                fresh,
                d,
                input.front1@,
                input.right1@,
                input.front2@,
                input.right2@,
            ) && #[trigger] runs_of(
                fresh,
                ResultView::worst(),
                best@,
                k,
                input.params.erase_small_th as nat,
            ),
        input.params.mc_run == 0 ==> best@ == ResultView::worst(),
        input.limit == 0 ==> best@ == ResultView::worst(),
        best.score != NO_SCORE ==> best.run_count >= 2,
{
    let ghost th = input.params.erase_small_th as nat;
    let mut grid: GridSystem = GridSystem {
        grid_1: GridBox::new(d, &input.front1, &input.right1),
        grid_2: GridBox::new(d, &input.front2, &input.right2),
        block: BlockSet::new(),
    };
    let hole_1: Hole = grid.grid_1.make_hole();
    let hole_2: Hole = grid.grid_2.make_hole();
    let ghost fresh = grid@;
    proof {
        crate::box_view::lemma_blank(fresh.g1);
        crate::box_view::lemma_blank(fresh.g2);
    }
    let mut best: SolveResult = SolveResult::worst();
    let mut i: u64 = 0;
    while i < input.params.mc_run
        invariant
            i <= input.params.mc_run,
            th == input.params.erase_small_th,
            runs_of(fresh, ResultView::worst(), best@, i as nat, th),
            best.score != NO_SCORE ==> best.run_count >= 2,
            input.limit == 0 ==> best@ == ResultView::worst(),
            grid.wf(),
            grid@ == fresh,
            fresh.blocks == BlockSetView::empty(),
            fresh.g1.is_blank(),
            fresh.g2.is_blank(),
            hole_1.fits(fresh.g1),
            hole_2.fits(fresh.g2),
            input.params.erase_shared_p.wf(),
            has_silhouettes(fresh.g1, d, input.front1@, input.right1@),
            has_silhouettes(fresh.g2, d, input.front2@, input.right2@),
            (best.score == NO_SCORE && best.g1@.len() == 0 && best.g2@.len() == 0) || exists|
                s: SystemView,
            |
                #[trigger] is_solution(s) && best.records(s) && s.g1.blank() == fresh.g1
                    && s.g2.blank() == fresh.g2,
        decreases input.params.mc_run - i,
    {
        let rest_run: u64 = input.params.mc_run - i;
        let sub_limit: u128 = match sub_budget(input.limit, elapsed_nanos(&input.start), rest_run) {
            Some(part) => part,
            None => {
                break ;
            },
        };
        let ghost before = best@;
        let step: u32 = mc_run(
            now(),
            sub_limit,
            rng,
            &hole_1,
            &hole_2,
            &mut grid,
            &mut best,
            input.params,
        );
        let ghost end = choose|end: RunView|
            end.sys == grid@ && end.best == best@ && #[trigger] steps_of(
                run_start(fresh, before),
                end,
                (step - 1) as nat,
                th,
            );
        grid.grid_1.reset(&hole_1);
        grid.grid_2.reset(&hole_2);
        grid.block.reset();
        proof {
            assert(grid@.g1 == fresh.g1);
            assert(grid@.g2 == fresh.g2);
            assert(grid@.blocks == fresh.blocks);
            assert(grid@ =~= fresh);
            assert(grid.wf());
        }
        best.run_count = if step > u32::MAX - best.run_count {
            u32::MAX
        } else {
            best.run_count + step
        };
        proof {
            assert(best@ =~= (ResultView {
                run_count: counted(before.run_count, step),
                ..end.best
            }));
            assert(run_of(fresh, before, best@, th));
        }
        i += 1;
    }
    proof {
        if !(best.score == NO_SCORE && best.g1@.len() == 0 && best.g2@.len() == 0) {
            let s = choose|s: SystemView|
                #[trigger] is_solution(s) && best.records(s) && s.g1.blank() == fresh.g1
                    && s.g2.blank() == fresh.g2;
            lemma_silhouettes_kept(s.g1, fresh.g1, d, input.front1@, input.right1@);
            lemma_silhouettes_kept(s.g2, fresh.g2, d, input.front2@, input.right2@);
        }
    }
    best
}

/// A state has the silhouettes of its blank state.
pub proof fn lemma_silhouettes_kept(
    v: BoxView,
    fresh: BoxView,
    d: u8,
    front: Seq<Vec<u8>>,
    right: Seq<Vec<u8>>,
)
    requires
        v.wf(),
        v.blank() == fresh,
        has_silhouettes(fresh, d, front, right),
    ensures
        has_silhouettes(v, d, front, right),
{
    assert forall|x: u8, z: u8| x < d && z < d implies ((#[trigger] v.front_at(x, z) != OFF)
        <==> shadow_on(front, z as int, x as int)) by {
        crate::grids::lemma_plane_index_bound(d, x, z);
        assert(fresh.front_at(x, z) != OFF <==> shadow_on(front, z as int, x as int));
    }
    assert forall|y: u8, z: u8| y < d && z < d implies ((#[trigger] v.right_at(y, z) != OFF)
        <==> shadow_on(right, z as int, y as int)) by {
        crate::grids::lemma_plane_index_bound(d, z, y);
        assert(fresh.right_at(y, z) != OFF <==> shadow_on(right, z as int, y as int));
    }
}

} // verus!
