//! Scores as whole numbers of a small unit, so that every comparison the
//! search makes is exact.

use vstd::prelude::*;

verus! {

/// The score of one shared block of a single voxel. It is
/// `2⁴·3³·5²·7·11·13·17·19·23·29`, the least common multiple of 1, …, 30, so
/// the share of a block of up to 30 voxels is an exact fraction of it.
pub const SCORE_UNIT: u64 = 2_329_089_562_800;

/// The score of a state in which nothing has been built yet: worse than any
/// score that can be reached.
pub const NO_SCORE: u64 = 0xFFFF_FFFF_FFFF_FFFF;

/// The largest number of voxels in one grid.
pub const MAX_CELLS: u64 = 2744;

/// The score of a shared block of `size` voxels: the `size`-th part of a
/// unit, rounded down.
pub open spec fn share(size: nat) -> nat {
    if size == 0 {
        0
    } else {
        SCORE_UNIT as nat / size
    }
}

/// The score of a block of `size` voxels that only one object has: `size`
/// units and the share of `size`.
pub open spec fn half_cost(size: nat) -> nat {
    size * (SCORE_UNIT as nat) + share(size)
}

/// A share is at most one unit, and a block of at least one voxel that only
/// one object has costs more than one unit.
pub proof fn lemma_share_bounds(size: nat)
    ensures
        share(size) <= SCORE_UNIT,
        size <= MAX_CELLS ==> half_cost(size) <= 2745 * SCORE_UNIT,
        size >= 1 ==> half_cost(size) >= SCORE_UNIT,
{
    if size > 0 {
        vstd::arithmetic::div_mod::lemma_div_is_ordered_by_denominator(
            SCORE_UNIT as int,
            1,
            size as int,
        );
        vstd::arithmetic::div_mod::lemma_div_pos_is_pos(SCORE_UNIT as int, size as int);
        assert(size * (SCORE_UNIT as nat) >= SCORE_UNIT) by (nonlinear_arith)
            requires
                size >= 1,
        ;
    }
    if size <= MAX_CELLS {
        assert(size * (SCORE_UNIT as nat) <= 2744 * SCORE_UNIT) by (nonlinear_arith)
            requires
                size <= 2744,
        ;
    }
}

/// The share of a block of `size` voxels, computed.
pub fn share_of(size: usize) -> (r: u64)
    requires
        size > 0,
    ensures
        r == share(size as nat),
        r <= SCORE_UNIT,
{
    proof {
        lemma_share_bounds(size as nat);
    }
    SCORE_UNIT / (size as u64)
}

/// The cost of a block of `size` voxels that only one object has, computed.
pub fn half_cost_of(size: u64) -> (r: u64)
    requires
        0 < size <= MAX_CELLS,
    ensures
        r == half_cost(size as nat),
{
    proof {
        lemma_share_bounds(size as nat);
        assert(size * SCORE_UNIT <= 2744 * SCORE_UNIT) by (nonlinear_arith)
            requires
                size <= 2744,
        ;
    }
    size * SCORE_UNIT + SCORE_UNIT / size
}

} // verus!
