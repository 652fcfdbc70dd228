//! The random source: a `rand_pcg` generator, asked through `rand`.

use vstd::prelude::*;
use rand::seq::SliceRandom;
use rand::Rng;
use rand_pcg::Mcg128Xsl64;

verus! {

/// The generator that drives every random choice of the search.
#[verifier::external_type_specification]
#[verifier::external_body]
pub struct ExMcg128Xsl64(Mcg128Xsl64);

/// `SliceRandom::shuffle`: the six directions are reordered in place, so
/// afterwards the array holds the same values as before, each as often.
#[verifier::external_body]
pub(crate) fn shuffle_directions(rng: &mut Mcg128Xsl64, directions: &mut [u8; 6])
    ensures
        final(directions)@.to_multiset() == old(directions)@.to_multiset(),
{
    directions.shuffle(rng)
}

/// `Rng::gen_range(0, n)`: a number in `[0, n)`.
#[verifier::external_body]
pub(crate) fn random_below(rng: &mut Mcg128Xsl64, n: usize) -> (r: usize)
    requires
        n > 0,
    ensures
        r < n,
{
    rng.gen_range(0, n)
}

/// `Rng::gen_ratio`: true with a chance of `numerator` in `denominator`;
/// always true if the two are equal, never if `numerator` is zero.
#[verifier::external_body]
pub(crate) fn random_ratio(rng: &mut Mcg128Xsl64, numerator: u32, denominator: u32) -> (r: bool)
    requires
        denominator > 0,
        numerator <= denominator,
    ensures
        numerator == denominator ==> r,
        numerator == 0 ==> !r,
{
    rng.gen_ratio(numerator, denominator)
}

} // verus!
