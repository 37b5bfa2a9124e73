//! The engine's only source of randomness: an injected seedable generator,
//! consulted through one uniform-draw wrapper. Every distribution the stages
//! need (Bernoulli trials, weighted picks) is derived from uniform draws in
//! verified code.

use vstd::prelude::*;
use rand::rngs::StdRng;
use crate::params::PROB_ONE;

verus! {

/// Declares rand's `StdRng` so the seedable generator can appear in
/// signatures; the engine never looks inside it.
#[verifier::external_type_specification]
#[verifier::external_body]
pub struct ExStdRng(StdRng);

/// Relies on rand's `Rng::gen_range` over the range `0..bound`: the result
/// lies in the range. The call panics only on an empty range, which the
/// precondition rules out.
#[verifier::external_body]
pub(crate) fn rand_below(rng: &mut StdRng, bound: u64) -> (r: u64)
    requires
        bound >= 1,
    ensures
        r < bound,
{
    rand::Rng::gen_range(rng, 0..bound)
}

/// One Bernoulli trial with success probability `p / PROB_ONE`. Nothing is
/// promised of the outcome except at the two degenerate probabilities.
pub(crate) fn bernoulli(rng: &mut StdRng, p: u64) -> (r: bool)
    requires
        p <= PROB_ONE,
    ensures
        p == 0 ==> !r,
        p == PROB_ONE ==> r,
{
    let u = rand_below(rng, PROB_ONE);
    u < p
}

} // verus!
