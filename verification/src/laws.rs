//! Cross-stage laws of the engine.

use vstd::prelude::*;
use crate::fitness::{lemma_weight_at_optimum, lemma_weight_le};
use crate::params::SEL_SIGMA_MAX;
use crate::state::State;

verus! {

/// An individual whose phenotype equals its patch optimum exactly gets the
/// peak expected-offspring weight `r_max`, which no individual anywhere (in
/// particular none of its own patch) can exceed.
pub proof fn lemma_optimum_is_max(s: &State, r_max: u64, selection_sigma: u64, i: int, j: int)
    requires
        s.wf(),
        1 <= selection_sigma <= SEL_SIGMA_MAX,
        0 <= i < s.n_ind(),
        0 <= j < s.n_ind(),
        s.spec_phenotype(i) == s.spec_optimum(i),
    ensures
        s.spec_offspring_weight(r_max, selection_sigma, i) == r_max,
        s.spec_offspring_weight(r_max, selection_sigma, i) >= s.spec_offspring_weight(
            r_max,
            selection_sigma,
            j,
        ),
{
    assert(s.spec_d2(i) == 0);
    lemma_weight_at_optimum(r_max as nat, selection_sigma as nat);
    lemma_weight_le(r_max as nat, selection_sigma as nat, s.spec_d2(j));
}

} // verus!
