//! A discrete-time simulation engine for the evolution of a quantitative
//! trait in a spatially structured population: patches with local optima under
//! stabilizing selection, with mortality, reproduction, density regulation,
//! dispersal, mutation and recombination applied as a fixed per-tick pipeline.
//!
//! Trait values live on the mutational grid: every stored value is an integer
//! count of grid steps, so mutational effects are exact multiples of the step
//! by construction. Randomness enters only through an injected seedable
//! generator.

mod fitness;
mod laws;
mod params;
mod rng;
mod stages;
mod state;

pub use params::{Config, DomainError, EnvRule, InitConfig, Ploidy};
pub use params::{MAX_LOCI, MAX_POP, MUT_SIGMA_MAX, PROB_ONE, R_MAX_BOUND, SEL_SIGMA_MAX, VAL_BOUND};
pub use fitness::{gauss, lemma_weight_antitone, lemma_weight_at_optimum, lemma_weight_le, pow_sq, spec_weight, sq_step, x_of, EXP_DIV, FIT_ONE, X_CUT};
pub use laws::lemma_optimum_is_max;
pub use stages::{clamp_spec, contains_idx, cross_of, env_delta, env_step, exchange_ok, full_dispersal, full_turnover, is_exchange, mut_step_ok, no_mutation, no_recombination, post_env_d2, post_env_weights, quiescent, rec_pair_ok, rec_pair_swapped, recruit_ok, step, sum_first, sum_w};
pub use state::{col_wf, init, lemma_patch_capacity, State};
