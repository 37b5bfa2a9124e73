//! Run parameters: the immutable per-run configuration, the initial data
//! handed to `init`, and the one recoverable error.
//!
//! All trait values and environmental optima are integers on the mutational
//! grid: a stored value `v` stands for the real quantity `v * mutation_step`,
//! where the grid width `mutation_step` is a display scale kept outside the
//! engine. Probabilities are fixed-point fractions over `PROB_ONE`.

use vstd::prelude::*;

verus! {

/// Fixed-point denominator for probabilities: `p` with `0 <= p <= PROB_ONE`
/// stands for the probability `p / PROB_ONE`.
pub const PROB_ONE: u64 = 0x1_0000_0000;

/// Largest admissible magnitude of a trait value or an environmental optimum,
/// in grid units. Mutation clamps to this range, so locus values keep bounded
/// precision for the life of a run.
pub const VAL_BOUND: i64 = 0x8000_0000;

/// Largest admissible population size; keeps per-patch weight sums within a
/// machine word.
pub const MAX_POP: usize = 0x4000_0000;

/// Largest admissible locus count; keeps phenotype sums within a machine word.
pub const MAX_LOCI: usize = 0x4000_0000;

/// Largest admissible `r_max`; keeps offspring-weight sums within a machine word.
pub const R_MAX_BOUND: u64 = 0x1_0000_0000;

/// Largest admissible expected mutational magnitude, in grid units.
pub const MUT_SIGMA_MAX: u64 = 0x4000_0000;

/// Largest admissible selection width, in grid units.
pub const SEL_SIGMA_MAX: u64 = 0x8000_0000;

pub open spec fn is_prob(p: u64) -> bool {
    p <= PROB_ONE
}

/// Haploid individuals carry one locus set; diploid individuals carry paired
/// homologous loci (rows `2t` and `2t + 1`), and only diploid data undergoes
/// recombination.
#[derive(Clone, Copy, Debug)]
pub enum Ploidy {
    Haploid,
    Diploid,
}

/// The injected environment-update strategy, applied to every optimum once per
/// tick. `Linear` drifts each optimum by `delta` grid units per tick;
/// `Periodic` alternates a drift of `amplitude` up for the first half of each
/// period and down for the second; both clamp to `VAL_BOUND`.
#[derive(Clone, Copy, Debug)]
pub enum EnvRule {
    Constant,
    Linear { delta: i64 },
    Periodic { amplitude: i64, period: u64 },
}

impl EnvRule {
    pub open spec fn wf(&self) -> bool {
        match *self {
            EnvRule::Constant => true,
            EnvRule::Linear { delta } => -VAL_BOUND <= delta <= VAL_BOUND,
            EnvRule::Periodic { amplitude, period } => -VAL_BOUND <= amplitude <= VAL_BOUND
                && period >= 1,
        }
    }
}

/// Immutable per-run parameters.
#[derive(Debug)]
pub struct Config {
    /// Tick bound consulted by the driving loop, unlimited if `None`; the
    /// engine itself runs one tick per `step` call.
    pub t_max: Option<u64>,
    /// Per-locus mutation probability, length equal to the locus count.
    pub mutation_mu: Vec<u64>,
    /// Expected magnitude of a mutational effect, in grid units.
    pub mutation_sigma: u64,
    /// Per-locus-pair recombination probability.
    pub rec: u64,
    /// Scale of the expected-offspring weight: the weight of an individual
    /// sitting exactly on its optimum.
    pub r_max: u64,
    /// Selection width (standard deviation of the stabilizing-selection
    /// curve), in grid units.
    pub selection_sigma: u64,
    /// Adult mortality (generation overlap) probability.
    pub gamma: u64,
    /// Haploid or diploid encoding of the population matrix.
    pub ploidy: Ploidy,
    /// Dispersal probability.
    pub m: u64,
    /// Environment-update strategy.
    pub env_rule: EnvRule,
}

impl Config {
    /// Well-formedness with respect to a locus count.
    pub open spec fn wf(&self, loci: nat) -> bool {
        &&& self.mutation_mu@.len() == loci
        &&& forall|j: int| 0 <= j < loci ==> is_prob(#[trigger] self.mutation_mu@[j])
        &&& self.mutation_sigma <= MUT_SIGMA_MAX
        &&& is_prob(self.rec)
        &&& self.r_max <= R_MAX_BOUND
        &&& 1 <= self.selection_sigma <= SEL_SIGMA_MAX
        &&& is_prob(self.gamma)
        &&& is_prob(self.m)
        &&& (self.ploidy is Diploid ==> loci % 2 == 0)
        &&& self.env_rule.wf()
    }
}

/// Initial data handed to `init`: the starting population matrix (one inner
/// vector of `loci` grid-unit values per individual) and the starting
/// environment (one optimum per patch).
pub struct InitConfig {
    pub loci: usize,
    pub population: Vec<Vec<i32>>,
    pub environment: Vec<i32>,
}

impl InitConfig {
    /// Rectangularity and the machine limits on the matrix dimensions; the
    /// narrower `i32` entries keep every starting value inside `VAL_BOUND`.
    pub open spec fn wf(&self) -> bool {
        &&& 1 <= self.environment@.len()
        &&& self.population@.len() <= MAX_POP
        &&& self.loci <= MAX_LOCI
        &&& forall|i: int|
            0 <= i < self.population@.len() ==> (#[trigger] self.population@[i])@.len()
                == self.loci
    }
}

/// The one recoverable error: initialization rejects a population whose size
/// is not divisible by the patch count.
#[derive(Debug, PartialEq, Eq, Structural, Clone, Copy)]
pub enum DomainError {
    NotDivisible,
}

impl DomainError {
    /// The diagnostic text of the error, fixed exactly.
    pub fn message(&self) -> (r: &'static str)
        ensures
            r@ == "population size must be divisible by number of patches"@,
    {
        "population size must be divisible by number of patches"
    }
}

} // verus!
