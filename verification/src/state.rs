//! The population state: the tick counter, the trait matrix and the
//! environment vector, with its structural invariant, and the initializer.

use vstd::prelude::*;
use vstd::arithmetic::div_mod::{lemma_fundamental_div_mod, lemma_fundamental_div_mod_converse};
use crate::params::{DomainError, InitConfig, MAX_LOCI, MAX_POP, VAL_BOUND};

verus! {

/// One column per individual (an inner vector of `loci` grid-unit values),
/// partitioned into `environment.len()` contiguous patches of equal size.
#[derive(Debug)]
pub struct State {
    pub tick: u64,
    pub loci: usize,
    pub population: Vec<Vec<i64>>,
    pub environment: Vec<i64>,
}

/// A column is well formed when it has one bounded value per locus.
pub open spec fn col_wf(c: Seq<i64>, loci: nat) -> bool {
    &&& c.len() == loci
    &&& forall|j: int| 0 <= j < c.len() ==> -VAL_BOUND <= #[trigger] c[j] <= VAL_BOUND
}

impl State {
    /// Population size `N`.
    pub open spec fn n_ind(&self) -> nat {
        self.population@.len()
    }

    /// Patch count `n`.
    pub open spec fn n_patches(&self) -> nat {
        self.environment@.len()
    }

    /// Per-patch capacity `N / n`.
    pub open spec fn cap(&self) -> nat {
        self.n_ind() / self.n_patches()
    }

    /// The patch that holds slot `i`.
    pub open spec fn patch_of(&self, i: int) -> int {
        i / (self.cap() as int)
    }

    /// The structural invariant, held at every observable point: at least one
    /// patch, a population size divisible by the patch count, rectangular
    /// columns, and every value inside `VAL_BOUND`.
    pub open spec fn wf(&self) -> bool {
        &&& 1 <= self.n_patches()
        &&& self.n_ind() % self.n_patches() == 0
        &&& self.n_ind() <= MAX_POP
        &&& self.loci <= MAX_LOCI
        &&& forall|i: int|
            0 <= i < self.n_ind() ==> col_wf((#[trigger] self.population@[i])@, self.loci as nat)
        &&& forall|j: int|
            0 <= j < self.n_patches() ==> -VAL_BOUND <= #[trigger] self.environment@[j]
                <= VAL_BOUND
    }
}

/// In a well-formed, non-empty state the capacity is at least one, every slot
/// lies in a valid patch, and a slot belongs to patch `p` exactly when it lies
/// in the `p`-th contiguous block of `cap` slots. Every patch therefore holds
/// exactly `N / n` individuals at every observable point, whatever any stage
/// did to the values.
pub proof fn lemma_patch_capacity(s: &State)
    requires
        s.wf(),
        s.n_ind() >= 1,
    ensures
        1 <= s.cap(),
        s.n_ind() == s.cap() * s.n_patches(),
        forall|i: int| 0 <= i < s.n_ind() ==> 0 <= #[trigger] s.patch_of(i) < s.n_patches(),
        forall|i: int, p: int|
            #![trigger s.patch_of(i), p * s.cap()]
            0 <= i < s.n_ind() && 0 <= p < s.n_patches() ==> ((s.patch_of(i) == p)
                <==> p * s.cap() <= i < (p + 1) * s.cap()),
{
    let n = s.n_ind() as int;
    let k = s.n_patches() as int;
    lemma_fundamental_div_mod(n, k);
    let cap = s.cap() as int;
    assert(n == k * cap);
    assert(n == cap * k) by (nonlinear_arith)
        requires n == k * cap,
    ;
    assert(cap >= 1) by (nonlinear_arith)
        requires n == cap * k, n >= 1, k >= 1, cap >= 0,
    ;
    assert forall|i: int| 0 <= i < n implies 0 <= #[trigger] s.patch_of(i) < k by {
        lemma_fundamental_div_mod(i, cap);
        let q = i / cap;
        let r = i % cap;
        assert(q >= 0 && q < k) by (nonlinear_arith)
            requires i == q * cap + r, 0 <= r < cap, 0 <= i < n, n == cap * k, cap >= 1,
        ;
    }
    assert forall|i: int, p: int|
        #![trigger s.patch_of(i), p * s.cap()]
        0 <= i < n && 0 <= p < k implies ((s.patch_of(i) == p)
            <==> p * cap <= i < (p + 1) * cap) by {
        lemma_fundamental_div_mod(i, cap);
        if s.patch_of(i) == p {
            assert(i == cap * (i / cap) + i % cap);
            assert(i == cap * p + i % cap);
            assert(p * cap <= i < (p + 1) * cap) by (nonlinear_arith)
                requires i == cap * p + i % cap, 0 <= i % cap < cap,
            ;
        }
        if p * cap <= i < (p + 1) * cap {
            assert(0 <= i - p * cap < cap) by (nonlinear_arith)
                requires p * cap <= i < (p + 1) * cap,
            ;
            lemma_fundamental_div_mod_converse(i, cap, p, i - p * cap);
        }
    }
}

/// Widens one starting column from the narrow input range to grid units.
fn widen_col(c: &Vec<i32>) -> (r: Vec<i64>)
    ensures
        r@.len() == c@.len(),
        forall|j: int| 0 <= j < c@.len() ==> #[trigger] r@[j] == c@[j] as i64,
        col_wf(r@, c@.len() as nat),
{
    let mut r: Vec<i64> = Vec::new();
    let mut j: usize = 0;
    while j < c.len()
        invariant
            j <= c@.len(),
            r@.len() == j,
            forall|t: int| 0 <= t < j ==> #[trigger] r@[t] == c@[t] as i64,
        decreases c@.len() - j,
    {
        r.push(c[j] as i64);
        j += 1;
    }
    r
}

/// Validates the initial data and constructs the first state.
///
/// Succeeds exactly when the population size is divisible by the patch count,
/// and then returns the supplied matrix and environment unchanged (widened to
/// grid units) at tick zero; on the error path no state is produced.
pub fn init(init_config: InitConfig) -> (r: Result<State, DomainError>)
    requires
        init_config.wf(),
    ensures
        match r {
            Ok(s) => {
                &&& init_config.population@.len() % init_config.environment@.len() == 0
                &&& s.wf()
                &&& s.tick == 0
                &&& s.loci == init_config.loci
                &&& s.n_ind() == init_config.population@.len()
                &&& s.n_patches() == init_config.environment@.len()
                &&& forall|i: int, j: int|
                    #![trigger s.population@[i]@[j]]
                    0 <= i < s.n_ind() && 0 <= j < s.loci ==> s.population@[i]@[j]
                        == init_config.population@[i]@[j] as i64
                &&& forall|j: int|
                    0 <= j < s.n_patches() ==> #[trigger] s.environment@[j]
                        == init_config.environment@[j] as i64
            },
            Err(e) => {
                &&& init_config.population@.len() % init_config.environment@.len() != 0
                &&& e == DomainError::NotDivisible
            },
        },
{
    if init_config.population.len() % init_config.environment.len() != 0 {
        return Err(DomainError::NotDivisible);
    }
    let mut population: Vec<Vec<i64>> = Vec::new();
    let mut i: usize = 0;
    while i < init_config.population.len()
        invariant
            init_config.wf(),
            i <= init_config.population@.len(),
            population@.len() == i,
            forall|t: int|
                0 <= t < i ==> col_wf((#[trigger] population@[t])@, init_config.loci as nat),
            forall|t: int, j: int|
                #![trigger population@[t]@[j]]
                0 <= t < i && 0 <= j < init_config.loci ==> population@[t]@[j]
                    == init_config.population@[t]@[j] as i64,
        decreases init_config.population@.len() - i,
    {
        population.push(widen_col(&init_config.population[i]));
        i += 1;
    }
    let mut environment: Vec<i64> = Vec::new();
    let mut j: usize = 0;
    while j < init_config.environment.len()
        invariant
            j <= init_config.environment@.len(),
            environment@.len() == j,
            forall|t: int|
                0 <= t < j ==> #[trigger] environment@[t] == init_config.environment@[t] as i64,
        decreases init_config.environment@.len() - j,
    {
        environment.push(init_config.environment[j] as i64);
        j += 1;
    }
    Ok(State { tick: 0, loci: init_config.loci, population, environment })
}

} // verus!
