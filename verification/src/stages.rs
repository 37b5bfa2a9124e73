//! The per-tick life-cycle stages and the `step` driver.
//!
//! Every stage is a total function over well-formed state; randomness enters
//! only through the injected generator, and each contract states what holds
//! of every possible draw, with exact clauses at the degenerate probabilities.

use vstd::prelude::*;
use vstd::arithmetic::div_mod::{lemma_fundamental_div_mod, lemma_fundamental_div_mod_converse};
use rand::rngs::StdRng;
use crate::fitness::{fitness_weight, lemma_weight_le, spec_weight};
use crate::params::{
    is_prob, Config, EnvRule, Ploidy, MUT_SIGMA_MAX, PROB_ONE, R_MAX_BOUND, SEL_SIGMA_MAX,
    VAL_BOUND,
};
use crate::rng::{bernoulli, rand_below};
use crate::state::{col_wf, lemma_patch_capacity, State};

verus! {

/// Sum of the first `t` values of a column.
pub open spec fn sum_first(c: Seq<i64>, t: int) -> int
    decreases t,
{
    if t <= 0 {
        0
    } else {
        sum_first(c, t - 1) + c[t - 1]
    }
}

proof fn lemma_sum_first_bound(c: Seq<i64>, t: int, b: int)
    requires
        0 <= t <= c.len(),
        b >= 0,
        forall|j: int| 0 <= j < c.len() ==> -b <= #[trigger] c[j] <= b,
    ensures
        -(t * b) <= sum_first(c, t) <= t * b,
    decreases t,
{
    if t > 0 {
        lemma_sum_first_bound(c, t - 1, b);
        assert((t - 1) * b + b == t * b) by (nonlinear_arith);
    } else {
        assert(t * b == 0) by (nonlinear_arith)
            requires t == 0,
        ;
    }
}

/// Clamp to the admissible value range, the safe fallback that keeps every
/// trait value and optimum at bounded precision.
pub open spec fn clamp_spec(v: int) -> int {
    if v < -VAL_BOUND {
        -VAL_BOUND as int
    } else if v > VAL_BOUND {
        VAL_BOUND as int
    } else {
        v
    }
}

fn clamp_i64(v: i64) -> (r: i64)
    ensures
        r == clamp_spec(v as int),
{
    if v < -VAL_BOUND {
        -VAL_BOUND
    } else if v > VAL_BOUND {
        VAL_BOUND
    } else {
        v
    }
}

/// The drift the environment rule applies at a given tick.
pub open spec fn env_delta(rule: EnvRule, tick: u64) -> int {
    match rule {
        EnvRule::Constant => 0,
        EnvRule::Linear { delta } => delta as int,
        EnvRule::Periodic { amplitude, period } => if (tick as int) % (period as int) < (period
            as int) / 2 {
            amplitude as int
        } else {
            -amplitude as int
        },
    }
}

/// What one tick of the environment rule does to one optimum.
pub open spec fn env_step(rule: EnvRule, e: int, tick: u64) -> int {
    clamp_spec(e + env_delta(rule, tick))
}

impl State {
    /// The phenotype of individual `i`: the sum of its locus values.
    pub open spec fn spec_phenotype(&self, i: int) -> int {
        sum_first(self.population@[i]@, self.loci as int)
    }

    /// The optimum of the patch that holds slot `i`.
    pub open spec fn spec_optimum(&self, i: int) -> int {
        self.environment@[self.patch_of(i)] as int
    }

    /// Squared distance of individual `i` from its patch optimum.
    pub open spec fn spec_d2(&self, i: int) -> nat {
        let d = self.spec_optimum(i) - self.spec_phenotype(i);
        (d * d) as nat
    }

    /// The expected-offspring weight of individual `i`.
    pub open spec fn spec_offspring_weight(&self, r_max: u64, selection_sigma: u64, i: int) -> nat {
        spec_weight(r_max as nat, selection_sigma as nat, self.spec_d2(i))
    }

    /// Applies the configured environment rule to every optimum, exactly once
    /// per tick and before any other stage. The environment keeps its length;
    /// nothing else of the state changes.
    pub fn environment(&mut self, rule: &EnvRule)
        requires
            old(self).wf(),
            rule.wf(),
        ensures
            final(self).wf(),
            final(self).tick == old(self).tick,
            final(self).loci == old(self).loci,
            final(self).population == old(self).population,
            final(self).n_patches() == old(self).n_patches(),
            forall|j: int|
                0 <= j < old(self).n_patches() ==> #[trigger] final(self).environment@[j]
                    == env_step(*rule, old(self).environment@[j] as int, old(self).tick),
    {
        let ghost e0 = self.environment@;
        let delta: i64 = match *rule {
            EnvRule::Constant => 0,
            EnvRule::Linear { delta } => delta,
            EnvRule::Periodic { amplitude, period } => {
                if self.tick % period < period / 2 {
                    amplitude
                } else {
                    -amplitude
                }
            },
        };
        let mut j: usize = 0;
        while j < self.environment.len()
            invariant
                old(self).wf(),
                rule.wf(),
                self.tick == old(self).tick,
                self.loci == old(self).loci,
                self.population == old(self).population,
                self.environment@.len() == e0.len(),
                e0 == old(self).environment@,
                delta == env_delta(*rule, old(self).tick),
                -VAL_BOUND <= delta <= VAL_BOUND,
                j <= e0.len(),
                forall|t: int|
                    0 <= t < j ==> #[trigger] self.environment@[t] == env_step(
                        *rule,
                        e0[t] as int,
                        old(self).tick,
                    ),
                forall|t: int| j <= t < e0.len() ==> #[trigger] self.environment@[t] == e0[t],
            decreases e0.len() - j,
        {
            let v = clamp_i64(self.environment[j] + delta);
            self.environment[j] = v;
            j += 1;
        }
        assert(forall|t: int|
            0 <= t < self.n_patches() ==> -VAL_BOUND <= #[trigger] self.environment@[t]
                <= VAL_BOUND);
    }

    /// Marks each of the `N` individuals dead independently with probability
    /// `gamma`, returning the vacated slots in strictly increasing order.
    /// With `gamma == 0` no slot is vacated; with `gamma == PROB_ONE` every
    /// slot is.
    pub fn adult_death(&self, gamma: u64, rng: &mut StdRng) -> (dead: Vec<usize>)
        requires
            is_prob(gamma),
        ensures
            forall|t: int| 0 <= t < dead@.len() ==> #[trigger] dead@[t] < self.n_ind(),
            forall|t1: int, t2: int|
                0 <= t1 < t2 < dead@.len() ==> #[trigger] dead@[t1] < #[trigger] dead@[t2],
            gamma == 0 ==> dead@.len() == 0,
            gamma == PROB_ONE ==> dead@.len() == self.n_ind() && forall|t: int|
                0 <= t < dead@.len() ==> #[trigger] dead@[t] == t,
    {
        let mut dead: Vec<usize> = Vec::new();
        let mut i: usize = 0;
        while i < self.population.len()
            invariant
                is_prob(gamma),
                i <= self.n_ind(),
                forall|t: int| 0 <= t < dead@.len() ==> #[trigger] dead@[t] < i,
                forall|t1: int, t2: int|
                    0 <= t1 < t2 < dead@.len() ==> #[trigger] dead@[t1] < #[trigger] dead@[t2],
                gamma == 0 ==> dead@.len() == 0,
                gamma == PROB_ONE ==> dead@.len() == i && forall|t: int|
                    0 <= t < dead@.len() ==> #[trigger] dead@[t] == t,
            decreases self.n_ind() - i,
        {
            if bernoulli(rng, gamma) {
                dead.push(i);
            }
            i += 1;
        }
        dead
    }

    /// Computes the phenotype of one column, in grid units.
    fn phenotype(&self, i: usize) -> (r: i64)
        requires
            self.wf(),
            i < self.n_ind(),
        ensures
            r == self.spec_phenotype(i as int),
            -0x4000_0000_0000_0000 <= r <= 0x4000_0000_0000_0000,
    {
        let c = &self.population[i];
        let mut acc: i64 = 0;
        let mut j: usize = 0;
        proof {
            lemma_sum_first_bound(c@, self.loci as int, VAL_BOUND as int);
        }
        while j < c.len()
            invariant
                self.wf(),
                i < self.n_ind(),
                c == &self.population[i as int],
                c@.len() == self.loci,
                j <= c@.len(),
                acc == sum_first(c@, j as int),
                -(j as int) * VAL_BOUND <= acc <= (j as int) * VAL_BOUND,
            decreases c@.len() - j,
        {
            proof {
                lemma_sum_first_bound(c@, j as int + 1, VAL_BOUND as int);
                assert((j as int) * VAL_BOUND + VAL_BOUND == (j as int + 1) * VAL_BOUND)
                    by (nonlinear_arith);
                assert((j as int + 1) * VAL_BOUND <= 0x4000_0000 * (VAL_BOUND as int))
                    by (nonlinear_arith)
                    requires j as int + 1 <= 0x4000_0000,
                ;
            }
            acc = acc + c[j];
            j += 1;
        }
        proof {
            assert((j as int) * VAL_BOUND <= 0x4000_0000 * (VAL_BOUND as int)) by (nonlinear_arith)
                requires j as int <= 0x4000_0000,
            ;
        }
        acc
    }

    /// Computes every individual's expected-offspring weight under Gaussian
    /// stabilizing selection toward its patch optimum. Deterministic: the
    /// result is exactly `spec_offspring_weight` at every slot.
    pub fn reproduction(&self, r_max: u64, selection_sigma: u64) -> (w: Vec<u64>)
        requires
            self.wf(),
            r_max <= R_MAX_BOUND,
            1 <= selection_sigma <= SEL_SIGMA_MAX,
        ensures
            w@.len() == self.n_ind(),
            forall|i: int|
                0 <= i < self.n_ind() ==> #[trigger] w@[i] == self.spec_offspring_weight(
                    r_max,
                    selection_sigma,
                    i,
                ),
            forall|i: int| 0 <= i < self.n_ind() ==> #[trigger] w@[i] <= r_max,
    {
        let mut w: Vec<u64> = Vec::new();
        let n_ind = self.population.len();
        if n_ind == 0 {
            return w;
        }
        proof {
            lemma_patch_capacity(self);
        }
        let cap = n_ind / self.environment.len();
        let mut i: usize = 0;
        while i < n_ind
            invariant
                self.wf(),
                n_ind == self.n_ind(),
                n_ind >= 1,
                cap == self.cap(),
                r_max <= R_MAX_BOUND,
                1 <= selection_sigma <= SEL_SIGMA_MAX,
                i <= n_ind,
                w@.len() == i,
                forall|t: int| 0 <= t < self.n_ind() ==> 0 <= #[trigger] self.patch_of(t)
                    < self.n_patches(),
                1 <= self.cap(),
                forall|t: int|
                    0 <= t < i ==> #[trigger] w@[t] == self.spec_offspring_weight(
                        r_max,
                        selection_sigma,
                        t,
                    ),
                forall|t: int| 0 <= t < i ==> #[trigger] w@[t] <= r_max,
            decreases n_ind - i,
        {
            let p = i / cap;
            assert(p == self.patch_of(i as int));
            let opt = self.environment[p];
            let phen = self.phenotype(i);
            let d: i64 = opt - phen;
            proof {
                assert((d as int) * (d as int) >= 0) by (nonlinear_arith);
                assert((d as int) * (d as int) <= 0x4000_0000_0000_0000_0000_0000_0000_0000int)
                    by (nonlinear_arith)
                    requires -0x8000_0000_0000_0000int <= d <= 0x8000_0000_0000_0000int,
                ;
            }
            let dd: i128 = (d as i128) * (d as i128);
            let d2: u128 = dd as u128;
            proof {
                assert(d2 == self.spec_d2(i as int));
            }
            let wi = fitness_weight(r_max, selection_sigma, d2);
            w.push(wi);
            i += 1;
        }
        w
    }
}

/// Sum of the weights over the half-open slot range `[lo, hi)`.
pub open spec fn sum_w(w: Seq<u64>, lo: int, hi: int) -> int
    decreases hi - lo,
{
    if hi <= lo {
        0
    } else {
        sum_w(w, lo, hi - 1) + w[hi - 1]
    }
}

proof fn lemma_sum_w_bound(w: Seq<u64>, lo: int, hi: int, b: int)
    requires
        0 <= lo <= hi <= w.len(),
        b >= 0,
        forall|t: int| 0 <= t < w.len() ==> #[trigger] w[t] <= b,
    ensures
        0 <= sum_w(w, lo, hi) <= (hi - lo) * b,
    decreases hi - lo,
{
    if hi > lo {
        lemma_sum_w_bound(w, lo, hi - 1, b);
        assert((hi - 1 - lo) * b + b == (hi - lo) * b) by (nonlinear_arith);
    } else {
        assert((hi - lo) * b >= 0) by (nonlinear_arith)
            requires hi - lo >= 0, b >= 0,
        ;
    }
}

/// Adds up the expected-offspring weights of one patch block.
fn sum_weights(w: &Vec<u64>, lo: usize, hi: usize) -> (s: u64)
    requires
        lo <= hi <= w@.len(),
        hi - lo <= 0x4000_0000,
        forall|t: int| 0 <= t < w@.len() ==> #[trigger] w@[t] <= R_MAX_BOUND,
    ensures
        s == sum_w(w@, lo as int, hi as int),
        s <= 0x4000_0000_0000_0000,
{
    let mut acc: u64 = 0;
    let mut j: usize = lo;
    while j < hi
        invariant
            lo <= j <= hi <= w@.len(),
            hi - lo <= 0x4000_0000,
            forall|t: int| 0 <= t < w@.len() ==> #[trigger] w@[t] <= R_MAX_BOUND,
            acc == sum_w(w@, lo as int, j as int),
            acc <= (j - lo) * (R_MAX_BOUND as int),
        decreases hi - j,
    {
        proof {
            assert((j - lo) * (R_MAX_BOUND as int) + R_MAX_BOUND == (j + 1 - lo) * (
            R_MAX_BOUND as int)) by (nonlinear_arith);
            assert((j + 1 - lo) * (R_MAX_BOUND as int) <= 0x4000_0000 * (R_MAX_BOUND as int))
                by (nonlinear_arith)
                requires j + 1 - lo <= 0x4000_0000,
            ;
        }
        acc = acc + w[j];
        j += 1;
    }
    proof {
        assert((j - lo) * (R_MAX_BOUND as int) <= 0x4000_0000 * (R_MAX_BOUND as int))
            by (nonlinear_arith)
            requires j - lo <= 0x4000_0000,
        ;
    }
    acc
}

/// Picks the slot whose weight interval contains `u` in the cumulative
/// weighting of the block `[lo, hi)`; the picked slot always carries a
/// positive weight.
fn weighted_pick(w: &Vec<u64>, lo: usize, hi: usize, u: u64) -> (j: usize)
    requires
        lo < hi <= w@.len(),
        u < sum_w(w@, lo as int, hi as int),
        sum_w(w@, lo as int, hi as int) <= 0x4000_0000_0000_0000,
        forall|t: int| 0 <= t < w@.len() ==> #[trigger] w@[t] <= R_MAX_BOUND,
    ensures
        lo <= j < hi,
        w@[j as int] >= 1,
{
    let mut acc: u64 = 0;
    let mut j: usize = lo;
    while j < hi
        invariant
            lo <= j <= hi <= w@.len(),
            u < sum_w(w@, lo as int, hi as int),
            sum_w(w@, lo as int, hi as int) <= 0x4000_0000_0000_0000,
            forall|t: int| 0 <= t < w@.len() ==> #[trigger] w@[t] <= R_MAX_BOUND,
            acc == sum_w(w@, lo as int, j as int),
            acc <= u,
        decreases hi - j,
    {
        proof {
            lemma_sum_w_prefix_le(w@, lo as int, j as int + 1, hi as int);
        }
        if u < acc + w[j] {
            return j;
        }
        acc = acc + w[j];
        j += 1;
    }
    proof {
        assert(false);
    }
    vstd::pervasive::unreached()
}

/// A prefix sum never exceeds the block sum.
proof fn lemma_sum_w_prefix_le(w: Seq<u64>, lo: int, mid: int, hi: int)
    requires
        0 <= lo <= mid <= hi <= w.len(),
    ensures
        sum_w(w, lo, mid) <= sum_w(w, lo, hi),
    decreases hi - mid,
{
    if mid < hi {
        lemma_sum_w_prefix_le(w, lo, mid, hi - 1);
    }
}

/// Whether `i` occurs among the vacated slots.
pub open spec fn contains_idx(dead: Seq<usize>, i: int) -> bool {
    exists|t: int| 0 <= t < dead.len() && #[trigger] dead[t] == i
}

proof fn lemma_contains_take_succ(dead: Seq<usize>, t: int, i: int)
    requires
        0 <= t < dead.len(),
    ensures
        contains_idx(dead.take(t + 1), i) <==> (contains_idx(dead.take(t), i) || dead[t] == i),
{
    if contains_idx(dead.take(t + 1), i) {
        let x = choose|x: int| 0 <= x < dead.take(t + 1).len() && #[trigger] dead.take(t + 1)[x] == i;
        if x < t {
            assert(dead.take(t)[x] == i);
            assert(contains_idx(dead.take(t), i));
        } else {
            assert(dead[t] == i);
        }
    }
    if contains_idx(dead.take(t), i) {
        let x = choose|x: int| 0 <= x < dead.take(t).len() && #[trigger] dead.take(t)[x] == i;
        assert(dead.take(t + 1)[x] == i);
    }
    if dead[t] == i {
        assert(dead.take(t + 1)[t] == i);
    }
}

/// What a recruited column may be: a copy of some (pre-stage) individual of
/// the same patch, and of one with positive weight whenever the patch's
/// weights are not all zero.
pub open spec fn recruit_ok(pre: State, w: Seq<u64>, i: int, c: Seq<i64>) -> bool {
    exists|j: int|
        0 <= j < pre.n_ind() && #[trigger] pre.patch_of(j) == pre.patch_of(i) && c
            == pre.population@[j]@ && (sum_w(
            w,
            pre.patch_of(i) * pre.cap(),
            (pre.patch_of(i) + 1) * pre.cap(),
        ) > 0 ==> w[j] >= 1)
}

/// Copies one column.
fn copy_col(c: &Vec<i64>) -> (r: Vec<i64>)
    ensures
        r@ == c@,
{
    let mut r: Vec<i64> = Vec::new();
    let mut j: usize = 0;
    while j < c.len()
        invariant
            j <= c@.len(),
            r@ == c@.take(j as int),
        decreases c@.len() - j,
    {
        r.push(c[j]);
        proof {
            assert(r@ =~= c@.take(j as int + 1));
        }
        j += 1;
    }
    proof {
        assert(r@ =~= c@);
    }
    r
}

impl State {
    /// Density regulation with immediate recruitment: every slot vacated by
    /// mortality is refilled with a copy of an individual of the same patch,
    /// drawn with probability proportional to the expected-offspring weights,
    /// so each patch is restored to exactly its `N / n` slots. A chosen parent
    /// always carries positive weight; when a patch's weights are all zero the
    /// slot keeps its previous occupant, the safe fallback. Survivor slots are
    /// untouched.
    pub fn density_regulation(
        &mut self,
        offspring: &Vec<u64>,
        dead: &Vec<usize>,
        rng: &mut StdRng,
    )
        requires
            old(self).wf(),
            offspring@.len() == old(self).n_ind(),
            forall|t: int| 0 <= t < offspring@.len() ==> #[trigger] offspring@[t] <= R_MAX_BOUND,
            forall|t: int| 0 <= t < dead@.len() ==> #[trigger] dead@[t] < old(self).n_ind(),
            forall|t1: int, t2: int|
                0 <= t1 < t2 < dead@.len() ==> #[trigger] dead@[t1] < #[trigger] dead@[t2],
        ensures
            final(self).wf(),
            final(self).tick == old(self).tick,
            final(self).loci == old(self).loci,
            final(self).environment == old(self).environment,
            final(self).n_ind() == old(self).n_ind(),
            forall|i: int|
                0 <= i < old(self).n_ind() && !contains_idx(dead@, i)
                    ==> (#[trigger] final(self).population@[i])@ == old(self).population@[i]@,
            forall|i: int|
                0 <= i < old(self).n_ind() && contains_idx(dead@, i)
                    ==> recruit_ok(
                    *old(self),
                    offspring@,
                    i,
                    (#[trigger] final(self).population@[i])@,
                ),
    {
        let ghost pre = *self;
        let n_ind = self.population.len();
        let n_patches = self.environment.len();
        let mut t: usize = 0;
        while t < dead.len()
            invariant
                pre == *old(self),
                pre.wf(),
                offspring@.len() == pre.n_ind(),
                forall|x: int|
                    0 <= x < offspring@.len() ==> #[trigger] offspring@[x] <= R_MAX_BOUND,
                forall|x: int| 0 <= x < dead@.len() ==> #[trigger] dead@[x] < pre.n_ind(),
                forall|t1: int, t2: int|
                    0 <= t1 < t2 < dead@.len() ==> #[trigger] dead@[t1] < #[trigger] dead@[t2],
                n_ind == pre.n_ind(),
                n_patches == pre.n_patches(),
                t <= dead@.len(),
                self.tick == pre.tick,
                self.loci == pre.loci,
                self.environment == pre.environment,
                self.population@.len() == pre.n_ind(),
                forall|i: int|
                    0 <= i < pre.n_ind() ==> col_wf(
                        (#[trigger] self.population@[i])@,
                        pre.loci as nat,
                    ),
                forall|i: int|
                    0 <= i < pre.n_ind() && !contains_idx(dead@.take(t as int), i) ==> (
                    #[trigger] self.population@[i])@ == pre.population@[i]@,
                forall|i: int|
                    0 <= i < pre.n_ind() && contains_idx(dead@.take(t as int), i) ==> recruit_ok(
                        pre,
                        offspring@,
                        i,
                        (#[trigger] self.population@[i])@,
                    ),
            decreases dead@.len() - t,
        {
            let s = dead[t];
            proof {
                assert(n_ind >= 1);
                lemma_patch_capacity(&pre);
            }
            let cap = n_ind / n_patches;
            proof {
                assert(cap == pre.cap());
                assert(cap >= 1);
                assert(cap <= n_ind) by (nonlinear_arith)
                    requires n_ind == cap * n_patches, n_patches >= 1, cap >= 0,
                ;
            }
            let p = s / cap;
            proof {
                assert(p == pre.patch_of(s as int));
                assert(0 <= pre.patch_of(s as int) < pre.n_patches());
                assert(p * cap + cap <= n_ind) by (nonlinear_arith)
                    requires (p as int) < n_patches, n_ind == cap * n_patches, cap >= 0,
                ;
            }
            let lo = p * cap;
            let hi = lo + cap;
            proof {
                assert(pre.patch_of(s as int) * pre.cap() == lo as int);
                assert(((p as int) + 1) * (cap as int) == (p as int) * (cap as int) + cap)
                    by (nonlinear_arith);
                assert((pre.patch_of(s as int) + 1) * pre.cap() == hi as int);
            }
            let total = sum_weights(offspring, lo, hi);
            let ghost patch_sum = sum_w(offspring@, lo as int, hi as int);
            proof {
                assert(!contains_idx(dead@.take(t as int), s as int)) by {
                    if contains_idx(dead@.take(t as int), s as int) {
                        let x = choose|x: int|
                            0 <= x < dead@.take(t as int).len() && #[trigger] dead@.take(
                                t as int,
                            )[x] == s as int;
                        assert(dead@[x] < dead@[t as int]);
                    }
                }
            }
            if total > 0 {
                let u = rand_below(rng, total);
                let j = weighted_pick(offspring, lo, hi, u);
                let ghost cprev = self.population@[j as int]@;
                let col = copy_col(&self.population[j]);
                self.population[s] = col;
                proof {
                    assert(pre.patch_of(j as int) == p) by {
                        assert((p as int) * pre.cap() <= j < ((p as int) + 1) * pre.cap());
                    }
                    if contains_idx(dead@.take(t as int), j as int) {
                        assert(recruit_ok(pre, offspring@, j as int, cprev));
                        let j2 = choose|j2: int|
                            0 <= j2 < pre.n_ind() && #[trigger] pre.patch_of(j2) == pre.patch_of(
                                j as int,
                            ) && cprev == pre.population@[j2]@ && (sum_w(
                                offspring@,
                                pre.patch_of(j as int) * pre.cap(),
                                (pre.patch_of(j as int) + 1) * pre.cap(),
                            ) > 0 ==> offspring@[j2] >= 1);
                        assert(pre.patch_of(j2) == pre.patch_of(s as int));
                        assert(recruit_ok(pre, offspring@, s as int, cprev));
                    } else {
                        assert(cprev == pre.population@[j as int]@);
                        assert(offspring@[j as int] >= 1);
                        assert(recruit_ok(pre, offspring@, s as int, cprev));
                    }
                    assert(self.population@[s as int]@ == cprev);
                }
            } else {
                proof {
                    assert(self.population@[s as int]@ == pre.population@[s as int]@);
                    assert(pre.patch_of(s as int) == pre.patch_of(s as int));
                    assert(sum_w(
                        offspring@,
                        pre.patch_of(s as int) * pre.cap(),
                        (pre.patch_of(s as int) + 1) * pre.cap(),
                    ) == 0);
                    assert(recruit_ok(pre, offspring@, s as int, self.population@[s as int]@));
                }
            }
            t += 1;
            proof {
                assert forall|i: int| 0 <= i < pre.n_ind() implies (contains_idx(
                    dead@.take(t as int),
                    i,
                ) <==> (contains_idx(dead@.take(t as int - 1), i) || dead@[t as int - 1] == i)) by {
                    lemma_contains_take_succ(dead@, t as int - 1, i);
                }
            }
        }
        proof {
            assert(dead@.take(dead@.len() as int) =~= dead@);
        }
    }
}

/// What a mutated locus value may become: unchanged when the expected
/// magnitude is zero, else the old value shifted by a signed effect of
/// between one and twice the expected magnitude (so the mean magnitude is
/// about `sigma`), clamped to the admissible range. Every effect is a whole
/// number of grid steps, hence an exact multiple of the mutation step.
pub open spec fn mut_step_ok(oldv: int, newv: int, sigma: u64) -> bool {
    if sigma == 0 {
        newv == oldv
    } else {
        exists|e: int|
            (1 <= e <= 2 * sigma || -2 * sigma <= e <= -1) && newv == #[trigger] clamp_spec(
                oldv + e,
            )
    }
}

/// Mutates one column: each locus independently with its own probability.
fn mutate_col(c: &Vec<i64>, mutation_mu: &Vec<u64>, sigma: u64, rng: &mut StdRng) -> (r: Vec<i64>)
    requires
        mutation_mu@.len() == c@.len(),
        forall|j: int| 0 <= j < mutation_mu@.len() ==> is_prob(#[trigger] mutation_mu@[j]),
        sigma <= MUT_SIGMA_MAX,
        forall|j: int| 0 <= j < c@.len() ==> -VAL_BOUND <= #[trigger] c@[j] <= VAL_BOUND,
    ensures
        r@.len() == c@.len(),
        forall|j: int| 0 <= j < r@.len() ==> -VAL_BOUND <= #[trigger] r@[j] <= VAL_BOUND,
        forall|j: int|
            0 <= j < r@.len() ==> #[trigger] r@[j] == c@[j] || mut_step_ok(
                c@[j] as int,
                r@[j] as int,
                sigma,
            ),
        (forall|j: int| 0 <= j < mutation_mu@.len() ==> #[trigger] mutation_mu@[j] == 0) ==> r@
            == c@,
        ((forall|j: int| 0 <= j < mutation_mu@.len() ==> #[trigger] mutation_mu@[j] == PROB_ONE)
            && sigma >= 1) ==> forall|j: int|
            0 <= j < r@.len() ==> mut_step_ok(c@[j] as int, #[trigger] r@[j] as int, sigma),
    {
        let mut r: Vec<i64> = Vec::new();
        let mut j: usize = 0;
        while j < c.len()
            invariant
                mutation_mu@.len() == c@.len(),
                forall|x: int| 0 <= x < mutation_mu@.len() ==> is_prob(#[trigger] mutation_mu@[x]),
                sigma <= MUT_SIGMA_MAX,
                forall|x: int| 0 <= x < c@.len() ==> -VAL_BOUND <= #[trigger] c@[x] <= VAL_BOUND,
                j <= c@.len(),
                r@.len() == j,
                forall|x: int| 0 <= x < j ==> -VAL_BOUND <= #[trigger] r@[x] <= VAL_BOUND,
                forall|x: int|
                    0 <= x < j ==> #[trigger] r@[x] == c@[x] || mut_step_ok(
                        c@[x] as int,
                        r@[x] as int,
                        sigma,
                    ),
                (forall|x: int| 0 <= x < mutation_mu@.len() ==> #[trigger] mutation_mu@[x] == 0)
                    ==> r@ == c@.take(j as int),
                ((forall|x: int| 0 <= x < mutation_mu@.len() ==> #[trigger] mutation_mu@[x]
                    == PROB_ONE) && sigma >= 1) ==> forall|x: int|
                    0 <= x < j ==> mut_step_ok(c@[x] as int, #[trigger] r@[x] as int, sigma),
            decreases c@.len() - j,
        {
            let v = c[j];
            let hit = bernoulli(rng, mutation_mu[j]);
            if hit && sigma > 0 {
                let mag = rand_below(rng, 2 * sigma) + 1;
                let up = rand_below(rng, 2) == 1;
                let w = if up {
                    clamp_i64(v + mag as i64)
                } else {
                    clamp_i64(v - mag as i64)
                };
                r.push(w);
                proof {
                    let ge: int = if up { mag as int } else { -(mag as int) };
                    assert(1 <= ge <= 2 * sigma || -2 * sigma <= ge <= -1);
                    assert(w as int == clamp_spec(c@[j as int] as int + ge));
                    assert(mut_step_ok(c@[j as int] as int, w as int, sigma));
                }
            } else {
                r.push(v);
            }
            proof {
                if forall|x: int| 0 <= x < mutation_mu@.len() ==> #[trigger] mutation_mu@[x]
                    == 0 {
                    assert(r@ =~= c@.take(j as int + 1));
                }
            }
            j += 1;
        }
        proof {
            if forall|x: int| 0 <= x < mutation_mu@.len() ==> #[trigger] mutation_mu@[x] == 0 {
                assert(c@.take(c@.len() as int) =~= c@);
            }
        }
        r
    }

/// Whether the homologous pair `t` of `c1` is the pair of `c0` kept or
/// exchanged.
pub open spec fn rec_pair_ok(c0: Seq<i64>, c1: Seq<i64>, t: int) -> bool {
    ||| (c1[2 * t] == c0[2 * t] && c1[2 * t + 1] == c0[2 * t + 1])
    ||| rec_pair_swapped(c0, c1, t)
}

/// Whether the homologous pair `t` of `c1` is the pair of `c0` exchanged.
pub open spec fn rec_pair_swapped(c0: Seq<i64>, c1: Seq<i64>, t: int) -> bool {
    c1[2 * t] == c0[2 * t + 1] && c1[2 * t + 1] == c0[2 * t]
}

/// Recombines one diploid column: each homologous pair exchanges
/// independently with probability `rec`.
fn recombine_col(c: &Vec<i64>, rec: u64, rng: &mut StdRng) -> (r: Vec<i64>)
    requires
        is_prob(rec),
        c@.len() % 2 == 0,
        forall|j: int| 0 <= j < c@.len() ==> -VAL_BOUND <= #[trigger] c@[j] <= VAL_BOUND,
    ensures
        r@.len() == c@.len(),
        forall|j: int| 0 <= j < r@.len() ==> -VAL_BOUND <= #[trigger] r@[j] <= VAL_BOUND,
        forall|t: int| 0 <= 2 * t + 1 < c@.len() ==> #[trigger] rec_pair_ok(c@, r@, t),
        rec == 0 ==> r@ == c@,
        rec == PROB_ONE ==> forall|t: int|
            0 <= 2 * t + 1 < c@.len() ==> #[trigger] rec_pair_swapped(c@, r@, t),
    {
        let mut r: Vec<i64> = Vec::new();
        let half = c.len() / 2;
        let mut t: usize = 0;
        proof {
            assert(c@.len() == 2 * half) by {
                lemma_fundamental_div_mod(c@.len() as int, 2);
            }
        }
        while t < half
            invariant
                is_prob(rec),
                c@.len() == 2 * half,
                c@.len() <= usize::MAX,
                forall|x: int| 0 <= x < c@.len() ==> -VAL_BOUND <= #[trigger] c@[x] <= VAL_BOUND,
                t <= half,
                r@.len() == 2 * t,
                forall|x: int| 0 <= x < r@.len() ==> -VAL_BOUND <= #[trigger] r@[x] <= VAL_BOUND,
                forall|x: int| 0 <= x < t ==> #[trigger] rec_pair_ok(c@, r@, x),
                rec == 0 ==> r@ == c@.take(2 * t as int),
                rec == PROB_ONE ==> forall|x: int|
                    0 <= x < t ==> #[trigger] rec_pair_swapped(c@, r@, x),
            decreases half - t,
        {
            let a = c[2 * t];
            let b = c[2 * t + 1];
            let ghost r0 = r@;
            if bernoulli(rng, rec) {
                r.push(b);
                r.push(a);
            } else {
                r.push(a);
                r.push(b);
            }
            proof {
                assert(rec_pair_ok(c@, r@, t as int));
                if rec == PROB_ONE {
                    assert(rec_pair_swapped(c@, r@, t as int));
                }
                assert forall|x: int| 0 <= x < t implies #[trigger] rec_pair_ok(c@, r@, x) by {
                    assert(r@[2 * x] == r0[2 * x] && r@[2 * x + 1] == r0[2 * x + 1]);
                    assert(rec_pair_ok(c@, r0, x));
                }
                if rec == PROB_ONE {
                    assert forall|x: int| 0 <= x < t implies #[trigger] rec_pair_swapped(c@, r@, x)
                        by {
                        assert(r@[2 * x] == r0[2 * x] && r@[2 * x + 1] == r0[2 * x + 1]);
                        assert(rec_pair_swapped(c@, r0, x));
                    }
                }
                if rec == 0 {
                    assert(r@ =~= c@.take(2 * (t as int + 1)));
                }
            }
            t += 1;
        }
        proof {
            if rec == 0 {
                assert(c@.take(c@.len() as int) =~= c@);
            }
        }
        r
    }

impl State {
    /// Mutates each locus of each individual independently with its per-locus
    /// probability. With all probabilities zero the population is bit-for-bit
    /// unchanged; with all probabilities one (and a positive expected
    /// magnitude) every locus receives an effect.
    pub fn mutation(&mut self, mutation_mu: &Vec<u64>, mutation_sigma: u64, rng: &mut StdRng)
        requires
            old(self).wf(),
            mutation_mu@.len() == old(self).loci,
            forall|j: int| 0 <= j < mutation_mu@.len() ==> is_prob(#[trigger] mutation_mu@[j]),
            mutation_sigma <= MUT_SIGMA_MAX,
        ensures
            final(self).wf(),
            final(self).tick == old(self).tick,
            final(self).loci == old(self).loci,
            final(self).environment == old(self).environment,
            final(self).n_ind() == old(self).n_ind(),
            forall|i: int, j: int|
                #![trigger final(self).population@[i]@[j]]
                0 <= i < old(self).n_ind() && 0 <= j < old(self).loci ==> final(self).population@[i]@[j] == old(self).population@[i]@[j] || mut_step_ok(
                    old(self).population@[i]@[j] as int,
                    final(self).population@[i]@[j] as int,
                    mutation_sigma,
                ),
            (forall|j: int| 0 <= j < mutation_mu@.len() ==> #[trigger] mutation_mu@[j] == 0)
                ==> forall|i: int|
                0 <= i < old(self).n_ind() ==> (#[trigger] final(self).population@[i])@ == old(self).population@[i]@,
            ((forall|j: int| 0 <= j < mutation_mu@.len() ==> #[trigger] mutation_mu@[j]
                == PROB_ONE) && mutation_sigma >= 1) ==> forall|i: int, j: int|
                #![trigger final(self).population@[i]@[j]]
                0 <= i < old(self).n_ind() && 0 <= j < old(self).loci ==> mut_step_ok(
                    old(self).population@[i]@[j] as int,
                    final(self).population@[i]@[j] as int,
                    mutation_sigma,
                ),
    {
        let ghost pre = *self;
        let mut i: usize = 0;
        while i < self.population.len()
            invariant
                pre == *old(self),
                pre.wf(),
                mutation_mu@.len() == pre.loci,
                forall|j: int| 0 <= j < mutation_mu@.len() ==> is_prob(#[trigger] mutation_mu@[j]),
                mutation_sigma <= MUT_SIGMA_MAX,
                i <= pre.n_ind(),
                self.tick == pre.tick,
                self.loci == pre.loci,
                self.environment == pre.environment,
                self.population@.len() == pre.n_ind(),
                forall|x: int|
                    0 <= x < pre.n_ind() ==> col_wf(
                        (#[trigger] self.population@[x])@,
                        pre.loci as nat,
                    ),
                forall|x: int|
                    i <= x < pre.n_ind() ==> (#[trigger] self.population@[x])@
                        == pre.population@[x]@,
                forall|x: int, j: int|
                    #![trigger self.population@[x]@[j]]
                    0 <= x < i && 0 <= j < pre.loci ==> self.population@[x]@[j]
                        == pre.population@[x]@[j] || mut_step_ok(
                        pre.population@[x]@[j] as int,
                        self.population@[x]@[j] as int,
                        mutation_sigma,
                    ),
                (forall|j: int| 0 <= j < mutation_mu@.len() ==> #[trigger] mutation_mu@[j] == 0)
                    ==> forall|x: int|
                    0 <= x < i ==> (#[trigger] self.population@[x])@ == pre.population@[x]@,
                ((forall|j: int| 0 <= j < mutation_mu@.len() ==> #[trigger] mutation_mu@[j]
                    == PROB_ONE) && mutation_sigma >= 1) ==> forall|x: int, j: int|
                    #![trigger self.population@[x]@[j]]
                    0 <= x < i && 0 <= j < pre.loci ==> mut_step_ok(
                        pre.population@[x]@[j] as int,
                        self.population@[x]@[j] as int,
                        mutation_sigma,
                    ),
            decreases pre.n_ind() - i,
        {
            let col = mutate_col(&self.population[i], mutation_mu, mutation_sigma, rng);
            self.population[i] = col;
            i += 1;
        }
    }

    /// Recombination, gated on ploidy: in diploid data each individual's
    /// homologous locus pairs exchange independently with probability `rec`;
    /// haploid data is untouched, as is everything with `rec == 0`.
    pub fn recombination(&mut self, rec: u64, ploidy: &Ploidy, rng: &mut StdRng)
        requires
            old(self).wf(),
            is_prob(rec),
            *ploidy is Diploid ==> old(self).loci % 2 == 0,
        ensures
            final(self).wf(),
            final(self).tick == old(self).tick,
            final(self).loci == old(self).loci,
            final(self).environment == old(self).environment,
            final(self).n_ind() == old(self).n_ind(),
            *ploidy is Haploid ==> final(self).population == old(self).population,
            rec == 0 ==> forall|i: int|
                0 <= i < old(self).n_ind() ==> (#[trigger] final(self).population@[i])@ == old(self).population@[i]@,
            *ploidy is Diploid ==> forall|i: int, t: int|
                #![trigger rec_pair_ok(old(self).population@[i]@, final(self).population@[i]@, t)]
                0 <= i < old(self).n_ind() && 0 <= 2 * t + 1 < old(self).loci ==> rec_pair_ok(
                    old(self).population@[i]@,
                    final(self).population@[i]@,
                    t,
                ),
            (rec == PROB_ONE && *ploidy is Diploid) ==> forall|i: int, t: int|
                #![trigger rec_pair_swapped(old(self).population@[i]@, final(self).population@[i]@, t)]
                0 <= i < old(self).n_ind() && 0 <= 2 * t + 1 < old(self).loci
                    ==> rec_pair_swapped(
                    old(self).population@[i]@,
                    final(self).population@[i]@,
                    t,
                ),
    {
        match *ploidy {
            Ploidy::Haploid => {
            },
            Ploidy::Diploid => {
                let ghost pre = *self;
                let mut i: usize = 0;
                while i < self.population.len()
                    invariant
                        pre == *old(self),
                        pre.wf(),
                        pre.loci % 2 == 0,
                        is_prob(rec),
                        i <= pre.n_ind(),
                        self.tick == pre.tick,
                        self.loci == pre.loci,
                        self.environment == pre.environment,
                        self.population@.len() == pre.n_ind(),
                        forall|x: int|
                            0 <= x < pre.n_ind() ==> col_wf(
                                (#[trigger] self.population@[x])@,
                                pre.loci as nat,
                            ),
                        forall|x: int|
                            i <= x < pre.n_ind() ==> (#[trigger] self.population@[x])@
                                == pre.population@[x]@,
                        rec == 0 ==> forall|x: int|
                            0 <= x < i ==> (#[trigger] self.population@[x])@
                                == pre.population@[x]@,
                        forall|x: int, t: int|
                            #![trigger rec_pair_ok(pre.population@[x]@, self.population@[x]@, t)]
                            0 <= x < i && 0 <= 2 * t + 1 < pre.loci ==> rec_pair_ok(
                                pre.population@[x]@,
                                self.population@[x]@,
                                t,
                            ),
                        rec == PROB_ONE ==> forall|x: int, t: int|
                            #![trigger rec_pair_swapped(pre.population@[x]@, self.population@[x]@, t)]
                            0 <= x < i && 0 <= 2 * t + 1 < pre.loci ==> rec_pair_swapped(
                                pre.population@[x]@,
                                self.population@[x]@,
                                t,
                            ),
                    decreases pre.n_ind() - i,
                {
                    let col = recombine_col(&self.population[i], rec, rng);
                    self.population[i] = col;
                    i += 1;
                }
            },
        }
    }
}

/// The slot opposite `i` in a two-patch exchange.
pub open spec fn cross_of(i: int, cap: int) -> int {
    if i < cap {
        i + cap
    } else {
        i - cap
    }
}

/// `perm` witnesses that `post`'s population is `pre`'s with pairwise swaps
/// between patches applied: an involution (so a bijection of slots — no
/// individual duplicated, none lost; the multiset of columns is preserved)
/// that moves slots only between distinct patches.
pub open spec fn is_exchange(pre: State, post: State, perm: Seq<int>) -> bool {
    &&& perm.len() == pre.n_ind()
    &&& post.n_ind() == pre.n_ind()
    &&& forall|i: int| 0 <= i < perm.len() ==> 0 <= #[trigger] perm[i] < perm.len()
    &&& forall|i: int| 0 <= i < perm.len() ==> #[trigger] perm[perm[i]] == i
    &&& forall|i: int|
        0 <= i < perm.len() ==> (#[trigger] post.population@[i])@ == pre.population@[perm[i]]@
    &&& forall|i: int|
        0 <= i < perm.len() && #[trigger] perm[i] != i ==> pre.patch_of(perm[i])
            != pre.patch_of(i)
}

/// The population was rearranged by pairwise swaps between patches.
pub open spec fn exchange_ok(pre: State, post: State) -> bool {
    exists|perm: Seq<int>| #[trigger] is_exchange(pre, post, perm)
}

/// A slot inside the `p`-th block of `cap` slots belongs to patch `p`.
proof fn lemma_block_patch(cap: int, n_patches: int, n_ind: int, i: int, p: int)
    requires
        cap >= 1,
        n_ind == cap * n_patches,
        0 <= p < n_patches,
        p * cap <= i < p * cap + cap,
    ensures
        i / cap == p,
        0 <= i < n_ind,
{
    lemma_fundamental_div_mod_converse(i, cap, p, i - p * cap);
    assert(0 <= i < n_ind) by (nonlinear_arith)
        requires
            p * cap <= i < p * cap + cap,
            0 <= p < n_patches,
            n_ind == cap * n_patches,
            cap >= 1,
    ;
}

/// Every slot lies in the block of its patch.
proof fn lemma_patch_block(cap: int, n_patches: int, n_ind: int, i: int)
    requires
        cap >= 1,
        n_ind == cap * n_patches,
        0 <= i < n_ind,
    ensures
        0 <= i / cap < n_patches,
        (i / cap) * cap <= i < (i / cap) * cap + cap,
{
    lemma_fundamental_div_mod(i, cap);
    let q = i / cap;
    let r = i % cap;
    assert(0 <= q < n_patches && q * cap <= i < q * cap + cap) by (nonlinear_arith)
        requires
            i == cap * q + r,
            0 <= r < cap,
            0 <= i < n_ind,
            n_ind == cap * n_patches,
            cap >= 1,
    ;
}

impl State {
    /// Draws each individual's dispersal decision: with probability `m` a
    /// destination patch chosen uniformly among the other patches, else its
    /// own patch count stands for "stay". With one patch nobody can move.
    fn draw_destinations(&self, m: u64, rng: &mut StdRng) -> (dest: Vec<usize>)
        requires
            self.wf(),
            is_prob(m),
        ensures
            dest@.len() == self.n_ind(),
            forall|i: int| 0 <= i < dest@.len() ==> #[trigger] dest@[i] <= self.n_patches(),
            forall|i: int|
                0 <= i < dest@.len() && #[trigger] dest@[i] < self.n_patches() ==> dest@[i]
                    != self.patch_of(i),
            m == 0 ==> forall|i: int|
                0 <= i < dest@.len() ==> #[trigger] dest@[i] == self.n_patches(),
            (m == PROB_ONE && self.n_patches() >= 2) ==> forall|i: int|
                0 <= i < dest@.len() ==> #[trigger] dest@[i] < self.n_patches(),
            forall|i: int|
                0 <= i < dest@.len() && self.n_patches() == 2 && #[trigger] dest@[i] < 2
                    ==> dest@[i] == 1 - self.patch_of(i),
    {
        let mut dest: Vec<usize> = Vec::new();
        let n_ind = self.population.len();
        let n_patches = self.environment.len();
        if n_ind == 0 {
            return dest;
        }
        proof {
            lemma_patch_capacity(self);
        }
        let cap = n_ind / n_patches;
        let mut i: usize = 0;
        while i < n_ind
            invariant
                self.wf(),
                is_prob(m),
                n_ind == self.n_ind(),
                n_ind >= 1,
                n_patches == self.n_patches(),
                cap == self.cap(),
                cap >= 1,
                forall|t: int| 0 <= t < self.n_ind() ==> 0 <= #[trigger] self.patch_of(t)
                    < self.n_patches(),
                i <= n_ind,
                dest@.len() == i,
                forall|t: int| 0 <= t < i ==> #[trigger] dest@[t] <= self.n_patches(),
                forall|t: int|
                    0 <= t < i && #[trigger] dest@[t] < self.n_patches() ==> dest@[t]
                        != self.patch_of(t),
                m == 0 ==> forall|t: int|
                    0 <= t < i ==> #[trigger] dest@[t] == self.n_patches(),
                (m == PROB_ONE && self.n_patches() >= 2) ==> forall|t: int|
                    0 <= t < i ==> #[trigger] dest@[t] < self.n_patches(),
                forall|t: int|
                    0 <= t < i && self.n_patches() == 2 && #[trigger] dest@[t] < 2 ==> dest@[t]
                        == 1 - self.patch_of(t),
            decreases n_ind - i,
        {
            let p = i / cap;
            proof {
                assert(p == self.patch_of(i as int));
            }
            let migrate = if n_patches >= 2 {
                bernoulli(rng, m)
            } else {
                false
            };
            if migrate {
                let d = rand_below(rng, (n_patches - 1) as u64) as usize;
                let q = if d < p {
                    d
                } else {
                    d + 1
                };
                dest.push(q);
            } else {
                dest.push(n_patches);
            }
            i += 1;
        }
        dest
    }

    /// Rearranges the population along a slot-to-slot assignment.
    fn apply_partner(&mut self, partner: &Vec<usize>)
        requires
            old(self).wf(),
            partner@.len() == old(self).n_ind(),
            forall|i: int| 0 <= i < partner@.len() ==> #[trigger] partner@[i] < partner@.len(),
        ensures
            final(self).wf(),
            final(self).tick == old(self).tick,
            final(self).loci == old(self).loci,
            final(self).environment == old(self).environment,
            final(self).n_ind() == old(self).n_ind(),
            forall|i: int|
                0 <= i < old(self).n_ind() ==> (#[trigger] final(self).population@[i])@ == old(
                    self,
                ).population@[partner@[i] as int]@,
    {
        let ghost pre = *self;
        let mut newpop: Vec<Vec<i64>> = Vec::new();
        let mut i: usize = 0;
        while i < self.population.len()
            invariant
                pre == *old(self),
                pre.wf(),
                *self == pre,
                partner@.len() == pre.n_ind(),
                forall|t: int| 0 <= t < partner@.len() ==> #[trigger] partner@[t]
                    < partner@.len(),
                i <= pre.n_ind(),
                newpop@.len() == i,
                forall|t: int|
                    0 <= t < i ==> (#[trigger] newpop@[t])@
                        == pre.population@[partner@[t] as int]@,
            decreases pre.n_ind() - i,
        {
            let col = copy_col(&self.population[partner[i]]);
            newpop.push(col);
            i += 1;
        }
        self.population = newpop;
    }
}

/// Pairs mutually opposite migrants patch block by patch block: two slots are
/// exchanged only when each chose the other's patch, which keeps every block
/// at its capacity. Matched slots are consumed in `dest`; `partner` is the
/// resulting exchange (an involution). When nobody migrates the assignment is
/// the identity; when everybody migrates between exactly two patches the
/// blocks are exchanged wholesale, slot by slot.
fn match_pairs(dest: &mut Vec<usize>, cap: usize, n_patches: usize) -> (partner: Vec<usize>)
    requires
        cap >= 1,
        n_patches >= 1,
        old(dest)@.len() == cap * n_patches,
        old(dest)@.len() <= 0x4000_0000,
        forall|i: int| 0 <= i < old(dest)@.len() ==> #[trigger] old(dest)@[i] <= n_patches,
        forall|i: int|
            0 <= i < old(dest)@.len() && #[trigger] old(dest)@[i] < n_patches ==> old(dest)@[i]
                != i / (cap as int),
    ensures
        partner@.len() == old(dest)@.len(),
        forall|i: int| 0 <= i < partner@.len() ==> #[trigger] partner@[i] < partner@.len(),
        forall|i: int|
            0 <= i < partner@.len() ==> #[trigger] partner@[partner@[i] as int] == i,
        forall|i: int|
            0 <= i < partner@.len() && #[trigger] partner@[i] != i ==> old(dest)@[partner@[i]
                as int] == i / (cap as int) && old(dest)@[i] == (partner@[i] as int) / (
            cap as int),
        (forall|i: int| 0 <= i < old(dest)@.len() ==> #[trigger] old(dest)@[i] == n_patches)
            ==> forall|i: int| 0 <= i < partner@.len() ==> #[trigger] partner@[i] == i,
        (n_patches == 2 && forall|i: int|
            0 <= i < old(dest)@.len() ==> #[trigger] old(dest)@[i] < n_patches) ==> forall|i: int|
            0 <= i < partner@.len() ==> #[trigger] partner@[i] == cross_of(i, cap as int),
{
    let ghost d0 = dest@;
    let n_ind = dest.len();
    let ghost full = n_patches == 2 && forall|i: int|
        0 <= i < d0.len() ==> #[trigger] d0[i] < n_patches;
    let mut partner: Vec<usize> = Vec::new();
    let mut i: usize = 0;
    while i < n_ind
        invariant
            i <= n_ind,
            partner@.len() == i,
            forall|t: int| 0 <= t < i ==> #[trigger] partner@[t] == t,
        decreases n_ind - i,
    {
        partner.push(i);
        i += 1;
    }
    let mut p: usize = 0;
    while p < n_patches
        invariant
            cap >= 1,
            n_patches >= 1,
            p <= n_patches,
            d0 == old(dest)@,
            full == (n_patches == 2 && forall|i: int|
                0 <= i < d0.len() ==> #[trigger] d0[i] < n_patches),
            n_ind == d0.len(),
            n_ind == cap * n_patches,
            n_ind <= 0x4000_0000,
            forall|i: int| 0 <= i < n_ind ==> #[trigger] d0[i] <= n_patches,
            forall|i: int|
                0 <= i < n_ind && #[trigger] d0[i] < n_patches ==> d0[i] != i / (cap as int),
            dest@.len() == n_ind,
            partner@.len() == n_ind,
            forall|i: int| 0 <= i < n_ind ==> #[trigger] partner@[i] < n_ind,
            forall|i: int| 0 <= i < n_ind ==> #[trigger] partner@[partner@[i] as int] == i,
            forall|i: int|
                0 <= i < n_ind && #[trigger] partner@[i] == i ==> dest@[i] == d0[i],
            forall|i: int|
                0 <= i < n_ind && #[trigger] partner@[i] != i ==> dest@[i] == n_patches,
            forall|i: int|
                0 <= i < n_ind && #[trigger] partner@[i] != i ==> d0[partner@[i] as int] == i / (
                cap as int) && d0[i] == (partner@[i] as int) / (cap as int),
            full ==> (if p == 0 {
                forall|i: int| 0 <= i < n_ind ==> #[trigger] partner@[i] == i
            } else {
                forall|i: int|
                    0 <= i < n_ind ==> #[trigger] partner@[i] == cross_of(i, cap as int)
            }),
        decreases n_patches - p,
    {
        let mut q: usize = p + 1;
        while q < n_patches
            invariant
                cap >= 1,
                n_patches >= 1,
                p < n_patches,
                p + 1 <= q <= n_patches,
                d0 == old(dest)@,
                full == (n_patches == 2 && forall|i: int|
                    0 <= i < d0.len() ==> #[trigger] d0[i] < n_patches),
                n_ind == d0.len(),
                n_ind == cap * n_patches,
                n_ind <= 0x4000_0000,
                forall|i: int| 0 <= i < n_ind ==> #[trigger] d0[i] <= n_patches,
                forall|i: int|
                    0 <= i < n_ind && #[trigger] d0[i] < n_patches ==> d0[i] != i / (cap as int),
                dest@.len() == n_ind,
                partner@.len() == n_ind,
                forall|i: int| 0 <= i < n_ind ==> #[trigger] partner@[i] < n_ind,
                forall|i: int| 0 <= i < n_ind ==> #[trigger] partner@[partner@[i] as int] == i,
                forall|i: int|
                    0 <= i < n_ind && #[trigger] partner@[i] == i ==> dest@[i] == d0[i],
                forall|i: int|
                    0 <= i < n_ind && #[trigger] partner@[i] != i ==> dest@[i] == n_patches,
                forall|i: int|
                    0 <= i < n_ind && #[trigger] partner@[i] != i ==> d0[partner@[i] as int] == i
                        / (cap as int) && d0[i] == (partner@[i] as int) / (cap as int),
                full ==> (if p == 0 && q == 1 {
                    forall|i: int| 0 <= i < n_ind ==> #[trigger] partner@[i] == i
                } else {
                    forall|i: int|
                        0 <= i < n_ind ==> #[trigger] partner@[i] == cross_of(i, cap as int)
                }),
            decreases n_patches - q,
        {
            proof {
                assert((p as int) * cap + cap <= n_ind && (q as int) * cap + cap <= n_ind && (
                p as int) * cap >= 0 && (q as int) * cap >= (p as int) * cap + cap)
                    by (nonlinear_arith)
                    requires
                        (p as int) < (q as int),
                        (q as int) < n_patches,
                        n_ind == cap * n_patches,
                        cap >= 1,
                ;
            }
            let lo_p = p * cap;
            let hi_p = lo_p + cap;
            let lo_q = q * cap;
            let hi_q = lo_q + cap;
            let mut a = lo_p;
            let mut b = lo_q;
            while a < hi_p && b < hi_q
                invariant
                    cap >= 1,
                    n_patches >= 1,
                    p < q < n_patches,
                    d0 == old(dest)@,
                    full == (n_patches == 2 && forall|i: int|
                        0 <= i < d0.len() ==> #[trigger] d0[i] < n_patches),
                    n_ind == d0.len(),
                    n_ind == cap * n_patches,
                    n_ind <= 0x4000_0000,
                    lo_p == (p as int) * cap,
                    hi_p == lo_p + cap,
                    lo_q == (q as int) * cap,
                    hi_q == lo_q + cap,
                    hi_p <= n_ind,
                    hi_q <= n_ind,
                    lo_p <= a <= hi_p,
                    lo_q <= b <= hi_q,
                    forall|i: int| 0 <= i < n_ind ==> #[trigger] d0[i] <= n_patches,
                    forall|i: int|
                        0 <= i < n_ind && #[trigger] d0[i] < n_patches ==> d0[i] != i / (
                        cap as int),
                    dest@.len() == n_ind,
                    partner@.len() == n_ind,
                    forall|i: int| 0 <= i < n_ind ==> #[trigger] partner@[i] < n_ind,
                    forall|i: int|
                        0 <= i < n_ind ==> #[trigger] partner@[partner@[i] as int] == i,
                    forall|i: int|
                        0 <= i < n_ind && #[trigger] partner@[i] == i ==> dest@[i] == d0[i],
                    forall|i: int|
                        0 <= i < n_ind && #[trigger] partner@[i] != i ==> dest@[i] == n_patches,
                    forall|i: int|
                        0 <= i < n_ind && #[trigger] partner@[i] != i ==> d0[partner@[i] as int]
                            == i / (cap as int) && d0[i] == (partner@[i] as int) / (cap as int),
                    full ==> (p == 0 && q == 1),
                    full ==> (a - lo_p == b - lo_q && (forall|i: int|
                        0 <= i < n_ind ==> #[trigger] partner@[i] == (if i < a - lo_p {
                            i + cap
                        } else if cap <= i < b {
                            i - cap
                        } else {
                            i
                        }))),
                decreases (hi_p - a) + (hi_q - b),
            {
                let da = dest[a];
                if da != q {
                    proof {
                        if full {
                            assert(partner@[a as int] == a as int);
                            assert(dest@[a as int] == d0[a as int]);
                            lemma_block_patch(cap as int, n_patches as int, n_ind as int,
                                a as int, p as int);
                            assert(d0[a as int] < n_patches);
                            assert(d0[a as int] != p as int);
                            assert(d0[a as int] == q as int);
                            assert(false);
                        }
                    }
                    a += 1;
                } else {
                    let db = dest[b];
                    if db != p {
                        proof {
                            if full {
                                assert(partner@[b as int] == b as int);
                                lemma_block_patch(cap as int, n_patches as int, n_ind as int,
                                    b as int, q as int);
                                assert(false);
                            }
                        }
                        b += 1;
                    } else {
                        proof {
                            assert(partner@[a as int] == a as int) by {
                                if partner@[a as int] != a as int {
                                    assert(dest@[a as int] == n_patches);
                                }
                            }
                            assert(partner@[b as int] == b as int) by {
                                if partner@[b as int] != b as int {
                                    assert(dest@[b as int] == n_patches);
                                }
                            }
                            lemma_block_patch(cap as int, n_patches as int, n_ind as int,
                                a as int, p as int);
                            lemma_block_patch(cap as int, n_patches as int, n_ind as int,
                                b as int, q as int);
                        }
                        let ghost partner0 = partner@;
                        partner[a] = b;
                        partner[b] = a;
                        dest[a] = n_patches;
                        dest[b] = n_patches;
                        proof {
                            assert(a != b);
                            assert forall|i: int|
                                0 <= i < n_ind implies #[trigger] partner@[partner@[i] as int]
                                == i by {
                                if i == a as int || i == b as int {
                                } else {
                                    assert(partner@[i] == partner0[i]);
                                    assert(partner0[partner0[i] as int] == i);
                                    if partner0[i] == a as int {
                                        assert(partner0[a as int] == i);
                                        assert(i == a as int);
                                    }
                                    if partner0[i] == b as int {
                                        assert(partner0[b as int] == i);
                                        assert(i == b as int);
                                    }
                                }
                            }
                        }
                        a += 1;
                        b += 1;
                    }
                }
            }
            proof {
                if full {
                    assert(a == hi_p && b == hi_q);
                    assert forall|i: int|
                        0 <= i < n_ind implies #[trigger] partner@[i] == cross_of(i, cap as int)
                        by {
                        assert(lo_p == 0 && lo_q == cap && hi_q == n_ind);
                    }
                }
            }
            q += 1;
        }
        p += 1;
    }
    proof {
        if forall|i: int| 0 <= i < d0.len() ==> #[trigger] d0[i] == n_patches {
            assert forall|i: int| 0 <= i < partner@.len() implies #[trigger] partner@[i] == i by {
                if partner@[i] != i {
                    assert(d0[i] == (partner@[i] as int) / (cap as int));
                    assert((partner@[i] as int) / (cap as int) < n_patches) by {
                        lemma_patch_block(cap as int, n_patches as int, n_ind as int,
                            partner@[i] as int);
                    }
                }
            }
        }
    }
    partner
}

impl State {
    /// Dispersal: each individual chooses, independently with probability
    /// `m`, a uniformly random other patch, and mutually opposite choices are
    /// exchanged slot for slot, so every patch keeps exactly its capacity.
    /// With `m == 0` nobody moves; with `m == PROB_ONE` and two patches the
    /// two blocks are exchanged wholesale and nobody stays in its patch.
    pub fn dispersal(&mut self, m: u64, rng: &mut StdRng)
        requires
            old(self).wf(),
            is_prob(m),
        ensures
            final(self).wf(),
            final(self).tick == old(self).tick,
            final(self).loci == old(self).loci,
            final(self).environment == old(self).environment,
            final(self).n_ind() == old(self).n_ind(),
            exchange_ok(*old(self), *final(self)),
            forall|i: int|
                0 <= i < old(self).n_ind() ==> ((#[trigger] final(self).population@[i])@ == old(
                    self,
                ).population@[i]@ || exists|j: int|
                    0 <= j < old(self).n_ind() && #[trigger] old(self).patch_of(j) != old(
                        self,
                    ).patch_of(i) && final(self).population@[i]@ == old(self).population@[j]@),
            m == 0 ==> forall|i: int|
                0 <= i < old(self).n_ind() ==> (#[trigger] final(self).population@[i])@ == old(
                    self,
                ).population@[i]@,
            (m == PROB_ONE && old(self).n_patches() == 2) ==> forall|i: int|
                0 <= i < old(self).n_ind() ==> (#[trigger] final(self).population@[i])@ == old(
                    self,
                ).population@[cross_of(i, old(self).cap() as int)]@,
    {
        let ghost pre = *self;
        let n_ind = self.population.len();
        let n_patches = self.environment.len();
        if n_ind == 0 {
            proof {
                let perm = Seq::<int>::empty();
                assert(is_exchange(pre, *self, perm));
            }
            return;
        }
        proof {
            lemma_patch_capacity(self);
        }
        let cap = n_ind / n_patches;
        let mut dest = self.draw_destinations(m, rng);
        proof {
            assert(cap * n_patches == n_ind);
            assert forall|i: int|
                0 <= i < dest@.len() && #[trigger] dest@[i] < n_patches implies dest@[i] != i / (
                cap as int) by {
                assert(dest@[i] != pre.patch_of(i));
            }
        }
        let ghost d0 = dest@;
        let partner = match_pairs(&mut dest, cap, n_patches);
        self.apply_partner(&partner);
        proof {
            assert forall|i: int|
                0 <= i < pre.n_ind() implies ((#[trigger] self.population@[i])@
                == pre.population@[i]@ || exists|j: int|
                0 <= j < pre.n_ind() && #[trigger] pre.patch_of(j) != pre.patch_of(i)
                    && self.population@[i]@ == pre.population@[j]@) by {
                let pi = partner@[i] as int;
                if pi != i {
                    assert(self.population@[i]@ == pre.population@[pi]@);
                    assert(d0[pi] == i / (cap as int));
                    assert(d0[i] == pi / (cap as int));
                    assert(d0[i] < n_patches ==> d0[i] != i / (cap as int));
                    assert(d0[i] < n_patches) by {
                        lemma_patch_block(cap as int, n_patches as int, n_ind as int, pi);
                    }
                    assert(pre.patch_of(pi) != pre.patch_of(i));
                }
            }
            if m == 0 {
                assert forall|i: int|
                    0 <= i < pre.n_ind() implies (#[trigger] self.population@[i])@
                    == pre.population@[i]@ by {
                    assert(d0[i] == n_patches);
                    assert(partner@[i] == i);
                }
            }
            if m == PROB_ONE && pre.n_patches() == 2 {
                assert forall|i: int|
                    0 <= i < pre.n_ind() implies (#[trigger] self.population@[i])@
                    == pre.population@[cross_of(i, pre.cap() as int)]@ by {
                    assert(forall|t: int| 0 <= t < d0.len() ==> #[trigger] d0[t] < n_patches);
                    assert(partner@[i] == cross_of(i, cap as int));
                }
            }
            let perm = Seq::new(pre.n_ind(), |i: int| partner@[i] as int);
            assert forall|i: int|
                0 <= i < perm.len() && #[trigger] perm[i] != i implies pre.patch_of(perm[i])
                != pre.patch_of(i) by {
                let pi = partner@[i] as int;
                assert(d0[pi] == i / (cap as int));
                assert(d0[i] == pi / (cap as int));
                assert(d0[i] < n_patches) by {
                    lemma_patch_block(cap as int, n_patches as int, n_ind as int, pi);
                }
                assert(pre.patch_of(pi) != pre.patch_of(i));
            }
            assert forall|i: int| 0 <= i < perm.len() implies #[trigger] perm[perm[i]] == i by {
                assert(partner@[partner@[i] as int] == i);
            }
            assert(is_exchange(pre, *self, perm));
        }
    }
}

/// A configuration under which one tick provably leaves the population
/// bit-for-bit unchanged: no mortality, no dispersal, no mutation, and no
/// recombination (either a zero rate or haploid data).
pub open spec fn quiescent(config: Config) -> bool {
    &&& config.gamma == 0
    &&& config.m == 0
    &&& no_mutation(config)
    &&& no_recombination(config)
}

/// Every per-locus mutation probability is zero.
pub open spec fn no_mutation(config: Config) -> bool {
    forall|j: int| 0 <= j < config.mutation_mu@.len() ==> #[trigger] config.mutation_mu@[j] == 0
}

/// The recombination stage provably changes nothing: a zero rate or haploid
/// data.
pub open spec fn no_recombination(config: Config) -> bool {
    config.rec == 0 || config.ploidy is Haploid
}

/// Full generational turnover with the other stochastic stages off: every
/// slot dies and is refilled by density regulation, and nothing after that
/// touches the values.
pub open spec fn full_turnover(config: Config) -> bool {
    &&& config.gamma == PROB_ONE
    &&& config.m == 0
    &&& no_mutation(config)
    &&& no_recombination(config)
}

/// Everybody disperses and no other stochastic stage acts.
pub open spec fn full_dispersal(config: Config) -> bool {
    &&& config.gamma == 0
    &&& config.m == PROB_ONE
    &&& no_mutation(config)
    &&& no_recombination(config)
}

/// Squared distance of individual `i` from its patch optimum as the
/// environment rule has just reset it: within one tick, selection sees the
/// updated optima, while phenotypes are still those the tick started with.
pub open spec fn post_env_d2(s: State, config: Config, i: int) -> nat {
    let d = env_step(config.env_rule, s.environment@[s.patch_of(i)] as int, s.tick)
        - s.spec_phenotype(i);
    (d * d) as nat
}

/// The expected-offspring weights the tick's selection stage produces, as a
/// function of the tick's starting state and the configuration alone.
pub open spec fn post_env_weights(s: State, config: Config) -> Seq<u64> {
    Seq::new(
        s.n_ind(),
        |i: int| spec_weight(
            config.r_max as nat,
            config.selection_sigma as nat,
            post_env_d2(s, config, i),
        ) as u64,
    )
}

/// Runs one tick: the fixed stage pipeline, then the tick counter advances by
/// exactly one. Population shape, patch capacities and environment length are
/// preserved; the environment is exactly one application of the configured
/// rule; a quiescent configuration leaves the population unchanged.
pub fn step(state: &mut State, config: &Config, rng: &mut StdRng)
    requires
        old(state).wf(),
        config.wf(old(state).loci as nat),
        old(state).tick < u64::MAX,
    ensures
        final(state).wf(),
        final(state).tick == old(state).tick + 1,
        final(state).loci == old(state).loci,
        final(state).n_ind() == old(state).n_ind(),
        final(state).n_patches() == old(state).n_patches(),
        forall|j: int|
            0 <= j < old(state).n_patches() ==> #[trigger] final(state).environment@[j]
                == env_step(config.env_rule, old(state).environment@[j] as int, old(state).tick),
        quiescent(*config) ==> forall|i: int|
            0 <= i < old(state).n_ind() ==> (#[trigger] final(state).population@[i])@ == old(
                state,
            ).population@[i]@,
        full_turnover(*config) ==> forall|i: int|
            0 <= i < old(state).n_ind() ==> recruit_ok(
                *old(state),
                post_env_weights(*old(state), *config),
                i,
                (#[trigger] final(state).population@[i])@,
            ),
        (full_dispersal(*config) && old(state).n_patches() == 2) ==> forall|i: int|
            0 <= i < old(state).n_ind() ==> (#[trigger] final(state).population@[i])@ == old(
                state,
            ).population@[cross_of(i, old(state).cap() as int)]@,
{
    let ghost s0 = *state;
    state.environment(&config.env_rule);
    let ghost s1 = *state;
    let dead = state.adult_death(config.gamma, rng);
    let offspring = state.reproduction(config.r_max, config.selection_sigma);
    state.density_regulation(&offspring, &dead, rng);
    let ghost s2 = *state;
    state.dispersal(config.m, rng);
    let ghost s3 = *state;
    state.mutation(&config.mutation_mu, config.mutation_sigma, rng);
    let ghost s4 = *state;
    state.recombination(config.rec, &config.ploidy, rng);
    proof {
        if quiescent(*config) {
            assert(dead@.len() == 0);
            assert forall|i: int|
                0 <= i < s0.n_ind() implies (#[trigger] state.population@[i])@
                == s0.population@[i]@ by {
                assert(!contains_idx(dead@, i));
                assert(s2.population@[i]@ == s1.population@[i]@);
                assert(s3.population@[i]@ == s2.population@[i]@);
                assert(s4.population@[i]@ == s3.population@[i]@);
                assert(state.population@[i]@ == s4.population@[i]@);
            }
        }
        if full_turnover(*config) && s0.n_ind() >= 1 {
            lemma_patch_capacity(&s0);
            assert(s1.population@ == s0.population@);
            assert forall|i: int|
                0 <= i < s0.n_ind() implies #[trigger] offspring@[i] == post_env_weights(
                s0,
                *config,
            )[i] by {
                assert(offspring@[i] == s1.spec_offspring_weight(
                    config.r_max,
                    config.selection_sigma,
                    i,
                ));
                assert(s1.spec_optimum(i) == env_step(
                    config.env_rule,
                    s0.environment@[s0.patch_of(i)] as int,
                    s0.tick,
                ));
                assert(s1.spec_phenotype(i) == s0.spec_phenotype(i));
                assert(s1.spec_d2(i) == post_env_d2(s0, *config, i));
                lemma_weight_le(
                    config.r_max as nat,
                    config.selection_sigma as nat,
                    post_env_d2(s0, *config, i),
                );
            }
            assert(offspring@ =~= post_env_weights(s0, *config));
            assert forall|i: int|
                0 <= i < s0.n_ind() implies recruit_ok(
                s0,
                post_env_weights(s0, *config),
                i,
                (#[trigger] state.population@[i])@,
            ) by {
                assert(contains_idx(dead@, i)) by {
                    assert(dead@[i] == i);
                }
                assert(recruit_ok(s1, offspring@, i, s2.population@[i]@));
                let j = choose|j: int|
                    0 <= j < s1.n_ind() && #[trigger] s1.patch_of(j) == s1.patch_of(i)
                        && s2.population@[i]@ == s1.population@[j]@ && (sum_w(
                        offspring@,
                        s1.patch_of(i) * s1.cap(),
                        (s1.patch_of(i) + 1) * s1.cap(),
                    ) > 0 ==> offspring@[j] >= 1);
                assert(s0.patch_of(j) == s1.patch_of(j));
                assert(s3.population@[i]@ == s2.population@[i]@);
                assert(s4.population@[i]@ == s3.population@[i]@);
                assert(state.population@[i]@ == s4.population@[i]@);
                assert(state.population@[i]@ == s0.population@[j]@);
            }
        }
        if full_dispersal(*config) && s0.n_patches() == 2 && s0.n_ind() >= 1 {
            lemma_patch_capacity(&s0);
            assert(dead@.len() == 0);
            assert forall|i: int|
                0 <= i < s0.n_ind() implies (#[trigger] state.population@[i])@
                == s0.population@[cross_of(i, s0.cap() as int)]@ by {
                let c = cross_of(i, s0.cap() as int);
                assert(s0.n_ind() == s0.cap() * 2);
                assert(0 <= c < s0.n_ind()) by (nonlinear_arith)
                    requires
                        s0.n_ind() == s0.cap() * 2,
                        0 <= i < s0.n_ind(),
                        c == cross_of(i, s0.cap() as int),
                        c == (if i < s0.cap() { i + s0.cap() } else { i - s0.cap() }),
                ;
                assert(s3.population@[i]@ == s2.population@[cross_of(i, s2.cap() as int)]@);
                assert(s2.cap() == s0.cap());
                assert(!contains_idx(dead@, c));
                assert(s2.population@[c]@ == s1.population@[c]@);
                assert(s1.population@[c]@ == s0.population@[c]@);
                assert(s4.population@[i]@ == s3.population@[i]@);
                assert(state.population@[i]@ == s4.population@[i]@);
            }
        }
    }
    state.tick = state.tick + 1;
}

} // verus!
