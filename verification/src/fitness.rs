//! The stabilizing-selection weight: a fixed-point Gaussian kernel.
//!
//! The expected-offspring weight of an individual at squared distance `d2`
//! (in grid units) from its patch optimum is `r_max * exp(-d2 / (2 sigma^2))`,
//! with the peak value at the optimum equal to `r_max` exactly. The
//! exponential is evaluated in fixed point over `FIT_ONE` by the limit form
//! `exp(-x) = lim (1 - x/2^16)^(2^16)`: the base is one of `FIT_ONE` minus
//! the scaled exponent, squared (and rescaled) sixteen times. The kernel is
//! exactly the spec functions below; its antitonicity in `d2` and its peak
//! value are proved, which is what the selection stage's callers rely on.

use vstd::prelude::*;
use vstd::arithmetic::div_mod::{
    lemma_div_is_ordered, lemma_div_multiples_vanish, lemma_fundamental_div_mod,
    lemma_fundamental_div_mod_converse,
};
use vstd::arithmetic::mul::{lemma_mul_inequality, lemma_mul_is_commutative};
use crate::params::{R_MAX_BOUND, SEL_SIGMA_MAX};

verus! {

/// Fixed-point denominator of the fitness kernel.
pub const FIT_ONE: u64 = 0x1_0000_0000;

/// Number of repeated squarings, and the matching divisor `2^16` of the
/// exponent argument.
pub const EXP_DIV: u64 = 0x1_0000;

/// Exponent arguments at or beyond this cutoff (`EXP_DIV * FIT_ONE`) map to a
/// zero weight.
pub const X_CUT: u64 = 0x1_0000_0000_0000;

/// One squaring step in fixed point: `v^2 / FIT_ONE`.
pub open spec fn sq_step(v: nat) -> nat {
    (v * v) / (FIT_ONE as nat)
}

/// `j` repeated squaring steps.
pub open spec fn pow_sq(v: nat, j: nat) -> nat
    decreases j,
{
    if j == 0 {
        v
    } else {
        sq_step(pow_sq(v, (j - 1) as nat))
    }
}

/// Fixed-point `exp(-x / FIT_ONE)`, scaled by `FIT_ONE`.
pub open spec fn gauss(x: nat) -> nat {
    if x >= X_CUT {
        0
    } else {
        pow_sq((FIT_ONE - x / (EXP_DIV as nat)) as nat, 16)
    }
}

/// The scaled exponent argument `d2 * FIT_ONE / (2 sigma^2)`.
pub open spec fn x_of(d2: nat, sigma: nat) -> nat {
    (d2 * (FIT_ONE as nat)) / (2 * sigma * sigma)
}

/// The expected-offspring weight at squared distance `d2` from the optimum.
pub open spec fn spec_weight(r_max: nat, sigma: nat, d2: nat) -> nat {
    (r_max * gauss(x_of(d2, sigma))) / (FIT_ONE as nat)
}

proof fn lemma_sq_step_mono(a: nat, b: nat)
    requires
        a <= b,
    ensures
        sq_step(a) <= sq_step(b),
{
    assert(a * a <= b * b) by (nonlinear_arith)
        requires 0 <= a <= b,
    ;
    lemma_div_is_ordered((a * a) as int, (b * b) as int, FIT_ONE as int);
}

proof fn lemma_sq_step_le(v: nat)
    requires
        v <= FIT_ONE,
    ensures
        sq_step(v) <= FIT_ONE,
{
    assert(v * v <= FIT_ONE * FIT_ONE) by (nonlinear_arith)
        requires 0 <= v <= FIT_ONE,
    ;
    lemma_div_is_ordered((v * v) as int, (FIT_ONE * FIT_ONE) as int, FIT_ONE as int);
    lemma_div_multiples_vanish(FIT_ONE as int, FIT_ONE as int);
}

proof fn lemma_pow_sq_le(v: nat, j: nat)
    requires
        v <= FIT_ONE,
    ensures
        pow_sq(v, j) <= FIT_ONE,
    decreases j,
{
    if j > 0 {
        lemma_pow_sq_le(v, (j - 1) as nat);
        lemma_sq_step_le(pow_sq(v, (j - 1) as nat));
    }
}

proof fn lemma_pow_sq_mono(a: nat, b: nat, j: nat)
    requires
        a <= b,
    ensures
        pow_sq(a, j) <= pow_sq(b, j),
    decreases j,
{
    if j > 0 {
        lemma_pow_sq_mono(a, b, (j - 1) as nat);
        lemma_sq_step_mono(pow_sq(a, (j - 1) as nat), pow_sq(b, (j - 1) as nat));
    }
}

proof fn lemma_pow_sq_full(j: nat)
    ensures
        pow_sq(FIT_ONE as nat, j) == FIT_ONE,
    decreases j,
{
    if j > 0 {
        lemma_pow_sq_full((j - 1) as nat);
        lemma_div_multiples_vanish(FIT_ONE as int, FIT_ONE as int);
    }
}

proof fn lemma_gauss_le(x: nat)
    ensures
        gauss(x) <= FIT_ONE,
{
    if x < X_CUT {
        lemma_pow_sq_le((FIT_ONE - x / (EXP_DIV as nat)) as nat, 16);
    }
}

proof fn lemma_gauss_zero()
    ensures
        gauss(0) == FIT_ONE,
{
    lemma_pow_sq_full(16);
}

proof fn lemma_gauss_antitone(x1: nat, x2: nat)
    requires
        x1 <= x2,
    ensures
        gauss(x1) >= gauss(x2),
{
    if x2 < X_CUT {
        lemma_div_is_ordered(x1 as int, x2 as int, EXP_DIV as int);
        lemma_pow_sq_mono(
            (FIT_ONE - x2 / (EXP_DIV as nat)) as nat,
            (FIT_ONE - x1 / (EXP_DIV as nat)) as nat,
            16,
        );
    }
}

proof fn lemma_x_of_mono(d2a: nat, d2b: nat, sigma: nat)
    requires
        d2a <= d2b,
        sigma >= 1,
    ensures
        x_of(d2a, sigma) <= x_of(d2b, sigma),
{
    lemma_mul_inequality(d2a as int, d2b as int, FIT_ONE as int);
    assert(2 * sigma * sigma > 0) by (nonlinear_arith)
        requires sigma >= 1,
    ;
    lemma_div_is_ordered((d2a * FIT_ONE) as int, (d2b * FIT_ONE) as int, (2 * sigma * sigma) as int);
}

/// The weight never exceeds its value scale `r_max`.
pub proof fn lemma_weight_le(r_max: nat, sigma: nat, d2: nat)
    ensures
        spec_weight(r_max, sigma, d2) <= r_max,
{
    let g = gauss(x_of(d2, sigma));
    lemma_gauss_le(x_of(d2, sigma));
    lemma_mul_inequality(g as int, FIT_ONE as int, r_max as int);
    lemma_mul_is_commutative(g as int, r_max as int);
    lemma_mul_is_commutative(FIT_ONE as int, r_max as int);
    lemma_div_is_ordered((r_max * g) as int, (r_max * FIT_ONE) as int, FIT_ONE as int);
    lemma_div_multiples_vanish(r_max as int, FIT_ONE as int);
    lemma_mul_is_commutative(FIT_ONE as int, r_max as int);
}

/// An individual exactly on its optimum has the peak weight `r_max`.
pub proof fn lemma_weight_at_optimum(r_max: nat, sigma: nat)
    requires
        sigma >= 1,
    ensures
        spec_weight(r_max, sigma, 0) == r_max,
{
    assert(x_of(0, sigma) == 0) by {
        assert(0 * FIT_ONE == 0) by (nonlinear_arith);
        assert(2 * sigma * sigma > 0) by (nonlinear_arith)
            requires sigma >= 1,
        ;
        lemma_div_multiples_vanish(0, (2 * sigma * sigma) as int);
        assert(((2 * sigma * sigma) * 0) == 0) by (nonlinear_arith);
    }
    lemma_gauss_zero();
    lemma_mul_is_commutative(r_max as int, FIT_ONE as int);
    lemma_div_multiples_vanish(r_max as int, FIT_ONE as int);
}

/// The weight is antitone in the squared distance from the optimum: moving
/// away from the optimum never increases the expected offspring.
pub proof fn lemma_weight_antitone(r_max: nat, sigma: nat, d2a: nat, d2b: nat)
    requires
        sigma >= 1,
        d2a <= d2b,
    ensures
        spec_weight(r_max, sigma, d2a) >= spec_weight(r_max, sigma, d2b),
{
    lemma_x_of_mono(d2a, d2b, sigma);
    lemma_gauss_antitone(x_of(d2a, sigma), x_of(d2b, sigma));
    let ga = gauss(x_of(d2a, sigma));
    let gb = gauss(x_of(d2b, sigma));
    lemma_mul_inequality(gb as int, ga as int, r_max as int);
    lemma_mul_is_commutative(gb as int, r_max as int);
    lemma_mul_is_commutative(ga as int, r_max as int);
    lemma_div_is_ordered((r_max * gb) as int, (r_max * ga) as int, FIT_ONE as int);
}

/// Evaluates the fixed-point exponential `gauss` exactly.
fn gauss_exec(x: u64) -> (r: u64)
    ensures
        r == gauss(x as nat),
        r <= FIT_ONE,
{
    if x >= X_CUT {
        0
    } else {
        let b: u64 = FIT_ONE - x / EXP_DIV;
        let mut v: u64 = b;
        let mut t: usize = 0;
        proof {
            lemma_div_is_ordered(x as int, X_CUT as int, EXP_DIV as int);
        }
        while t < 16
            invariant
                t <= 16,
                b <= FIT_ONE,
                v == pow_sq(b as nat, t as nat),
                v <= FIT_ONE,
            decreases 16 - t,
        {
            proof {
                assert((v as int) * (v as int) <= 0x1_0000_0000_0000_0000) by (nonlinear_arith)
                    requires 0 <= v <= 0x1_0000_0000int,
                ;
            }
            let w: u128 = (v as u128) * (v as u128);
            proof {
                lemma_sq_step_le(v as nat);
                assert(w / (FIT_ONE as u128) == sq_step(v as nat));
            }
            v = (w / (FIT_ONE as u128)) as u64;
            t += 1;
        }
        v
    }
}

/// Evaluates `spec_weight` exactly: the expected-offspring weight of an
/// individual at squared distance `d2` from its patch optimum.
pub(crate) fn fitness_weight(r_max: u64, selection_sigma: u64, d2: u128) -> (r: u64)
    requires
        r_max <= R_MAX_BOUND,
        1 <= selection_sigma <= SEL_SIGMA_MAX,
    ensures
        r == spec_weight(r_max as nat, selection_sigma as nat, d2 as nat),
        r <= r_max,
{
    proof {
        lemma_weight_le(r_max as nat, selection_sigma as nat, d2 as nat);
    }
    let sig = selection_sigma as u128;
    proof {
        assert(2 * (sig as int) * (sig as int) <= 0x8000_0000_0000_0000) by (nonlinear_arith)
            requires 1 <= sig <= 0x8000_0000int,
        ;
    }
    let t2: u128 = 2 * sig * sig;
    proof {
        assert(2 * (sig as int) * (sig as int) >= 2) by (nonlinear_arith)
            requires sig >= 1,
        ;
    }
    let q: u128 = d2 / t2;
    proof {
        lemma_fundamental_div_mod(d2 as int, t2 as int);
    }
    if q >= EXP_DIV as u128 {
        proof {
            let d2i = d2 as int;
            let t2i = t2 as int;
            let qi = q as int;
            assert(d2i * FIT_ONE >= t2i * (EXP_DIV * FIT_ONE)) by (nonlinear_arith)
                requires
                    d2i == t2i * qi + d2i % t2i,
                    0 <= d2i % t2i,
                    qi >= EXP_DIV,
                    t2i > 0,
            ;
            lemma_div_is_ordered(t2i * ((EXP_DIV * FIT_ONE) as int), d2i * FIT_ONE, t2i);
            lemma_div_multiples_vanish((EXP_DIV * FIT_ONE) as int, t2i);
            assert(x_of(d2 as nat, selection_sigma as nat) >= X_CUT);
            assert(gauss(x_of(d2 as nat, selection_sigma as nat)) == 0);
            assert(r_max * 0 == 0) by (nonlinear_arith);
        }
        0
    } else {
        let rem: u128 = d2 % t2;
        proof {
            assert((rem as int) * (FIT_ONE as int) <= 0x8000_0000_0000_0000int * 0x1_0000_0000int)
                by (nonlinear_arith)
                requires 0 <= rem <= 0x8000_0000_0000_0000int,
            ;
        }
        let u: u128 = (rem * (FIT_ONE as u128)) / t2;
        proof {
            let remi = rem as int;
            let t2i = t2 as int;
            lemma_mul_inequality(remi, t2i, FIT_ONE as int);
            lemma_mul_is_commutative(remi, FIT_ONE as int);
            lemma_mul_is_commutative(t2i, FIT_ONE as int);
            lemma_div_is_ordered(remi * FIT_ONE, t2i * FIT_ONE, t2i);
            lemma_div_multiples_vanish(FIT_ONE as int, t2i);
            assert(u <= FIT_ONE);
        }
        let x: u64 = ((q * (FIT_ONE as u128)) + u) as u64;
        proof {
            let d2i = d2 as int;
            let t2i = t2 as int;
            let qi = q as int;
            let remi = rem as int;
            let ui = u as int;
            let v2 = (remi * FIT_ONE) % t2i;
            lemma_fundamental_div_mod(remi * FIT_ONE, t2i);
            assert(d2i * FIT_ONE == (qi * FIT_ONE + ui) * t2i + v2) by (nonlinear_arith)
                requires
                    d2i == t2i * qi + remi,
                    remi * FIT_ONE == t2i * ui + v2,
            ;
            lemma_fundamental_div_mod_converse(d2i * FIT_ONE, t2i, qi * FIT_ONE + ui, v2);
            assert(x == x_of(d2 as nat, selection_sigma as nat));
        }
        let g: u64 = gauss_exec(x);
        let w: u128 = (r_max as u128) * (g as u128);
        let r: u64 = (w / (FIT_ONE as u128)) as u64;
        proof {
            assert(w / (FIT_ONE as u128) == spec_weight(r_max as nat, selection_sigma as nat, d2 as nat));
        }
        r
    }
}

} // verus!
