//! What the rounding rule amounts to: the result is a binary64 magnitude, no
//! other one lies nearer to the exact quantity, and a quantity that is one
//! already is left as it is.

use crate::binary64::lemma_pow2_monotonic;
use crate::rounding::{
    approximates, lemma_approximates_double, lemma_approximates_exact, lemma_round_from_guard,
    lemma_scale_double, lemma_scale_positive, lemma_scale_twice, rounded_magnitude,
    ulp_exponent, HIDDEN_BIT, SIGNIFICAND_LIMIT,
};
use vstd::arithmetic::div_mod::lemma_fundamental_div_mod;
use vstd::arithmetic::power2::{lemma2_to64, lemma_pow2_pos, pow2};
use vstd::prelude::*;

verus! {

/// `q` units in the place of weight `2^k`.
pub open spec fn scaled(q: nat, k: nat) -> nat {
    q * pow2(k)
}

/// A magnitude that binary64 could hold if its exponents had no upper end:
/// a significand below 2^53 in some place.
pub open spec fn is_representable(v: nat) -> bool {
    exists|q: nat, k: nat| q < SIGNIFICAND_LIMIT && v == #[trigger] scaled(q, k)
}

/// How far `v` lies from `num / den`, in units of `1 / den`.
pub open spec fn distance(v: nat, num: nat, den: nat) -> nat {
    if v * den >= num {
        (v * den - num) as nat
    } else {
        (num - v * den) as nat
    }
}

/// The exact quantity lies below 2^53 steps of its last place, and, where
/// that place is not the lowest, at or above 2^52 steps.
pub proof fn lemma_ulp_exponent_bracket(num: nat, den: nat)
    requires
        den > 0,
    ensures
        num < SIGNIFICAND_LIMIT * (den * pow2(ulp_exponent(num, den))),
        ulp_exponent(num, den) > 0 ==> SIGNIFICAND_LIMIT * (den * pow2(
            (ulp_exponent(num, den) - 1) as nat,
        )) <= num,
    decreases num,
{
    lemma2_to64();
    assert(den * pow2(0) == den) by (nonlinear_arith)
        requires
            pow2(0) == 1,
    ;
    if num == 0 || num < den * SIGNIFICAND_LIMIT {
    } else {
        let inner = ulp_exponent(num / 2, den);
        lemma_ulp_exponent_bracket(num / 2, den);
        lemma_scale_double(den, inner);
        if inner > 0 {
            lemma_scale_double(den, (inner - 1) as nat);
        }
    }
}

/// No binary64 magnitude lies nearer to `num / den` than the rounded one.
pub proof fn lemma_rounded_is_nearest(num: nat, den: nat, q: nat, k: nat)
    requires
        den > 0,
        q < SIGNIFICAND_LIMIT,
    ensures
        distance(rounded_magnitude(num, den), num, den) <= distance(scaled(q, k), num, den),
{
    let last = ulp_exponent(num, den);
    let step = pow2(last);
    let wide = den * step;
    let quotient = num / wide;
    let rest = num % wide;
    let up: nat = if 2 * rest > wide || (2 * rest == wide && quotient % 2 == 1) {
        1
    } else {
        0
    };
    let rounded = rounded_magnitude(num, den);
    let v = scaled(q, k);
    lemma_scale_positive(den, last);
    lemma_pow2_pos(last);
    lemma_fundamental_div_mod(num as int, wide as int);
    assert(num == quotient * wide + rest) by (nonlinear_arith)
        requires
            num == wide * quotient + rest,
    ;
    assert(rounded * den == (quotient + up) * wide) by (nonlinear_arith)
        requires
            rounded == (quotient + up) * step,
            wide == den * step,
    ;
    assert((quotient + up) * wide == quotient * wide + up * wide) by (nonlinear_arith);
    assert(up * wide == if up == 1 { wide } else { 0 }) by (nonlinear_arith)
        requires
            up == 0 || up == 1,
    ;
    // The rounded magnitude is the nearer end of the step that holds the
    // exact quantity.
    assert(distance(rounded, num, den) <= rest);
    assert(distance(rounded, num, den) <= wide - rest);
    // The candidate lies at or below the lower end, or at or above the upper.
    if k >= last {
        let t = q * pow2((k - last) as nat);
        lemma_scale_twice(q, (k - last) as nat, last);
        assert(v == t * step);
        assert(v * den == t * wide) by (nonlinear_arith)
            requires
                v == t * step,
                wide == den * step,
        ;
        if t <= quotient {
            assert(t * wide <= quotient * wide) by (nonlinear_arith)
                requires
                    t <= quotient,
            ;
        } else {
            assert(t * wide >= quotient * wide + wide) by (nonlinear_arith)
                requires
                    t >= quotient + 1,
            ;
        }
    } else {
        lemma_ulp_exponent_bracket(num, den);
        lemma_scale_double(den, (last - 1) as nat);
        let below = den * pow2((last - 1) as nat);
        assert(wide == 2 * below);
        lemma_pow2_monotonic(k, (last - 1) as nat);
        lemma_pow2_pos(k);
        let pk = pow2(k);
        let pl = pow2((last - 1) as nat);
        assert(v * den <= SIGNIFICAND_LIMIT * below) by (nonlinear_arith)
            requires
                v == q * pk,
                q < SIGNIFICAND_LIMIT,
                pk <= pl,
                below == den * pl,
                pk > 0,
        ;
        assert(SIGNIFICAND_LIMIT * below == HIDDEN_BIT * wide);
        assert(quotient >= HIDDEN_BIT) by (nonlinear_arith)
            requires
                num == quotient * wide + rest,
                rest < wide,
                HIDDEN_BIT * wide <= num,
                wide > 0,
        ;
        assert(HIDDEN_BIT * wide <= quotient * wide) by (nonlinear_arith)
            requires
                HIDDEN_BIT <= quotient,
        ;
    }
}

/// The rounded magnitude is a binary64 magnitude.
pub proof fn lemma_rounded_is_representable(num: nat, den: nat)
    requires
        den > 0,
    ensures
        is_representable(rounded_magnitude(num, den)),
{
    let last = ulp_exponent(num, den);
    let wide = den * pow2(last);
    let quotient = num / wide;
    let rest = num % wide;
    let rounded = rounded_magnitude(num, den);
    lemma_scale_positive(den, last);
    lemma_ulp_exponent_bracket(num, den);
    lemma_fundamental_div_mod(num as int, wide as int);
    assert(quotient < SIGNIFICAND_LIMIT) by (nonlinear_arith)
        requires
            num == wide * quotient + rest,
            num < SIGNIFICAND_LIMIT * wide,
            wide > 0,
    ;
    if rounded == scaled(quotient, last) {
    } else if quotient + 1 < SIGNIFICAND_LIMIT {
        assert(rounded == scaled(quotient + 1, last));
    } else {
        lemma_scale_double(HIDDEN_BIT as nat, last);
        assert(rounded == (2 * HIDDEN_BIT) * pow2(last));
        assert((2 * HIDDEN_BIT) * pow2(last) == 2 * (HIDDEN_BIT * pow2(last))) by (nonlinear_arith);
        assert(rounded == scaled(HIDDEN_BIT as nat, last + 1));
    }
}

/// A quantity that is a binary64 magnitude already rounds to itself.
pub proof fn lemma_representable_rounds_to_itself(q: nat, k: nat)
    requires
        q < SIGNIFICAND_LIMIT,
        k > 0 ==> q >= HIDDEN_BIT,
    ensures
        rounded_magnitude(scaled(q, k), 1) == scaled(q, k),
{
    let v = scaled(q, k);
    if k > 0 {
        lemma_approximates_exact(q, k);
        lemma_approximates_double(q, k as int, v, 1);
    } else {
        lemma2_to64();
        assert(q * pow2(0) == q) by (nonlinear_arith)
            requires
                pow2(0) == 1,
        ;
        assert(q * pow2(1) == 2 * q) by (nonlinear_arith)
            requires
                pow2(1) == 2,
        ;
        assert((2 * q) * 1 == 2 * q) by (nonlinear_arith);
        assert((2 * q + 1) * 1 == 2 * q + 1) by (nonlinear_arith);
        assert(approximates(2 * q, -1, false, v, 1));
    }
    lemma_round_from_guard(2 * q, k - 1, false, v, 1);
}

} // verus!
