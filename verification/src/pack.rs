//! From an exact result, held as a wide significand with an exponent and a
//! sticky flag, to the binary64 number nearest to it.

use crate::binary64::{
    lemma_decode_packed, lemma_overflow_threshold, lemma_pow2_monotonic, lemma_strip_sign,
    Binary64, INFINITY_BITS, SIGN_BIT,
};
use crate::rounding::{
    approximates, lemma_approximates_double, lemma_approximates_halve, lemma_approximates_zero,
    lemma_round_from_guard, round_nearest_even, GUARDED_LIMIT, HIDDEN_BIT, SIGNIFICAND_LIMIT,
};
use vstd::arithmetic::power2::{lemma2_to64, lemma_pow2_adds, lemma_pow2_unfold, pow2};
use vstd::prelude::*;

verus! {

/// The exponents that `round_pack` accepts lie within this distance of zero.
pub const EXPONENT_BOUND: i64 = 4200;

/// A 128-bit number is below 2^128.
pub proof fn lemma_u128_below_pow2(m: u128)
    ensures
        m < pow2(128),
{
    lemma2_to64();
    lemma_pow2_adds(64, 64);
    assert(0x1_0000_0000_0000_0000int * 0x1_0000_0000_0000_0000int
        == 0x1_0000_0000_0000_0000_0000_0000_0000_0000int) by (nonlinear_arith);
}

/// The binary64 number with the given sign that is nearest to
/// `(significand + rest) * 2^exponent` units of 2^-1074, where `rest` is some
/// part of one, and not zero exactly when `sticky` holds. The ghost fraction
/// `num / den` is that exact quantity.
pub(crate) fn round_pack(
    negative: bool,
    significand: u128,
    exponent: i64,
    sticky: bool,
    Ghost(num): Ghost<nat>,
    Ghost(den): Ghost<nat>,
) -> (r: Binary64)
    requires
        den > 0,
        -EXPONENT_BOUND <= exponent <= EXPONENT_BOUND,
        sticky ==> significand >= GUARDED_LIMIT || exponent <= -1,
        approximates(significand as nat, exponent as int, sticky, num, den),
    ensures
        r@ == round_nearest_even(negative, num, den),
{
    let mut m: u128 = significand;
    let mut e: i64 = exponent;
    let mut s: bool = sticky;
    let ghost mut budget: nat = 128;
    proof {
        lemma_u128_below_pow2(m);
    }
    // Shift right until one guard bit is left below the last place.
    while (e < -1 && m > 0) || m >= GUARDED_LIMIT as u128
        invariant
            den > 0,
            approximates(m as nat, e as int, s, num, den),
            s ==> m >= SIGNIFICAND_LIMIT || e <= -1,
            m < pow2(budget),
            budget <= 128,
            -EXPONENT_BOUND <= e <= EXPONENT_BOUND + 128 - budget,
        decreases budget,
    {
        proof {
            lemma_approximates_halve(m as nat, e as int, s, num, den);
            if budget == 0 {
                lemma2_to64();
            }
            lemma_pow2_unfold(budget);
        }
        s = s || m % 2 == 1;
        m = m / 2;
        e = e + 1;
        proof {
            budget = (budget - 1) as nat;
        }
    }
    if m == 0 {
        proof {
            lemma_approximates_zero(e as int, s, num, den);
        }
        e = -1;
    }
    // Shift an exact short significand left as far as the exponent allows.
    while e > -1 && m < SIGNIFICAND_LIMIT as u128
        invariant
            den > 0,
            approximates(m as nat, e as int, s, num, den),
            s ==> m >= SIGNIFICAND_LIMIT || e <= -1,
            m < GUARDED_LIMIT,
            -1 <= e <= EXPONENT_BOUND + 128,
        decreases e + 1,
    {
        proof {
            lemma_approximates_double(m as nat, e as int, num, den);
        }
        m = m * 2;
        e = e - 1;
    }
    proof {
        lemma_round_from_guard(m as nat, e as int, s, num, den);
    }
    let k: i64 = e + 1;
    let q: u64 = (m / 2) as u64;
    let up: u64 = if m % 2 == 1 && (s || q % 2 == 1) {
        1
    } else {
        0
    };
    let sign: u64 = if negative {
        SIGN_BIT
    } else {
        0
    };
    if k >= 2046 {
        proof {
            lemma_overflow_threshold();
            lemma_pow2_monotonic(2046, k as nat);
            let p = pow2(k as nat);
            assert((q + up) * p >= HIDDEN_BIT * pow2(2046)) by (nonlinear_arith)
                requires
                    q + up >= HIDDEN_BIT,
                    p >= pow2(2046),
            ;
            lemma_strip_sign((sign + INFINITY_BITS) as u64);
        }
        return Binary64 { bits: sign + INFINITY_BITS };
    }
    proof {
        lemma_decode_packed(k as nat, (q + up) as nat);
        lemma_strip_sign((sign + (k * HIDDEN_BIT + q + up)) as u64);
    }
    let low: u64 = (k as u64) * HIDDEN_BIT + q + up;
    Binary64 { bits: sign + low }
}

} // verus!
