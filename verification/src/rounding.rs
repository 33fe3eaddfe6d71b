//! Rounding an exact fraction to the nearest binary64 magnitude, ties to even.
//!
//! Magnitudes are counted in units of 2^-1074, so the representable ones are
//! the integers `q * 2^k` with `q < 2^53`, and `q >= 2^52` wherever `k > 0`.

use crate::value::{overflow_threshold, Value};
use vstd::arithmetic::div_mod::lemma_fundamental_div_mod_converse;
use vstd::arithmetic::power2::{
    lemma2_to64, lemma_pow2_adds, lemma_pow2_pos, lemma_pow2_unfold, pow2,
};
use vstd::prelude::*;

verus! {

/// 2^52: the weight of the leading bit of a normal significand.
pub const HIDDEN_BIT: u64 = 0x10_0000_0000_0000;

/// 2^53: every significand is below it.
pub const SIGNIFICAND_LIMIT: u64 = 0x20_0000_0000_0000;

/// 2^54: a significand with one guard bit is below it.
pub const GUARDED_LIMIT: u64 = 0x40_0000_0000_0000;

/// The exponent of the spacing between neighbouring binary64 magnitudes
/// around `num / den`: the least `k` with `num / den < 2^(53 + k)`.
pub open spec fn ulp_exponent(num: nat, den: nat) -> nat
    decreases num,
{
    if num == 0 || num < den * SIGNIFICAND_LIMIT {
        0
    } else {
        1 + ulp_exponent(num / 2, den)
    }
}

/// `num / den` rounded to a multiple of `2^ulp_exponent`: down when the rest is
/// under half a step, up when it is over, and to the even multiple on a tie.
pub open spec fn rounded_magnitude(num: nat, den: nat) -> nat {
    let k = ulp_exponent(num, den);
    let step = den * pow2(k);
    let q = num / step;
    let rest = num % step;
    let up: nat = if 2 * rest > step || (2 * rest == step && q % 2 == 1) {
        1
    } else {
        0
    };
    (q + up) * pow2(k)
}

/// The binary64 value nearest to `num / den` units of 2^-1074, with the given
/// sign; an infinity when the rounded magnitude reaches 2^1024.
pub open spec fn round_nearest_even(negative: bool, num: nat, den: nat) -> Value {
    let magnitude = rounded_magnitude(num, den);
    if magnitude >= overflow_threshold() {
        Value::Infinite { negative }
    } else {
        Value::Finite { negative, magnitude }
    }
}

/// The numerator of `num / den` counted in steps of `2^e`: a negative `e`
/// is taken into the numerator.
pub open spec fn scaled_num(num: nat, e: int) -> nat {
    if e < 0 {
        num * pow2((-e) as nat)
    } else {
        num
    }
}

/// The denominator of `num / den` counted in steps of `2^e`: a positive `e`
/// is taken into the denominator.
pub open spec fn scaled_den(den: nat, e: int) -> nat {
    if e < 0 {
        den
    } else {
        den * pow2(e as nat)
    }
}

/// `m` is `num / den` in steps of `2^e`, cut off below, and `sticky` tells
/// whether anything was cut off.
pub open spec fn approximates(m: nat, e: int, sticky: bool, num: nat, den: nat) -> bool {
    let n = scaled_num(num, e);
    let d = scaled_den(den, e);
    &&& m * d <= n < (m + 1) * d
    &&& sticky <==> n != m * d
}

/// A positive number in any place is positive.
pub proof fn lemma_scale_positive(den: nat, k: nat)
    requires
        den > 0,
    ensures
        den * pow2(k) > 0,
{
    lemma_pow2_pos(k);
    assert(den * pow2(k) > 0) by (nonlinear_arith)
        requires
            den > 0,
            pow2(k) > 0,
    ;
}

/// One place up doubles.
pub proof fn lemma_scale_double(x: nat, k: nat)
    ensures
        x * pow2(k + 1) == 2 * (x * pow2(k)),
{
    lemma_pow2_unfold(k + 1);
    let p = pow2(k);
    assert(x * (2 * p) == 2 * (x * p)) by (nonlinear_arith);
}

/// A product of two scaled significands, regrouped.
pub proof fn lemma_scaled_product(x: nat, a: nat, y: nat, b: nat)
    ensures
        (x * pow2(a)) * (y * pow2(b)) == (x * y) * pow2(a + b),
{
    lemma_pow2_adds(a, b);
    let p = pow2(a);
    let q = pow2(b);
    assert((x * p) * (y * q) == (x * y) * (p * q)) by (nonlinear_arith);
}

/// `x * 2^a * 2^b` is `x * 2^(a + b)`.
pub proof fn lemma_scale_twice(x: nat, a: nat, b: nat)
    ensures
        (x * pow2(a)) * pow2(b) == x * pow2(a + b),
{
    lemma_pow2_adds(a, b);
    let p = pow2(a);
    let q = pow2(b);
    assert((x * p) * q == x * (p * q)) by (nonlinear_arith);
}

/// Splitting `m` into its last bit and the rest, inside a product.
proof fn lemma_split_last_bit(m: nat, d: nat)
    ensures
        m * d == 2 * ((m / 2) * d) + (m % 2) * d,
        (m + 1) * d == m * d + d,
        (m / 2 + 1) * (2 * d) == 2 * ((m / 2) * d) + 2 * d,
        (m / 2) * (2 * d) == 2 * ((m / 2) * d),
        (m % 2) * d == if m % 2 == 1 { d } else { 0 },
{
    let q = m / 2;
    let g = m % 2;
    assert(m == 2 * q + g);
    assert((2 * q + g) * d == 2 * (q * d) + g * d) by (nonlinear_arith);
    assert((m + 1) * d == m * d + d) by (nonlinear_arith);
    assert((q + 1) * (2 * d) == 2 * (q * d) + 2 * d) by (nonlinear_arith);
    assert(q * (2 * d) == 2 * (q * d)) by (nonlinear_arith);
    if g == 1 {
        assert(g * d == d) by (nonlinear_arith)
            requires
                g == 1,
        ;
    } else {
        assert(g * d == 0) by (nonlinear_arith)
            requires
                g == 0,
        ;
    }
}

/// Dropping the last bit of `m` into the sticky flag keeps the approximation.
pub proof fn lemma_approximates_halve(m: nat, e: int, sticky: bool, num: nat, den: nat)
    requires
        den > 0,
        approximates(m, e, sticky, num, den),
    ensures
        approximates(m / 2, e + 1, sticky || m % 2 == 1, num, den),
{
    let n = scaled_num(num, e);
    let d = scaled_den(den, e);
    let n2 = scaled_num(num, e + 1);
    let d2 = scaled_den(den, e + 1);
    lemma_split_last_bit(m, d);
    if e >= 0 {
        lemma_scale_double(den, e as nat);
        lemma_scale_positive(den, e as nat);
        assert(n2 == n);
        assert(d2 == 2 * d);
    } else {
        lemma_scale_double(num, (-e - 1) as nat);
        if e == -1 {
            lemma2_to64();
            assert(den * pow2(0) == den) by (nonlinear_arith)
                requires
                    pow2(0) == 1,
            ;
            assert(num * pow2(0) == num) by (nonlinear_arith)
                requires
                    pow2(0) == 1,
            ;
        }
        assert(n == 2 * n2);
        assert(d2 == d);
        assert((m / 2 + 1) * d == (m / 2) * d + d) by (nonlinear_arith);
    }
}

/// An exact approximation may be written with one more bit.
pub proof fn lemma_approximates_double(m: nat, e: int, num: nat, den: nat)
    requires
        den > 0,
        e >= 0,
        approximates(m, e, false, num, den),
    ensures
        approximates(2 * m, e - 1, false, num, den),
{
    let d = scaled_den(den, e);
    let n2 = scaled_num(num, e - 1);
    let d2 = scaled_den(den, e - 1);
    if e >= 1 {
        lemma_scale_double(den, (e - 1) as nat);
        lemma_scale_positive(den, (e - 1) as nat);
        assert(d == 2 * d2);
        assert(m * (2 * d2) == (2 * m) * d2) by (nonlinear_arith);
        assert((2 * m + 1) * d2 == (2 * m) * d2 + d2) by (nonlinear_arith);
    } else {
        lemma2_to64();
        assert(den * pow2(0) == den) by (nonlinear_arith)
            requires
                pow2(0) == 1,
        ;
        assert(num * pow2(1) == 2 * num) by (nonlinear_arith)
            requires
                pow2(1) == 2,
        ;
        assert(n2 == 2 * num);
        assert(d2 == den);
        assert(2 * (m * den) == (2 * m) * den) by (nonlinear_arith);
        assert((2 * m + 1) * den == (2 * m) * den + den) by (nonlinear_arith);
    }
}

/// A vanished significand may be written at the half-unit scale.
pub proof fn lemma_approximates_zero(e: int, sticky: bool, num: nat, den: nat)
    requires
        den > 0,
        approximates(0, e, sticky, num, den),
        sticky ==> e <= -1,
    ensures
        approximates(0, -1, sticky, num, den),
{
    lemma2_to64();
    assert(num * pow2(1) == 2 * num) by (nonlinear_arith)
        requires
            pow2(1) == 2,
    ;
    let d = scaled_den(den, e);
    let n = scaled_num(num, e);
    assert(0 * d == 0) by (nonlinear_arith);
    assert(0 * den == 0) by (nonlinear_arith);
    assert((0 + 1) * d == d) by (nonlinear_arith);
    assert((0 + 1) * den == den) by (nonlinear_arith);
    if e >= 0 {
        assert(num == 0);
    } else {
        let p = pow2((-e) as nat);
        lemma_pow2_unfold((-e) as nat);
        lemma_pow2_pos((-e - 1) as nat);
        assert(p >= 2);
        assert(2 * num <= num * p) by (nonlinear_arith)
            requires
                p >= 2,
        ;
        assert(num * p != 0 <==> num != 0) by (nonlinear_arith)
            requires
                p >= 2,
        ;
    }
}

/// Zero rounds to zero.
pub proof fn lemma_round_zero(negative: bool, den: nat)
    requires
        den > 0,
    ensures
        round_nearest_even(negative, 0, den) == Value::zero(negative),
{
    lemma2_to64();
    lemma_pow2_pos(2098);
    assert(den * pow2(0) == den) by (nonlinear_arith)
        requires
            pow2(0) == 1,
    ;
    lemma_fundamental_div_mod_converse(0, den as int, 0, 0);
    assert((0 + 0) * pow2(0) == 0) by (nonlinear_arith);
}

/// A significand with its scale is an exact approximation of their product.
pub proof fn lemma_approximates_exact(m: nat, k: nat)
    ensures
        approximates(m, k as int, false, m * pow2(k), 1),
{
    let p = pow2(k);
    lemma_pow2_pos(k);
    assert(1 * p == p) by (nonlinear_arith);
    assert((m + 1) * p == m * p + p) by (nonlinear_arith);
}

/// The recursion of `ulp_exponent`, told from a bracket by powers of two.
pub proof fn lemma_ulp_exponent(num: nat, den: nat, k: nat)
    requires
        den > 0,
        k > 0,
        SIGNIFICAND_LIMIT * (den * pow2((k - 1) as nat)) <= num,
        num < SIGNIFICAND_LIMIT * (den * pow2(k)),
    ensures
        ulp_exponent(num, den) == k,
    decreases k,
{
    lemma_scale_double(den, (k - 1) as nat);
    lemma_scale_positive(den, (k - 1) as nat);
    let low = den * pow2((k - 1) as nat);
    assert(den * pow2(k) == 2 * low);
    assert(low >= den) by {
        lemma_pow2_pos((k - 1) as nat);
        assert(den * pow2((k - 1) as nat) >= den) by (nonlinear_arith)
            requires
                pow2((k - 1) as nat) >= 1,
        ;
    }
    assert(num >= den * SIGNIFICAND_LIMIT);
    assert(num != 0);
    if k == 1 {
        lemma2_to64();
        assert(den * pow2(0) == den) by (nonlinear_arith)
            requires
                pow2(0) == 1,
        ;
        assert(num / 2 < den * SIGNIFICAND_LIMIT);
        assert(ulp_exponent(num / 2, den) == 0);
    } else {
        lemma_scale_double(den, (k - 2) as nat);
        lemma_ulp_exponent(num / 2, den, (k - 1) as nat);
    }
}

/// The rounding decision read off a significand that carries one guard bit
/// and a sticky flag.
pub proof fn lemma_round_from_guard(m: nat, e: int, sticky: bool, num: nat, den: nat)
    requires
        den > 0,
        e >= -1,
        m < GUARDED_LIMIT,
        e >= 0 ==> m >= SIGNIFICAND_LIMIT,
        approximates(m, e, sticky, num, den),
    ensures
        rounded_magnitude(num, den) == (m / 2 + if m % 2 == 1 && (sticky || (m / 2) % 2 == 1) {
            1nat
        } else {
            0nat
        }) * pow2((e + 1) as nat),
{
    let q = m / 2;
    let k = (e + 1) as nat;
    let step = den * pow2(k);
    lemma_scale_positive(den, k);
    if e >= 0 {
        let d = den * pow2(e as nat);
        lemma_scale_double(den, e as nat);
        lemma_scale_positive(den, e as nat);
        lemma_split_last_bit(m, d);
        assert(step == 2 * d);
        assert(SIGNIFICAND_LIMIT * d <= m * d) by (nonlinear_arith)
            requires
                SIGNIFICAND_LIMIT <= m,
        ;
        assert((m + 1) * d <= GUARDED_LIMIT * d) by (nonlinear_arith)
            requires
                m + 1 <= GUARDED_LIMIT,
        ;
        assert(GUARDED_LIMIT * d == SIGNIFICAND_LIMIT * (2 * d));
        lemma_ulp_exponent(num, den, k);
        let rest = (num - 2 * (q * d)) as nat;
        assert(q * step == 2 * (q * d));
        lemma_fundamental_div_mod_converse(num as int, step as int, q as int, rest as int);
    } else {
        lemma2_to64();
        assert(num * pow2(1) == 2 * num) by (nonlinear_arith)
            requires
                pow2(1) == 2,
        ;
        assert(den * pow2(0) == den) by (nonlinear_arith)
            requires
                pow2(0) == 1,
        ;
        lemma_split_last_bit(m, den);
        assert(step == den);
        assert((m + 1) * den <= GUARDED_LIMIT * den) by (nonlinear_arith)
            requires
                m + 1 <= GUARDED_LIMIT,
        ;
        assert(num < den * SIGNIFICAND_LIMIT);
        assert(ulp_exponent(num, den) == 0);
        let rest = (num - q * den) as nat;
        lemma_fundamental_div_mod_converse(num as int, den as int, q as int, rest as int);
    }
}

} // verus!
