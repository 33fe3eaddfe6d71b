//! The binary64 quotient.

use crate::binary64::{lemma_hidden_bit_is_pow2, lemma_pow2_monotonic, Binary64, INFINITY_BITS};
use crate::pack::round_pack;
use crate::rounding::{
    approximates, lemma_round_zero, lemma_scale_double, lemma_scale_positive, lemma_scale_twice,
    HIDDEN_BIT, SIGNIFICAND_LIMIT,
};
use vstd::arithmetic::power2::{lemma2_to64, lemma_pow2_pos, pow2};
use vstd::prelude::*;

verus! {

/// 2^64: the dividend is widened by this factor, so that the integer quotient
/// has more bits than a significand.
pub const QUOTIENT_SCALE: u128 = 0x1_0000_0000_0000_0000;

/// A bracket of `x` by multiples of `y` stays one when all is scaled by `p`.
proof fn lemma_scaled_bracket(q: nat, y: nat, r: nat, x: nat, p: nat)
    requires
        x == q * y + r,
        r < y,
        p > 0,
    ensures
        q * (y * p) <= x * p < (q + 1) * (y * p),
        r != 0 <==> x * p != q * (y * p),
{
    assert(x * p == q * (y * p) + r * p) by (nonlinear_arith)
        requires
            x == q * y + r,
    ;
    assert((q + 1) * (y * p) == q * (y * p) + y * p) by (nonlinear_arith);
    assert(r * p < y * p) by (nonlinear_arith)
        requires
            r < y,
            p > 0,
    ;
    assert(r != 0 <==> r * p != 0) by (nonlinear_arith)
        requires
            p > 0,
    ;
}

/// The integer quotient of the widened, normalised dividend by the divisor's
/// significand approximates the exact quotient of the two magnitudes.
proof fn lemma_quotient_approximates(
    x: nat,
    shift: nat,
    a: nat,
    y: nat,
    b: nat,
    q: nat,
    r: nat,
)
    requires
        shift <= 52,
        (x * pow2(shift)) * QUOTIENT_SCALE == q * y + r,
        r < y,
    ensures
        approximates(
            q,
            a - shift + 1010 - b,
            r != 0,
            (x * pow2(a)) * pow2(1074),
            y * pow2(b),
        ),
{
    let t = (a - shift + 1010) as nat;
    let e = t - b;
    let wide: nat = ((x * pow2(shift)) * QUOTIENT_SCALE) as nat;
    let num = (x * pow2(a)) * pow2(1074);
    let den = y * pow2(b);
    lemma2_to64();
    assert(QUOTIENT_SCALE == pow2(64));
    lemma_scale_twice(x, shift, 64);
    lemma_scale_twice(x, shift + 64, t);
    lemma_scale_twice(x, a, 1074);
    assert(num == wide * pow2(t));
    if e >= 0 {
        lemma_scale_twice(y, b, e as nat);
        lemma_pow2_pos(t);
        lemma_scaled_bracket(q, y, r, wide, pow2(t));
    } else {
        lemma_scale_twice(wide, t, (-e) as nat);
        lemma_pow2_pos(b);
        lemma_scaled_bracket(q, y, r, wide, pow2(b));
    }
}

impl Binary64 {
    /// The quotient `self / rhs`, correctly rounded.
    pub fn div(self, rhs: Binary64) -> (r: Binary64)
        ensures
            r@ == self@.div(rhs@),
            r.is_canonical(),
    {
        if self.is_nan() || rhs.is_nan() {
            return Binary64::nan();
        }
        let negative: bool = self.is_sign_negative() != rhs.is_sign_negative();
        if self.is_infinite() {
            if rhs.is_infinite() {
                return Binary64::nan();
            }
            return Binary64::signed(negative, INFINITY_BITS);
        }
        if rhs.is_infinite() {
            return Binary64::signed(negative, 0);
        }
        if rhs.is_zero() {
            if self.is_zero() {
                return Binary64::nan();
            }
            return Binary64::signed(negative, INFINITY_BITS);
        }
        let (x, a) = self.unpack();
        let (y, b) = rhs.unpack();
        proof {
            lemma_pow2_pos(b as nat);
            lemma_hidden_bit_is_pow2();
            if y == 0 {
                assert(0 * pow2(b as nat) == 0) by (nonlinear_arith);
            }
            lemma_scale_positive(y as nat, b as nat);
        }
        if x == 0 {
            proof {
                assert(0 * pow2(a as nat) == 0) by (nonlinear_arith);
                assert(0 * pow2(1074) == 0) by (nonlinear_arith);
                lemma_round_zero(negative, y as nat * pow2(b as nat));
            }
            return Binary64::signed(negative, 0);
        }
        // Bring the leading bit of a subnormal dividend up to its place.
        let mut wide: u64 = x;
        let mut shift: i64 = 0;
        proof {
            assert(x * pow2(0) == x) by (nonlinear_arith)
                requires
                    pow2(0) == 1,
            ;
        }
        while wide < HIDDEN_BIT
            invariant
                0 < wide < SIGNIFICAND_LIMIT,
                0 <= shift <= 52,
                wide == x * pow2(shift as nat),
                pow2(shift as nat) <= wide,
                pow2(52) == HIDDEN_BIT,
            decreases SIGNIFICAND_LIMIT - wide,
        {
            proof {
                lemma_scale_double(x as nat, shift as nat);
                lemma_scale_double(1, shift as nat);
                assert(1 * pow2(shift as nat) == pow2(shift as nat)) by (nonlinear_arith);
                assert(1 * pow2((shift + 1) as nat) == pow2((shift + 1) as nat))
                    by (nonlinear_arith);
                if shift >= 52 {
                    lemma_pow2_monotonic(52, shift as nat);
                }
            }
            wide = wide * 2;
            shift = shift + 1;
        }
        let dividend: u128 = (wide as u128) * QUOTIENT_SCALE;
        let q: u128 = dividend / (y as u128);
        let rest: u128 = dividend % (y as u128);
        proof {
            assert(dividend == q * y + rest) by (nonlinear_arith)
                requires
                    q == dividend / (y as u128),
                    rest == dividend % (y as u128),
                    y > 0,
            ;
            // The divisor is below 2^53, so the quotient is above 2^63.
            assert(q >= 0x8000_0000_0000_0000) by (nonlinear_arith)
                requires
                    dividend == q * y + rest,
                    rest < y,
                    y < 0x20_0000_0000_0000,
                    dividend >= 0x10_0000_0000_0000 * 0x1_0000_0000_0000_0000,
            ;
            lemma_quotient_approximates(
                x as nat,
                shift as nat,
                a as nat,
                y as nat,
                b as nat,
                q as nat,
                rest as nat,
            );
        }
        round_pack(
            negative,
            q,
            a - shift + 1010 - b,
            rest != 0,
            Ghost((x as nat * pow2(a as nat)) * pow2(1074)),
            Ghost(y as nat * pow2(b as nat)),
        )
    }
}

} // verus!
