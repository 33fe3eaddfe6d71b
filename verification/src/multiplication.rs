//! The binary64 product.

use crate::binary64::{Binary64, INFINITY_BITS};
use crate::pack::round_pack;
use crate::rounding::{approximates, lemma_scale_twice, lemma_scaled_product};
use vstd::arithmetic::power2::{lemma_pow2_adds, lemma_pow2_pos, pow2};
use vstd::prelude::*;

verus! {

/// The product of two significands, with the sum of their scales lowered by
/// 1074, is the exact product of the two magnitudes in units of 2^-1074.
proof fn lemma_product_approximates(x: nat, a: nat, y: nat, b: nat)
    ensures
        approximates(
            x * y,
            a + b - 1074,
            false,
            (x * pow2(a)) * (y * pow2(b)),
            pow2(1074),
        ),
{
    let e = a + b - 1074;
    let num = (x * pow2(a)) * (y * pow2(b));
    let den = pow2(1074);
    let m = x * y;
    lemma_scaled_product(x, a, y, b);
    lemma_pow2_pos(1074);
    if e >= 0 {
        lemma_pow2_adds(1074, e as nat);
        lemma_pow2_pos((a + b) as nat);
        let d = den * pow2(e as nat);
        assert(d == pow2(a + b));
        assert((m + 1) * d == m * d + d) by (nonlinear_arith);
    } else {
        lemma_scale_twice(m, a + b, (-e) as nat);
        assert((m + 1) * den == m * den + den) by (nonlinear_arith);
    }
}

impl Binary64 {
    /// The product `self * rhs`, correctly rounded.
    pub fn mul(self, rhs: Binary64) -> (r: Binary64)
        ensures
            r@ == self@.mul(rhs@),
            r.is_canonical(),
    {
        if self.is_nan() || rhs.is_nan() {
            return Binary64::nan();
        }
        let negative: bool = self.is_sign_negative() != rhs.is_sign_negative();
        if self.is_infinite() || rhs.is_infinite() {
            if self.is_zero() || rhs.is_zero() {
                return Binary64::nan();
            }
            return Binary64::signed(negative, INFINITY_BITS);
        }
        let (x, a) = self.unpack();
        let (y, b) = rhs.unpack();
        proof {
            lemma_product_approximates(x as nat, a as nat, y as nat, b as nat);
            lemma_pow2_pos(1074);
            assert(x * y < 0x400_0000_0000_0000_0000_0000_0000) by (nonlinear_arith)
                requires
                    x < 0x20_0000_0000_0000,
                    y < 0x20_0000_0000_0000,
            ;
        }
        let product: u128 = (x as u128) * (y as u128);
        round_pack(
            negative,
            product,
            a + b - 1074,
            false,
            Ghost((x as nat * pow2(a as nat)) * (y as nat * pow2(b as nat))),
            Ghost(pow2(1074)),
        )
    }
}

} // verus!
