//! The binary64 sum and difference.

use crate::binary64::{lemma_hidden_bit_is_pow2, lemma_pow2_monotonic, Binary64};
use crate::pack::round_pack;
use crate::rounding::{
    approximates, lemma_approximates_exact, lemma_scale_twice, HIDDEN_BIT, SIGNIFICAND_LIMIT,
};
use crate::value::Value;
use vstd::arithmetic::power2::{lemma2_to64, lemma_pow2_adds, lemma_pow2_pos, pow2};
use vstd::bits::{lemma_u64_pow2_no_overflow, lemma_u64_shl_is_mul};
use vstd::prelude::*;

verus! {

/// Two significands at one scale are added and subtracted as integers.
proof fn lemma_common_scale(s: nat, y: nat, p: nat)
    requires
        p > 0,
    ensures
        (s + y) * p == s * p + y * p,
        s >= y ==> (s - y) * p == s * p - y * p,
        s > y ==> s * p > y * p,
        s + y > 0 ==> (s + y) * p > 0,
{
    assert((s + y) * p == s * p + y * p) by (nonlinear_arith);
    if s >= y {
        assert((s - y) * p == s * p - y * p) by (nonlinear_arith);
    }
    if s > y {
        assert(s * p > y * p) by (nonlinear_arith)
            requires
                s > y,
                p > 0,
        ;
    }
    if s + y > 0 {
        assert((s + y) * p > 0) by (nonlinear_arith)
            requires
                s + y > 0,
                p > 0,
        ;
    }
}

/// Where the scales lie 64 or more apart, the smaller term is less than an
/// eighth of the last place of the larger: it only moves the sum off the
/// larger term, to the side of its sign.
proof fn lemma_far_sum(x: nat, a: nat, y: nat, b: nat, same_sign: bool)
    requires
        a >= b + 64,
        HIDDEN_BIT <= x < SIGNIFICAND_LIMIT,
        y < SIGNIFICAND_LIMIT,
    ensures
        y * pow2(b) < x * pow2(a),
        same_sign ==> approximates(
            8 * x,
            a - 3,
            y != 0,
            x * pow2(a) + y * pow2(b),
            1,
        ),
        !same_sign && y != 0 ==> approximates(
            (8 * x - 1) as nat,
            a - 3,
            true,
            (x * pow2(a) - y * pow2(b)) as nat,
            1,
        ),
        !same_sign && y == 0 ==> approximates(
            8 * x,
            a - 3,
            false,
            (x * pow2(a) - y * pow2(b)) as nat,
            1,
        ),
{
    let p = pow2((a - 3) as nat);
    let big = x * pow2(a);
    let small = y * pow2(b);
    lemma2_to64();
    lemma_hidden_bit_is_pow2();
    lemma_pow2_adds(3, (a - 3) as nat);
    lemma_pow2_adds(53, b);
    lemma_pow2_monotonic(53 + b, (a - 3) as nat);
    lemma_pow2_pos((a - 3) as nat);
    lemma_pow2_pos(b);
    let pb = pow2(b);
    assert(pow2(a) == 8 * p);
    assert(big == (8 * x) * p) by (nonlinear_arith)
        requires
            big == x * (8 * p),
    ;
    assert(small < p) by (nonlinear_arith)
        requires
            small == y * pb,
            y < SIGNIFICAND_LIMIT,
            SIGNIFICAND_LIMIT * pb <= p,
            pb > 0,
    ;
    assert(small != 0 <==> y != 0) by (nonlinear_arith)
        requires
            small == y * pb,
            pb > 0,
    ;
    assert((8 * x) * p >= p) by (nonlinear_arith)
        requires
            x >= 1,
            p > 0,
    ;
    assert(1 * p == p) by (nonlinear_arith);
    assert((8 * x + 1) * p == (8 * x) * p + p) by (nonlinear_arith);
    assert((8 * x - 1) * p == (8 * x) * p - p) by (nonlinear_arith);
    assert((8 * x - 1 + 1) * p == (8 * x) * p);
}

/// The sum of two finite numbers given by sign, significand and scale, the
/// first of which has the larger scale.
fn add_finite(na: bool, x: u64, a: i64, nb: bool, y: u64, b: i64) -> (r: Binary64)
    requires
        0 <= b <= a <= 2045,
        x < SIGNIFICAND_LIMIT,
        y < SIGNIFICAND_LIMIT,
        a > 0 ==> x >= HIDDEN_BIT,
    ensures
        r@ == (Value::Finite { negative: na, magnitude: x as nat * pow2(a as nat) }).add(
            Value::Finite { negative: nb, magnitude: y as nat * pow2(b as nat) },
        ),
        !(r@ is Nan),
{
    let d: i64 = a - b;
    let ghost big: nat = x as nat * pow2(a as nat);
    let ghost small: nat = y as nat * pow2(b as nat);
    let ghost pb: nat = pow2(b as nat);
    proof {
        lemma_pow2_pos(b as nat);
    }
    if d <= 63 {
        proof {
            lemma_u64_pow2_no_overflow(d as nat);
            lemma_u64_shl_is_mul(1, d as u64);
            lemma_scale_twice(x as nat, d as nat, b as nat);
            lemma2_to64();
            vstd::arithmetic::power2::lemma2_to64_rest();
            lemma_pow2_monotonic(d as nat, 63);
            assert(x * pow2(d as nat) < 0x20_0000_0000_0000 * 0x8000_0000_0000_0000)
                by (nonlinear_arith)
                requires
                    x < 0x20_0000_0000_0000,
                    pow2(d as nat) <= 0x8000_0000_0000_0000,
            ;
        }
        let factor: u64 = 1u64 << (d as u64);
        let shifted: u128 = (x as u128) * (factor as u128);
        let low: u128 = y as u128;
        proof {
            lemma_common_scale(shifted as nat, low as nat, pb);
            lemma_common_scale(low as nat, shifted as nat, pb);
            assert(big == shifted * pb);
        }
        if na == nb {
            let m: u128 = shifted + low;
            if m == 0 {
                proof {
                    assert(0 * pb == 0) by (nonlinear_arith);
                }
                return Binary64::signed(na, 0);
            }
            proof {
                lemma_approximates_exact(m as nat, b as nat);
            }
            round_pack(na, m, b, false, Ghost(m as nat * pb), Ghost(1))
        } else if shifted > low {
            let m: u128 = shifted - low;
            proof {
                lemma_approximates_exact(m as nat, b as nat);
            }
            round_pack(na, m, b, false, Ghost(m as nat * pb), Ghost(1))
        } else if shifted < low {
            let m: u128 = low - shifted;
            proof {
                lemma_approximates_exact(m as nat, b as nat);
            }
            round_pack(nb, m, b, false, Ghost(m as nat * pb), Ghost(1))
        } else {
            Binary64::zero()
        }
    } else {
        proof {
            lemma_far_sum(x as nat, a as nat, y as nat, b as nat, na == nb);
        }
        let sticky: bool = y != 0;
        if na == nb {
            round_pack(na, 8 * (x as u128), a - 3, sticky, Ghost(big + small), Ghost(1))
        } else if sticky {
            round_pack(na, 8 * (x as u128) - 1, a - 3, true, Ghost((big - small) as nat), Ghost(1))
        } else {
            round_pack(na, 8 * (x as u128), a - 3, false, Ghost((big - small) as nat), Ghost(1))
        }
    }
}

impl Binary64 {
    /// The sum `self + rhs`, correctly rounded.
    pub fn add(self, rhs: Binary64) -> (r: Binary64)
        ensures
            r@ == self@.add(rhs@),
            r.is_canonical(),
    {
        if self.is_nan() || rhs.is_nan() {
            return Binary64::nan();
        }
        let na: bool = self.is_sign_negative();
        let nb: bool = rhs.is_sign_negative();
        if self.is_infinite() {
            if rhs.is_infinite() && na != nb {
                return Binary64::nan();
            }
            return self;
        }
        if rhs.is_infinite() {
            return rhs;
        }
        let (x, a) = self.unpack();
        let (y, b) = rhs.unpack();
        if a >= b {
            add_finite(na, x, a, nb, y, b)
        } else {
            add_finite(nb, y, b, na, x, a)
        }
    }

    /// The difference `self - rhs`, correctly rounded.
    pub fn sub(self, rhs: Binary64) -> (r: Binary64)
        ensures
            r@ == self@.sub(rhs@),
            r.is_canonical(),
    {
        self.add(rhs.neg())
    }
}

} // verus!
