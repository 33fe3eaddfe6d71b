//! The binary64 interchange format: a sign bit, eleven exponent bits and
//! fifty-two fraction bits, read as a `Value`.

use crate::rounding::{lemma_scale_double, HIDDEN_BIT, SIGNIFICAND_LIMIT};
use crate::value::{overflow_threshold, Value};
use vstd::arithmetic::power2::{
    lemma2_to64, lemma2_to64_rest, lemma_pow2_adds, lemma_pow2_pos, lemma_pow2_strictly_increases,
    pow2,
};
use vstd::prelude::*;

verus! {

/// 2^63: the sign bit.
pub const SIGN_BIT: u64 = 0x8000_0000_0000_0000;

/// The pattern of positive infinity: all exponent bits set, no fraction bit.
pub const INFINITY_BITS: u64 = 0x7ff0_0000_0000_0000;

/// The one NaN pattern that this library produces.
pub const NAN_BITS: u64 = 0x7ff8_0000_0000_0000;

/// The exponent field of the infinities and the NaNs.
pub const EXPONENT_LIMIT: u64 = 2047;

/// A binary64 number, held as its 64 bits.
#[derive(Clone, Copy, Debug)]
pub struct Binary64 {
    pub bits: u64,
}

/// Whether the sign bit is set.
pub open spec fn sign_of(bits: u64) -> bool {
    bits >= SIGN_BIT
}

/// The exponent field: the eleven bits under the sign bit.
pub open spec fn exponent_of(bits: u64) -> nat {
    ((bits / HIDDEN_BIT) % 2048) as nat
}

/// The fraction field: the lowest fifty-two bits.
pub open spec fn fraction_of(bits: u64) -> nat {
    (bits % HIDDEN_BIT) as nat
}

/// The significand as an integer: the fraction bits, under a leading one
/// unless the exponent field is zero.
pub open spec fn significand_of(bits: u64) -> nat {
    if exponent_of(bits) == 0 {
        fraction_of(bits)
    } else {
        HIDDEN_BIT as nat + fraction_of(bits)
    }
}

/// The power of two by which the significand counts units of 2^-1074.
pub open spec fn scale_of(bits: u64) -> nat {
    if exponent_of(bits) == 0 {
        0
    } else {
        (exponent_of(bits) - 1) as nat
    }
}

/// The absolute value in units of 2^-1074, as the fields give it. For the
/// bits of an infinity this is 2^1024, the first magnitude out of range.
pub open spec fn magnitude_of(bits: u64) -> nat {
    significand_of(bits) * pow2(scale_of(bits))
}

/// A pattern with all exponent bits set is an infinity where its fraction is
/// zero and a NaN where it is not; every other pattern is finite.
impl View for Binary64 {
    type V = Value;

    open spec fn view(&self) -> Value {
        if exponent_of(self.bits) == EXPONENT_LIMIT {
            if fraction_of(self.bits) == 0 {
                Value::Infinite { negative: sign_of(self.bits) }
            } else {
                Value::Nan
            }
        } else {
            Value::Finite { negative: sign_of(self.bits), magnitude: magnitude_of(self.bits) }
        }
    }
}

/// A larger exponent gives no smaller power of two.
pub proof fn lemma_pow2_monotonic(a: nat, b: nat)
    requires
        a <= b,
    ensures
        pow2(a) <= pow2(b),
{
    if a < b {
        lemma_pow2_strictly_increases(a, b);
    }
}

/// The named limits are the powers of two that they stand for.
pub proof fn lemma_hidden_bit_is_pow2()
    ensures
        pow2(52) == HIDDEN_BIT,
        pow2(53) == SIGNIFICAND_LIMIT,
        pow2(0) == 1,
        pow2(1) == 2,
{
    lemma2_to64();
    lemma2_to64_rest();
}

/// The overflow threshold is the magnitude that the bits of infinity would
/// have if they were read as a finite number.
pub proof fn lemma_overflow_threshold()
    ensures
        overflow_threshold() == HIDDEN_BIT * pow2(2046),
        magnitude_of(INFINITY_BITS) == overflow_threshold(),
{
    lemma_hidden_bit_is_pow2();
    lemma_pow2_adds(52, 2046);
    assert(exponent_of(INFINITY_BITS) == 2047);
    assert(fraction_of(INFINITY_BITS) == 0);
}

/// Without the sign bit, a larger pattern is a larger magnitude.
pub proof fn lemma_magnitude_increases(u: u64, v: u64)
    requires
        u < v < SIGN_BIT,
    ensures
        magnitude_of(u) < magnitude_of(v),
{
    let eu = exponent_of(u);
    let ev = exponent_of(v);
    let fu = fraction_of(u);
    let fv = fraction_of(v);
    let su = scale_of(u);
    let sv = scale_of(v);
    assert(u == eu * HIDDEN_BIT + fu);
    assert(v == ev * HIDDEN_BIT + fv);
    lemma_pow2_pos(su);
    lemma_pow2_pos(sv);
    lemma_hidden_bit_is_pow2();
    if eu == ev {
        let p = pow2(su);
        let a = significand_of(u);
        let b = significand_of(v);
        assert(a * p < b * p) by (nonlinear_arith)
            requires
                a < b,
                p > 0,
        ;
    } else {
        assert(eu < ev);
        let pv = pow2(sv);
        let b = significand_of(v);
        assert(HIDDEN_BIT * pv <= b * pv) by (nonlinear_arith)
            requires
                HIDDEN_BIT <= b,
                pv > 0,
        ;
        if eu == 0 {
            assert(fu * pow2(0) == fu) by (nonlinear_arith)
                requires
                    pow2(0) == 1,
            ;
            assert(HIDDEN_BIT * pv >= HIDDEN_BIT) by (nonlinear_arith)
                requires
                    pv >= 1,
            ;
        } else {
            let pu = pow2(su);
            let a = significand_of(u);
            lemma_scale_double(HIDDEN_BIT as nat, su);
            lemma_pow2_monotonic(su + 1, sv);
            assert(a * pu < (2 * HIDDEN_BIT) * pu) by (nonlinear_arith)
                requires
                    a < 2 * HIDDEN_BIT,
                    pu > 0,
            ;
            assert((2 * HIDDEN_BIT) * pu == 2 * (HIDDEN_BIT * pu)) by (nonlinear_arith);
            assert(HIDDEN_BIT * pow2(su + 1) <= HIDDEN_BIT * pv) by (nonlinear_arith)
                requires
                    pow2(su + 1) <= pv,
            ;
        }
    }
}

/// Reading back a significand `q` that was packed with the exponent of its
/// last place `k`. A significand of exactly 2^53 carries into the exponent,
/// and from the largest exponent it carries into the bits of infinity.
pub proof fn lemma_decode_packed(k: nat, q: nat)
    requires
        k <= 2045,
        q <= SIGNIFICAND_LIMIT,
        k > 0 ==> q >= HIDDEN_BIT,
    ensures
        k * HIDDEN_BIT + q <= INFINITY_BITS,
        magnitude_of((k * HIDDEN_BIT + q) as u64) == q * pow2(k),
        k * HIDDEN_BIT + q == INFINITY_BITS <==> q * pow2(k) >= overflow_threshold(),
{
    let bits = (k * HIDDEN_BIT + q) as u64;
    lemma_hidden_bit_is_pow2();
    lemma_overflow_threshold();
    assert(k * HIDDEN_BIT + q <= INFINITY_BITS);
    if q < HIDDEN_BIT {
        assert(k == 0);
        assert(exponent_of(bits) == 0);
        assert(fraction_of(bits) == q);
    } else if q < SIGNIFICAND_LIMIT {
        assert(bits == (k + 1) * HIDDEN_BIT + (q - HIDDEN_BIT));
        assert(exponent_of(bits) == k + 1);
        assert(fraction_of(bits) == q - HIDDEN_BIT);
    } else {
        assert(bits == (k + 2) * HIDDEN_BIT);
        assert(exponent_of(bits) == k + 2);
        assert(fraction_of(bits) == 0);
        lemma_scale_double(HIDDEN_BIT as nat, k);
        assert(q * pow2(k) == 2 * (HIDDEN_BIT * pow2(k))) by (nonlinear_arith)
            requires
                q == 2 * HIDDEN_BIT,
        ;
    }
    if bits < INFINITY_BITS {
        lemma_magnitude_increases(bits, INFINITY_BITS);
    }
}

impl Binary64 {
    /// No pattern but `NAN_BITS` stands for a NaN. Every result of this
    /// library's arithmetic is canonical, so equal values have equal bits.
    pub open spec fn is_canonical(self) -> bool {
        self@ is Nan ==> self.bits == NAN_BITS
    }

    /// The number with the given bits.
    pub fn from_bits(bits: u64) -> (r: Binary64)
        ensures
            r.bits == bits,
    {
        Binary64 { bits }
    }

    /// The bits of the number.
    pub fn to_bits(self) -> (bits: u64)
        ensures
            bits == self.bits,
    {
        self.bits
    }

    /// Positive zero.
    pub fn zero() -> (r: Binary64)
        ensures
            r@ == Value::zero(false),
            r.bits == 0,
    {
        proof {
            lemma_hidden_bit_is_pow2();
            assert(0 * pow2(0) == 0) by (nonlinear_arith);
        }
        Binary64 { bits: 0 }
    }

    /// Positive infinity.
    pub fn infinity() -> (r: Binary64)
        ensures
            r@ == (Value::Infinite { negative: false }),
            r.bits == INFINITY_BITS,
    {
        Binary64 { bits: INFINITY_BITS }
    }

    /// Negative infinity.
    pub fn neg_infinity() -> (r: Binary64)
        ensures
            r@ == (Value::Infinite { negative: true }),
            r.bits == SIGN_BIT + INFINITY_BITS,
    {
        Binary64 { bits: SIGN_BIT + INFINITY_BITS }
    }

    /// The NaN that this library's arithmetic produces.
    pub fn nan() -> (r: Binary64)
        ensures
            r@ == Value::Nan,
            r.bits == NAN_BITS,
    {
        Binary64 { bits: NAN_BITS }
    }

    /// The exponent field.
    pub fn biased_exponent(self) -> (e: u64)
        ensures
            e == exponent_of(self.bits),
            e <= EXPONENT_LIMIT,
    {
        (self.bits / HIDDEN_BIT) % 2048
    }

    /// The fraction field.
    pub fn fraction(self) -> (f: u64)
        ensures
            f == fraction_of(self.bits),
            f < HIDDEN_BIT,
    {
        self.bits % HIDDEN_BIT
    }

    /// Whether the sign bit is set, as it is for negative zero too.
    pub fn is_sign_negative(self) -> (b: bool)
        ensures
            b == sign_of(self.bits),
            !(self@ is Nan) ==> b == self@.is_negative(),
    {
        self.bits >= SIGN_BIT
    }

    /// Whether this is a NaN.
    pub fn is_nan(self) -> (b: bool)
        ensures
            b == (self@ is Nan),
    {
        self.biased_exponent() == EXPONENT_LIMIT && self.fraction() != 0
    }

    /// Whether this is one of the two infinities.
    pub fn is_infinite(self) -> (b: bool)
        ensures
            b == (self@ is Infinite),
    {
        self.biased_exponent() == EXPONENT_LIMIT && self.fraction() == 0
    }

    /// Whether this is neither an infinity nor a NaN.
    pub fn is_finite(self) -> (b: bool)
        ensures
            b == (self@ is Finite),
    {
        self.biased_exponent() != EXPONENT_LIMIT
    }

    /// The significand and the scale of a finite number.
    pub(crate) fn unpack(self) -> (parts: (u64, i64))
        requires
            self@ is Finite,
        ensures
            parts.0 == significand_of(self.bits),
            parts.1 == scale_of(self.bits),
            parts.0 < SIGNIFICAND_LIMIT,
            0 <= parts.1 <= 2045,
            parts.1 > 0 ==> parts.0 >= HIDDEN_BIT,
            self@ == (Value::Finite {
                negative: self.bits >= SIGN_BIT,
                magnitude: parts.0 as nat * pow2(parts.1 as nat),
            }),
    {
        let e: u64 = self.biased_exponent();
        let f: u64 = self.fraction();
        if e == 0 {
            (f, 0)
        } else {
            (HIDDEN_BIT + f, (e - 1) as i64)
        }
    }

    /// A zero or an infinity with the given sign.
    pub(crate) fn signed(negative: bool, low: u64) -> (r: Binary64)
        requires
            low == 0 || low == INFINITY_BITS,
        ensures
            low == 0 ==> r@ == Value::zero(negative),
            low == INFINITY_BITS ==> r@ == (Value::Infinite { negative }),
    {
        let sign: u64 = if negative {
            SIGN_BIT
        } else {
            0
        };
        proof {
            lemma_strip_sign((sign + low) as u64);
            assert(magnitude_of(0) == 0) by {
                assert(0 * pow2(0) == 0) by (nonlinear_arith);
            }
        }
        Binary64 { bits: sign + low }
    }

    /// Whether this is one of the two zeros.
    pub fn is_zero(self) -> (b: bool)
        ensures
            b == self@.is_zero(),
    {
        proof {
            lemma_strip_sign(self.bits);
            let low = (self.bits % SIGN_BIT) as u64;
            if low != 0 && exponent_of(self.bits) != EXPONENT_LIMIT {
                lemma_magnitude_increases(0, low);
            }
            assert(magnitude_of(0) == 0) by {
                assert(0 * pow2(0) == 0) by (nonlinear_arith);
            }
        }
        self.bits % SIGN_BIT == 0
    }

    /// The number with its sign bit flipped.
    pub fn neg(self) -> (r: Binary64)
        ensures
            r@ == self@.neg(),
            r.bits == if self.bits >= SIGN_BIT {
                self.bits - SIGN_BIT
            } else {
                self.bits + SIGN_BIT
            },
    {
        if self.bits >= SIGN_BIT {
            Binary64 { bits: self.bits - SIGN_BIT }
        } else {
            Binary64 { bits: self.bits + SIGN_BIT }
        }
    }

    /// `self < other`; false whenever a NaN is involved.
    pub fn lt(self, other: Binary64) -> (b: bool)
        ensures
            b == self@.lt(other@),
    {
        if self.is_nan() || other.is_nan() {
            return false;
        }
        let a: u64 = self.bits % SIGN_BIT;
        let b: u64 = other.bits % SIGN_BIT;
        proof {
            lemma_order_key(self);
            lemma_order_key(other);
            lemma_magnitude_order(a, b);
            lemma_magnitude_order(0, a);
            lemma_magnitude_order(0, b);
        }
        if self.bits >= SIGN_BIT {
            if other.bits >= SIGN_BIT {
                b < a
            } else {
                a != 0 || b != 0
            }
        } else {
            if other.bits >= SIGN_BIT {
                false
            } else {
                a < b
            }
        }
    }

    /// `self > other`; false whenever a NaN is involved.
    pub fn gt(self, other: Binary64) -> (b: bool)
        ensures
            b == other@.lt(self@),
    {
        other.lt(self)
    }
}

/// Without the sign bit, patterns are ordered as their magnitudes are.
pub proof fn lemma_magnitude_order(u: u64, v: u64)
    requires
        u < SIGN_BIT,
        v < SIGN_BIT,
    ensures
        u < v <==> magnitude_of(u) < magnitude_of(v),
        u == v <==> magnitude_of(u) == magnitude_of(v),
        magnitude_of(0) == 0,
{
    if u < v {
        lemma_magnitude_increases(u, v);
    }
    if v < u {
        lemma_magnitude_increases(v, u);
    }
    lemma_hidden_bit_is_pow2();
    assert(0 * pow2(0) == 0) by (nonlinear_arith);
}

/// The place of a number in the order, read off its bits: an infinity
/// stands where its bits would as a finite number.
pub proof fn lemma_order_key(x: Binary64)
    requires
        !(x@ is Nan),
    ensures
        x.bits % SIGN_BIT <= INFINITY_BITS,
        x@.order_key() == if sign_of(x.bits) {
            -(magnitude_of((x.bits % SIGN_BIT) as u64) as int)
        } else {
            magnitude_of((x.bits % SIGN_BIT) as u64) as int
        },
{
    lemma_strip_sign(x.bits);
    lemma_overflow_threshold();
    let low = (x.bits % SIGN_BIT) as u64;
    if x@ is Infinite {
        assert(low == INFINITY_BITS);
    }
}

/// The fields of a pattern do not depend on its sign bit.
pub proof fn lemma_strip_sign(bits: u64)
    ensures
        bits % SIGN_BIT < SIGN_BIT,
        bits == bits % SIGN_BIT + if sign_of(bits) { SIGN_BIT as int } else { 0 },
        exponent_of((bits % SIGN_BIT) as u64) == exponent_of(bits),
        fraction_of((bits % SIGN_BIT) as u64) == fraction_of(bits),
        magnitude_of((bits % SIGN_BIT) as u64) == magnitude_of(bits),
{
}

/// A value that is no NaN has one bit pattern only.
pub proof fn lemma_view_determines_bits(a: Binary64, b: Binary64)
    requires
        a@ == b@,
        a.is_canonical(),
        b.is_canonical(),
    ensures
        a.bits == b.bits,
{
    if !(a@ is Nan) {
        let u: u64 = a.bits % SIGN_BIT;
        let v: u64 = b.bits % SIGN_BIT;
        lemma_strip_sign(a.bits);
        lemma_strip_sign(b.bits);
        assert(sign_of(a.bits) == sign_of(b.bits));
        if a@ is Infinite {
            assert(u == INFINITY_BITS);
            assert(v == INFINITY_BITS);
        } else {
            assert(magnitude_of(u) == magnitude_of(v));
            if u < v {
                lemma_magnitude_increases(u, v);
            }
            if v < u {
                lemma_magnitude_increases(v, u);
            }
        }
        assert(u == v);
    }
}

} // verus!
