//! The mathematical values that a binary64 bit pattern can stand for.

use crate::rounding::round_nearest_even;
use vstd::arithmetic::power2::pow2;
use vstd::prelude::*;

verus! {

/// What a binary64 number denotes.
///
/// A finite number is `magnitude` units of 2^-1074 (the smallest positive
/// binary64 number), negated when `negative` holds. Every finite binary64
/// number is a whole number of such units, so no fractions are needed. The
/// two zeros differ in `negative` only.
pub enum Value {
    Nan,
    Infinite { negative: bool },
    Finite { negative: bool, magnitude: nat },
}

/// The first magnitude that is too large for a finite binary64 number:
/// 2^1024, counted in units of 2^-1074.
pub open spec fn overflow_threshold() -> nat {
    pow2(2098)
}

impl Value {
    /// The zero with the given sign.
    pub open spec fn zero(negative: bool) -> Value {
        Value::Finite { negative, magnitude: 0 }
    }

    /// Whether this is one of the two zeros.
    pub open spec fn is_zero(self) -> bool {
        self matches Value::Finite { magnitude, .. } && magnitude == 0
    }

    /// The sign of an infinity or a finite number; a NaN has none.
    pub open spec fn is_negative(self) -> bool {
        match self {
            Value::Nan => false,
            Value::Infinite { negative } => negative,
            Value::Finite { negative, .. } => negative,
        }
    }

    /// The number in units of 2^-1074, with its sign. Both infinities lie
    /// outside every finite number; a NaN has no place in the order.
    pub open spec fn order_key(self) -> int {
        match self {
            Value::Nan => 0,
            Value::Infinite { negative } => if negative {
                -(overflow_threshold() as int)
            } else {
                overflow_threshold() as int
            },
            Value::Finite { negative, magnitude } => if negative {
                -(magnitude as int)
            } else {
                magnitude as int
            },
        }
    }

    /// `self < other` as binary64 compares: false when either is a NaN, and
    /// the two zeros are equal.
    pub open spec fn lt(self, other: Value) -> bool {
        !(self is Nan) && !(other is Nan) && self.order_key() < other.order_key()
    }

    /// The number with the opposite sign.
    pub open spec fn neg(self) -> Value {
        match self {
            Value::Nan => Value::Nan,
            Value::Infinite { negative } => Value::Infinite { negative: !negative },
            Value::Finite { negative, magnitude } => Value::Finite { negative: !negative, magnitude },
        }
    }

    /// The binary64 sum. Infinities of opposite sign have none. An exact sum
    /// of zero is positive unless both terms are negative. Every other sum
    /// of finite terms is the exact one, rounded.
    pub open spec fn add(self, other: Value) -> Value {
        match (self, other) {
            (Value::Nan, _) => Value::Nan,
            (_, Value::Nan) => Value::Nan,
            (Value::Infinite { negative: a }, Value::Infinite { negative: b }) => if a == b {
                self
            } else {
                Value::Nan
            },
            (Value::Infinite { .. }, Value::Finite { .. }) => self,
            (Value::Finite { .. }, Value::Infinite { .. }) => other,
            (Value::Finite { negative: a, .. }, Value::Finite { negative: b, .. }) => {
                let sum = self.order_key() + other.order_key();
                if sum == 0 {
                    Value::zero(a && b)
                } else if sum < 0 {
                    round_nearest_even(true, (-sum) as nat, 1)
                } else {
                    round_nearest_even(false, sum as nat, 1)
                }
            },
        }
    }

    /// The binary64 difference: the sum with `other` negated.
    pub open spec fn sub(self, other: Value) -> Value {
        self.add(other.neg())
    }

    /// The binary64 product. Zero times infinity has none. The sign is
    /// negative when exactly one factor is; a product of finite factors is
    /// the exact one, rounded.
    pub open spec fn mul(self, other: Value) -> Value {
        match (self, other) {
            (Value::Nan, _) => Value::Nan,
            (_, Value::Nan) => Value::Nan,
            (Value::Infinite { negative: a }, Value::Infinite { negative: b }) => Value::Infinite {
                negative: a != b,
            },
            (Value::Infinite { negative: a }, Value::Finite { negative: b, magnitude }) => {
                if magnitude == 0 {
                    Value::Nan
                } else {
                    Value::Infinite { negative: a != b }
                }
            },
            (Value::Finite { negative: a, magnitude }, Value::Infinite { negative: b }) => {
                if magnitude == 0 {
                    Value::Nan
                } else {
                    Value::Infinite { negative: a != b }
                }
            },
            (
                Value::Finite { negative: a, magnitude: x },
                Value::Finite { negative: b, magnitude: y },
            ) => round_nearest_even(a != b, x * y, pow2(1074)),
        }
    }

    /// The binary64 quotient. Zero by zero and infinity by infinity have
    /// none; another finite number by zero is an infinity. The sign is
    /// negative when exactly one of the two is; a quotient of finite
    /// numbers is the exact one, rounded.
    pub open spec fn div(self, other: Value) -> Value {
        match (self, other) {
            (Value::Nan, _) => Value::Nan,
            (_, Value::Nan) => Value::Nan,
            (Value::Infinite { .. }, Value::Infinite { .. }) => Value::Nan,
            (Value::Infinite { negative: a }, Value::Finite { negative: b, .. }) => Value::Infinite {
                negative: a != b,
            },
            (Value::Finite { negative: a, .. }, Value::Infinite { negative: b }) => Value::zero(
                a != b,
            ),
            (
                Value::Finite { negative: a, magnitude: x },
                Value::Finite { negative: b, magnitude: y },
            ) => {
                if y == 0 {
                    if x == 0 {
                        Value::Nan
                    } else {
                        Value::Infinite { negative: a != b }
                    }
                } else {
                    round_nearest_even(a != b, x * pow2(1074), y)
                }
            },
        }
    }

    /// The binary64 number nearest to the count `n`.
    pub open spec fn from_nat(n: nat) -> Value {
        round_nearest_even(false, n * pow2(1074), 1)
    }
}

/// The sum does not depend on the order of its terms.
pub proof fn lemma_add_commutes(a: Value, b: Value)
    ensures
        a.add(b) == b.add(a),
{
}

/// The product does not depend on the order of its factors.
pub proof fn lemma_mul_commutes(a: Value, b: Value)
    ensures
        a.mul(b) == b.mul(a),
{
    if let Value::Finite { magnitude: x, .. } = a {
        if let Value::Finite { magnitude: y, .. } = b {
            assert(x * y == y * x) by (nonlinear_arith);
        }
    }
}

} // verus!
