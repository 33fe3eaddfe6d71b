//! From counts to binary64 numbers.

use crate::binary64::Binary64;
use crate::pack::round_pack;
use crate::rounding::lemma_approximates_exact;
use crate::value::Value;
use vstd::arithmetic::power2::pow2;
use vstd::prelude::*;

verus! {

impl Binary64 {
    /// The binary64 number nearest to `n`; exact up to 2^53.
    pub fn from_usize(n: usize) -> (r: Binary64)
        ensures
            r@ == Value::from_nat(n as nat),
            r.is_canonical(),
    {
        proof {
            lemma_approximates_exact(n as nat, 1074);
        }
        round_pack(false, n as u128, 1074, false, Ghost(n as nat * pow2(1074)), Ghost(1))
    }
}

} // verus!
