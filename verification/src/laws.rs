//! What holds of every fit.

use crate::binary64::{
    lemma_magnitude_order, lemma_order_key, lemma_overflow_threshold, lemma_strip_sign,
    lemma_view_determines_bits, Binary64, INFINITY_BITS, SIGN_BIT,
};
use crate::bounds::{axis_wf, lower, maximum, minimum, upper, AxisBounds, NEG_INFINITY_BITS};
use crate::regression::{
    gradient_of, intercept_of, mean_of, prediction_of, variance_sum, RegressorResult,
};
use crate::value::{overflow_threshold, Value};
use vstd::arithmetic::power2::lemma_pow2_pos;
use vstd::prelude::*;

verus! {

/// Only the bits of positive infinity stand at or above every finite number,
/// and only those of negative infinity at or below.
pub proof fn lemma_infinity_is_outermost(x: Binary64)
    requires
        !(x@ is Nan),
    ensures
        !(x@.lt((Binary64 { bits: INFINITY_BITS })@)) ==> x.bits == INFINITY_BITS,
        !((Binary64 { bits: NEG_INFINITY_BITS })@.lt(x@)) ==> x.bits == NEG_INFINITY_BITS,
        (Binary64 { bits: INFINITY_BITS })@ == (Value::Infinite { negative: false }),
        (Binary64 { bits: NEG_INFINITY_BITS })@ == (Value::Infinite { negative: true }),
{
    let low = (x.bits % SIGN_BIT) as u64;
    lemma_strip_sign(x.bits);
    lemma_overflow_threshold();
    lemma_pow2_pos(2098);
    lemma_order_key(x);
    lemma_magnitude_order(low, INFINITY_BITS);
    assert((Binary64 { bits: INFINITY_BITS })@.order_key() == overflow_threshold());
    assert((Binary64 { bits: NEG_INFINITY_BITS })@.order_key() == -overflow_threshold());
}

/// The least number of a sequence is not above any of its numbers, and it is
/// one of them unless they are all NaNs.
pub proof fn lemma_minimum_is_least(s: Seq<Binary64>)
    ensures
        !(minimum(s)@ is Nan),
        forall|i: int| 0 <= i < s.len() ==> !(#[trigger] s[i])@.lt(minimum(s)@),
        (forall|i: int| 0 <= i < s.len() ==> (#[trigger] s[i])@ is Nan) ==> minimum(s).bits
            == INFINITY_BITS,
        (exists|i: int| 0 <= i < s.len() && !((#[trigger] s[i])@ is Nan)) ==> exists|j: int|
            0 <= j < s.len() && #[trigger] s[j] == minimum(s),
    decreases s.len(),
{
    lemma_infinity_is_outermost(Binary64 { bits: 0 });
    if s.len() > 0 {
        let front = s.drop_last();
        let last = s.last();
        lemma_minimum_is_least(front);
        assert forall|i: int| 0 <= i < s.len() implies !(#[trigger] s[i])@.lt(minimum(s)@) by {
            if i < front.len() {
                assert(s[i] == front[i]);
            }
        }
        if exists|i: int| 0 <= i < s.len() && !((#[trigger] s[i])@ is Nan) {
            let i = choose|i: int| 0 <= i < s.len() && !((#[trigger] s[i])@ is Nan);
            if last@.lt(minimum(front)@) {
                assert(s[s.len() - 1] == minimum(s));
            } else if i < front.len() {
                assert(!(front[i]@ is Nan));
                let j = choose|j: int| 0 <= j < front.len() && #[trigger] front[j] == minimum(front);
                assert(s[j] == minimum(s));
            } else {
                if forall|k: int| 0 <= k < front.len() ==> (#[trigger] front[k])@ is Nan {
                    lemma_infinity_is_outermost(last);
                    assert(s[s.len() - 1] == minimum(s));
                } else {
                    let j = choose|j: int|
                        0 <= j < front.len() && #[trigger] front[j] == minimum(front);
                    assert(s[j] == minimum(s));
                }
            }
        } else {
            assert forall|k: int| 0 <= k < front.len() implies (#[trigger] front[k])@ is Nan by {
                assert(s[k] == front[k]);
            }
        }
    }
}

/// The greatest number of a sequence is not below any of its numbers, and it
/// is one of them unless they are all NaNs.
pub proof fn lemma_maximum_is_greatest(s: Seq<Binary64>)
    ensures
        !(maximum(s)@ is Nan),
        forall|i: int| 0 <= i < s.len() ==> !maximum(s)@.lt((#[trigger] s[i])@),
        (forall|i: int| 0 <= i < s.len() ==> (#[trigger] s[i])@ is Nan) ==> maximum(s).bits
            == NEG_INFINITY_BITS,
        (exists|i: int| 0 <= i < s.len() && !((#[trigger] s[i])@ is Nan)) ==> exists|j: int|
            0 <= j < s.len() && #[trigger] s[j] == maximum(s),
    decreases s.len(),
{
    lemma_infinity_is_outermost(Binary64 { bits: 0 });
    if s.len() > 0 {
        let front = s.drop_last();
        let last = s.last();
        lemma_maximum_is_greatest(front);
        assert forall|i: int| 0 <= i < s.len() implies !maximum(s)@.lt((#[trigger] s[i])@) by {
            if i < front.len() {
                assert(s[i] == front[i]);
            }
        }
        if exists|i: int| 0 <= i < s.len() && !((#[trigger] s[i])@ is Nan) {
            let i = choose|i: int| 0 <= i < s.len() && !((#[trigger] s[i])@ is Nan);
            if maximum(front)@.lt(last@) {
                assert(s[s.len() - 1] == maximum(s));
            } else if i < front.len() {
                assert(!(front[i]@ is Nan));
                let j = choose|j: int| 0 <= j < front.len() && #[trigger] front[j] == maximum(front);
                assert(s[j] == maximum(s));
            } else {
                if forall|k: int| 0 <= k < front.len() ==> (#[trigger] front[k])@ is Nan {
                    lemma_infinity_is_outermost(last);
                    assert(s[s.len() - 1] == maximum(s));
                } else {
                    let j = choose|j: int|
                        0 <= j < front.len() && #[trigger] front[j] == maximum(front);
                    assert(s[j] == maximum(s));
                }
            }
        } else {
            assert forall|k: int| 0 <= k < front.len() implies (#[trigger] front[k])@ is Nan by {
                assert(s[k] == front[k]);
            }
        }
    }
}

/// On each axis the bounds of a fit are the least and the greatest
/// coordinate of the samples on that axis, whatever the other axis holds:
/// no coordinate lies outside them, and each bound is one of the
/// coordinates unless all of them are NaNs.
pub proof fn lemma_bounds_are_extremes(result: RegressorResult, xs: Seq<Binary64>, ys: Seq<Binary64>)
    requires
        result.is_fit_of(xs, ys),
    ensures
        result.axis_bounds().mins.x == minimum(xs),
        result.axis_bounds().maxs.x == maximum(xs),
        result.axis_bounds().mins.y == minimum(ys),
        result.axis_bounds().maxs.y == maximum(ys),
        forall|i: int|
            0 <= i < xs.len() ==> !(#[trigger] xs[i])@.lt(result.axis_bounds().mins.x@)
                && !result.axis_bounds().maxs.x@.lt(xs[i]@),
        forall|i: int|
            0 <= i < ys.len() ==> !(#[trigger] ys[i])@.lt(result.axis_bounds().mins.y@)
                && !result.axis_bounds().maxs.y@.lt(ys[i]@),
        (exists|i: int| 0 <= i < xs.len() && !((#[trigger] xs[i])@ is Nan)) ==> {
            &&& exists|j: int| 0 <= j < xs.len() && #[trigger] xs[j] == result.axis_bounds().mins.x
            &&& exists|j: int| 0 <= j < xs.len() && #[trigger] xs[j] == result.axis_bounds().maxs.x
        },
        (exists|i: int| 0 <= i < ys.len() && !((#[trigger] ys[i])@ is Nan)) ==> {
            &&& exists|j: int| 0 <= j < ys.len() && #[trigger] ys[j] == result.axis_bounds().mins.y
            &&& exists|j: int| 0 <= j < ys.len() && #[trigger] ys[j] == result.axis_bounds().maxs.y
        },
{
    lemma_minimum_is_least(xs);
    lemma_maximum_is_greatest(xs);
    lemma_minimum_is_least(ys);
    lemma_maximum_is_greatest(ys);
}

/// The bounds of any samples are well formed: on each axis either nothing
/// but NaNs was seen, or the lower bound is not above the upper one.
pub proof fn lemma_bounds_are_well_formed(xs: Seq<Binary64>, ys: Seq<Binary64>)
    ensures
        AxisBounds::of(xs, ys).wf(),
{
    lemma_axis_is_well_formed(xs);
    lemma_axis_is_well_formed(ys);
}

proof fn lemma_axis_is_well_formed(s: Seq<Binary64>)
    ensures
        axis_wf(minimum(s), maximum(s)),
    decreases s.len(),
{
    lemma_infinity_is_outermost(Binary64 { bits: 0 });
    if s.len() > 0 {
        lemma_axis_is_well_formed(s.drop_last());
    }
}

/// Two fits of the same samples agree bit for bit, in every prediction and
/// in the bounds.
pub proof fn lemma_fit_is_deterministic(
    first: RegressorResult,
    second: RegressorResult,
    xs: Seq<Binary64>,
    ys: Seq<Binary64>,
)
    requires
        first.is_fit_of(xs, ys),
        second.is_fit_of(xs, ys),
    ensures
        first.predictions() == second.predictions(),
        first.axis_bounds() == second.axis_bounds(),
{
    assert forall|i: int| 0 <= i < xs.len() implies first.predictions()[i]
        == second.predictions()[i] by {
        lemma_view_determines_bits(first.predictions()[i], second.predictions()[i]);
    }
    assert(first.predictions() =~= second.predictions());
}

/// Where the `x` coordinates do not vary about their mean, the variance sum
/// is zero and nothing that is fitted is finite: not the slope, not the
/// height, and no prediction.
pub proof fn lemma_degenerate_fit_is_not_finite(xs: Seq<Binary64>, ys: Seq<Binary64>, x: Value)
    requires
        variance_sum(xs, mean_of(xs)).is_zero(),
    ensures
        !(gradient_of(xs, ys) is Finite),
        !(intercept_of(xs, ys) is Finite),
        !(prediction_of(xs, ys, x) is Finite),
{
}

} // verus!
