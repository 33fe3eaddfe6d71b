//! The least-squares line through a list of samples, its value at each
//! sample, and the box that holds the samples.

use crate::binary64::Binary64;
use crate::bounds::{lemma_bounds_of_push, AxisBounds};
use crate::value::Value;
use vstd::prelude::*;

verus! {

/// Why no line was fitted.
#[derive(Clone, Copy, Debug, PartialEq, Eq)]
pub enum FitError {
    /// There are not as many `y` coordinates as `x` coordinates.
    LengthMismatch,
    /// There is no sample at all.
    EmptyInput,
}

/// The sum of a sequence, taken from the left, starting from zero.
pub open spec fn sum_of(s: Seq<Binary64>) -> Value
    decreases s.len(),
{
    if s.len() == 0 {
        Value::zero(false)
    } else {
        sum_of(s.drop_last()).add(s.last()@)
    }
}

/// The sum of a sequence over the number of its elements.
pub open spec fn mean_of(s: Seq<Binary64>) -> Value {
    sum_of(s).div(Value::from_nat(s.len()))
}

/// The sum, taken from the left, of the products of each sample's distances
/// from the two means.
pub open spec fn covariance_sum(
    xs: Seq<Binary64>,
    ys: Seq<Binary64>,
    x_mean: Value,
    y_mean: Value,
) -> Value
    decreases xs.len(),
{
    if xs.len() == 0 {
        Value::zero(false)
    } else {
        covariance_sum(xs.drop_last(), ys.drop_last(), x_mean, y_mean).add(
            xs.last()@.sub(x_mean).mul(ys.last()@.sub(y_mean)),
        )
    }
}

/// The sum, taken from the left, of the squares of each `x` coordinate's
/// distance from the mean.
pub open spec fn variance_sum(xs: Seq<Binary64>, x_mean: Value) -> Value
    decreases xs.len(),
{
    if xs.len() == 0 {
        Value::zero(false)
    } else {
        variance_sum(xs.drop_last(), x_mean).add(
            xs.last()@.sub(x_mean).mul(xs.last()@.sub(x_mean)),
        )
    }
}

/// The slope of the least-squares line: the covariance sum over the
/// variance sum. Where all `x` coordinates agree with their mean the
/// variance sum is zero and the slope is an infinity or a NaN.
pub open spec fn gradient_of(xs: Seq<Binary64>, ys: Seq<Binary64>) -> Value {
    covariance_sum(xs, ys, mean_of(xs), mean_of(ys)).div(variance_sum(xs, mean_of(xs)))
}

/// The height of the least-squares line above `x = 0`.
pub open spec fn intercept_of(xs: Seq<Binary64>, ys: Seq<Binary64>) -> Value {
    mean_of(ys).sub(gradient_of(xs, ys).mul(mean_of(xs)))
}

/// The height of the least-squares line above `x`.
pub open spec fn prediction_of(xs: Seq<Binary64>, ys: Seq<Binary64>, x: Value) -> Value {
    gradient_of(xs, ys).mul(x).add(intercept_of(xs, ys))
}

/// A line, given by its slope and its height above `x = 0`.
#[derive(Clone, Copy, Debug)]
pub struct Line {
    pub gradient: Binary64,
    pub intercept: Binary64,
}

impl Line {
    /// This is the least-squares line through the samples `(xs[i], ys[i])`.
    pub open spec fn fits(self, xs: Seq<Binary64>, ys: Seq<Binary64>) -> bool {
        &&& self.gradient@ == gradient_of(xs, ys)
        &&& self.intercept@ == intercept_of(xs, ys)
        &&& self.gradient.is_canonical()
        &&& self.intercept.is_canonical()
    }

    /// The height of the line above `x`.
    pub fn predict(&self, x: Binary64) -> (p: Binary64)
        ensures
            p@ == self.gradient@.mul(x@).add(self.intercept@),
            p.is_canonical(),
    {
        self.gradient.mul(x).add(self.intercept)
    }
}

/// The sum of `values`, taken from the left.
pub fn sum(values: &Vec<Binary64>) -> (total: Binary64)
    ensures
        total@ == sum_of(values@),
        total.is_canonical(),
{
    let mut total: Binary64 = Binary64::zero();
    let mut i: usize = 0;
    while i < values.len()
        invariant
            i <= values.len(),
            total@ == sum_of(values@.take(i as int)),
            total.is_canonical(),
        decreases values.len() - i,
    {
        proof {
            assert(values@.take(i + 1).drop_last() == values@.take(i as int));
        }
        total = total.add(values[i]);
        i = i + 1;
    }
    proof {
        assert(values@.take(i as int) == values@);
    }
    total
}

/// The mean of `values`; a NaN where there are none.
pub fn mean(values: &Vec<Binary64>) -> (m: Binary64)
    ensures
        m@ == mean_of(values@),
        m.is_canonical(),
{
    sum(values).div(Binary64::from_usize(values.len()))
}

/// The least-squares line through as many samples as `xs` holds.
fn fit(xs: &Vec<Binary64>, ys: &Vec<Binary64>) -> (line: Line)
    requires
        xs.len() == ys.len(),
    ensures
        line.fits(xs@, ys@),
{
    let x_mean: Binary64 = mean(xs);
    let y_mean: Binary64 = mean(ys);
    let mut covariance: Binary64 = Binary64::zero();
    let mut variance: Binary64 = Binary64::zero();
    let mut i: usize = 0;
    while i < xs.len()
        invariant
            xs.len() == ys.len(),
            i <= xs.len(),
            covariance@ == covariance_sum(
                xs@.take(i as int),
                ys@.take(i as int),
                x_mean@,
                y_mean@,
            ),
            variance@ == variance_sum(xs@.take(i as int), x_mean@),
            covariance.is_canonical(),
            variance.is_canonical(),
        decreases xs.len() - i,
    {
        proof {
            assert(xs@.take(i + 1).drop_last() == xs@.take(i as int));
            assert(ys@.take(i + 1).drop_last() == ys@.take(i as int));
        }
        let x_distance: Binary64 = xs[i].sub(x_mean);
        covariance = covariance.add(x_distance.mul(ys[i].sub(y_mean)));
        variance = variance.add(x_distance.mul(x_distance));
        i = i + 1;
    }
    proof {
        assert(xs@.take(i as int) == xs@);
        assert(ys@.take(i as int) == ys@);
    }
    let gradient: Binary64 = covariance.div(variance);
    let intercept: Binary64 = y_mean.sub(gradient.mul(x_mean));
    Line { gradient, intercept }
}

/// The least-squares line through the samples `(xs[i], ys[i])`.
///
/// Where the `x` coordinates do not vary, the line is returned all the same:
/// its slope and its height are then infinities or NaNs.
pub fn fit_line(xs: &Vec<Binary64>, ys: &Vec<Binary64>) -> (res: Result<Line, FitError>)
    ensures
        match res {
            Err(FitError::LengthMismatch) => xs.len() != ys.len(),
            Err(FitError::EmptyInput) => xs.len() == 0 && ys.len() == 0,
            Ok(line) => xs.len() == ys.len() && xs.len() > 0 && line.fits(xs@, ys@),
        },
{
    if xs.len() != ys.len() {
        return Err(FitError::LengthMismatch);
    }
    if xs.len() == 0 {
        return Err(FitError::EmptyInput);
    }
    Ok(fit(xs, ys))
}

/// What a fit hands back: the line's height above each sample's `x`, in the
/// order of the samples, and the bounds of the samples.
#[derive(Clone, Debug)]
pub struct RegressorResult {
    predictions: Vec<Binary64>,
    axis_bounds: AxisBounds,
}

impl RegressorResult {
    /// The predictions, in the order of the samples.
    pub closed spec fn predictions(&self) -> Seq<Binary64> {
        self.predictions@
    }

    /// The bounds of the samples.
    pub closed spec fn axis_bounds(&self) -> AxisBounds {
        self.axis_bounds
    }

    /// This is the result of fitting the samples `(xs[i], ys[i])`.
    pub open spec fn is_fit_of(&self, xs: Seq<Binary64>, ys: Seq<Binary64>) -> bool {
        &&& self.predictions().len() == xs.len()
        &&& forall|i: int|
            0 <= i < xs.len() ==> {
                &&& (#[trigger] self.predictions()[i])@ == prediction_of(xs, ys, xs[i]@)
                &&& self.predictions()[i].is_canonical()
            }
        &&& self.axis_bounds() == AxisBounds::of(xs, ys)
    }

    /// Hands the predictions over.
    pub fn get_predictions(self) -> (predictions: Vec<Binary64>)
        ensures
            predictions@ == self.predictions(),
    {
        self.predictions
    }

    /// Hands the bounds over.
    pub fn get_axis_bounds(self) -> (bounds: AxisBounds)
        ensures
            bounds == self.axis_bounds(),
    {
        self.axis_bounds
    }
}

/// Fits the least-squares line through the samples `(x_samples[i],
/// y_samples[i])` and evaluates it at each sample.
///
/// Lists of different lengths and an empty list are refused. Where the `x`
/// coordinates do not vary the fit succeeds and no prediction is finite.
pub fn linear_regressor(x_samples: Vec<Binary64>, y_samples: Vec<Binary64>) -> (res: Result<
    RegressorResult,
    FitError,
>)
    ensures
        match res {
            Err(FitError::LengthMismatch) => x_samples.len() != y_samples.len(),
            Err(FitError::EmptyInput) => x_samples.len() == 0 && y_samples.len() == 0,
            Ok(result) => x_samples.len() == y_samples.len() && x_samples.len() > 0
                && result.is_fit_of(x_samples@, y_samples@),
        },
{
    let n: usize = x_samples.len();
    if n != y_samples.len() {
        return Err(FitError::LengthMismatch);
    }
    if n == 0 {
        return Err(FitError::EmptyInput);
    }
    let line: Line = fit(&x_samples, &y_samples);
    let mut predictions: Vec<Binary64> = Vec::new();
    let mut axis_bounds: AxisBounds = AxisBounds::new();
    let mut i: usize = 0;
    while i < n
        invariant
            n == x_samples.len(),
            n == y_samples.len(),
            i <= n,
            line.fits(x_samples@, y_samples@),
            predictions.len() == i,
            forall|j: int|
                0 <= j < i ==> {
                    &&& (#[trigger] predictions[j])@ == prediction_of(
                        x_samples@,
                        y_samples@,
                        x_samples[j]@,
                    )
                    &&& predictions[j].is_canonical()
                },
            axis_bounds == AxisBounds::of(x_samples@.take(i as int), y_samples@.take(i as int)),
        decreases n - i,
    {
        proof {
            lemma_bounds_of_push(
                x_samples@.take(i as int),
                y_samples@.take(i as int),
                x_samples[i as int],
                y_samples[i as int],
            );
            assert(x_samples@.take(i as int).push(x_samples[i as int]) == x_samples@.take(i + 1));
            assert(y_samples@.take(i as int).push(y_samples[i as int]) == y_samples@.take(i + 1));
        }
        axis_bounds.add_sample(x_samples[i], y_samples[i]);
        predictions.push(line.predict(x_samples[i]));
        i = i + 1;
    }
    proof {
        assert(x_samples@.take(n as int) == x_samples@);
        assert(y_samples@.take(n as int) == y_samples@);
    }
    Ok(RegressorResult { predictions, axis_bounds })
}

} // verus!
