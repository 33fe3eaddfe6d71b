//! Samples and the smallest axis-aligned box that holds them.

use crate::binary64::{Binary64, INFINITY_BITS};
use vstd::prelude::*;

verus! {

/// One point of the plane.
#[derive(Clone, Copy, Debug)]
pub struct Sample {
    pub x: Binary64,
    pub y: Binary64,
}

impl Sample {
    /// The point `(x, y)`.
    pub fn new(x: Binary64, y: Binary64) -> (s: Sample)
        ensures
            s.x == x,
            s.y == y,
    {
        Sample { x, y }
    }
}

/// A list of samples that hands out each one as a pair of coordinates.
pub struct SampleVec(pub Vec<Sample>);

impl View for SampleVec {
    type V = Seq<Sample>;

    open spec fn view(&self) -> Seq<Sample> {
        self.0@
    }
}

impl SampleVec {
    /// The coordinates of the sample at `index`, `x` first.
    pub fn get_sample(&self, index: usize) -> (pair: Vec<Binary64>)
        requires
            index < self@.len(),
        ensures
            pair@ == seq![self@[index as int].x, self@[index as int].y],
    {
        let sample: Sample = self.0[index];
        let mut pair: Vec<Binary64> = Vec::new();
        pair.push(sample.x);
        pair.push(sample.y);
        pair
    }
}

/// The bits of negative infinity.
pub const NEG_INFINITY_BITS: u64 = 0xfff0_0000_0000_0000;

/// The lower of a bound and a candidate: the candidate where it is less than
/// the bound, else the bound. A NaN is less than nothing, so it never
/// becomes a bound; of two zeros the one that came first stays.
pub open spec fn lower(bound: Binary64, candidate: Binary64) -> Binary64 {
    if candidate@.lt(bound@) {
        candidate
    } else {
        bound
    }
}

/// The upper of a bound and a candidate, in the same way.
pub open spec fn upper(bound: Binary64, candidate: Binary64) -> Binary64 {
    if bound@.lt(candidate@) {
        candidate
    } else {
        bound
    }
}

/// The least number of a sequence: positive infinity where it holds nothing
/// but NaNs.
pub open spec fn minimum(s: Seq<Binary64>) -> Binary64
    decreases s.len(),
{
    if s.len() == 0 {
        Binary64 { bits: INFINITY_BITS }
    } else {
        lower(minimum(s.drop_last()), s.last())
    }
}

/// The greatest number of a sequence: negative infinity where it holds
/// nothing but NaNs.
pub open spec fn maximum(s: Seq<Binary64>) -> Binary64
    decreases s.len(),
{
    if s.len() == 0 {
        Binary64 { bits: NEG_INFINITY_BITS }
    } else {
        upper(maximum(s.drop_last()), s.last())
    }
}

/// One axis of a box: either nothing was seen yet, or the lower bound is not
/// above the upper one. Neither bound is ever a NaN.
pub open spec fn axis_wf(min: Binary64, max: Binary64) -> bool {
    &&& !(min@ is Nan)
    &&& !(max@ is Nan)
    &&& (min.bits == INFINITY_BITS && max.bits == NEG_INFINITY_BITS) || min@.order_key()
        <= max@.order_key()
}

/// The running least and greatest coordinate on each axis.
#[derive(Clone, Copy, Debug)]
pub struct AxisBounds {
    pub mins: Sample,
    pub maxs: Sample,
}

impl AxisBounds {
    /// The bounds of no sample at all: every sample is inside of none.
    pub open spec fn empty() -> AxisBounds {
        AxisBounds {
            mins: Sample {
                x: Binary64 { bits: INFINITY_BITS },
                y: Binary64 { bits: INFINITY_BITS },
            },
            maxs: Sample {
                x: Binary64 { bits: NEG_INFINITY_BITS },
                y: Binary64 { bits: NEG_INFINITY_BITS },
            },
        }
    }

    /// The bounds after one more sample. Each coordinate moves the bounds of
    /// its own axis only.
    pub open spec fn observe(self, x: Binary64, y: Binary64) -> AxisBounds {
        AxisBounds {
            mins: Sample { x: lower(self.mins.x, x), y: lower(self.mins.y, y) },
            maxs: Sample { x: upper(self.maxs.x, x), y: upper(self.maxs.y, y) },
        }
    }

    /// The bounds of the samples whose coordinates are `xs` and `ys`.
    pub open spec fn of(xs: Seq<Binary64>, ys: Seq<Binary64>) -> AxisBounds {
        AxisBounds {
            mins: Sample { x: minimum(xs), y: minimum(ys) },
            maxs: Sample { x: maximum(xs), y: maximum(ys) },
        }
    }

    /// Both axes are well formed.
    pub open spec fn wf(self) -> bool {
        &&& axis_wf(self.mins.x, self.maxs.x)
        &&& axis_wf(self.mins.y, self.maxs.y)
    }

    /// The bounds of no sample at all.
    pub fn new() -> (r: AxisBounds)
        ensures
            r == AxisBounds::empty(),
            r.wf(),
    {
        AxisBounds {
            mins: Sample { x: Binary64::infinity(), y: Binary64::infinity() },
            maxs: Sample { x: Binary64::neg_infinity(), y: Binary64::neg_infinity() },
        }
    }

    /// Widens the bounds so that they hold the sample `(x, y)`. A coordinate
    /// that is a NaN leaves the bounds of its axis as they were.
    pub fn add_sample(&mut self, x: Binary64, y: Binary64)
        ensures
            *final(self) == old(self).observe(x, y),
            old(self).wf() ==> final(self).wf(),
    {
        if x.lt(self.mins.x) {
            self.mins.x = x;
        }
        if x.gt(self.maxs.x) {
            self.maxs.x = x;
        }
        if y.lt(self.mins.y) {
            self.mins.y = y;
        }
        if y.gt(self.maxs.y) {
            self.maxs.y = y;
        }
    }

    /// The least `x` seen.
    pub fn min_x(&self) -> (r: Binary64)
        ensures
            r == self.mins.x,
    {
        self.mins.x
    }

    /// The greatest `x` seen.
    pub fn max_x(&self) -> (r: Binary64)
        ensures
            r == self.maxs.x,
    {
        self.maxs.x
    }

    /// The least `y` seen.
    pub fn min_y(&self) -> (r: Binary64)
        ensures
            r == self.mins.y,
    {
        self.mins.y
    }

    /// The greatest `y` seen.
    pub fn max_y(&self) -> (r: Binary64)
        ensures
            r == self.maxs.y,
    {
        self.maxs.y
    }
}

/// The bounds of a list of samples grow with the list one sample at a time.
pub proof fn lemma_bounds_of_push(xs: Seq<Binary64>, ys: Seq<Binary64>, x: Binary64, y: Binary64)
    ensures
        AxisBounds::of(xs.push(x), ys.push(y)) == AxisBounds::of(xs, ys).observe(x, y),
{
    assert(xs.push(x).drop_last() == xs);
    assert(ys.push(y).drop_last() == ys);
}

} // verus!
