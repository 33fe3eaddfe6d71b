//! Ordinary least squares over IEEE 754 binary64 samples.
//!
//! `linear_regressor` fits a line through a list of points, evaluates it at
//! each point, and reports the box that holds the points. Numbers are
//! carried as bit patterns (`Binary64`) and read as mathematical values
//! (`Value`); every arithmetic step is done in integer code whose result is
//! proved to be the exact one rounded to nearest, ties to even. The contracts
//! therefore say, bit for bit, what binary64 arithmetic gives.
//!
//! - `value`: what a number denotes, and binary64 arithmetic on that.
//! - `rounding`, `nearest`: the rounding rule and what it amounts to.
//! - `binary64`, `pack`: the bit format, and rounding into it.
//! - `addition`, `multiplication`, `division`, `conversion`: the operations.
//! - `bounds`, `regression`: samples, their bounds, and the fit.
//! - `laws`: what holds of every fit.

pub mod addition;
pub mod binary64;
pub mod bounds;
pub mod conversion;
pub mod division;
pub mod laws;
pub mod multiplication;
pub mod nearest;
pub mod pack;
pub mod regression;
pub mod rounding;
pub mod value;

pub use binary64::Binary64;
pub use bounds::{AxisBounds, Sample, SampleVec};
pub use regression::{fit_line, linear_regressor, FitError, Line, RegressorResult};
pub use value::Value;
