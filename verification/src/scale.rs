//! The value-scale display transform: linear, or inverse hyperbolic sine.

use vstd::prelude::*;

use crate::fixed::{asinh_micro, fixed_asinh};

verus! {

/// The display transform applied to raw values before charting.
#[derive(Debug, PartialEq, Eq, Copy, Clone)]
pub enum ChartScale {
    Linear,
    Asinh,
}

impl ChartScale {
    /// Rotate to the other scale mode.
    pub fn next(&self) -> (r: Self)
        ensures
            r == (match self {
                ChartScale::Linear => ChartScale::Asinh,
                ChartScale::Asinh => ChartScale::Linear,
            }),
    {
        match self {
            ChartScale::Linear => ChartScale::Asinh,
            ChartScale::Asinh => ChartScale::Linear,
        }
    }

    /// Short name of the mode, for legend text.
    pub fn name(&self) -> (r: &'static str)
        ensures
            self is Linear ==> r@ == "linear"@,
            self is Asinh ==> r@ == "asinh"@,
    {
        match self {
            ChartScale::Linear => "linear",
            ChartScale::Asinh => "asinh",
        }
    }
}

/// The value a raw micro-unit sample is charted as, under the given mode:
/// the raw value itself for the linear scale, its fixed-point inverse
/// hyperbolic sine otherwise. A pure function of the mode and the raw
/// value alone, never of a previously charted value.
pub open spec fn scale_spec(mode: ChartScale, v: int) -> int {
    match mode {
        ChartScale::Linear => v,
        ChartScale::Asinh => asinh_micro(v),
    }
}

/// Apply the display transform of `mode` to a raw value in micro-units.
pub fn scale_value(mode: ChartScale, v: i64) -> (r: i64)
    ensures
        r as int == scale_spec(mode, v as int),
{
    match mode {
        ChartScale::Linear => v,
        ChartScale::Asinh => fixed_asinh(v),
    }
}

} // verus!
