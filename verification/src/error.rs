//! The ways in which a configuration or a computed schedule is rejected.
use crate::scalar::Scalar;
use vstd::prelude::*;

verus! {

/// A parameter of the price grid.
#[derive(Clone, Copy, Debug, PartialEq, Eq)]
pub enum GridParameter {
    /// The price of bin 0.
    P0,
    /// The bin step in basis points.
    BinStepBps,
}

/// A parameter that a curve cannot do without.
#[derive(Clone, Copy, Debug, PartialEq, Eq)]
pub enum CurveParameter {
    /// The geometric curve needs the initial quote revenue or, failing
    /// that, a target supply to solve it from.
    RevenueOrTargetSupply,
    /// The logistic curve needs its upper price asymptote.
    PMax,
}

/// Why a configuration or a schedule is rejected. Each kind carries the
/// offending value, so that a caller can report it.
#[derive(Clone, Copy, Debug, PartialEq, Eq)]
pub enum ScheduleError {
    /// A grid parameter is not a finite number above zero.
    InvalidGridParameter { parameter: GridParameter, value: Scalar },
    /// A bin count below one.
    InvalidBinCount { bins: i64 },
    /// A fee cap outside `[0, 1]`.
    InvalidFeeCap { value: Scalar },
    /// A price-impact bound outside `[0, 10000)` basis points.
    InvalidPriceGuard { value: Scalar },
    /// A curve was configured without a parameter that it needs.
    MissingCurveParameter { missing: CurveParameter },
    /// The start price does not lie strictly between the asymptotes.
    OrderingViolation { p_min: Scalar, p0: Scalar, p_max: Scalar },
    /// The end price that the bin count is to be derived from does not lie
    /// above the start price.
    EndPriceNotAboveStart { end_price: Scalar, p0: Scalar },
    /// A curve allocates a negative amount to a bin.
    NegativeAllocation { bin: i64 },
}

} // verus!
