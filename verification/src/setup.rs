//! From raw options to a schedule that can be computed: which options are
//! accepted, and what each curve is to be built from.
//!
//! The steps stand in the order in which a run takes them.
use crate::curves::{positive_finite, Grid};
use crate::error::{CurveParameter, GridParameter, ScheduleError};
use crate::scalar::{unit, Scalar};
use vstd::prelude::*;

verus! {

/// The bin count of a run that names neither a count nor an end price.
pub const DEFAULT_BINS: i64 = 500;

/// A bin count is acceptable where it is absent or at least one.
pub open spec fn bin_count_ok(bins: Option<i64>) -> bool {
    match bins {
        Some(n) => n >= 1,
        None => true,
    }
}

/// A fee cap is a rate in `[0, 1]`.
pub open spec fn fee_cap_ok(max_fee_rate: Scalar) -> bool {
    !max_fee_rate.nan() && 0 <= max_fee_rate.value() <= unit()
}

/// A bound on the price impact is a number of basis points in `[0, 10000)`.
pub open spec fn impact_ok(impact_bps: Scalar) -> bool {
    !impact_bps.nan() && 0 <= impact_bps.value() < 10000 * unit()
}

/// A price guard is acceptable where it is absent or its bound is.
pub open spec fn price_guard_ok(price_guard_bps: Option<Scalar>) -> bool {
    match price_guard_bps {
        Some(bps) => impact_ok(bps),
        None => true,
    }
}

/// Accepts a bound on the price impact in `[0, 10000)` basis points. At
/// 10000 and above the guard prices have no meaning: one divides by
/// `10000 - impact_bps`.
pub fn validate_price_guard(impact_bps: Scalar) -> (r: Result<(), ScheduleError>)
    ensures
        r == if impact_ok(impact_bps) {
            Ok::<(), ScheduleError>(())
        } else {
            Err::<(), ScheduleError>(ScheduleError::InvalidPriceGuard { value: impact_bps })
        },
{
    if Scalar::zero().le(impact_bps) && impact_bps.lt(Scalar::ten_thousand()) {
        Ok(())
    } else {
        Err(ScheduleError::InvalidPriceGuard { value: impact_bps })
    }
}

/// Checks the options that every run shares, before anything is computed.
/// They are accepted where the grid is valid, the bin count (if given) is at
/// least one, the fee cap lies in `[0, 1]` and the price guard (if given)
/// lies in `[0, 10000)`. Otherwise the first failing check, in that order,
/// gives the error, with the value that failed.
pub fn validate_inputs(
    grid: &Grid,
    bins: Option<i64>,
    max_fee_rate: Scalar,
    price_guard_bps: Option<Scalar>,
) -> (r: Result<(), ScheduleError>)
    ensures
        r.is_ok() <==> grid.valid() && bin_count_ok(bins) && fee_cap_ok(max_fee_rate)
            && price_guard_ok(price_guard_bps),
        !positive_finite(grid.p0) ==> r == Err::<(), ScheduleError>(
            ScheduleError::InvalidGridParameter { parameter: GridParameter::P0, value: grid.p0 },
        ),
        positive_finite(grid.p0) && !positive_finite(grid.bin_step_bps) ==> r == Err::<
            (),
            ScheduleError,
        >(
            ScheduleError::InvalidGridParameter {
                parameter: GridParameter::BinStepBps,
                value: grid.bin_step_bps,
            },
        ),
        grid.valid() && !bin_count_ok(bins) ==> r == Err::<(), ScheduleError>(
            ScheduleError::InvalidBinCount { bins: bins.unwrap() },
        ),
        grid.valid() && bin_count_ok(bins) && !fee_cap_ok(max_fee_rate) ==> r == Err::<
            (),
            ScheduleError,
        >(ScheduleError::InvalidFeeCap { value: max_fee_rate }),
        grid.valid() && bin_count_ok(bins) && fee_cap_ok(max_fee_rate) && !price_guard_ok(
            price_guard_bps,
        ) ==> r == Err::<(), ScheduleError>(
            ScheduleError::InvalidPriceGuard { value: price_guard_bps.unwrap() },
        ),
{
    match grid.validate() {
        Err(e) => {
            return Err(e);
        },
        Ok(()) => {},
    }
    match bins {
        Some(n) => {
            if n < 1 {
                return Err(ScheduleError::InvalidBinCount { bins: n });
            }
        },
        None => {},
    }
    if !(Scalar::zero().le(max_fee_rate) && max_fee_rate.le(Scalar::one())) {
        return Err(ScheduleError::InvalidFeeCap { value: max_fee_rate });
    }
    match price_guard_bps {
        Some(bps) => validate_price_guard(bps),
        None => Ok(()),
    }
}

/// Where the bin count of a run comes from.
#[derive(Clone, Copy, Debug, PartialEq, Eq)]
pub enum BinPlan {
    /// The count is known: it was given, or it is the default.
    Fixed(i64),
    /// The count is to be derived from this end price, which lies above the
    /// start price or is a NaN.
    FromEndPrice(Scalar),
}

/// Decides where the bin count comes from. A given count wins. Without one,
/// a given end price is used, and is rejected where it does not lie above
/// the start price `p0`. With neither, the count is `DEFAULT_BINS`.
pub fn plan_bins(bins: Option<i64>, end_price: Option<Scalar>, p0: Scalar) -> (r: Result<
    BinPlan,
    ScheduleError,
>)
    ensures
        r == match (bins, end_price) {
            (Some(n), _) => Ok::<BinPlan, ScheduleError>(BinPlan::Fixed(n)),
            (None, Some(end)) => if end.spec_le(p0) {
                Err::<BinPlan, ScheduleError>(
                    ScheduleError::EndPriceNotAboveStart { end_price: end, p0: p0 },
                )
            } else {
                Ok::<BinPlan, ScheduleError>(BinPlan::FromEndPrice(end))
            },
            (None, None) => Ok::<BinPlan, ScheduleError>(BinPlan::Fixed(DEFAULT_BINS)),
        },
{
    match bins {
        Some(n) => Ok(BinPlan::Fixed(n)),
        None => match end_price {
            Some(end) => {
                if end.le(p0) {
                    Err(ScheduleError::EndPriceNotAboveStart { end_price: end, p0: p0 })
                } else {
                    Ok(BinPlan::FromEndPrice(end))
                }
            },
            None => Ok(BinPlan::Fixed(DEFAULT_BINS)),
        },
    }
}

/// The ratio `end_price / p0` of the end price to the start price, whose
/// logarithm counts the bins up to the end price; `None` where it is not
/// finite, and no bin count can be derived.
pub fn end_price_ratio(grid: &Grid, end_price: Scalar) -> (r: Option<Scalar>)
    ensures
        r == if end_price.spec_over(grid.p0).finite() {
            Some(end_price.spec_over(grid.p0))
        } else {
            None::<Scalar>
        },
{
    let ratio = end_price.over(grid.p0);
    if ratio.is_finite() {
        Some(ratio)
    } else {
        None
    }
}

/// The bin count for an end price, from the natural logarithms of the
/// ratio `end_price / p0` and of the growth factor `q` as the caller
/// evaluated them: the bins that it takes to reach the end price, `ln_ratio
/// / ln_q` rounded up to a whole number, but at least one bin.
pub fn compute_bins_from_end_price(ln_ratio: Scalar, ln_q: Scalar) -> (n: i64)
    ensures
        n == if ln_ratio.spec_over(ln_q).spec_ceil() >= 1 {
            ln_ratio.spec_over(ln_q).spec_ceil()
        } else {
            1
        },
{
    let steps = ln_ratio.over(ln_q).ceil_to_i64();
    if steps < 1 {
        1
    } else {
        steps
    }
}

/// What the initial quote revenue of a geometric curve is taken from.
#[derive(Clone, Copy, Debug, PartialEq, Eq)]
pub enum RevenuePlan {
    /// The revenue was given, and is above zero or a NaN.
    Given(Scalar),
    /// The revenue is to be solved from this target supply.
    SolveFromSupply(Scalar),
}

/// A revenue counts as given where it is present and not at or below zero.
pub open spec fn revenue_given(r0: Option<Scalar>) -> bool {
    match r0 {
        Some(x) => !x.spec_le(Scalar { bits: 0 }),
        None => false,
    }
}

/// Decides what the initial quote revenue is taken from. A revenue that is
/// absent, zero or negative counts as not given: the revenue is then solved
/// from the target supply, and without a target supply the curve is
/// rejected.
pub fn plan_revenue(r0: Option<Scalar>, target_supply: Option<Scalar>) -> (r: Result<
    RevenuePlan,
    ScheduleError,
>)
    ensures
        r == if revenue_given(r0) {
            Ok::<RevenuePlan, ScheduleError>(RevenuePlan::Given(r0.unwrap()))
        } else {
            match target_supply {
                Some(target) => Ok::<RevenuePlan, ScheduleError>(
                    RevenuePlan::SolveFromSupply(target),
                ),
                None => Err::<RevenuePlan, ScheduleError>(
                    ScheduleError::MissingCurveParameter {
                        missing: CurveParameter::RevenueOrTargetSupply,
                    },
                ),
            }
        },
{
    match r0 {
        Some(x) => {
            if !x.le(Scalar::zero()) {
                return Ok(RevenuePlan::Given(x));
            }
        },
        None => {},
    }
    match target_supply {
        Some(target) => Ok(RevenuePlan::SolveFromSupply(target)),
        None => Err(
            ScheduleError::MissingCurveParameter { missing: CurveParameter::RevenueOrTargetSupply },
        ),
    }
}

/// Checks the asymptotes of a logistic curve against the start price and
/// hands back the upper one. It must be given, and the start price must lie
/// strictly between the two.
pub fn check_asymptotes(p_min: Scalar, p0: Scalar, p_max: Option<Scalar>) -> (r: Result<
    Scalar,
    ScheduleError,
>)
    ensures
        r == match p_max {
            None => Err::<Scalar, ScheduleError>(
                ScheduleError::MissingCurveParameter { missing: CurveParameter::PMax },
            ),
            Some(top) => if p_min.spec_lt(p0) && p0.spec_lt(top) {
                Ok::<Scalar, ScheduleError>(top)
            } else {
                Err::<Scalar, ScheduleError>(
                    ScheduleError::OrderingViolation { p_min: p_min, p0: p0, p_max: top },
                )
            },
        },
{
    match p_max {
        None => Err(ScheduleError::MissingCurveParameter { missing: CurveParameter::PMax }),
        Some(top) => {
            if p_min.lt(p0) && p0.lt(top) {
                Ok(top)
            } else {
                Err(ScheduleError::OrderingViolation { p_min: p_min, p0: p0, p_max: top })
            }
        },
    }
}

/// What the midpoint supply of a logistic curve is taken from.
#[derive(Clone, Copy, Debug, PartialEq, Eq)]
pub enum MidpointPlan {
    /// The midpoint supply was given, and is not zero.
    Given(Scalar),
    /// The midpoint supply is to be solved so that the supply is zero at the
    /// start price: `ln((p_max - p0) / (p0 - p_min)) / k` (see
    /// `LogisticS::midpoint_argument`).
    SolveForZeroStart,
}

/// Decides what the midpoint supply is taken from: a midpoint of zero (of
/// either sign) counts as not given.
pub fn plan_midpoint(s_mid: Scalar) -> (r: MidpointPlan)
    ensures
        r == if !s_mid.nan() && s_mid.value() == 0 {
            MidpointPlan::SolveForZeroStart
        } else {
            MidpointPlan::Given(s_mid)
        },
{
    if s_mid.same(Scalar::zero()) {
        MidpointPlan::SolveForZeroStart
    } else {
        MidpointPlan::Given(s_mid)
    }
}

} // verus!
