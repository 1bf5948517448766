//! The schedule of a curve as it is exported: one row per bin, with the
//! running supply and revenue, and the price guards at three bins.
use crate::checks::{stable_sum, StableSum};
use crate::curves::{bin_span, spec_allocations, Curve};
use crate::dlmm::DlmmFeeParams;
use crate::error::ScheduleError;
use crate::scalar::Scalar;
use crate::setup::impact_ok;
use vstd::prelude::*;

verus! {

/// Number of columns of a schedule.
pub const COLUMN_COUNT: usize = 9;

/// The columns of a schedule row, in order: the bin, its price and
/// allocation, the cumulative supply, the revenue of the bin (price times
/// allocation) and the cumulative revenue, and the base, variable and total
/// fee rates.
pub fn columns() -> (names: [&'static str; 9])
    ensures
        names[0]@ == "bin"@,
        names[1]@ == "price"@,
        names[2]@ == "delta_x"@,
        names[3]@ == "supply_cum"@,
        names[4]@ == "revenue_bin"@,
        names[5]@ == "revenue_cum"@,
        names[6]@ == "fee_base"@,
        names[7]@ == "fee_var"@,
        names[8]@ == "fee_total"@,
{
    [
        "bin",
        "price",
        "delta_x",
        "supply_cum",
        "revenue_bin",
        "revenue_cum",
        "fee_base",
        "fee_var",
        "fee_total",
    ]
}

/// One row of a schedule.
#[derive(Clone, Copy, Debug, PartialEq, Eq)]
pub struct Row {
    /// The bin.
    pub bin: i64,
    /// Its price.
    pub price: Scalar,
    /// Its allocation.
    pub delta_x: Scalar,
    /// The supply up to and with the bin.
    pub supply_cum: Scalar,
    /// The revenue of the bin, price times allocation.
    pub revenue_bin: Scalar,
    /// The revenue up to and with the bin.
    pub revenue_cum: Scalar,
    /// The base fee rate.
    pub fee_base: Scalar,
    /// The variable fee rate.
    pub fee_var: Scalar,
    /// The total fee rate.
    pub fee_total: Scalar,
}

/// The revenues of the bins `0..n` of a curve.
pub open spec fn spec_revenues<C: Curve + ?Sized>(c: &C, n: int) -> Seq<Scalar> {
    Seq::new(bin_span(n), |i: int| c.price_at(i).spec_times(c.allocation_at(i)))
}

/// The row of bin `i`: price and allocation of the curve, their product,
/// the compensated sums of the allocations and of the revenues of the bins
/// `0..=i`, and the fees for the volatility accumulator `va`, which are the
/// same in every row.
pub open spec fn spec_row<C: Curve + ?Sized>(c: &C, fees: DlmmFeeParams, va: Scalar, i: int) -> Row {
    Row {
        bin: i as i64,
        price: c.price_at(i),
        delta_x: c.allocation_at(i),
        supply_cum: stable_sum(spec_allocations(c, i + 1)).spec_value(),
        revenue_bin: c.price_at(i).spec_times(c.allocation_at(i)),
        revenue_cum: stable_sum(spec_revenues(c, i + 1)).spec_value(),
        fee_base: fees.spec_base_fee_rate(),
        fee_var: fees.spec_variable_fee_rate(va),
        fee_total: fees.spec_total_fee_rate(va),
    }
}

/// The rows of the bins `0..bins` of a curve, in increasing order of the
/// bin.
pub fn rows<C: Curve>(c: &C, bins: i64, fees: &DlmmFeeParams, va: Scalar) -> (out: Vec<Row>)
    requires
        c.valid(),
    ensures
        out@.len() == bin_span(bins as int),
        forall|i: int| 0 <= i < out@.len() ==> out@[i] == spec_row(c, *fees, va, i),
{
    let fee_base = fees.base_fee_rate();
    let fee_var = fees.variable_fee_rate(va);
    let fee_total = fees.total_fee_rate(va);
    let mut supply = StableSum::new();
    let mut revenue = StableSum::new();
    let mut out: Vec<Row> = Vec::new();
    let mut i: i64 = 0;
    while i < bins
        invariant
            c.valid(),
            0 <= i,
            i <= bins || (bins < 0 && i == 0),
            fee_base == fees.spec_base_fee_rate(),
            fee_var == fees.spec_variable_fee_rate(va),
            fee_total == fees.spec_total_fee_rate(va),
            supply == stable_sum(spec_allocations(c, i as int)),
            revenue == stable_sum(spec_revenues(c, i as int)),
            out@.len() == i,
            forall|j: int| 0 <= j < i ==> out@[j] == spec_row(c, *fees, va, j),
        decreases bins - i,
    {
        let price = c.price_of_bin(i);
        let delta_x = c.delta_x_of_bin(i);
        let revenue_bin = price.times(delta_x);
        proof {
            assert(spec_allocations(c, i + 1).drop_last() =~= spec_allocations(c, i as int));
            assert(spec_revenues(c, i + 1).drop_last() =~= spec_revenues(c, i as int));
        }
        supply.add(delta_x);
        revenue.add(revenue_bin);
        out.push(
            Row {
                bin: i,
                price,
                delta_x,
                supply_cum: supply.value(),
                revenue_bin,
                revenue_cum: revenue.value(),
                fee_base,
                fee_var,
                fee_total,
            },
        );
        i += 1;
    }
    out
}

/// Half of a bin count, rounded towards zero.
pub open spec fn half(bins: i64) -> int {
    if bins >= 0 {
        bins / 2
    } else {
        -((-bins) / 2)
    }
}

/// The bins at which the price guards of a schedule of `bins` bins are
/// reported: the first, the middle one and the last.
pub open spec fn spec_guard_bins(bins: i64) -> Seq<int> {
    seq![0, half(bins), if bins == i64::MIN {
        bins as int
    } else {
        bins - 1
    }]
}

/// The bins at which the price guards of a schedule of `bins` bins are
/// reported: the first, the middle one and the last. (A count that cannot
/// be lowered is reported as it is.)
pub fn guard_bins(bins: i64) -> (at: [i64; 3])
    ensures
        at[0] == spec_guard_bins(bins)[0],
        at[1] == spec_guard_bins(bins)[1],
        at[2] == spec_guard_bins(bins)[2],
{
    let last = if bins == i64::MIN {
        bins
    } else {
        bins - 1
    };
    [0, bins / 2, last]
}

/// The price guards at one bin: the least prices that a trade may execute
/// at, in either direction, for a bound on the price impact.
#[derive(Clone, Copy, Debug, PartialEq, Eq)]
pub struct Guard {
    /// The bin.
    pub bin: i64,
    /// Its price, the spot price of the guards.
    pub price: Scalar,
    /// The least price when selling X for Y.
    pub min_x_for_y: Scalar,
    /// The least price when selling Y for X.
    pub min_y_for_x: Scalar,
}

/// The price guards at bin `bin` of a curve for a price impact of at most
/// `impact_bps` basis points.
pub open spec fn spec_guard<C: Curve + ?Sized>(c: &C, bin: int, impact_bps: Scalar) -> Guard {
    let price = c.price_at(bin);
    Guard {
        bin: bin as i64,
        price: price,
        min_x_for_y: price.spec_times(Scalar::ten_thousand()).spec_over(
            Scalar::ten_thousand().spec_minus(impact_bps),
        ),
        min_y_for_x: price.spec_times(Scalar::ten_thousand().spec_minus(impact_bps)).spec_over(
            Scalar::ten_thousand(),
        ),
    }
}

/// The price guards of a schedule of `bins` bins, at its first, middle and
/// last bin, for a price impact of at most `impact_bps` basis points. An
/// impact outside `[0, 10000)` is rejected.
pub fn guards<C: Curve>(c: &C, bins: i64, impact_bps: Scalar) -> (r: Result<
    Vec<Guard>,
    ScheduleError,
>)
    requires
        c.valid(),
    ensures
        r.is_ok() <==> impact_ok(impact_bps),
        r.is_err() ==> r == Err::<Vec<Guard>, ScheduleError>(
            ScheduleError::InvalidPriceGuard { value: impact_bps },
        ),
        r.is_ok() ==> r.unwrap()@.len() == 3 && forall|j: int|
            0 <= j < 3 ==> r.unwrap()@[j] == spec_guard(c, spec_guard_bins(bins)[j], impact_bps),
{
    let at = guard_bins(bins);
    let mut out: Vec<Guard> = Vec::new();
    let mut j: usize = 0;
    while j < 3
        invariant
            c.valid(),
            j <= 3,
            out@.len() == j,
            j > 0 ==> impact_ok(impact_bps),
            forall|k: int| 0 <= k < 3 ==> at[k] == spec_guard_bins(bins)[k],
            forall|k: int|
                0 <= k < j ==> out@[k] == spec_guard(c, spec_guard_bins(bins)[k], impact_bps),
        decreases 3 - j,
    {
        let bin = at[j];
        let price = c.price_of_bin(bin);
        let min_x_for_y = match DlmmFeeParams::min_price_sell_x_for_y(price, impact_bps) {
            Ok(p) => p,
            Err(e) => {
                return Err(e);
            },
        };
        let min_y_for_x = match DlmmFeeParams::min_price_sell_y_for_x(price, impact_bps) {
            Ok(p) => p,
            Err(e) => {
                return Err(e);
            },
        };
        out.push(Guard { bin, price, min_x_for_y, min_y_for_x });
        j += 1;
    }
    Ok(out)
}

} // verus!
