//! The three charts of a schedule: price against cumulative supply,
//! allocation against bin, fee against volatility. A chart is a series of
//! `(x, y)` points in drawing order with the upper ends of its axes, which
//! both start at zero.
use crate::curves::{bin_span, plain_supply, Curve};
use crate::dlmm::DlmmFeeParams;
use crate::scalar::{lemma_magnitude_zero, Scalar, PICO_BITS};
use vstd::prelude::*;

verus! {

/// Encoding of 10, the number of samples per unit of volatility.
pub const TEN_BITS: u64 = 0x4024_0000_0000_0000;

/// Encoding of 50, the greatest volatility that the fee is charted for.
pub const FIFTY_BITS: u64 = 0x4049_0000_0000_0000;

/// Encoding of 1.05, the factor by which the `y` axis exceeds the greatest
/// `y`.
pub const HEADROOM_BITS: u64 = 0x3FF0_CCCC_CCCC_CCCD;

/// Number of the last sample of a fee chart: the samples lie a tenth apart
/// from 0 to 50.
pub const LAST_SAMPLE: i64 = 500;

/// A series with the upper ends of its axes.
#[derive(Clone, Debug)]
pub struct Chart {
    /// The points, in drawing order.
    pub points: Vec<(Scalar, Scalar)>,
    /// Upper end of the `x` axis.
    pub x_max: Scalar,
    /// Upper end of the `y` axis.
    pub y_top: Scalar,
}

/// The greatest of zero and the `y` of the points, ignoring every NaN.
pub open spec fn running_peak(points: Seq<(Scalar, Scalar)>) -> Scalar
    decreases points.len(),
{
    if points.len() == 0 {
        Scalar::zero()
    } else {
        running_peak(points.drop_last()).spec_max(points.last().1)
    }
}

/// The greatest `y` of the points, but at least 10^-12.
pub open spec fn spec_y_peak(points: Seq<(Scalar, Scalar)>) -> Scalar {
    running_peak(points).spec_max(Scalar::pico())
}

/// The upper end of the `y` axis: the greatest `y` and a twentieth more.
pub open spec fn spec_y_top(points: Seq<(Scalar, Scalar)>) -> Scalar {
    spec_y_peak(points).spec_times(Scalar { bits: HEADROOM_BITS })
}

/// The `x` of the last point, or 1 for no points, but at least 10^-12.
pub open spec fn spec_x_extent(points: Seq<(Scalar, Scalar)>) -> Scalar {
    (if points.len() == 0 {
        Scalar::one()
    } else {
        points.last().0
    }).spec_max(Scalar::pico())
}

/// The running peak is a number, is not below zero, and no `y` that is a
/// number exceeds it.
pub proof fn lemma_running_peak_bounds(points: Seq<(Scalar, Scalar)>)
    ensures
        !running_peak(points).nan(),
        running_peak(points).value() >= 0,
        forall|i: int|
            0 <= i < points.len() && !points[i].1.nan() ==> points[i].1.value() <= running_peak(
                points,
            ).value(),
    decreases points.len(),
{
    if points.len() > 0 {
        let before = points.drop_last();
        lemma_running_peak_bounds(before);
        assert forall|i: int| 0 <= i < points.len() && !points[i].1.nan() implies points[i].1.value()
            <= running_peak(points).value() by {
            if i < points.len() - 1 {
                assert(before[i] == points[i]);
            }
        }
    } else {
        lemma_magnitude_zero(0);
    }
}

/// The greatest `y` of a series, but at least 10^-12, so that the axis has
/// an extent even where every `y` is zero. It is a number, and no `y` that
/// is a number lies above it.
pub fn y_peak(points: &[(Scalar, Scalar)]) -> (r: Scalar)
    ensures
        r == spec_y_peak(points@),
        !r.nan(),
        r.value() > 0,
        forall|i: int|
            0 <= i < points@.len() && !points@[i].1.nan() ==> points@[i].1.value() <= r.value(),
{
    let mut peak = Scalar::zero();
    let mut i: usize = 0;
    while i < points.len()
        invariant
            i <= points.len(),
            peak == running_peak(points@.subrange(0, i as int)),
        decreases points.len() - i,
    {
        proof {
            let upto = points@.subrange(0, i + 1);
            assert(upto.drop_last() =~= points@.subrange(0, i as int));
            assert(upto.last() == points@[i as int]);
        }
        peak = peak.max(points[i].1);
        i += 1;
    }
    proof {
        assert(points@.subrange(0, i as int) =~= points@);
        lemma_running_peak_bounds(points@);
        lemma_magnitude_zero(PICO_BITS as nat);
    }
    peak.max(Scalar::pico())
}

/// The upper end of the `x` axis of a series whose `x` do not fall: the `x`
/// of the last point, or 1 for an empty series, but at least 10^-12.
pub fn x_extent(points: &[(Scalar, Scalar)]) -> (r: Scalar)
    ensures
        r == spec_x_extent(points@),
{
    let last = if points.len() == 0 {
        Scalar::one()
    } else {
        points[points.len() - 1].0
    };
    last.max(Scalar::pico())
}

/// The upper end of the `y` axis of a series: its greatest `y` and a
/// twentieth more.
pub fn y_top(points: &[(Scalar, Scalar)]) -> (r: Scalar)
    ensures
        r == spec_y_top(points@),
{
    y_peak(points).times(Scalar { bits: HEADROOM_BITS })
}

/// The staircase of price against cumulative supply over the bins `0..n`.
/// Each bin gives two points at its price, one at the supply before it and
/// one at the supply after it: the price holds while the bin sells. The
/// supply is the plain running sum of the allocations.
pub open spec fn spec_price_supply_steps<C: Curve + ?Sized>(c: &C, n: int) -> Seq<
    (Scalar, Scalar),
> {
    Seq::new(
        2 * bin_span(n),
        |j: int|
            if j % 2 == 0 {
                (plain_supply(c, j / 2), c.price_at(j / 2))
            } else {
                (plain_supply(c, j / 2 + 1), c.price_at(j / 2))
            },
    )
}

/// The allocation of each of the bins `0..n` against the bin.
pub open spec fn spec_tokens_per_bin<C: Curve + ?Sized>(c: &C, n: int) -> Seq<(Scalar, Scalar)> {
    Seq::new(bin_span(n), |i: int| (Scalar::spec_from_int(i), c.allocation_at(i)))
}

/// The volatility of sample `v`, a tenth of `v`.
pub open spec fn spec_sample(v: int) -> Scalar {
    Scalar::spec_from_int(v).spec_over(Scalar { bits: TEN_BITS })
}

/// The total fee at each sample of the volatility.
pub open spec fn spec_fee_samples(fees: DlmmFeeParams) -> Seq<(Scalar, Scalar)> {
    Seq::new(
        (LAST_SAMPLE + 1) as nat,
        |v: int| (spec_sample(v), fees.spec_total_fee_rate(spec_sample(v))),
    )
}

/// The chart of price against cumulative supply over the bins `0..bins` of
/// a curve.
pub fn price_vs_supply<C: Curve>(c: &C, bins: i64) -> (chart: Chart)
    requires
        c.valid(),
    ensures
        chart.points@ == spec_price_supply_steps(c, bins as int),
        chart.x_max == spec_x_extent(chart.points@),
        chart.y_top == spec_y_top(chart.points@),
{
    let mut points: Vec<(Scalar, Scalar)> = Vec::new();
    let mut supply = Scalar::zero();
    let mut i: i64 = 0;
    while i < bins
        invariant
            c.valid(),
            0 <= i,
            i <= bins || (bins < 0 && i == 0),
            supply == plain_supply(c, i as int),
            points@ == spec_price_supply_steps(c, i as int),
        decreases bins - i,
    {
        let p = c.price_of_bin(i);
        points.push((supply, p));
        supply = supply.plus(c.delta_x_of_bin(i));
        points.push((supply, p));
        assert(points@ =~= spec_price_supply_steps(c, i + 1));
        i += 1;
    }
    assert(points@ =~= spec_price_supply_steps(c, bins as int));
    let x_max = x_extent(points.as_slice());
    let y_top = y_top(points.as_slice());
    Chart { points, x_max, y_top }
}

/// The chart of the allocation against the bin over the bins `0..bins` of a
/// curve. The `x` axis ends at the bin count, or at 1 where that is less.
pub fn tokens_per_bin<C: Curve>(c: &C, bins: i64) -> (chart: Chart)
    requires
        c.valid(),
    ensures
        chart.points@ == spec_tokens_per_bin(c, bins as int),
        chart.x_max == Scalar::spec_from_int(bins as int).spec_max(Scalar::one()),
        chart.y_top == spec_y_top(chart.points@),
{
    let mut points: Vec<(Scalar, Scalar)> = Vec::new();
    let mut i: i64 = 0;
    while i < bins
        invariant
            c.valid(),
            0 <= i,
            i <= bins || (bins < 0 && i == 0),
            points@ == spec_tokens_per_bin(c, i as int),
        decreases bins - i,
    {
        points.push((Scalar::from_i64(i), c.delta_x_of_bin(i)));
        assert(points@ =~= spec_tokens_per_bin(c, i + 1));
        i += 1;
    }
    assert(points@ =~= spec_tokens_per_bin(c, bins as int));
    let x_max = Scalar::from_i64(bins).max(Scalar::one());
    let y_top = y_top(points.as_slice());
    Chart { points, x_max, y_top }
}

/// The chart of the total fee against the volatility accumulator, sampled
/// every tenth from 0 to 50.
pub fn fee_vs_vol(fees: &DlmmFeeParams) -> (chart: Chart)
    ensures
        chart.points@ == spec_fee_samples(*fees),
        chart.x_max == (Scalar { bits: FIFTY_BITS }),
        chart.y_top == spec_y_top(chart.points@),
{
    let mut points: Vec<(Scalar, Scalar)> = Vec::new();
    let mut v: i64 = 0;
    while v <= LAST_SAMPLE
        invariant
            0 <= v <= LAST_SAMPLE + 1,
            points@.len() == v,
            forall|j: int| 0 <= j < v ==> points@[j] == spec_fee_samples(*fees)[j],
        decreases LAST_SAMPLE + 1 - v,
    {
        let va = Scalar::from_i64(v).over(Scalar { bits: TEN_BITS });
        points.push((va, fees.total_fee_rate(va)));
        v += 1;
    }
    assert(points@ =~= spec_fee_samples(*fees));
    let y_top = y_top(points.as_slice());
    Chart { points, x_max: Scalar { bits: FIFTY_BITS }, y_top }
}

} // verus!
