//! The price grid and the two allocation models that stand on it.
//!
//! A grid maps bin `i` to the price `p0 * q^i` with `q = 1 + bin_step_bps /
//! 10000`. The geometric model allocates `(r0_quote / p0) * r^i` to bin `i`,
//! with `r = q^(theta - 1)`. The logistic model allocates to bin `i` the
//! growth of the inverse logistic supply between the prices of bins `i` and
//! `i + 1`.
//!
//! Everything is computed here, in correctly rounded binary64 arithmetic,
//! but for two functions that the arithmetic does not offer: the power with
//! a fractional exponent, which gives the decay ratio `r`, and the natural
//! logarithm of the logistic model. A curve is made from its parameters
//! together with those values, which the caller evaluates.
use crate::error::{GridParameter, ScheduleError};
use crate::order::{
    lemma_one_plus, lemma_power_at_least_one, lemma_scaled_not_below, lemma_share_is_finite,
    lemma_times_one,
};
use crate::scalar::{unit, Scalar, MINUS_TWO_BITS, TWO_BITS};
use vstd::prelude::*;

verus! {

/// The two allocation models.
#[derive(Clone, Copy, Debug, PartialEq, Eq, Structural)]
pub enum CurveKind {
    /// Geometric decay (or growth) of the allocation from bin to bin.
    Geometric,
    /// A logistic price-versus-supply target, discretised onto the grid.
    LogisticS,
}

impl CurveKind {
    /// The model that a mode word selects: `geometric` or `logistic`,
    /// spelled exactly so; no other word selects a model.
    pub fn from_mode(mode: &str) -> (r: Option<CurveKind>)
        ensures
            r == if mode@ == "geometric"@ {
                Some(CurveKind::Geometric)
            } else if mode@ == "logistic"@ {
                Some(CurveKind::LogisticS)
            } else {
                None::<CurveKind>
            },
    {
        let word = mode.to_owned();
        if word == "geometric".to_owned() {
            Some(CurveKind::Geometric)
        } else if word == "logistic".to_owned() {
            Some(CurveKind::LogisticS)
        } else {
            None
        }
    }

    /// The name under which the model is reported.
    pub fn name(self) -> (r: &'static str)
        ensures
            r@ == match self {
                CurveKind::Geometric => "DLMM-Geometric(θ)"@,
                CurveKind::LogisticS => "Logistic-S(on DLMM bins)"@,
            },
    {
        match self {
            CurveKind::Geometric => "DLMM-Geometric(θ)",
            CurveKind::LogisticS => "Logistic-S(on DLMM bins)",
        }
    }
}

/// A curve on the price grid: a price and a token allocation for every bin.
/// Bins are counted from zero.
pub trait Curve {
    /// What the curve was made from fits together.
    spec fn valid(&self) -> bool;

    /// The price of bin `i`.
    spec fn price_at(&self, i: int) -> Scalar;

    /// The allocation of bin `i`.
    spec fn allocation_at(&self, i: int) -> Scalar;

    /// The model of the curve.
    spec fn spec_kind(&self) -> CurveKind;

    /// The model of the curve.
    fn kind(&self) -> (k: CurveKind)
        ensures
            k == self.spec_kind(),
    ;

    /// The price of bin `i`.
    fn price_of_bin(&self, i: i64) -> (p: Scalar)
        requires
            self.valid(),
        ensures
            p == self.price_at(i as int),
    ;

    /// The allocation of bin `i`.
    fn delta_x_of_bin(&self, i: i64) -> (dx: Scalar)
        requires
            self.valid(),
            i >= 0,
        ensures
            dx == self.allocation_at(i as int),
    ;

    /// The name under which the curve is reported.
    fn name(&self) -> (r: &'static str)
        ensures
            r@ == match self.spec_kind() {
                CurveKind::Geometric => "DLMM-Geometric(θ)"@,
                CurveKind::LogisticS => "Logistic-S(on DLMM bins)"@,
            },
    {
        self.kind().name()
    }
}

/// The allocations of the bins `0..n` of a curve, summed in order from
/// zero, each sum rounded.
pub open spec fn plain_supply<C: Curve + ?Sized>(c: &C, n: int) -> Scalar
    decreases n,
{
    if n <= 0 {
        Scalar::zero()
    } else {
        plain_supply(c, n - 1).spec_plus(c.allocation_at(n - 1))
    }
}

/// The allocations of the bins `0..n`, summed in order, each sum rounded.
/// Over many bins the rounding errors add up; the compensated sum of
/// `crate::checks` keeps them apart.
pub fn cumulative_supply<C: Curve>(c: &C, n: i64) -> (s: Scalar)
    requires
        c.valid(),
    ensures
        s == plain_supply(c, n as int),
{
    let mut s = Scalar::zero();
    let mut i: i64 = 0;
    while i < n
        invariant
            c.valid(),
            0 <= i,
            i <= n || (n < 0 && i == 0),
            s == plain_supply(c, i as int),
        decreases n - i,
    {
        s = s.plus(c.delta_x_of_bin(i));
        i += 1;
    }
    assert(n < 0 ==> plain_supply(c, n as int) == plain_supply(c, 0));
    s
}

/// The number of bins that a count stands for: none where it is negative.
pub open spec fn bin_span(bins: int) -> nat {
    if bins > 0 {
        bins as nat
    } else {
        0
    }
}

/// The allocations of the bins `0..n` of a curve.
pub open spec fn spec_allocations<C: Curve + ?Sized>(c: &C, n: int) -> Seq<Scalar> {
    Seq::new(bin_span(n), |i: int| c.allocation_at(i))
}

/// The prices of the bins `0..n` of a curve.
pub open spec fn spec_prices<C: Curve + ?Sized>(c: &C, n: int) -> Seq<Scalar> {
    Seq::new(bin_span(n), |i: int| c.price_at(i))
}

/// The allocations of the bins `0..bins`, in order.
pub fn allocations<C: Curve>(c: &C, bins: i64) -> (v: Vec<Scalar>)
    requires
        c.valid(),
    ensures
        v@ == spec_allocations(c, bins as int),
{
    let mut v: Vec<Scalar> = Vec::new();
    let mut i: i64 = 0;
    while i < bins
        invariant
            c.valid(),
            0 <= i,
            i <= bins || (bins < 0 && i == 0),
            v@ == spec_allocations(c, i as int),
        decreases bins - i,
    {
        v.push(c.delta_x_of_bin(i));
        assert(v@ =~= spec_allocations(c, i + 1));
        i += 1;
    }
    assert(v@ =~= spec_allocations(c, bins as int));
    v
}

/// The prices of the bins `0..bins`, in order.
pub fn prices<C: Curve>(c: &C, bins: i64) -> (v: Vec<Scalar>)
    requires
        c.valid(),
    ensures
        v@ == spec_prices(c, bins as int),
{
    let mut v: Vec<Scalar> = Vec::new();
    let mut i: i64 = 0;
    while i < bins
        invariant
            c.valid(),
            0 <= i,
            i <= bins || (bins < 0 && i == 0),
            v@ == spec_prices(c, i as int),
        decreases bins - i,
    {
        v.push(c.price_of_bin(i));
        assert(v@ =~= spec_prices(c, i + 1));
        i += 1;
    }
    assert(v@ =~= spec_prices(c, bins as int));
    v
}

/// A number that can be a grid parameter: finite and above zero.
pub open spec fn positive_finite(x: Scalar) -> bool {
    x.finite() && x.value() > 0
}

/// The geometric price grid.
#[derive(Clone, Copy, Debug, PartialEq, Eq)]
pub struct Grid {
    /// Price of bin 0.
    pub p0: Scalar,
    /// Bin step in basis points (10 is 0.10 %).
    pub bin_step_bps: Scalar,
}

impl Grid {
    /// Both parameters are finite and above zero, so that the growth factor
    /// `q` is above 1.
    pub open spec fn valid(self) -> bool {
        positive_finite(self.p0) && positive_finite(self.bin_step_bps)
    }

    /// The growth factor `q = 1 + bin_step_bps / 10000`.
    pub open spec fn spec_q(self) -> Scalar {
        Scalar::one().spec_plus(self.bin_step_bps.spec_over(Scalar::ten_thousand()))
    }

    /// The price of bin `i`, `p0 * q^i`.
    pub open spec fn spec_price_of_bin(self, i: int) -> Scalar {
        self.p0.spec_times(self.spec_q().spec_powi(i))
    }

    /// On a valid grid bin 0 is priced at `p0`, and no bin above it is
    /// priced below `p0` or at no price at all. (That prices rise strictly
    /// from bin to bin does not hold of every valid grid: a step so small
    /// that `q` rounds to 1 gives one price to all bins, and far up any grid
    /// the prices are infinite. `crate::checks` decides it for the bins of
    /// a curve.)
    pub proof fn lemma_no_price_below_start(self, i: int)
        requires
            self.valid(),
            i >= 0,
        ensures
            self.spec_price_of_bin(0) == self.p0,
            !self.spec_price_of_bin(i).nan(),
            self.spec_price_of_bin(i).value() >= self.p0.value(),
    {
        crate::scalar::lemma_ten_thousand_magnitude();
        crate::scalar::lemma_one_magnitude();
        crate::scalar::lemma_magnitude_zero(self.p0.abs_bits() as nat);
        vstd::arithmetic::power2::lemma_pow2_pos(1074);
        let one = Scalar::one();
        let q = self.spec_q();
        lemma_share_is_finite(self.bin_step_bps, Scalar::ten_thousand(), 10000);
        lemma_one_plus(self.bin_step_bps.spec_over(Scalar::ten_thousand()));
        lemma_power_at_least_one(q, i as nat, one);
        assert(q.spec_powi(i) == q.spec_power_from(i as nat, one));
        assert(q.spec_powi(0) == one);
        lemma_times_one(self.p0);
        lemma_scaled_not_below(self.p0, q.spec_powi(i));
    }

    /// Accepts a valid grid; otherwise names the first parameter, in the
    /// order `p0`, `bin_step_bps`, that is not finite and above zero.
    pub fn validate(&self) -> (r: Result<(), ScheduleError>)
        ensures
            r.is_ok() <==> self.valid(),
            !positive_finite(self.p0) ==> r == Err::<(), ScheduleError>(
                ScheduleError::InvalidGridParameter {
                    parameter: GridParameter::P0,
                    value: self.p0,
                },
            ),
            positive_finite(self.p0) && !positive_finite(self.bin_step_bps) ==> r == Err::<
                (),
                ScheduleError,
            >(
                ScheduleError::InvalidGridParameter {
                    parameter: GridParameter::BinStepBps,
                    value: self.bin_step_bps,
                },
            ),
    {
        if !(self.p0.is_finite() && Scalar::zero().lt(self.p0)) {
            return Err(
                ScheduleError::InvalidGridParameter {
                    parameter: GridParameter::P0,
                    value: self.p0,
                },
            );
        }
        if !(self.bin_step_bps.is_finite() && Scalar::zero().lt(self.bin_step_bps)) {
            return Err(
                ScheduleError::InvalidGridParameter {
                    parameter: GridParameter::BinStepBps,
                    value: self.bin_step_bps,
                },
            );
        }
        Ok(())
    }

    /// The growth factor `q = 1 + bin_step_bps / 10000`.
    pub fn q(&self) -> (r: Scalar)
        ensures
            r == self.spec_q(),
    {
        Scalar::one().plus(self.bin_step_bps.over(Scalar::ten_thousand()))
    }

    /// The price of bin `i`, `p0 * q^i`, for any `i`. Far up the grid the
    /// price is infinite; no bound is put on `i`.
    pub fn price_of_bin(&self, i: i64) -> (p: Scalar)
        ensures
            p == self.spec_price_of_bin(i as int),
    {
        self.p0.times(self.q().powi(i))
    }
}

/// Which formula gives the total supply of a geometric curve.
#[derive(Clone, Copy, Debug, PartialEq, Eq, Structural)]
pub enum SupplyRegime {
    /// The decay ratio `r` is 1 to within 10^-12: every bin gets the same
    /// amount, and `n` bins hold `n` times the first allocation.
    Flat,
    /// The geometric series: `n` bins hold the first allocation times
    /// `(1 - r^n) / (1 - r)`.
    Series,
}

/// The parameters of the geometric curve: bin `i` gets `(r0_quote / p0) *
/// r^i`, where `r = q^(theta - 1)`.
#[derive(Clone, Copy, Debug, PartialEq, Eq)]
pub struct Geometric {
    /// The price grid.
    pub grid: Grid,
    /// Steepness; below 1 the allocation shrinks from bin to bin.
    pub theta: Scalar,
    /// Quote revenue of bin 0.
    pub r0_quote: Scalar,
}

impl Geometric {
    /// The exponent `theta - 1` that the grid's growth factor is raised to
    /// for the decay ratio `r`.
    pub open spec fn spec_decay_exponent(self) -> Scalar {
        self.theta.spec_minus(Scalar::one())
    }

    /// The allocation of bin 0, `r0_quote / p0`.
    pub open spec fn spec_delta_x0(self) -> Scalar {
        self.r0_quote.spec_over(self.grid.p0)
    }

    /// The regime of the decay ratio `r`: flat where `|r - 1| < 10^-12`.
    pub open spec fn spec_regime(r: Scalar) -> SupplyRegime {
        if r.spec_minus(Scalar::one()).spec_abs().spec_lt(Scalar::pico()) {
            SupplyRegime::Flat
        } else {
            SupplyRegime::Series
        }
    }

    /// The allocation of bin `i` for the decay ratio `r`: `delta_x0 * r^i`.
    pub open spec fn spec_delta_x_of_bin(self, r: Scalar, i: int) -> Scalar {
        self.spec_delta_x0().spec_times(r.spec_powi(i))
    }

    /// The closed-form supply of the bins `0..n` for the decay ratio `r`:
    /// `delta_x0 * n` in the flat regime, `delta_x0 * (1 - r^n) / (1 - r)`
    /// in the other.
    pub open spec fn spec_s_n_closed(self, r: Scalar, n: int) -> Scalar {
        match Geometric::spec_regime(r) {
            SupplyRegime::Flat => self.spec_delta_x0().spec_times(Scalar::spec_from_int(n)),
            SupplyRegime::Series => self.spec_delta_x0().spec_times(
                Scalar::one().spec_minus(r.spec_powi(n)),
            ).spec_over(Scalar::one().spec_minus(r)),
        }
    }

    /// The quote revenue of bin 0 with which `n` bins hold the supply
    /// `target_s`, for the decay ratio `r`: the closed form solved for it.
    pub open spec fn spec_solve_r0_from_supply(self, r: Scalar, target_s: Scalar, n: int) -> Scalar {
        match Geometric::spec_regime(r) {
            SupplyRegime::Flat => target_s.spec_over(Scalar::spec_from_int(n)).spec_times(
                self.grid.p0,
            ),
            SupplyRegime::Series => target_s.spec_times(Scalar::one().spec_minus(r)).spec_over(
                Scalar::one().spec_minus(r.spec_powi(n)),
            ).spec_times(self.grid.p0),
        }
    }

    /// The steepness that a curve is built with: `theta` restricted to
    /// `[-2, 2]`. A NaN is handed back as it is.
    pub fn clamp_theta(theta: Scalar) -> (r: Scalar)
        ensures
            r == if theta.nan() {
                theta
            } else if theta.value() < -2 * unit() {
                (Scalar { bits: MINUS_TWO_BITS })
            } else if theta.value() > 2 * unit() {
                (Scalar { bits: TWO_BITS })
            } else {
                theta
            },
    {
        theta.clamp(Scalar::minus_two(), Scalar::two())
    }

    /// The exponent `theta - 1`. The decay ratio of the curve is the grid's
    /// growth factor `q` raised to it, a power that the caller evaluates.
    pub fn decay_exponent(&self) -> (r: Scalar)
        ensures
            r == self.spec_decay_exponent(),
    {
        self.theta.minus(Scalar::one())
    }

    /// The allocation of bin 0, `r0_quote / p0`.
    pub fn delta_x0(&self) -> (r: Scalar)
        ensures
            r == self.spec_delta_x0(),
    {
        self.r0_quote.over(self.grid.p0)
    }

    /// The regime of the closed-form supply and of its inverse for the
    /// decay ratio `r`: flat where `r` is 1 to within 10^-12. Near `r = 1`
    /// the series formula divides two differences of nearly equal numbers;
    /// the flat formula is its limit there. A NaN selects the series.
    pub fn regime(r: Scalar) -> (regime: SupplyRegime)
        ensures
            regime == Geometric::spec_regime(r),
    {
        if r.minus(Scalar::one()).abs().lt(Scalar::pico()) {
            SupplyRegime::Flat
        } else {
            SupplyRegime::Series
        }
    }

    /// The allocation of bin `i` for the decay ratio `r`, `delta_x0 * r^i`,
    /// for any `i`.
    pub fn delta_x_of_bin(&self, r: Scalar, i: i64) -> (dx: Scalar)
        ensures
            dx == self.spec_delta_x_of_bin(r, i as int),
    {
        self.delta_x0().times(r.powi(i))
    }

    /// The closed-form supply of the bins `0..n` for the decay ratio `r`.
    pub fn s_n_closed(&self, r: Scalar, n: i64) -> (s: Scalar)
        ensures
            s == self.spec_s_n_closed(r, n as int),
    {
        match Geometric::regime(r) {
            SupplyRegime::Flat => self.delta_x0().times(Scalar::from_i64(n)),
            SupplyRegime::Series => self.delta_x0().times(Scalar::one().minus(r.powi(n))).over(
                Scalar::one().minus(r),
            ),
        }
    }

    /// The quote revenue of bin 0 with which `n` bins hold the supply
    /// `target_s`, for the decay ratio `r`.
    pub fn solve_r0_from_supply(&self, r: Scalar, target_s: Scalar, n: i64) -> (r0: Scalar)
        ensures
            r0 == self.spec_solve_r0_from_supply(r, target_s, n as int),
    {
        match Geometric::regime(r) {
            SupplyRegime::Flat => target_s.over(Scalar::from_i64(n)).times(self.grid.p0),
            SupplyRegime::Series => {
                let denom = Scalar::one().minus(r.powi(n));
                let a = target_s.times(Scalar::one().minus(r)).over(denom);
                a.times(self.grid.p0)
            },
        }
    }
}

/// The geometric curve: its parameters with the decay ratio `r = q^(theta -
/// 1)` as the caller evaluated it.
#[derive(Clone, Copy, Debug, PartialEq, Eq)]
pub struct GeometricCurve {
    /// The parameters.
    pub params: Geometric,
    /// The decay ratio.
    pub r: Scalar,
}

impl GeometricCurve {
    /// The curve with the given parameters and decay ratio.
    pub fn new(params: Geometric, r: Scalar) -> (c: GeometricCurve)
        ensures
            c.params == params,
            c.r == r,
    {
        GeometricCurve { params, r }
    }

    /// The closed-form supply of the bins `0..n`.
    pub fn s_n_closed(&self, n: i64) -> (s: Scalar)
        ensures
            s == self.params.spec_s_n_closed(self.r, n as int),
    {
        self.params.s_n_closed(self.r, n)
    }
}

impl Curve for GeometricCurve {
    open spec fn valid(&self) -> bool {
        true
    }

    open spec fn price_at(&self, i: int) -> Scalar {
        self.params.grid.spec_price_of_bin(i)
    }

    open spec fn allocation_at(&self, i: int) -> Scalar {
        self.params.spec_delta_x_of_bin(self.r, i)
    }

    open spec fn spec_kind(&self) -> CurveKind {
        CurveKind::Geometric
    }

    fn kind(&self) -> (k: CurveKind) {
        CurveKind::Geometric
    }

    fn price_of_bin(&self, i: i64) -> (p: Scalar) {
        self.params.grid.price_of_bin(i)
    }

    fn delta_x_of_bin(&self, i: i64) -> (dx: Scalar) {
        self.params.delta_x_of_bin(self.r, i)
    }
}

/// The parameters of the logistic curve on the grid. With `S(p) = s_mid -
/// ln((p_max - p) / (p - p_min)) / k`, the inverse of the logistic price,
/// bin `i` gets `S(price(i + 1)) - S(price(i))`, never less than zero, and
/// nothing from the last bin on.
#[derive(Clone, Copy, Debug, PartialEq, Eq)]
pub struct LogisticS {
    /// The price grid.
    pub grid: Grid,
    /// Lower price asymptote.
    pub p_min: Scalar,
    /// Upper price asymptote.
    pub p_max: Scalar,
    /// Steepness.
    pub k: Scalar,
    /// Supply at which the price is halfway between the asymptotes.
    pub s_mid: Scalar,
    /// Number of bins; the curve ends there.
    pub bins: i64,
}

impl LogisticS {
    /// The margin that prices keep from the asymptotes, `(p_max - p_min) *
    /// 10^-12`.
    pub open spec fn spec_margin(self) -> Scalar {
        self.p_max.spec_minus(self.p_min).spec_times(Scalar::pico())
    }

    /// The least price that the supply is evaluated at.
    pub open spec fn spec_floor(self) -> Scalar {
        self.p_min.spec_plus(self.spec_margin())
    }

    /// The greatest price that the supply is evaluated at.
    pub open spec fn spec_ceiling(self) -> Scalar {
        self.p_max.spec_minus(self.spec_margin())
    }

    /// The two bounds are numbers, the floor not above the ceiling.
    pub open spec fn spec_bounded(self) -> bool {
        self.spec_floor().spec_le(self.spec_ceiling())
    }

    /// The number whose logarithm the supply at the price `p` is made of:
    /// `(p_max - p') / (p' - p_min)`, with `p'` the price held between floor
    /// and ceiling.
    pub open spec fn spec_log_argument(self, p: Scalar) -> Scalar {
        let held = p.spec_clamp(self.spec_floor(), self.spec_ceiling());
        self.p_max.spec_minus(held).spec_over(held.spec_minus(self.p_min))
    }

    /// The supply for the logarithm `log` of a log argument: `s_mid - log /
    /// k`.
    pub open spec fn spec_supply(self, log: Scalar) -> Scalar {
        self.s_mid.spec_minus(log.spec_over(self.k))
    }

    /// Bin `i` is the last bin or lies beyond it.
    pub open spec fn at_edge(self, i: int) -> bool {
        i + 1 >= self.bins
    }

    /// The allocation of a bin before the last, from the logarithms at its
    /// price and at the next: the growth of the supply, or zero where
    /// rounding has left the growth negative or not a number.
    pub open spec fn spec_allocation(self, log_here: Scalar, log_next: Scalar) -> Scalar {
        self.spec_supply(log_next).spec_minus(self.spec_supply(log_here)).spec_max(Scalar::zero())
    }

    /// The allocation of bin `i`, from the logarithms at its price and at
    /// the next: nothing from the last bin on, whatever the logarithms are.
    pub open spec fn spec_delta_x_of_bin(self, i: int, log_here: Scalar, log_next: Scalar) -> Scalar {
        if self.at_edge(i) {
            Scalar::zero()
        } else {
            self.spec_allocation(log_here, log_next)
        }
    }

    /// The log arguments of the bins `0..n`.
    pub open spec fn spec_log_arguments(self, n: int) -> Seq<Scalar> {
        Seq::new(
            if n > 0 {
                n as nat
            } else {
                0
            },
            |i: int| self.spec_log_argument(self.grid.spec_price_of_bin(i)),
        )
    }

    /// Whether the floor and the ceiling of the prices are in order. They
    /// are wherever the asymptotes are finite and `p_min < p_max`, unless
    /// their difference overflows.
    pub fn bounded(&self) -> (ok: bool)
        ensures
            ok == self.spec_bounded(),
    {
        let margin = self.p_max.minus(self.p_min).times(Scalar::pico());
        self.p_min.plus(margin).le(self.p_max.minus(margin))
    }

    /// The number whose logarithm the supply at the price `p` is made of.
    /// The price is first held off the asymptotes, where the logarithm has
    /// no value.
    pub fn log_argument(&self, p: Scalar) -> (r: Scalar)
        requires
            self.spec_bounded(),
        ensures
            r == self.spec_log_argument(p),
    {
        let margin = self.p_max.minus(self.p_min).times(Scalar::pico());
        let held = p.clamp(self.p_min.plus(margin), self.p_max.minus(margin));
        self.p_max.minus(held).over(held.minus(self.p_min))
    }

    /// The log arguments of all bins of the curve, in order: what the
    /// caller takes the logarithms of to make the curve. A curve of one bin
    /// or none needs none. There are none to be had (`None`) where floor and
    /// ceiling of the prices are out of order.
    pub fn log_arguments(&self) -> (r: Option<Vec<Scalar>>)
        ensures
            self.bins < 2 ==> r.is_some() && r.unwrap()@.len() == 0,
            self.bins >= 2 && !self.spec_bounded() ==> r.is_none(),
            self.bins >= 2 && self.spec_bounded() ==> r.is_some() && r.unwrap()@
                == self.spec_log_arguments(self.bins as int),
    {
        let mut out: Vec<Scalar> = Vec::new();
        if self.bins < 2 {
            return Some(out);
        }
        if !self.bounded() {
            return None;
        }
        let mut i: i64 = 0;
        while i < self.bins
            invariant
                0 <= i <= self.bins,
                self.spec_bounded(),
                out@ == self.spec_log_arguments(i as int),
            decreases self.bins - i,
        {
            out.push(self.log_argument(self.grid.price_of_bin(i)));
            assert(out@ =~= self.spec_log_arguments(i + 1));
            i += 1;
        }
        Some(out)
    }

    /// The supply for the logarithm `log` of the log argument of a price,
    /// `s_mid - log / k`.
    pub fn supply(&self, log: Scalar) -> (s: Scalar)
        ensures
            s == self.spec_supply(log),
    {
        self.s_mid.minus(log.over(self.k))
    }

    /// The allocation of bin `i`, for any `i`, from the natural logarithms
    /// of the log arguments of its price and of the next as the caller
    /// evaluated them. From the last bin on it is zero. Before that it is the
    /// growth of the supply over the bin, or zero where rounding has left the
    /// growth negative or not a number: an allocation is never below zero.
    pub fn delta_x_of_bin(&self, i: i64, log_here: Scalar, log_next: Scalar) -> (dx: Scalar)
        ensures
            dx == self.spec_delta_x_of_bin(i as int, log_here, log_next),
            !dx.nan(),
            dx.value() >= 0,
    {
        proof {
            crate::scalar::lemma_magnitude_zero(0);
        }
        if i == i64::MAX || i + 1 >= self.bins {
            return Scalar::zero();
        }
        self.supply(log_next).minus(self.supply(log_here)).max(Scalar::zero())
    }

    /// The number whose logarithm, divided by `k`, is the midpoint supply
    /// with which the supply is zero at the start price: `(p_max - p0) / (p0
    /// - p_min)`.
    pub fn midpoint_argument(grid: &Grid, p_min: Scalar, p_max: Scalar) -> (r: Scalar)
        ensures
            r == p_max.spec_minus(grid.p0).spec_over(grid.p0.spec_minus(p_min)),
    {
        p_max.minus(grid.p0).over(grid.p0.minus(p_min))
    }

    /// The midpoint supply for the logarithm `log` of the midpoint
    /// argument: `log / k`.
    pub fn midpoint_from_log(log: Scalar, k: Scalar) -> (s_mid: Scalar)
        ensures
            s_mid == log.spec_over(k),
    {
        log.over(k)
    }
}

/// The logistic curve: its parameters with, for every bin, the natural
/// logarithm of its log argument as the caller evaluated it.
#[derive(Clone, Debug)]
pub struct LogisticCurve {
    /// The parameters.
    pub params: LogisticS,
    /// The logarithm of the log argument of each bin.
    pub logs: Vec<Scalar>,
}

impl LogisticCurve {
    /// The curve with the given parameters and logarithms, of which there
    /// must be one for each bin where the curve has two bins or more.
    pub fn new(params: LogisticS, logs: Vec<Scalar>) -> (c: Option<LogisticCurve>)
        ensures
            c.is_some() <==> (params.bins >= 2 ==> logs@.len() == params.bins),
            c.is_some() ==> c.unwrap().params == params && c.unwrap().logs == logs
                && c.unwrap().valid(),
    {
        if params.bins >= 2 && (logs.len() as u64 != params.bins as u64) {
            None
        } else {
            Some(LogisticCurve { params, logs })
        }
    }

    /// No allocation is below zero or not a number, whatever the
    /// logarithms are.
    pub proof fn lemma_allocation_not_negative(&self, i: int)
        requires
            self.valid(),
            0 <= i,
        ensures
            !self.allocation_at(i).nan(),
            self.allocation_at(i).value() >= 0,
    {
        crate::scalar::lemma_magnitude_zero(0);
    }
}

impl Curve for LogisticCurve {
    open spec fn valid(&self) -> bool {
        self.params.bins >= 2 ==> self.logs@.len() == self.params.bins
    }

    open spec fn price_at(&self, i: int) -> Scalar {
        self.params.grid.spec_price_of_bin(i)
    }

    open spec fn allocation_at(&self, i: int) -> Scalar {
        if self.params.at_edge(i) || i < 0 {
            Scalar::zero()
        } else {
            self.params.spec_allocation(self.logs@[i], self.logs@[i + 1])
        }
    }

    open spec fn spec_kind(&self) -> CurveKind {
        CurveKind::LogisticS
    }

    fn kind(&self) -> (k: CurveKind) {
        CurveKind::LogisticS
    }

    fn price_of_bin(&self, i: i64) -> (p: Scalar) {
        self.params.grid.price_of_bin(i)
    }

    fn delta_x_of_bin(&self, i: i64) -> (dx: Scalar) {
        if i == i64::MAX || i + 1 >= self.params.bins {
            return Scalar::zero();
        }
        let len = self.logs.len();
        assert(len == self.params.bins);
        let at = i as usize;
        self.params.delta_x_of_bin(i, self.logs[at], self.logs[at + 1])
    }
}

/// Either curve: what a run works with once the model is chosen.
#[derive(Clone, Debug)]
pub enum AnyCurve {
    /// A geometric curve.
    Geometric(GeometricCurve),
    /// A logistic curve.
    LogisticS(LogisticCurve),
}

impl Curve for AnyCurve {
    open spec fn valid(&self) -> bool {
        match self {
            AnyCurve::Geometric(c) => c.valid(),
            AnyCurve::LogisticS(c) => c.valid(),
        }
    }

    open spec fn price_at(&self, i: int) -> Scalar {
        match self {
            AnyCurve::Geometric(c) => c.price_at(i),
            AnyCurve::LogisticS(c) => c.price_at(i),
        }
    }

    open spec fn allocation_at(&self, i: int) -> Scalar {
        match self {
            AnyCurve::Geometric(c) => c.allocation_at(i),
            AnyCurve::LogisticS(c) => c.allocation_at(i),
        }
    }

    open spec fn spec_kind(&self) -> CurveKind {
        match self {
            AnyCurve::Geometric(_) => CurveKind::Geometric,
            AnyCurve::LogisticS(_) => CurveKind::LogisticS,
        }
    }

    fn kind(&self) -> (k: CurveKind) {
        match self {
            AnyCurve::Geometric(_) => CurveKind::Geometric,
            AnyCurve::LogisticS(_) => CurveKind::LogisticS,
        }
    }

    fn price_of_bin(&self, i: i64) -> (p: Scalar) {
        match self {
            AnyCurve::Geometric(c) => c.price_of_bin(i),
            AnyCurve::LogisticS(c) => c.price_of_bin(i),
        }
    }

    fn delta_x_of_bin(&self, i: i64) -> (dx: Scalar) {
        match self {
            AnyCurve::Geometric(c) => c.delta_x_of_bin(i),
            AnyCurve::LogisticS(c) => c.delta_x_of_bin(i),
        }
    }
}

} // verus!
