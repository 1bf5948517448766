//! The capped fee schedule, the price guards, and the launch-phase policy:
//! a list of exempt addresses and a surcharge that decays over a ramp.
use crate::error::ScheduleError;
use crate::order::{
    lemma_min_keeps_order, lemma_plus_keeps_order, lemma_share_is_finite,
    lemma_square_keeps_order, lemma_times_keeps_order, not_negative,
};
use crate::scalar::Scalar;
use crate::setup::{fee_cap_ok, impact_ok, validate_price_guard};
use vstd::hash_set::StringHashSet;
use vstd::prelude::*;

verus! {

/// The fee schedule, in decimal rates. With `s = bin_step_bps / 10000` the
/// base fee is `base_factor * s`, the variable fee for a volatility
/// accumulator `va` is `variable_fee_control * (va * s)^2`, and the total is
/// their sum, capped at `max_fee_rate`.
#[derive(Clone, Copy, Debug, PartialEq, Eq)]
pub struct DlmmFeeParams {
    /// Base factor.
    pub base_factor: Scalar,
    /// Bin step in basis points.
    pub bin_step_bps: Scalar,
    /// Variable fee control.
    pub variable_fee_control: Scalar,
    /// Largest total fee, as a decimal rate (0.05 is 5 %).
    pub max_fee_rate: Scalar,
}

impl DlmmFeeParams {
    /// The bin step as a decimal, `s = bin_step_bps / 10000`.
    pub open spec fn spec_s_dec(self) -> Scalar {
        self.bin_step_bps.spec_over(Scalar::ten_thousand())
    }

    /// The base fee, `base_factor * s`.
    pub open spec fn spec_base_fee_rate(self) -> Scalar {
        self.base_factor.spec_times(self.spec_s_dec())
    }

    /// The variable fee for the volatility accumulator `va`,
    /// `variable_fee_control * (va * s)^2`.
    pub open spec fn spec_variable_fee_rate(self, va: Scalar) -> Scalar {
        self.variable_fee_control.spec_times(va.spec_times(self.spec_s_dec()).spec_powi(2))
    }

    /// The cap that is applied: `max_fee_rate`, or zero where that is
    /// negative or a NaN.
    pub open spec fn spec_cap(self) -> Scalar {
        self.max_fee_rate.spec_max(Scalar::zero())
    }

    /// The sum of the base fee and the variable fee.
    pub open spec fn spec_uncapped_fee_rate(self, va: Scalar) -> Scalar {
        self.spec_base_fee_rate().spec_plus(self.spec_variable_fee_rate(va))
    }

    /// The total fee: the lesser of the uncapped fee and the cap, and the
    /// cap where the uncapped fee is a NaN.
    pub open spec fn spec_total_fee_rate(self, va: Scalar) -> Scalar {
        self.spec_uncapped_fee_rate(va).spec_min(self.spec_cap())
    }

    /// The parameters are what a fee schedule is made of: the factors and
    /// the bin step are finite numbers, none negative and the step above
    /// zero, and the cap is a rate in `[0, 1]`.
    pub open spec fn valid(self) -> bool {
        &&& not_negative(self.base_factor) && self.base_factor.finite()
        &&& not_negative(self.variable_fee_control) && self.variable_fee_control.finite()
        &&& self.bin_step_bps.finite() && self.bin_step_bps.value() > 0
        &&& fee_cap_ok(self.max_fee_rate)
    }

    /// The total fee never exceeds the cap, whatever the volatility is.
    pub proof fn lemma_fee_never_exceeds_cap(self, va: Scalar)
        requires
            self.valid(),
        ensures
            self.spec_total_fee_rate(va).spec_le(self.max_fee_rate),
    {
        crate::scalar::lemma_magnitude_zero(0);
    }

    /// The total fee does not fall as the volatility grows, at the cap or
    /// under it.
    pub proof fn lemma_fee_rises_with_volatility(self, lesser: Scalar, greater: Scalar)
        requires
            self.valid(),
            !lesser.nan(),
            !greater.nan(),
            0 <= lesser.value() <= greater.value(),
        ensures
            self.spec_total_fee_rate(lesser).spec_le(self.spec_total_fee_rate(greater)),
    {
        let s = self.spec_s_dec();
        crate::scalar::lemma_ten_thousand_magnitude();
        crate::scalar::lemma_one_magnitude();
        crate::scalar::lemma_magnitude_zero(0);
        lemma_share_is_finite(self.bin_step_bps, Scalar::ten_thousand(), 10000);
        // the volatility in bin steps, and its square
        let t1 = lesser.spec_times(s);
        let t2 = greater.spec_times(s);
        lemma_times_keeps_order(lesser, greater, s);
        let q1 = t1.spec_times(t1);
        let q2 = t2.spec_times(t2);
        lemma_square_keeps_order(t1, t2);
        let u1 = Scalar::one().spec_times(q1);
        let u2 = Scalar::one().spec_times(q2);
        lemma_times_keeps_order(q1, q2, Scalar::one());
        assert(t1.spec_powi(2) == u1 && t2.spec_powi(2) == u2) by {
            reveal_with_fuel(Scalar::spec_power_from, 3);
        }
        // the variable fee and the sum
        let v1 = self.variable_fee_control.spec_times(u1);
        let v2 = self.variable_fee_control.spec_times(u2);
        lemma_times_keeps_order(u1, u2, self.variable_fee_control);
        let base = self.spec_base_fee_rate();
        lemma_times_keeps_order(self.base_factor, self.base_factor, s);
        let cap = self.spec_cap();
        if !base.nan() {
            lemma_plus_keeps_order(base, v1, v2);
            lemma_min_keeps_order(base.spec_plus(v1), base.spec_plus(v2), cap);
        }
    }

    fn s_dec(&self) -> (r: Scalar)
        ensures
            r == self.spec_s_dec(),
    {
        self.bin_step_bps.over(Scalar::ten_thousand())
    }

    /// The base fee, `base_factor * s`.
    pub fn base_fee_rate(&self) -> (r: Scalar)
        ensures
            r == self.spec_base_fee_rate(),
    {
        self.base_factor.times(self.s_dec())
    }

    /// The variable fee, `variable_fee_control * (va * s)^2`: quadratic in
    /// the volatility accumulator.
    pub fn variable_fee_rate(&self, volatility_accumulator: Scalar) -> (r: Scalar)
        ensures
            r == self.spec_variable_fee_rate(volatility_accumulator),
    {
        let s = self.s_dec();
        self.variable_fee_control.times(volatility_accumulator.times(s).powi(2))
    }

    /// The cap that is applied to the total fee: never below zero, never a
    /// NaN.
    pub fn cap(&self) -> (r: Scalar)
        ensures
            r == self.spec_cap(),
            !r.nan(),
            r.value() >= 0,
            fee_cap_ok(self.max_fee_rate) ==> r == self.max_fee_rate,
    {
        proof {
            crate::scalar::lemma_magnitude_zero(0);
        }
        self.max_fee_rate.max(Scalar::zero())
    }

    /// The total fee: base fee plus variable fee, capped. The cap is a hard
    /// ceiling: whatever the sum is, also an infinity or a NaN, the total is
    /// a number and does not exceed the cap.
    pub fn total_fee_rate(&self, va: Scalar) -> (r: Scalar)
        ensures
            r == self.spec_total_fee_rate(va),
            r.spec_le(self.spec_cap()),
            fee_cap_ok(self.max_fee_rate) ==> r.spec_le(self.max_fee_rate),
    {
        self.base_fee_rate().plus(self.variable_fee_rate(va)).min(self.cap())
    }

    /// The least acceptable price when selling X for Y at the spot price
    /// `spot_price`, for a price impact of at most `max_price_impact_bps`
    /// basis points: `spot_price * 10000 / (10000 - max_price_impact_bps)`.
    /// An impact outside `[0, 10000)` is rejected; at 10000 the denominator
    /// vanishes.
    pub fn min_price_sell_x_for_y(spot_price: Scalar, max_price_impact_bps: Scalar) -> (r: Result<
        Scalar,
        ScheduleError,
    >)
        ensures
            r == if impact_ok(max_price_impact_bps) {
                Ok::<Scalar, ScheduleError>(
                    spot_price.spec_times(Scalar::ten_thousand()).spec_over(
                        Scalar::ten_thousand().spec_minus(max_price_impact_bps),
                    ),
                )
            } else {
                Err::<Scalar, ScheduleError>(
                    ScheduleError::InvalidPriceGuard { value: max_price_impact_bps },
                )
            },
    {
        match validate_price_guard(max_price_impact_bps) {
            Err(e) => Err(e),
            Ok(()) => Ok(
                spot_price.times(Scalar::ten_thousand()).over(
                    Scalar::ten_thousand().minus(max_price_impact_bps),
                ),
            ),
        }
    }

    /// The least acceptable price when selling Y for X: `spot_price *
    /// (10000 - max_price_impact_bps) / 10000`. An impact outside `[0,
    /// 10000)` is rejected.
    pub fn min_price_sell_y_for_x(spot_price: Scalar, max_price_impact_bps: Scalar) -> (r: Result<
        Scalar,
        ScheduleError,
    >)
        ensures
            r == if impact_ok(max_price_impact_bps) {
                Ok::<Scalar, ScheduleError>(
                    spot_price.spec_times(
                        Scalar::ten_thousand().spec_minus(max_price_impact_bps),
                    ).spec_over(Scalar::ten_thousand()),
                )
            } else {
                Err::<Scalar, ScheduleError>(
                    ScheduleError::InvalidPriceGuard { value: max_price_impact_bps },
                )
            },
    {
        match validate_price_guard(max_price_impact_bps) {
            Err(e) => Err(e),
            Ok(()) => Ok(
                spot_price.times(Scalar::ten_thousand().minus(max_price_impact_bps)).over(
                    Scalar::ten_thousand(),
                ),
            ),
        }
    }
}

/// Where a time lies relative to the ramp of the launch surcharge.
#[derive(Clone, Copy, Debug, PartialEq, Eq, Structural)]
pub enum RampPhase {
    /// At or before the launch.
    BeforeLaunch,
    /// On the ramp, where the surcharge is interpolated.
    OnRamp,
    /// At or after the end of the ramp.
    Settled,
}

/// The set of the addresses in a list.
pub open spec fn address_set(addresses: Seq<String>) -> Set<Seq<char>> {
    Set::new(|a: Seq<char>| exists|i: int| 0 <= i < addresses.len() && addresses[i]@ == a)
}

/// The lines of a text, as `str::lines` yields them: the pieces between
/// line endings (`\n` or `\r\n`), without the endings.
pub uninterp spec fn lines_of(text: Seq<char>) -> Seq<Seq<char>>;

/// A line without its leading and trailing whitespace, as `str::trim`
/// yields it.
pub uninterp spec fn trimmed(line: Seq<char>) -> Seq<char>;

/// Calls `str::lines` and collects what it yields. Trusted: the lines, in
/// their order, are the ones that `lines_of` names.
#[verifier::external_body]
fn split_lines<'a>(text: &'a str) -> (lines: Vec<&'a str>)
    ensures
        lines@.len() == lines_of(text@).len(),
        forall|i: int| 0 <= i < lines@.len() ==> (#[trigger] lines@[i])@ == lines_of(text@)[i],
{
    text.lines().collect()
}

/// Calls `str::trim`. Trusted: the result is the one that `trimmed` names.
#[verifier::external_body]
fn trim<'a>(line: &'a str) -> (r: &'a str)
    ensures
        r@ == trimmed(line@),
{
    line.trim()
}

/// The addresses that a sequence of lines lists: each line trimmed, in
/// order, without the lines that are empty once trimmed.
pub open spec fn listed(lines: Seq<Seq<char>>) -> Seq<Seq<char>>
    decreases lines.len(),
{
    if lines.len() == 0 {
        Seq::empty()
    } else {
        let before = listed(lines.drop_last());
        let address = trimmed(lines.last());
        if address.len() == 0 {
            before
        } else {
            before.push(address)
        }
    }
}

/// The addresses of an allowlist text, which names one address per line.
/// Whitespace around an address is dropped, and so are blank lines. An
/// address that is listed twice comes out twice.
pub fn parse_allowlist(text: &str) -> (addresses: Vec<String>)
    ensures
        addresses@.len() == listed(lines_of(text@)).len(),
        forall|i: int|
            0 <= i < addresses@.len() ==> (#[trigger] addresses@[i])@ == listed(
                lines_of(text@),
            )[i],
{
    let lines = split_lines(text);
    let ghost all = lines_of(text@);
    let mut addresses: Vec<String> = Vec::new();
    let mut i: usize = 0;
    while i < lines.len()
        invariant
            i <= lines.len(),
            lines@.len() == all.len(),
            forall|j: int| 0 <= j < lines@.len() ==> (#[trigger] lines@[j])@ == all[j],
            addresses@.len() == listed(all.subrange(0, i as int)).len(),
            forall|j: int|
                0 <= j < addresses@.len() ==> (#[trigger] addresses@[j])@ == listed(
                    all.subrange(0, i as int),
                )[j],
        decreases lines.len() - i,
    {
        let address = trim(lines[i]);
        proof {
            let upto = all.subrange(0, i + 1);
            assert(upto.drop_last() =~= all.subrange(0, i as int));
            assert(upto.last() == all[i as int]);
        }
        if !address.is_empty() {
            addresses.push(address.to_owned());
        }
        i += 1;
    }
    assert(all.subrange(0, i as int) =~= all);
    addresses
}

/// The launch-phase policy: the addresses that are exempt from the launch
/// surcharge, and the surcharge in percent, which runs linearly from
/// `tau_start_pct` at the launch to `tau_end_pct` after `ramp_secs` seconds
/// and stays there. The exempt addresses are fixed when the policy is made.
pub struct LaunchPhasePolicy {
    allowlist: StringHashSet,
    tau_start_pct: Scalar,
    tau_end_pct: Scalar,
    ramp_secs: Scalar,
}

impl LaunchPhasePolicy {
    /// The exempt addresses.
    pub closed spec fn exempt(&self) -> Set<Seq<char>> {
        self.allowlist@
    }

    /// Surcharge in percent at the launch.
    pub closed spec fn spec_tau_start_pct(&self) -> Scalar {
        self.tau_start_pct
    }

    /// Surcharge in percent from the end of the ramp on.
    pub closed spec fn spec_tau_end_pct(&self) -> Scalar {
        self.tau_end_pct
    }

    /// Length of the ramp in seconds.
    pub closed spec fn spec_ramp_secs(&self) -> Scalar {
        self.ramp_secs
    }

    /// The phase of the time `t`, in seconds since the launch.
    pub open spec fn spec_phase(&self, t: Scalar) -> RampPhase {
        if t.spec_le(Scalar { bits: 0 }) {
            RampPhase::BeforeLaunch
        } else if self.spec_ramp_secs().spec_le(t) {
            RampPhase::Settled
        } else {
            RampPhase::OnRamp
        }
    }

    /// The surcharge in percent at the time `t`.
    pub open spec fn spec_tau(&self, t: Scalar) -> Scalar {
        let start = self.spec_tau_start_pct();
        let end = self.spec_tau_end_pct();
        match self.spec_phase(t) {
            RampPhase::BeforeLaunch => start.spec_max(end),
            RampPhase::Settled => end,
            RampPhase::OnRamp => start.spec_plus(
                t.spec_over(self.spec_ramp_secs()).spec_times(end.spec_minus(start)),
            ),
        }
    }

    /// A policy that exempts exactly the listed addresses.
    pub fn new(
        addresses: Vec<String>,
        tau_start_pct: Scalar,
        tau_end_pct: Scalar,
        ramp_secs: Scalar,
    ) -> (r: LaunchPhasePolicy)
        ensures
            r.exempt() == address_set(addresses@),
            r.spec_tau_start_pct() == tau_start_pct,
            r.spec_tau_end_pct() == tau_end_pct,
            r.spec_ramp_secs() == ramp_secs,
    {
        let mut allowlist = StringHashSet::new();
        let mut i: usize = 0;
        while i < addresses.len()
            invariant
                i <= addresses.len(),
                forall|a: Seq<char>|
                    allowlist@.contains(a) <==> exists|j: int|
                        0 <= j < i && addresses@[j]@ == a,
            decreases addresses.len() - i,
        {
            let ghost before = allowlist@;
            allowlist.insert(addresses[i].clone());
            assert forall|a: Seq<char>| allowlist@.contains(a) <==> exists|j: int|
                0 <= j < i + 1 && addresses@[j]@ == a by {
                if allowlist@.contains(a) {
                    if before.contains(a) {
                        let j = choose|j: int| 0 <= j < i && addresses@[j]@ == a;
                        assert(0 <= j < i + 1 && addresses@[j]@ == a);
                    } else {
                        assert(addresses@[i as int]@ == a);
                    }
                }
                if exists|j: int| 0 <= j < i + 1 && addresses@[j]@ == a {
                    let j = choose|j: int| 0 <= j < i + 1 && addresses@[j]@ == a;
                    if j < i {
                        assert(before.contains(a));
                    }
                }
            }
            i += 1;
        }
        assert(allowlist@ =~= address_set(addresses@));
        LaunchPhasePolicy { allowlist, tau_start_pct, tau_end_pct, ramp_secs }
    }

    /// Whether `addr` is exempt from the surcharge: whether it is one of the
    /// addresses that the policy was made with, character for character.
    pub fn is_allowed(&self, addr: &str) -> (r: bool)
        ensures
            r == self.exempt().contains(addr@),
    {
        self.allowlist.contains(addr)
    }

    /// Surcharge in percent at the launch.
    pub fn tau_start_pct(&self) -> (r: Scalar)
        ensures
            r == self.spec_tau_start_pct(),
    {
        self.tau_start_pct
    }

    /// Surcharge in percent from the end of the ramp on.
    pub fn tau_end_pct(&self) -> (r: Scalar)
        ensures
            r == self.spec_tau_end_pct(),
    {
        self.tau_end_pct
    }

    /// Length of the ramp in seconds.
    pub fn ramp_secs(&self) -> (r: Scalar)
        ensures
            r == self.spec_ramp_secs(),
    {
        self.ramp_secs
    }

    /// The number of exempt addresses.
    pub fn allowlist_len(&self) -> (r: usize)
        ensures
            r == self.exempt().len(),
    {
        self.allowlist.len()
    }

    /// The phase of the time `t`, in seconds since the launch. A time that
    /// is a NaN, or any time after the launch where the ramp length is a NaN,
    /// counts as on the ramp.
    pub fn phase(&self, t: Scalar) -> (r: RampPhase)
        ensures
            r == self.spec_phase(t),
    {
        if t.le(Scalar::zero()) {
            RampPhase::BeforeLaunch
        } else if t.ge(self.ramp_secs) {
            RampPhase::Settled
        } else {
            RampPhase::OnRamp
        }
    }

    /// The surcharge in percent at the time `t`, in seconds since the
    /// launch. At or before the launch it is the greater of the start and
    /// the end value, from the end of the ramp on it is the end value, and
    /// between them it runs linearly from the one to the other:
    /// `tau_start_pct + (t / ramp_secs) * (tau_end_pct - tau_start_pct)`.
    pub fn tau(&self, t: Scalar) -> (r: Scalar)
        ensures
            r == self.spec_tau(t),
    {
        match self.phase(t) {
            RampPhase::BeforeLaunch => self.tau_start_pct.max(self.tau_end_pct),
            RampPhase::Settled => self.tau_end_pct,
            RampPhase::OnRamp => self.tau_start_pct.plus(
                t.over(self.ramp_secs).times(self.tau_end_pct.minus(self.tau_start_pct)),
            ),
        }
    }
}

} // verus!
