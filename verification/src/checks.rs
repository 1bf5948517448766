//! The compensated sum, and the verification of a geometric curve: its
//! summed supply against the closed form, and its prices.
use crate::curves::{allocations, prices, spec_allocations, spec_prices, GeometricCurve};
use crate::error::ScheduleError;
use crate::recovery::lemma_error_recovered;
use crate::scalar::{Scalar, NEG_INFINITY_BITS};
use vstd::prelude::*;

verus! {

/// Which operand of an addition a compensated sum recovers the rounding
/// error from.
#[derive(Clone, Copy, Debug, PartialEq, Eq, Structural)]
pub enum Recovery {
    /// The running total is at least as large in magnitude as the term: with
    /// `t` the rounded sum, the error is `(total - t) + term`.
    FromTotal,
    /// Otherwise (also where either is a NaN) the error is `(term - t) +
    /// total`.
    FromTerm,
}

/// A compensated running sum: the rounded total and, apart from it, the sum
/// of the rounding errors of the additions so far. The sum that is reported
/// is `total + correction`. Kept apart, the errors do not grow with the
/// number of terms, however small the late terms are beside the total.
#[derive(Clone, Copy, Debug, PartialEq, Eq)]
pub struct StableSum {
    /// The rounded running total.
    pub total: Scalar,
    /// The rounding errors recovered so far.
    pub correction: Scalar,
}

impl StableSum {
    /// The empty sum.
    pub open spec fn spec_new() -> StableSum {
        StableSum { total: Scalar::zero(), correction: Scalar::zero() }
    }

    /// From which operand the rounding error of adding `term` is recovered:
    /// from the one that is larger in magnitude, whose low-order bits the
    /// rounded sum has kept.
    pub open spec fn spec_recovery(self, term: Scalar) -> Recovery {
        if term.spec_abs().spec_le(self.total.spec_abs()) {
            Recovery::FromTotal
        } else {
            Recovery::FromTerm
        }
    }

    /// What the rounded sum `t` of the total and `term` has lost, recovered
    /// from the operand that is larger in magnitude.
    pub open spec fn spec_lost(self, term: Scalar) -> Scalar {
        let t = self.total.spec_plus(term);
        match self.spec_recovery(term) {
            Recovery::FromTotal => self.total.spec_minus(t).spec_plus(term),
            Recovery::FromTerm => term.spec_minus(t).spec_plus(self.total),
        }
    }

    /// The sum after `term` is added: the total is the rounded sum, and the
    /// correction grows by what the rounding has lost.
    pub open spec fn spec_add(self, term: Scalar) -> StableSum {
        StableSum {
            total: self.total.spec_plus(term),
            correction: self.correction.spec_plus(self.spec_lost(term)),
        }
    }

    /// What an addition loses is recovered exactly: where the total, the
    /// term and their rounded sum are finite, the recovered number is the
    /// exact sum less the rounded sum, with no error of its own. The
    /// correction therefore collects the rounding errors of the total
    /// themselves.
    pub proof fn lemma_add_recovers_error(self, term: Scalar)
        requires
            self.total.finite(),
            term.finite(),
            self.total.spec_plus(term).finite(),
        ensures
            self.spec_lost(term).finite(),
            self.spec_lost(term).value() == self.total.value() + term.value()
                - self.total.spec_plus(term).value(),
    {
        if term.magnitude() <= self.total.magnitude() {
            lemma_error_recovered(self.total, term);
        } else {
            assert(term.spec_plus(self.total) == self.total.spec_plus(term));
            lemma_error_recovered(term, self.total);
        }
    }

    /// The sum that is reported, `total + correction`.
    pub open spec fn spec_value(self) -> Scalar {
        self.total.spec_plus(self.correction)
    }

    /// The empty sum.
    pub fn new() -> (r: StableSum)
        ensures
            r == StableSum::spec_new(),
    {
        StableSum { total: Scalar::zero(), correction: Scalar::zero() }
    }

    /// Decides how the rounding error of adding `term` is recovered.
    pub fn recovery(&self, term: Scalar) -> (r: Recovery)
        ensures
            r == self.spec_recovery(term),
    {
        if self.total.abs().ge(term.abs()) {
            Recovery::FromTotal
        } else {
            Recovery::FromTerm
        }
    }

    /// Adds `term` to the sum.
    pub fn add(&mut self, term: Scalar)
        ensures
            *final(self) == old(self).spec_add(term),
    {
        let t = self.total.plus(term);
        let lost = match self.recovery(term) {
            Recovery::FromTotal => self.total.minus(t).plus(term),
            Recovery::FromTerm => term.minus(t).plus(self.total),
        };
        self.correction = self.correction.plus(lost);
        self.total = t;
    }

    /// The sum so far, `total + correction`.
    pub fn value(&self) -> (r: Scalar)
        ensures
            r == self.spec_value(),
    {
        self.total.plus(self.correction)
    }
}

/// The compensated sum of the terms, added in order.
pub open spec fn stable_sum(terms: Seq<Scalar>) -> StableSum
    decreases terms.len(),
{
    if terms.len() == 0 {
        StableSum::spec_new()
    } else {
        stable_sum(terms.drop_last()).spec_add(terms.last())
    }
}

/// What the additions of the compensated sum of the terms have lost, one
/// number for each term. The correction of the sum is their plain sum.
pub open spec fn losses(terms: Seq<Scalar>) -> Seq<Scalar>
    decreases terms.len(),
{
    if terms.len() == 0 {
        Seq::empty()
    } else {
        losses(terms.drop_last()).push(stable_sum(terms.drop_last()).spec_lost(terms.last()))
    }
}

/// The exact sum of the values of the terms, a count of multiples of
/// 2^-1074.
pub open spec fn exact_total(terms: Seq<Scalar>) -> int
    decreases terms.len(),
{
    if terms.len() == 0 {
        0
    } else {
        exact_total(terms.drop_last()) + terms.last().value()
    }
}

/// The terms are finite, and so is the total of the compensated sum after
/// each of them.
pub open spec fn totals_finite(terms: Seq<Scalar>) -> bool
    decreases terms.len(),
{
    terms.len() == 0 || (totals_finite(terms.drop_last()) && terms.last().finite() && stable_sum(
        terms,
    ).total.finite())
}

/// Nothing is lost: as long as the totals stay finite, the total of a
/// compensated sum and the numbers that its additions have lost add up,
/// exactly, to the exact sum of the terms. What the reported sum misses of
/// the exact sum is the rounding in adding up the lost numbers, which are
/// small beside the total, and in the last addition.
pub proof fn lemma_nothing_lost(terms: Seq<Scalar>)
    requires
        totals_finite(terms),
    ensures
        stable_sum(terms).total.finite(),
        stable_sum(terms).total.value() + exact_total(losses(terms)) == exact_total(terms),
    decreases terms.len(),
{
    crate::scalar::lemma_magnitude_zero(0);
    if terms.len() > 0 {
        let before = terms.drop_last();
        lemma_nothing_lost(before);
        stable_sum(before).lemma_add_recovers_error(terms.last());
        let lost = stable_sum(before).spec_lost(terms.last());
        assert(losses(terms).drop_last() =~= losses(before));
        assert(losses(terms).last() == lost);
    }
}

/// The compensated sum of the terms, added in order.
pub fn compensated_sum(terms: &[Scalar]) -> (sum: StableSum)
    ensures
        sum == stable_sum(terms@),
{
    let mut sum = StableSum::new();
    let mut i: usize = 0;
    while i < terms.len()
        invariant
            i <= terms.len(),
            sum == stable_sum(terms@.subrange(0, i as int)),
        decreases terms.len() - i,
    {
        proof {
            let upto = terms@.subrange(0, i + 1);
            assert(upto.drop_last() =~= terms@.subrange(0, i as int));
            assert(upto.last() == terms@[i as int]);
        }
        sum.add(terms[i]);
        i += 1;
    }
    assert(terms@.subrange(0, i as int) =~= terms@);
    sum
}

/// What a verification found.
#[derive(Clone, Copy, Debug, PartialEq, Eq)]
pub struct Report {
    /// Number of bins checked.
    pub bins: i64,
    /// The supply summed over the bins.
    pub supply_sum: Scalar,
    /// The supply by the closed form.
    pub supply_closed: Option<Scalar>,
    /// The relative error of the sum against the closed form.
    pub rel_err_supply: Option<Scalar>,
    /// Whether the prices rise strictly from bin to bin.
    pub monotone_ok: bool,
}

/// Bin `i` is allocated less than zero.
pub open spec fn negative_at(delta_x: Seq<Scalar>, i: int) -> bool {
    delta_x[i].spec_lt(Scalar::zero())
}

/// Bin `i` is the first that is allocated less than zero.
pub open spec fn first_negative_at(delta_x: Seq<Scalar>, i: int) -> bool {
    &&& 0 <= i < delta_x.len()
    &&& negative_at(delta_x, i)
    &&& forall|j: int| 0 <= j < i ==> !negative_at(delta_x, j)
}

/// No bin is allocated less than zero.
pub open spec fn none_negative(delta_x: Seq<Scalar>) -> bool {
    forall|j: int| 0 <= j < delta_x.len() ==> !negative_at(delta_x, j)
}

/// The price before bin `i`: negative infinity before the first bin.
pub open spec fn price_before(prices: Seq<Scalar>, i: int) -> Scalar {
    if i == 0 {
        Scalar { bits: NEG_INFINITY_BITS }
    } else {
        prices[i - 1]
    }
}

/// The price of bin `i` is at or below the price before it.
pub open spec fn falls_at(prices: Seq<Scalar>, i: int) -> bool {
    prices[i].spec_le(price_before(prices, i))
}

/// No price is at or below the price before it. (A NaN is neither at nor
/// below any price.)
pub open spec fn strictly_increasing(prices: Seq<Scalar>) -> bool {
    forall|i: int| 0 <= i < prices.len() ==> !falls_at(prices, i)
}

/// The relative error of a sum against the closed form, `|sum - closed| /
/// |closed|`, and zero where the closed form is zero (or a NaN).
pub open spec fn spec_relative_error(sum: Scalar, closed: Scalar) -> Scalar {
    if Scalar::zero().spec_lt(closed.spec_abs()) {
        sum.spec_minus(closed).spec_abs().spec_over(closed.spec_abs())
    } else {
        Scalar::zero()
    }
}

/// The relative error of a sum against the closed form, `|sum - closed| /
/// |closed|`, and zero where the closed form is zero (or a NaN), where the
/// quotient means nothing.
pub fn relative_error(sum: Scalar, closed: Scalar) -> (r: Scalar)
    ensures
        r == spec_relative_error(sum, closed),
{
    if closed.abs().gt(Scalar::zero()) {
        sum.minus(closed).abs().over(closed.abs())
    } else {
        Scalar::zero()
    }
}

/// Whether the prices rise strictly from bin to bin.
pub fn prices_increase(prices: &[Scalar]) -> (ok: bool)
    ensures
        ok == strictly_increasing(prices@),
{
    let mut ok = true;
    let mut previous = Scalar::neg_infinity();
    let mut i: usize = 0;
    while i < prices.len()
        invariant
            i <= prices.len(),
            previous == price_before(prices@, i as int),
            ok == forall|j: int| 0 <= j < i ==> !falls_at(prices@, j),
        decreases prices.len() - i,
    {
        let p = prices[i];
        if p.le(previous) {
            ok = false;
            assert(falls_at(prices@, i as int));
        }
        previous = p;
        i += 1;
    }
    ok
}

/// The first bin that is allocated less than zero, if there is one.
pub fn first_negative(delta_x: &[Scalar]) -> (r: Option<usize>)
    ensures
        match r {
            Some(i) => first_negative_at(delta_x@, i as int),
            None => none_negative(delta_x@),
        },
{
    let mut i: usize = 0;
    while i < delta_x.len()
        invariant
            i <= delta_x.len(),
            forall|j: int| 0 <= j < i ==> !negative_at(delta_x@, j),
        decreases delta_x.len() - i,
    {
        if delta_x[i].lt(Scalar::zero()) {
            return Some(i);
        }
        i += 1;
    }
    None
}

/// The report on a geometric curve whose first `bins` allocations are none
/// of them negative.
pub open spec fn spec_report(c: &GeometricCurve, bins: int) -> Report {
    let sum = stable_sum(spec_allocations(c, bins)).spec_value();
    let closed = c.params.spec_s_n_closed(c.r, bins);
    Report {
        bins: bins as i64,
        supply_sum: sum,
        supply_closed: Some(closed),
        rel_err_supply: Some(spec_relative_error(sum, closed)),
        monotone_ok: strictly_increasing(spec_prices(c, bins)),
    }
}

/// Verifies the first `bins` bins of a geometric curve.
///
/// A curve that allocates less than zero to a bin is rejected, with the
/// first such bin. Any other is reported on: the compensated sum of its
/// allocations, the closed form of the same supply, the relative error of
/// the one against the other, and whether its prices rise strictly from bin
/// to bin. No tolerance is applied to the error; that is the caller's to
/// judge.
pub fn verify_geometric(c: &GeometricCurve, bins: i64) -> (r: Result<Report, ScheduleError>)
    ensures
        r.is_ok() <==> none_negative(spec_allocations(c, bins as int)),
        forall|i: int|
            first_negative_at(spec_allocations(c, bins as int), i) ==> r == Err::<
                Report,
                ScheduleError,
            >(ScheduleError::NegativeAllocation { bin: i as i64 }),
        none_negative(spec_allocations(c, bins as int)) ==> r == Ok::<Report, ScheduleError>(
            spec_report(c, bins as int),
        ),
{
    let delta_x = allocations(c, bins);
    match first_negative(delta_x.as_slice()) {
        Some(i) => {
            assert forall|k: int| first_negative_at(delta_x@, k) implies k == i by {
                if k < i {
                    assert(!negative_at(delta_x@, k));
                }
                if i < k {
                    assert(!negative_at(delta_x@, i as int));
                }
            }
            Err(ScheduleError::NegativeAllocation { bin: i as i64 })
        },
        None => {
            let sum = compensated_sum(delta_x.as_slice()).value();
            let closed = c.s_n_closed(bins);
            let grid = prices(c, bins);
            Ok(
                Report {
                    bins,
                    supply_sum: sum,
                    supply_closed: Some(closed),
                    rel_err_supply: Some(relative_error(sum, closed)),
                    monotone_ok: prices_increase(grid.as_slice()),
                },
            )
        },
    }
}

} // verus!
