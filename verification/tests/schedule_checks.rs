use bcurve::chart::{fee_vs_vol, price_vs_supply, tokens_per_bin, x_extent, y_peak, y_top};
use bcurve::checks::{
    compensated_sum, first_negative, prices_increase, relative_error, verify_geometric, Recovery,
    StableSum,
};
use bcurve::curves::{Curve, Geometric, GeometricCurve, Grid};
use bcurve::dlmm::DlmmFeeParams;
use bcurve::error::ScheduleError;
use bcurve::scalar::Scalar;
use bcurve::schedule::{columns, guard_bins, guards, rows, COLUMN_COUNT};

fn s(x: f64) -> Scalar {
    Scalar::from_bits(x.to_bits())
}

fn f(x: Scalar) -> f64 {
    f64::from_bits(x.to_bits())
}

fn all(xs: &[f64]) -> Vec<Scalar> {
    xs.iter().map(|x| s(*x)).collect()
}

fn geometric(p0: f64, step: f64, theta: f64, r0: f64) -> GeometricCurve {
    let params =
        Geometric { grid: Grid { p0: s(p0), bin_step_bps: s(step) }, theta: s(theta), r0_quote: s(r0) };
    let r = f(params.grid.q()).powf(f(params.decay_exponent()));
    GeometricCurve::new(params, s(r))
}

fn fees(base: f64, step: f64, control: f64, cap: f64) -> DlmmFeeParams {
    DlmmFeeParams {
        base_factor: s(base),
        bin_step_bps: s(step),
        variable_fee_control: s(control),
        max_fee_rate: s(cap),
    }
}

// The same computations in hardware floats, to hold the library against.
/// The hardware power, taken at run time: a power of constants may be
/// folded when the test is compiled, to a differently rounded value.
fn powi(x: f64, n: i64) -> f64 {
    std::hint::black_box(x).powi(std::hint::black_box(n as i32))
}

struct Floats {
    p0: f64,
    q: f64,
    r: f64,
    dx0: f64,
}

fn floats(p0: f64, step: f64, theta: f64, r0: f64) -> Floats {
    let q = 1.0 + step / 10_000.0;
    Floats { p0, q, r: q.powf(theta - 1.0), dx0: r0 / p0 }
}

fn price(c: &Floats, i: i64) -> f64 {
    c.p0 * powi(c.q, i)
}

fn delta_x(c: &Floats, i: i64) -> f64 {
    c.dx0 * powi(c.r, i)
}

fn closed(c: &Floats, n: i64) -> f64 {
    if (c.r - 1.0).abs() < 1e-12 {
        c.dx0 * n as f64
    } else {
        c.dx0 * (1.0 - powi(c.r, n)) / (1.0 - c.r)
    }
}

struct Neumaier {
    sum: f64,
    comp: f64,
}

fn push(n: &mut Neumaier, x: f64) {
    let t = n.sum + x;
    if n.sum.abs() >= x.abs() {
        n.comp += (n.sum - t) + x;
    } else {
        n.comp += (x - t) + n.sum;
    }
    n.sum = t;
}

fn neumaier(terms: &[f64]) -> f64 {
    let mut n = Neumaier { sum: 0.0, comp: 0.0 };
    for t in terms {
        push(&mut n, *t);
    }
    n.sum + n.comp
}

#[test]
fn schedule_has_one_header_and_no_demo_cols() {
    let names = columns();
    assert_eq!(names.len(), COLUMN_COUNT);
    let header = names.join(",");
    assert_eq!(
        header,
        "bin,price,delta_x,supply_cum,revenue_bin,revenue_cum,fee_base,fee_var,fee_total"
    );
    assert!(header.starts_with("bin,price,delta_x"));
    assert!(!header.contains("surcharge_launch_pct"), "no example surcharge columns");
    assert!(!header.contains("fee_total_plus_surcharge"), "no example surcharge columns");
    assert_eq!(names.iter().filter(|n| **n == "bin").count(), 1);
    let c = geometric(0.01, 10.0, 0.6, 100.0);
    assert_eq!(rows(&c, 5, &fees(0.0, 10.0, 0.0, 0.10), s(0.0)).len(), 5);
}

#[test]
fn compensated_summation_accuracy() {
    let c = geometric(0.01, 10.0, 0.6, 100.0);
    let table = rows(&c, 100, &fees(0.0, 10.0, 0.0, 0.10), s(0.0));
    let last = table.last().expect("should have data rows");
    let supply_cum = f(last.supply_cum);
    let revenue_cum = f(last.revenue_cum);
    assert!(supply_cum.is_finite(), "supply_cum should be finite");
    assert!(revenue_cum.is_finite(), "revenue_cum should be finite");
    assert!(supply_cum > 0.0, "supply_cum should be positive");
    assert!(revenue_cum > 0.0, "revenue_cum should be positive");
    let closed = f(c.s_n_closed(100));
    assert!((supply_cum - closed).abs() / closed.abs() <= 1e-9);
}

#[test]
fn five_bin_geometric_schedule() {
    let c = geometric(0.01, 10.0, 0.6, 100.0);
    let table = rows(&c, 5, &fees(0.0, 10.0, 0.0, 0.10), s(0.0));
    assert_eq!(table.len(), 5);
    for i in 1..5 {
        assert!(table[i - 1].price.lt(table[i].price), "price must rise at bin {i}");
        assert!(table[i].delta_x.lt(table[i - 1].delta_x), "allocation must fall at bin {i}");
    }
    let s5 = f(c.s_n_closed(5));
    let last = f(table[4].supply_cum);
    assert!((last - s5).abs() / s5.abs() <= 1e-9, "supply {last} against {s5}");
    let report = verify_geometric(&c, 5).unwrap();
    assert_eq!(report.bins, 5);
    assert!(report.monotone_ok);
    assert_eq!(report.supply_sum, table[4].supply_cum);
    assert_eq!(report.supply_closed.map(f), Some(s5));
    assert!(f(report.rel_err_supply.unwrap()) <= 1e-9);
}

#[test]
fn rows_agree_with_the_hardware() {
    for (p0, step, theta, r0, n, va) in [
        (0.01, 10.0, 0.6, 100.0, 200i64, 0.0),
        (1e-6, 1.0, 0.1, 1e-6, 1500, 12.5),
        (9.9, 99.0, 0.98, 1e6, 700, 49.0),
        (2.0, 25.0, 1.4, 3.0, 300, 3.0),
    ] {
        let c = geometric(p0, step, theta, r0);
        let fl = floats(p0, step, theta, r0);
        assert_eq!(f(c.r), fl.r);
        let fee = fees(0.3, step, 0.2, 0.05);
        let table = rows(&c, n, &fee, s(va));
        assert_eq!(table.len(), n as usize);
        let mut supply = Neumaier { sum: 0.0, comp: 0.0 };
        let mut revenue = Neumaier { sum: 0.0, comp: 0.0 };
        let step_dec = step / 10_000.0;
        let fee_b = 0.3 * step_dec;
        let fee_v = 0.2 * (va * step_dec).powi(2);
        let fee_t = (fee_b + fee_v).min(0.05);
        for i in 0..n {
            let p = price(&fl, i);
            let dx = delta_x(&fl, i);
            push(&mut supply, dx);
            push(&mut revenue, p * dx);
            let row = table[i as usize];
            assert_eq!(row.bin, i);
            assert_eq!(f(row.price), p, "price of bin {i}");
            assert_eq!(f(row.delta_x), dx, "allocation of bin {i}");
            assert_eq!(f(row.revenue_bin), p * dx);
            assert_eq!(f(row.supply_cum), supply.sum + supply.comp, "supply at bin {i}");
            assert_eq!(f(row.revenue_cum), revenue.sum + revenue.comp, "revenue at bin {i}");
            assert_eq!(f(row.fee_base), fee_b);
            assert_eq!(f(row.fee_var), fee_v);
            assert_eq!(f(row.fee_total), fee_t);
        }
    }
    let c = geometric(0.01, 10.0, 0.6, 100.0);
    assert_eq!(rows(&c, 0, &fees(0.0, 10.0, 0.0, 0.1), s(0.0)).len(), 0);
    assert_eq!(rows(&c, -3, &fees(0.0, 10.0, 0.0, 0.1), s(0.0)).len(), 0);
}

#[test]
fn geometric_closed_form_matches_sum() {
    for (p0, step, theta, r0, n) in [
        (0.01, 10.0, 0.6, 100.0, 500i64),
        (1e-6, 1.0, 0.1, 1e-6, 1999),
        (9.9, 99.0, 0.98, 1e6, 1200),
        (1.0, 50.0, 0.5, 3.0, 1),
        (3.3, 42.0, 0.99, 1e-6, 1999),
    ] {
        let c = geometric(p0, step, theta, r0);
        let fl = floats(p0, step, theta, r0);
        let report = verify_geometric(&c, n).unwrap();
        let dx: Vec<f64> = (0..n).map(|i| delta_x(&fl, i)).collect();
        let sum = neumaier(&dx);
        let cf = closed(&fl, n);
        assert_eq!(f(report.supply_sum), sum);
        assert_eq!(report.supply_closed.map(f), Some(cf));
        assert_eq!(report.rel_err_supply.map(f), Some((sum - cf).abs() / cf.abs()));
        assert!(f(report.rel_err_supply.unwrap()) <= 1e-9);
        assert!(report.monotone_ok);
        assert_eq!(report.bins, n);
    }
}

#[test]
fn a_negative_allocation_is_rejected_at_its_first_bin() {
    let negative = geometric(0.01, 10.0, 0.6, -100.0);
    assert_eq!(verify_geometric(&negative, 5), Err(ScheduleError::NegativeAllocation { bin: 0 }));
    let mut alternating = geometric(0.01, 10.0, 0.6, 100.0);
    alternating.r = s(-0.5);
    assert_eq!(verify_geometric(&alternating, 5), Err(ScheduleError::NegativeAllocation { bin: 1 }));
    assert!(verify_geometric(&alternating, 1).is_ok());
    let dx = all(&[1.0, 0.5, -0.25, 0.1, -3.0]);
    assert_eq!(first_negative(&dx), Some(2));
    assert_eq!(first_negative(&all(&[0.0, -0.0, f64::NAN, 1.0])), None);
    assert_eq!(first_negative(&all(&[-1e-300])), Some(0));
    assert_eq!(first_negative(&[]), None);
}

#[test]
fn an_empty_schedule_is_reported_on() {
    let c = geometric(0.01, 10.0, 0.6, 100.0);
    for bins in [0, -4] {
        let report = verify_geometric(&c, bins).unwrap();
        assert_eq!(report.bins, bins);
        assert!(report.monotone_ok);
        assert_eq!(report.supply_sum.to_bits(), 0);
    }
    assert_eq!(verify_geometric(&c, 0).unwrap().rel_err_supply.map(f), Some(0.0));
}

#[test]
fn prices_must_rise_strictly() {
    assert!(prices_increase(&all(&[0.01, 0.0101, 0.0102])));
    assert!(prices_increase(&all(&[-5.0])));
    assert!(prices_increase(&[]));
    assert!(!prices_increase(&all(&[0.01, 0.01])));
    assert!(!prices_increase(&all(&[0.01, 0.02, 0.015])));
    assert!(!prices_increase(&all(&[0.0, -0.0])));
    assert!(!prices_increase(&all(&[f64::NEG_INFINITY, 1.0])));
    assert!(!prices_increase(&all(&[1.0, f64::INFINITY, f64::INFINITY])));
    let far = geometric(1e300, 100.0, 0.6, 1.0);
    assert!(!verify_geometric(&far, 2000).unwrap().monotone_ok);
    let tiny = geometric(5e-324, 1.0, 0.6, 1e-320);
    assert!(!verify_geometric(&tiny, 3).unwrap().monotone_ok);
}

#[test]
fn price_of_bin_rises_on_the_grid() {
    for (p0, step, n) in [(0.01, 10.0, 2000i64), (1e-6, 1.0, 2000), (10.0, 100.0, 500)] {
        let c = geometric(p0, step, 0.6, 1.0);
        assert!(verify_geometric(&c, n).unwrap().monotone_ok);
        let mut previous = f64::NEG_INFINITY;
        for i in 0..n {
            let p = f(c.price_of_bin(i));
            assert!(p > previous);
            previous = p;
        }
    }
}

#[test]
fn the_relative_error_of_a_zero_closed_form_is_zero() {
    assert_eq!(f(relative_error(s(1.0), s(0.0))), 0.0);
    assert_eq!(f(relative_error(s(1.0), s(-0.0))), 0.0);
    assert_eq!(f(relative_error(s(1.0), s(f64::NAN))), 0.0);
    assert_eq!(f(relative_error(s(2.5), s(2.0))), 0.25);
    assert_eq!(f(relative_error(s(-2.5), s(-2.0))), 0.25);
    assert_eq!(f(relative_error(s(1.5), s(-2.0))), 1.75);
    assert_eq!(f(relative_error(s(3.0), s(3.0))), 0.0);
    for (sum, closed) in [(1.0000000001, 1.0), (9.99e5, 1e6), (1e-300, 3e-300)] {
        let want = (sum - closed as f64).abs() / f64::abs(closed);
        assert_eq!(f(relative_error(s(sum), s(closed))), want);
    }
}

#[test]
fn the_error_is_recovered_from_the_larger_operand() {
    let at = |total: f64, term: f64| {
        StableSum { total: s(total), correction: s(0.0) }.recovery(s(term))
    };
    assert_eq!(at(1.0, 1e-20), Recovery::FromTotal);
    assert_eq!(at(1e-20, 1.0), Recovery::FromTerm);
    assert_eq!(at(-3.0, 2.0), Recovery::FromTotal);
    assert_eq!(at(2.0, -3.0), Recovery::FromTerm);
    assert_eq!(at(2.0, -2.0), Recovery::FromTotal);
    assert_eq!(at(0.0, 0.0), Recovery::FromTotal);
    assert_eq!(at(f64::NAN, 1.0), Recovery::FromTerm);
    assert_eq!(at(1.0, f64::NAN), Recovery::FromTerm);
}

#[test]
fn the_compensated_sum_keeps_small_terms() {
    let mut terms = vec![1.0];
    terms.extend(std::iter::repeat(1e-16).take(10_000));
    let naive: f64 = terms.iter().sum();
    assert_eq!(naive, 1.0);
    assert_eq!(f(compensated_sum(&all(&terms)).value()), 1.0 + 1e-12);
    assert_eq!(f(compensated_sum(&all(&[1e100, 1.0, -1e100])).value()), 1.0);
    assert_eq!(f(compensated_sum(&[]).value()), 0.0);
    let empty = StableSum::new();
    assert_eq!(empty.total.to_bits(), 0);
    assert_eq!(empty.correction.to_bits(), 0);
}

#[test]
fn the_compensated_sum_agrees_with_the_hardware() {
    let mut seed: u64 = 12345;
    let mut terms = Vec::new();
    for i in 0..5000 {
        seed = seed.wrapping_mul(6364136223846793005).wrapping_add(1442695040888963407);
        let mantissa = (seed >> 11) as f64 / (1u64 << 53) as f64;
        let scale = 10f64.powi((i % 40) - 20);
        let sign = if seed & 1 == 0 { 1.0 } else { -1.0 };
        terms.push(sign * mantissa * scale);
    }
    let mut step = StableSum::new();
    let mut reference = Neumaier { sum: 0.0, comp: 0.0 };
    for t in &terms {
        step.add(s(*t));
        push(&mut reference, *t);
        assert_eq!(f(step.total), reference.sum);
        assert_eq!(f(step.correction), reference.comp);
        assert_eq!(f(step.value()), reference.sum + reference.comp);
    }
    assert_eq!(f(compensated_sum(&all(&terms)).value()), neumaier(&terms));
}

#[test]
fn the_peak_is_the_greatest_number_with_a_floor() {
    let pts = |ys: &[f64]| -> Vec<(Scalar, Scalar)> { ys.iter().map(|y| (s(0.0), s(*y))).collect() };
    assert_eq!(f(y_peak(&pts(&[1.0, 7.5, 3.0]))), 7.5);
    assert_eq!(f(y_peak(&pts(&[1.0, f64::NAN, 3.0]))), 3.0);
    assert_eq!(f(y_peak(&pts(&[-1.0, -7.5]))), 1e-12);
    assert_eq!(f(y_peak(&pts(&[0.0, 0.0]))), 1e-12);
    assert_eq!(f(y_peak(&pts(&[1e-13]))), 1e-12);
    assert_eq!(f(y_peak(&[])), 1e-12);
    assert_eq!(f(y_peak(&pts(&[2.0, f64::INFINITY]))), f64::INFINITY);
    let ys = [0.3, 0.9, 0.1, f64::NAN, 0.95];
    let want = ys.iter().copied().fold(0.0, f64::max).max(1e-12);
    assert_eq!(f(y_peak(&pts(&ys))), want);
    assert_eq!(f(y_top(&pts(&ys))), want * 1.05);
    assert_eq!(f(y_top(&[])), 1e-12 * 1.05);
}

#[test]
fn the_extent_is_the_last_x_with_a_floor() {
    let pts = |xs: &[f64]| -> Vec<(Scalar, Scalar)> { xs.iter().map(|x| (s(*x), s(1.0))).collect() };
    assert_eq!(f(x_extent(&pts(&[0.0, 4.0, 9.5]))), 9.5);
    assert_eq!(f(x_extent(&pts(&[0.0]))), 1e-12);
    assert_eq!(f(x_extent(&pts(&[5.0, 2.0]))), 2.0);
    assert_eq!(f(x_extent(&[])), 1.0);
    assert_eq!(f(x_extent(&pts(&[f64::NAN]))), 1e-12);
}

#[test]
fn the_staircase_holds_each_price_while_its_bin_sells() {
    let c = geometric(0.01, 10.0, 0.6, 100.0);
    let fl = floats(0.01, 10.0, 0.6, 100.0);
    let chart = price_vs_supply(&c, 50);
    let mut supply = 0.0_f64;
    let mut data: Vec<(f64, f64)> = Vec::new();
    for i in 0..50 {
        let p = price(&fl, i);
        data.push((supply, p));
        supply += delta_x(&fl, i);
        data.push((supply, p));
    }
    let got: Vec<(f64, f64)> = chart.points.iter().map(|p| (f(p.0), f(p.1))).collect();
    assert_eq!(got, data);
    let x_max = data.last().map(|(x, _)| *x).unwrap_or(1.0).max(1e-12);
    let y_max = data.iter().map(|(_, y)| *y).fold(0.0, f64::max).max(1e-12);
    assert_eq!(f(chart.x_max), x_max);
    assert_eq!(f(chart.y_top), y_max * 1.05);
    let none = price_vs_supply(&c, 0);
    assert_eq!(none.points.len(), 0);
    assert_eq!(f(none.x_max), 1.0);
    assert_eq!(f(none.y_top), 1e-12 * 1.05);
}

#[test]
fn tokens_are_charted_against_their_bin() {
    let c = geometric(0.01, 10.0, 0.6, 100.0);
    let fl = floats(0.01, 10.0, 0.6, 100.0);
    let chart = tokens_per_bin(&c, 40);
    let pts: Vec<(f64, f64)> = (0..40).map(|i| (i as f64, delta_x(&fl, i))).collect();
    let got: Vec<(f64, f64)> = chart.points.iter().map(|p| (f(p.0), f(p.1))).collect();
    assert_eq!(got, pts);
    assert_eq!(f(chart.x_max), 40.0);
    assert_eq!(f(chart.y_top), delta_x(&fl, 0) * 1.05);
    assert_eq!(f(tokens_per_bin(&c, 0).x_max), 1.0);
    assert_eq!(f(tokens_per_bin(&c, -2).x_max), 1.0);
}

#[test]
fn the_fee_is_charted_every_tenth_up_to_fifty() {
    let fee = fees(0.5, 10.0, 0.25, 0.05);
    let chart = fee_vs_vol(&fee);
    assert_eq!(chart.points.len(), 501);
    assert_eq!(f(chart.x_max), 50.0);
    let mut y_max = 0.0f64;
    for v in 0..=500usize {
        let va = v as f64 / 10.0;
        let want = (0.5 * 0.001 + 0.25 * (va * 0.001f64).powi(2)).min(0.05);
        assert_eq!(f(chart.points[v].0), va);
        assert_eq!(f(chart.points[v].1), want);
        y_max = y_max.max(want);
    }
    assert_eq!(f(chart.y_top), y_max.max(1e-12) * 1.05);
}

#[test]
fn guards_are_reported_at_the_first_middle_and_last_bin() {
    assert_eq!(guard_bins(5), [0, 2, 4]);
    assert_eq!(guard_bins(500), [0, 250, 499]);
    assert_eq!(guard_bins(1), [0, 0, 0]);
    assert_eq!(guard_bins(2), [0, 1, 1]);
    assert_eq!(guard_bins(0), [0, 0, -1]);
    assert_eq!(guard_bins(-3), [0, -1, -4]);
    assert_eq!(guard_bins(i64::MAX), [0, i64::MAX / 2, i64::MAX - 1]);
    assert_eq!(guard_bins(i64::MIN), [0, i64::MIN / 2, i64::MIN]);
    for bins in [-7i64, -2, -1, 3, 8, 9] {
        assert_eq!(guard_bins(bins), [0, bins / 2, bins.saturating_sub(1)]);
    }
}

#[test]
fn guards_quote_both_directions() {
    let c = geometric(0.01, 10.0, 0.6, 100.0);
    let fl = floats(0.01, 10.0, 0.6, 100.0);
    let quotes = guards(&c, 500, s(50.0)).unwrap();
    assert_eq!(quotes.len(), 3);
    for (quote, bin) in quotes.iter().zip([0i64, 250, 499]) {
        let p = price(&fl, bin);
        assert_eq!(quote.bin, bin);
        assert_eq!(f(quote.price), p);
        assert_eq!(f(quote.min_x_for_y), p * 10_000.0 / (10_000.0 - 50.0));
        assert_eq!(f(quote.min_y_for_x), p * (10_000.0 - 50.0) / 10_000.0);
    }
    assert_eq!(
        guards(&c, 500, s(10_000.0)),
        Err(ScheduleError::InvalidPriceGuard { value: s(10_000.0) })
    );
    assert_eq!(guards(&c, 500, s(-1.0)), Err(ScheduleError::InvalidPriceGuard { value: s(-1.0) }));
}

#[test]
fn an_addition_recovers_its_rounding_error() {
    let two53 = 9_007_199_254_740_992.0f64;
    // terms whose exact sums are known as whole numbers
    for (total, term, rounded, lost) in [
        (two53, 1.0, two53, 1.0),
        (two53 + 2.0, 1.0, two53 + 4.0, -1.0),
        (1.0, two53, two53, 1.0),
        (two53, -0.5, two53, -0.5),
        (3.0, 5.0, 8.0, 0.0),
        (-two53, -3.0, -two53 - 4.0, 1.0),
        (two53 * 4.0, 7.0, two53 * 4.0 + 8.0, -1.0),
    ] {
        let mut sum = StableSum { total: s(total), correction: s(0.0) };
        sum.add(s(term));
        assert_eq!(f(sum.total), rounded, "{total} + {term}");
        assert_eq!(f(sum.correction), lost, "error of {total} + {term}");
    }
    let mut sum = StableSum { total: s(1.0), correction: s(0.25) };
    sum.add(s(1e-17));
    assert_eq!(f(sum.total), 1.0);
    assert_eq!(f(sum.correction), 0.25 + 1e-17);
}

#[test]
fn the_closed_form_loses_accuracy_next_to_the_flat_regime() {
    // a decay ratio within 10^-10 of one, still outside the flat regime:
    // the series formula divides by a difference of which few digits are left
    let c = geometric(0.01, 1.0, 0.999999, 100.0);
    assert!((f(c.r) - 1.0).abs() > 1e-12);
    let report = verify_geometric(&c, 2000).unwrap();
    let error = f(report.rel_err_supply.unwrap());
    assert!(error > 1e-9 && error < 1e-6, "relative error {error}");
    assert!(report.monotone_ok);
    // further from one the two agree
    let c = geometric(0.01, 1.0, 0.99, 100.0);
    assert!(f(verify_geometric(&c, 2000).unwrap().rel_err_supply.unwrap()) <= 1e-9);
}

#[test]
fn a_step_too_small_to_count_gives_one_price_to_all_bins() {
    let c = geometric(0.01, 1e-13, 0.6, 100.0);
    assert_eq!(f(c.params.grid.q()), 1.0);
    assert_eq!(f(c.price_of_bin(0)), 0.01);
    assert_eq!(f(c.price_of_bin(7)), 0.01);
    assert!(!verify_geometric(&c, 3).unwrap().monotone_ok);
}

#[test]
fn no_price_lies_below_the_start_price() {
    for (p0, step) in [(0.01, 10.0), (5e-324, 1e-3), (1e300, 100.0), (3.3, 1e-13), (1e-6, 1.0)] {
        let c = geometric(p0, step, 0.6, 1.0);
        assert_eq!(f(c.price_of_bin(0)), p0);
        for i in [0i64, 1, 2, 3, 10, 500, 1999, 100_000, i64::MAX] {
            let p = f(c.price_of_bin(i));
            assert!(p >= p0, "price {p} of bin {i}");
        }
    }
}
