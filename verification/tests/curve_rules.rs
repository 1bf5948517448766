use bcurve::curves::{
    allocations, cumulative_supply, prices, AnyCurve, Curve, CurveKind, Geometric, GeometricCurve, Grid,
    LogisticCurve, LogisticS, SupplyRegime,
};
use bcurve::scalar::Scalar;

fn s(x: f64) -> Scalar {
    Scalar::from_bits(x.to_bits())
}

fn f(x: Scalar) -> f64 {
    f64::from_bits(x.to_bits())
}

fn same(got: Scalar, want: f64) -> bool {
    if want.is_nan() {
        f(got).is_nan()
    } else {
        got.to_bits() == want.to_bits()
    }
}

fn grid(p0: f64, step: f64) -> Grid {
    Grid { p0: s(p0), bin_step_bps: s(step) }
}

fn geometric(p0: f64, step: f64, theta: f64, r0: f64) -> GeometricCurve {
    let params = Geometric { grid: grid(p0, step), theta: s(theta), r0_quote: s(r0) };
    let r = f(params.grid.q()).powf(f(params.decay_exponent()));
    GeometricCurve::new(params, s(r))
}

fn logistic_params(p0: f64, step: f64, p_min: f64, p_max: f64, k: f64, bins: i64) -> LogisticS {
    let s_mid = f64::ln((p_max - p0) / (p0 - p_min)) / k;
    LogisticS { grid: grid(p0, step), p_min: s(p_min), p_max: s(p_max), k: s(k), s_mid: s(s_mid), bins }
}

fn logistic(params: LogisticS) -> LogisticCurve {
    let args = params.log_arguments().expect("bounds in order");
    let logs: Vec<Scalar> = args.iter().map(|a| s(f(*a).ln())).collect();
    LogisticCurve::new(params, logs).expect("one logarithm per bin")
}

// The same formulas in hardware floats, to hold the library against.
/// The hardware power, taken at run time: a power of constants may be
/// folded when the test is compiled, to a differently rounded value.
fn powi(x: f64, n: i64) -> f64 {
    std::hint::black_box(x).powi(std::hint::black_box(n as i32))
}

fn q_of(step: f64) -> f64 {
    1.0 + step / 10_000.0
}

fn price_of(p0: f64, step: f64, i: i64) -> f64 {
    p0 * powi(q_of(step), i)
}

fn closed_of(dx0: f64, r: f64, n: i64) -> f64 {
    if (r - 1.0).abs() < 1e-12 {
        dx0 * n as f64
    } else {
        dx0 * (1.0 - powi(r, n)) / (1.0 - r)
    }
}

fn solve_of(p0: f64, r: f64, target: f64, n: i64) -> f64 {
    if (r - 1.0).abs() < 1e-12 {
        (target / (n as f64)) * p0
    } else {
        let denom = 1.0 - powi(r, n);
        let a = target * (1.0 - r) / denom;
        a * p0
    }
}

fn s_of_p(c: &LogisticS, p: f64) -> f64 {
    let (p_min, p_max) = (f(c.p_min), f(c.p_max));
    let eps = (p_max - p_min) * 1e-12;
    let p = p.clamp(p_min + eps, p_max - eps);
    f(c.s_mid) - ((p_max - p) / (p - p_min)).ln() / f(c.k)
}

fn logistic_dx_of(c: &LogisticS, i: i64) -> f64 {
    if i + 1 >= c.bins {
        return 0.0;
    }
    let (p0, step) = (f(c.grid.p0), f(c.grid.bin_step_bps));
    (s_of_p(c, price_of(p0, step, i + 1)) - s_of_p(c, price_of(p0, step, i))).max(0.0)
}

#[test]
fn mode_words_select_the_models() {
    assert_eq!(CurveKind::from_mode("geometric"), Some(CurveKind::Geometric));
    assert_eq!(CurveKind::from_mode("logistic"), Some(CurveKind::LogisticS));
    assert_eq!(CurveKind::from_mode("Geometric"), None);
    assert_eq!(CurveKind::from_mode("logistic "), None);
    assert_eq!(CurveKind::from_mode(""), None);
    assert_eq!(CurveKind::from_mode("linear"), None);
}

#[test]
fn curves_report_their_names() {
    assert_eq!(CurveKind::Geometric.name(), "DLMM-Geometric(θ)");
    assert_eq!(CurveKind::LogisticS.name(), "Logistic-S(on DLMM bins)");
    let g = geometric(0.01, 10.0, 0.6, 100.0);
    assert_eq!(g.name(), "DLMM-Geometric(θ)");
    assert_eq!(g.kind(), CurveKind::Geometric);
    let l = logistic(logistic_params(0.01, 10.0, 0.001, 1.0, 1e-5, 5));
    assert_eq!(l.name(), "Logistic-S(on DLMM bins)");
    assert_eq!(l.kind(), CurveKind::LogisticS);
}

#[test]
fn the_growth_factor_is_one_plus_the_step() {
    assert_eq!(f(grid(0.01, 10.0).q()), 1.001);
    assert_eq!(f(grid(0.01, 100.0).q()), 1.01);
    for step in [1.0, 2.5, 10.0, 25.0, 99.0, 1e-3, 1e6] {
        assert_eq!(f(grid(1.0, step).q()), q_of(step));
    }
}

#[test]
fn prices_grow_geometrically() {
    let g = grid(0.01, 10.0);
    assert_eq!(f(g.price_of_bin(0)), 0.01);
    assert_eq!(f(g.price_of_bin(1)), 0.01 * 1.001);
    assert_eq!(f(g.price_of_bin(2)), 0.01 * (1.001 * 1.001));
    for (p0, step) in [(0.01, 10.0), (1e-6, 1.0), (9.9, 99.0), (0.5, 25.0)] {
        for i in [-2000i64, -7, -1, 0, 1, 2, 3, 100, 499, 1999, 100_000] {
            assert!(same(grid(p0, step).price_of_bin(i), price_of(p0, step, i)), "bin {i}");
        }
    }
    assert_eq!(f(g.price_of_bin(1 << 40)), f64::INFINITY);
}

#[test]
fn theta_is_clamped_to_plus_minus_two() {
    assert_eq!(f(Geometric::clamp_theta(s(0.6))), 0.6);
    assert_eq!(f(Geometric::clamp_theta(s(2.5))), 2.0);
    assert_eq!(f(Geometric::clamp_theta(s(-7.0))), -2.0);
    assert_eq!(f(Geometric::clamp_theta(s(f64::INFINITY))), 2.0);
    assert_eq!(f(Geometric::clamp_theta(s(f64::NEG_INFINITY))), -2.0);
    assert!(f(Geometric::clamp_theta(s(f64::NAN))).is_nan());
    for theta in [-3.0, -2.0, -0.5, 0.0, 0.6, 1.0, 1.99, 2.0, 2.01, 1e300] {
        assert_eq!(f(Geometric::clamp_theta(s(theta))), f64::clamp(theta, -2.0, 2.0));
    }
}

#[test]
fn the_decay_exponent_is_theta_less_one() {
    for theta in [0.6, 0.1, 0.99, 1.0, 1.5, -2.0, 2.0] {
        let c = Geometric { grid: grid(0.01, 10.0), theta: s(theta), r0_quote: s(1.0) };
        assert_eq!(f(c.decay_exponent()), theta - 1.0);
    }
}

#[test]
fn the_flat_regime_is_a_ratio_within_a_trillionth_of_one() {
    assert_eq!(Geometric::regime(s(1.0)), SupplyRegime::Flat);
    assert_eq!(Geometric::regime(s(1.0 + 9e-13)), SupplyRegime::Flat);
    assert_eq!(Geometric::regime(s(1.0 - 9e-13)), SupplyRegime::Flat);
    assert_eq!(Geometric::regime(s(1.0 + 2e-12)), SupplyRegime::Series);
    assert_eq!(Geometric::regime(s(1.0 - 2e-12)), SupplyRegime::Series);
    assert_eq!(Geometric::regime(s(0.9996)), SupplyRegime::Series);
    assert_eq!(Geometric::regime(s(f64::INFINITY)), SupplyRegime::Series);
    assert_eq!(Geometric::regime(s(f64::NAN)), SupplyRegime::Series);
    let mut r = 1.0 - 3e-12;
    while r < 1.0 + 3e-12 {
        let want = if (r - 1.0f64).abs() < 1e-12 { SupplyRegime::Flat } else { SupplyRegime::Series };
        assert_eq!(Geometric::regime(s(r)), want, "r = {r:e}");
        r += 1.7e-14;
    }
}

#[test]
fn geometric_allocations_decay_from_the_first() {
    let c = geometric(0.01, 10.0, 0.6, 100.0);
    assert_eq!(f(c.params.delta_x0()), 100.0 / 0.01);
    assert_eq!(f(c.delta_x_of_bin(0)), 100.0 / 0.01);
    let r = f(c.r);
    assert_eq!(r, 1.001f64.powf(0.6 - 1.0));
    for i in [0i64, 1, 2, 3, 4, 10, 499, 1999] {
        assert_eq!(f(c.delta_x_of_bin(i)), (100.0 / 0.01) * powi(r, i), "bin {i}");
        assert_eq!(f(c.price_of_bin(i)), price_of(0.01, 10.0, i));
    }
}

#[test]
fn the_closed_form_follows_the_regime() {
    for (p0, step, theta, r0) in
        [(0.01, 10.0, 0.6, 100.0), (1e-6, 1.0, 0.1, 1e-6), (9.9, 99.0, 0.98, 1e6), (1.0, 50.0, 1.0, 3.0), (2.0, 10.0, 1.5, 7.0)]
    {
        let c = geometric(p0, step, theta, r0);
        let r = f(c.r);
        for n in [0i64, 1, 2, 5, 100, 500, 1999] {
            assert!(same(c.s_n_closed(n), closed_of(r0 / p0, r, n)), "theta {theta}, n {n}");
            assert!(same(c.params.s_n_closed(c.r, n), closed_of(r0 / p0, r, n)));
        }
    }
    let flat = geometric(1.0, 50.0, 1.0, 3.0);
    assert_eq!(f(flat.r), 1.0);
    assert_eq!(f(flat.s_n_closed(7)), 21.0);
}

#[test]
fn the_revenue_solved_from_a_supply_gives_that_supply() {
    for (p0, step, theta, target, n) in
        [(0.01, 10.0, 0.6, 1e6, 500i64), (1.0, 50.0, 1.0, 21.0, 7), (0.5, 25.0, 0.3, 12345.0, 100)]
    {
        let mut c = geometric(p0, step, theta, 0.0);
        let r0 = c.params.solve_r0_from_supply(c.r, s(target), n);
        assert!(same(r0, solve_of(p0, f(c.r), target, n)));
        c.params.r0_quote = r0;
        let supply = f(c.s_n_closed(n));
        assert!((supply - target).abs() / target < 1e-12, "supply {supply}, target {target}");
    }
}

#[test]
fn plain_sums_add_the_allocations_in_order() {
    let c = geometric(0.01, 10.0, 0.6, 100.0);
    let mut sum = 0.0;
    for i in 0..300 {
        sum += f(c.delta_x_of_bin(i));
    }
    assert_eq!(f(cumulative_supply(&c, 300)), sum);
    assert_eq!(f(cumulative_supply(&c, 0)), 0.0);
    assert_eq!(f(cumulative_supply(&c, -5)), 0.0);
    let dx = allocations(&c, 4);
    let px = prices(&c, 4);
    assert_eq!(dx.len(), 4);
    for i in 0..4 {
        assert_eq!(dx[i], c.delta_x_of_bin(i as i64));
        assert_eq!(px[i], c.price_of_bin(i as i64));
    }
    assert_eq!(allocations(&c, -1).len(), 0);
}

#[test]
fn log_arguments_hold_prices_off_the_asymptotes() {
    let c = logistic_params(0.01, 10.0, 0.001, 1.0, 1e-5, 50);
    assert!(c.bounded());
    let (p_min, p_max) = (0.001f64, 1.0f64);
    let eps = (p_max - p_min) * 1e-12;
    for p in [0.01, 0.5, 0.001, 1.0, 2.0, 0.0, -1.0, 0.0010000000001, f64::INFINITY] {
        let held = f64::clamp(p, p_min + eps, p_max - eps);
        assert_eq!(f(c.log_argument(s(p))), (p_max - held) / (held - p_min), "price {p}");
    }
    let args = c.log_arguments().unwrap();
    assert_eq!(args.len(), 50);
    for i in 0..50 {
        let held = f64::clamp(price_of(0.01, 10.0, i), p_min + eps, p_max - eps);
        assert_eq!(f(args[i as usize]), (p_max - held) / (held - p_min));
    }
}

#[test]
fn a_curve_of_one_bin_needs_no_logarithms() {
    let c = logistic_params(0.01, 10.0, 0.001, 1.0, 1e-5, 1);
    assert_eq!(c.log_arguments(), Some(vec![]));
    let curve = LogisticCurve::new(c, vec![]).unwrap();
    assert_eq!(curve.delta_x_of_bin(0).to_bits(), 0);
    assert_eq!(curve.delta_x_of_bin(7).to_bits(), 0);
    let mut none = c;
    none.bins = 0;
    assert_eq!(none.log_arguments(), Some(vec![]));
}

#[test]
fn disordered_bounds_give_no_log_arguments() {
    let mut c = logistic_params(0.01, 10.0, 0.001, 1.0, 1e-5, 5);
    c.p_min = s(2.0);
    assert!(!c.bounded());
    assert_eq!(c.log_arguments(), None);
    c.p_min = s(f64::NAN);
    assert!(!c.bounded());
    assert_eq!(c.log_arguments(), None);
    c.p_min = s(-1e308);
    c.p_max = s(1e308);
    assert!(!c.bounded());
    c.bins = 1;
    assert_eq!(c.log_arguments(), Some(vec![]));
}

#[test]
fn a_logistic_curve_wants_one_logarithm_per_bin() {
    let c = logistic_params(0.01, 10.0, 0.001, 1.0, 1e-5, 5);
    assert!(LogisticCurve::new(c, vec![s(1.0); 4]).is_none());
    assert!(LogisticCurve::new(c, vec![s(1.0); 6]).is_none());
    assert!(LogisticCurve::new(c, vec![]).is_none());
    assert!(LogisticCurve::new(c, vec![s(1.0); 5]).is_some());
}

#[test]
fn the_logistic_curve_ends_at_its_last_bin() {
    let c = logistic(logistic_params(0.01, 10.0, 0.001, 1.0, 1e-5, 5));
    assert_eq!(c.delta_x_of_bin(4).to_bits(), 0);
    assert_eq!(c.delta_x_of_bin(5).to_bits(), 0);
    assert_eq!(c.delta_x_of_bin(i64::MAX).to_bits(), 0);
    assert!(f(c.delta_x_of_bin(3)) > 0.0);
    assert!(f(c.delta_x_of_bin(0)) > 0.0);
}

#[test]
fn a_logistic_allocation_is_never_negative() {
    let params = logistic_params(0.01, 10.0, 0.001, 1.0, 1e-5, 4);
    let falling = LogisticCurve::new(params, vec![s(1.0), s(2.0), s(3.0), s(4.0)]).unwrap();
    assert_eq!(falling.delta_x_of_bin(0).to_bits(), 0);
    assert_eq!(falling.delta_x_of_bin(2).to_bits(), 0);
    let broken =
        LogisticCurve::new(params, vec![s(f64::NAN), s(1.0), s(f64::INFINITY), s(0.0)]).unwrap();
    for i in 0..4 {
        let dx = f(broken.delta_x_of_bin(i));
        assert!(dx >= 0.0, "allocation {dx} at bin {i}");
    }
}

#[test]
fn logistic_allocations_are_nonnegative() {
    for (p0, step, p_min, p_max, k, n) in [
        (0.01f64, 10.0f64, 1e-4f64, 1.0f64, 1e-5f64, 200i64),
        (1e-6, 1.0, 1e-8, 1e-2, 1e-10, 2000),
        (5.0, 100.0, 1e-3, 10.0, 1e-7, 500),
    ] {
        let params = logistic_params(p0, step, p_min, p_max, k, n);
        let c = logistic(params);
        for i in 0..n - 1 {
            let dx = f(c.delta_x_of_bin(i));
            assert!(dx >= 0.0, "allocation {dx} at bin {i}");
            assert_eq!(dx, logistic_dx_of(&params, i), "bin {i}");
        }
        assert_eq!(f(c.delta_x_of_bin(n - 1)), 0.0);
        let mut sum = 0.0;
        for i in 0..n {
            sum += logistic_dx_of(&params, i);
        }
        assert_eq!(f(cumulative_supply(&c, n)), sum);
    }
}

#[test]
fn the_midpoint_is_solved_for_a_zero_start() {
    let g = grid(0.01, 10.0);
    let arg = LogisticS::midpoint_argument(&g, s(0.001), s(1.0));
    assert_eq!(f(arg), (1.0 - 0.01) / (0.01 - 0.001));
    let s_mid = LogisticS::midpoint_from_log(s(f(arg).ln()), s(1e-5));
    assert_eq!(f(s_mid), f64::ln((1.0 - 0.01) / (0.01 - 0.001)) / 1e-5);
    let params = logistic_params(0.01, 10.0, 0.001, 1.0, 1e-5, 10);
    assert_eq!(f(params.s_mid), f(s_mid));
    let start = s_of_p(&params, 0.01);
    assert!(start.abs() < 1e-6, "supply at the start price: {start}");
}

#[test]
fn allocations_are_defined_below_bin_zero() {
    let c = geometric(0.01, 10.0, 0.6, 100.0);
    let r = f(c.r);
    for i in [-1i64, -2, -17, -500, 0, 3] {
        assert_eq!(f(c.params.delta_x_of_bin(c.r, i)), (100.0 / 0.01) * powi(r, i), "bin {i}");
    }
    assert_eq!(f(c.params.grid.price_of_bin(-3)), 0.01 * powi(1.001, -3));
}

#[test]
fn a_logistic_allocation_is_the_growth_of_the_supply() {
    let c = logistic_params(0.01, 10.0, 0.001, 1.0, 1e-5, 10);
    let (s_mid, k) = (f(c.s_mid), 1e-5f64);
    assert_eq!(f(c.supply(s(2.0))), s_mid - 2.0 / k);
    assert_eq!(f(c.supply(s(-0.5))), s_mid - -0.5 / k);
    let want = ((s_mid - 1.5 / k) - (s_mid - 2.0 / k)).max(0.0);
    assert!(want > 0.0);
    assert_eq!(f(c.delta_x_of_bin(3, s(2.0), s(1.5))), want);
    assert_eq!(f(c.delta_x_of_bin(-4, s(2.0), s(1.5))), want);
    assert_eq!(c.delta_x_of_bin(3, s(1.5), s(2.0)).to_bits(), 0);
    assert_eq!(c.delta_x_of_bin(9, s(2.0), s(1.5)).to_bits(), 0);
    assert_eq!(c.delta_x_of_bin(10, s(2.0), s(1.5)).to_bits(), 0);
    assert_eq!(c.delta_x_of_bin(i64::MAX, s(2.0), s(1.5)).to_bits(), 0);
    assert_eq!(c.delta_x_of_bin(3, s(f64::NAN), s(1.5)).to_bits(), 0);
}

#[test]
fn either_curve_answers_as_the_curve_it_holds() {
    let g = geometric(0.01, 10.0, 0.6, 100.0);
    let l = logistic(logistic_params(0.01, 10.0, 0.001, 1.0, 1e-5, 20));
    let any_g = AnyCurve::Geometric(g);
    let any_l = AnyCurve::LogisticS(l.clone());
    assert_eq!(any_g.kind(), CurveKind::Geometric);
    assert_eq!(any_l.kind(), CurveKind::LogisticS);
    assert_eq!(any_g.name(), "DLMM-Geometric(θ)");
    assert_eq!(any_l.name(), "Logistic-S(on DLMM bins)");
    for i in 0..20 {
        assert_eq!(any_g.price_of_bin(i), g.price_of_bin(i));
        assert_eq!(any_g.delta_x_of_bin(i), g.delta_x_of_bin(i));
        assert_eq!(any_l.price_of_bin(i), l.price_of_bin(i));
        assert_eq!(any_l.delta_x_of_bin(i), l.delta_x_of_bin(i));
    }
    assert_eq!(cumulative_supply(&any_l, 20), cumulative_supply(&l, 20));
}
