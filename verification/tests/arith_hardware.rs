use bcurve::scalar::Scalar;

fn s(x: f64) -> Scalar {
    Scalar::from_bits(x.to_bits())
}

fn f(x: Scalar) -> f64 {
    f64::from_bits(x.to_bits())
}

fn same(got: Scalar, want: f64) -> bool {
    if want.is_nan() {
        f(got).is_nan()
    } else {
        got.to_bits() == want.to_bits()
    }
}

fn special() -> Vec<f64> {
    vec![
        0.0,
        -0.0,
        f64::from_bits(1),
        -f64::from_bits(1),
        f64::from_bits(2),
        f64::from_bits(3),
        f64::from_bits(0x000F_FFFF_FFFF_FFFF),
        f64::MIN_POSITIVE,
        -f64::MIN_POSITIVE,
        f64::from_bits(0x0010_0000_0000_0001),
        1e-320,
        1e-310,
        1e-300,
        1e-160,
        1.5e-154,
        1e-12,
        0.001,
        0.1,
        0.5,
        1.0 - f64::EPSILON / 2.0,
        1.0,
        1.0 + f64::EPSILON,
        -1.0,
        1.5,
        2.0,
        3.0,
        -3.0,
        10.0,
        50.0,
        10_000.0,
        9_007_199_254_740_992.0,
        9_007_199_254_740_993.0,
        1.3e154,
        1e160,
        1e300,
        f64::MAX,
        f64::MIN,
        f64::MAX / 2.0,
        f64::INFINITY,
        f64::NEG_INFINITY,
        f64::NAN,
    ]
}

struct Lcg(u64);

fn next(g: &mut Lcg) -> u64 {
    g.0 = g.0.wrapping_mul(6364136223846793005).wrapping_add(1442695040888963407);
    let hi = g.0 >> 32;
    g.0 = g.0.wrapping_mul(6364136223846793005).wrapping_add(1442695040888963407);
    (hi << 32) | (g.0 >> 32)
}

/// A random number: any encoding, or one near another so that sums cancel
/// and quotients are close to one.
fn pairs(count: usize) -> Vec<(f64, f64)> {
    let mut g = Lcg(0x2545_F491_4F6C_DD1D);
    let mut out = Vec::new();
    for i in 0..count {
        let a = f64::from_bits(next(&mut g));
        let b = match i % 4 {
            0 => f64::from_bits(next(&mut g)),
            1 => f64::from_bits(a.to_bits() ^ (next(&mut g) & 0x8000_0000_0000_00FF)),
            2 => {
                let shift = (next(&mut g) % 130) as i64 - 65;
                let e = ((a.to_bits() >> 52) & 0x7FF) as i64 + shift;
                let e = e.clamp(0, 2046) as u64;
                f64::from_bits((next(&mut g) & 0x800F_FFFF_FFFF_FFFF) | (e << 52))
            }
            _ => {
                let e = 2046 - ((a.to_bits() >> 52) & 0x7FF) as i64 + (next(&mut g) % 9) as i64 - 4;
                let e = e.clamp(0, 2046) as u64;
                f64::from_bits((next(&mut g) & 0x800F_FFFF_FFFF_FFFF) | (e << 52))
            }
        };
        out.push((a, b));
    }
    out
}

#[test]
fn products_agree_with_the_hardware() {
    for a in special() {
        for b in special() {
            assert!(same(s(a).times(s(b)), a * b), "{a:e} * {b:e}");
        }
    }
    for (a, b) in pairs(200_000) {
        assert!(same(s(a).times(s(b)), a * b), "{a:e} * {b:e}");
    }
}

#[test]
fn negation_flips_the_sign() {
    for a in special() {
        assert!(same(s(a).neg(), -a) || a.is_nan(), "-{a:e}");
        assert_eq!(s(a).neg().to_bits(), a.to_bits() ^ 0x8000_0000_0000_0000);
    }
}

#[test]
fn exact_products() {
    assert_eq!(f(s(3.0).times(s(0.5))), 1.5);
    assert_eq!(f(s(-4.0).times(s(2.5))), -10.0);
    assert_eq!(f(s(0.1).times(s(0.1))), 0.010000000000000002);
    assert_eq!(s(-0.0).times(s(5.0)).to_bits(), (-0.0f64).to_bits());
    assert_eq!(f(s(1e200).times(s(1e200))), f64::INFINITY);
    assert_eq!(f(s(1e-200).times(s(-1e-200))), -0.0);
    assert!(f(s(0.0).times(s(f64::INFINITY))).is_nan());
}

#[test]
fn quotients_agree_with_the_hardware() {
    for a in special() {
        for b in special() {
            assert!(same(s(a).over(s(b)), a / b), "{a:e} / {b:e}");
        }
    }
    for (a, b) in pairs(200_000) {
        assert!(same(s(a).over(s(b)), a / b), "{a:e} / {b:e}");
    }
}

#[test]
fn sums_agree_with_the_hardware() {
    for a in special() {
        for b in special() {
            assert!(same(s(a).plus(s(b)), a + b), "{a:e} + {b:e}");
        }
    }
    for (a, b) in pairs(200_000) {
        assert!(same(s(a).plus(s(b)), a + b), "{a:e} + {b:e}");
    }
}

#[test]
fn differences_agree_with_the_hardware() {
    for a in special() {
        for b in special() {
            assert!(same(s(a).minus(s(b)), a - b), "{a:e} - {b:e}");
        }
    }
    for (a, b) in pairs(200_000) {
        assert!(same(s(a).minus(s(b)), a - b), "{a:e} - {b:e}");
    }
}

#[test]
fn whole_numbers_agree_with_the_hardware() {
    let mut g = Lcg(7);
    for n in [0i64, 1, -1, 2, 10, 500, 10_000, i64::MAX, i64::MIN, i64::MAX - 1, 1 << 53, (1 << 53) + 1, (1 << 53) + 3, -(1 << 54) - 2, (1 << 62) + (1 << 9)] {
        assert_eq!(Scalar::from_i64(n).to_bits(), (n as f64).to_bits(), "{n}");
    }
    for _ in 0..100_000 {
        let n = (next(&mut g) >> (next(&mut g) % 64)) as i64;
        assert_eq!(Scalar::from_i64(n).to_bits(), (n as f64).to_bits(), "{n}");
        let n = n.wrapping_neg();
        assert_eq!(Scalar::from_i64(n).to_bits(), (n as f64).to_bits(), "{n}");
    }
}

#[test]
fn exact_quotients_and_sums() {
    assert_eq!(f(s(1.0).over(s(4.0))), 0.25);
    assert_eq!(f(s(10.0).over(s(10_000.0))), 0.001);
    assert_eq!(f(s(1.0).over(s(3.0))), 0.3333333333333333);
    assert_eq!(f(s(2.0).over(s(3.0))), 0.6666666666666666);
    assert_eq!(f(s(-1.0).over(s(0.0))), f64::NEG_INFINITY);
    assert_eq!(s(1.0).over(s(f64::NEG_INFINITY)).to_bits(), (-0.0f64).to_bits());
    assert!(f(s(0.0).over(s(0.0))).is_nan());
    assert_eq!(f(s(0.1).plus(s(0.2))), 0.30000000000000004);
    assert_eq!(f(s(1.0).plus(s(1e-17))), 1.0);
    assert_eq!(f(s(1e16).plus(s(1.0))), 1e16);
    assert_eq!(f(s(1e16).plus(s(3.0))), 1.0000000000000004e16);
    assert_eq!(s(5.0).minus(s(5.0)).to_bits(), 0);
    assert_eq!(s(-0.0).plus(s(-0.0)).to_bits(), (-0.0f64).to_bits());
    assert_eq!(s(-0.0).plus(s(0.0)).to_bits(), 0);
    assert_eq!(f(s(f64::MAX).plus(s(f64::MAX))), f64::INFINITY);
    assert!(f(s(f64::INFINITY).minus(s(f64::INFINITY))).is_nan());
    assert_eq!(f(s(50.0).plus(s(15.0).over(s(30.0)).times(s(3.0).minus(s(50.0))))), 26.5);
}

#[test]
fn powers_agree_with_the_hardware() {
    let bases = [
        1.001, 1.0001, 1.01, 0.9996001599360256, 0.99, 1.0, 2.0, 0.5, -1.001, -2.0, 10.0, 0.1,
        1.0000000001, 3.7, 1e-3, 0.0, -0.0, f64::INFINITY, f64::NAN, 1e154, 1e-154,
    ];
    let exps = [
        0i32, 1, 2, 3, 4, 5, 7, 8, 15, 16, 31, 100, 499, 500, 693, 1000, 1999, 2000, 65_535,
        1_000_000, i32::MAX, -1, -2, -3, -7, -500, -2000, i32::MIN,
    ];
    for a in bases {
        for n in exps {
            assert!(same(s(a).powi(n as i64), a.powi(n)), "{a:e} ^ {n}");
        }
    }
    let mut g = Lcg(99);
    for _ in 0..20_000 {
        let a = 1.0 + (next(&mut g) % 1_000_000) as f64 / 1e8 - 0.005;
        let n = (next(&mut g) % 4001) as i32 - 2000;
        assert!(same(s(a).powi(n as i64), a.powi(n)), "{a:e} ^ {n}");
    }
}

#[test]
fn powers_beyond_i32_follow_the_exponent() {
    assert_eq!(f(s(1.001).powi(1 << 40)), f64::INFINITY);
    assert_eq!(f(s(1.001).powi(-(1 << 40))), 0.0);
    assert_eq!(f(s(1.0).powi(i64::MAX)), 1.0);
    assert_eq!(f(s(1.0).powi(i64::MIN)), 1.0);
    assert_eq!(f(s(-1.0).powi(i64::MAX)), -1.0);
    assert_eq!(f(s(0.5).powi(i64::MIN)), f64::INFINITY);
}

#[test]
fn ceilings_agree_with_the_hardware() {
    let mut xs = special();
    xs.extend([
        0.2, 0.999, 1.0000001, 692.8, 693.0, 693.0000001, -0.2, -0.999, -1.5, -693.5, -693.0,
        4503599627370495.5, 4503599627370496.0, 9007199254740991.0, 9.223372036854775e18,
        9.223372036854776e18, -9.223372036854776e18, -9.223372036854778e18, 1e19, -1e19,
        2251799813685247.8, -2251799813685247.8,
    ]);
    for x in xs {
        assert_eq!(s(x).ceil_to_i64(), x.ceil() as i64, "ceil of {x:e}");
    }
    let mut g = Lcg(5);
    for _ in 0..200_000 {
        let x = f64::from_bits(next(&mut g));
        assert_eq!(s(x).ceil_to_i64(), x.ceil() as i64, "ceil of {x:e}");
        let y = (next(&mut g) as i64 >> (next(&mut g) % 64)) as f64 / 1024.0;
        assert_eq!(s(y).ceil_to_i64(), y.ceil() as i64, "ceil of {y:e}");
    }
}
