//! The sum of two numbers and its rounding error.
//!
//! When two finite numbers are added, the rounded sum misses the exact sum
//! by an error that is itself a binary64 number, and two more operations
//! recover it exactly, provided they start from the operand that is larger
//! in magnitude. This is what the compensated sum of `crate::checks` rests
//! on: its correction collects the errors themselves, not estimates of
//! them.
use crate::arith::{
    distance, lemma_rounded_exact, lemma_rounded_monotone, lemma_rounded_zero,
    lemma_rounding_exists, rounded, with_sign,
};
use crate::rounding::{lemma_encode, lemma_magnitude_ordered, lemma_pow2_120, lemma_pow2_ordered};
use crate::scalar::{
    lemma_magnitude_increases, lemma_magnitude_zero, magnitude_of, Scalar, HIDDEN_BIT,
    INFINITY_BITS,
};
use vstd::arithmetic::power2::{
    lemma2_to64, lemma_pow2_adds, lemma_pow2_pos, lemma_pow2_unfold, pow2,
};
use vstd::prelude::*;

verus! {

/// The whole number `v`, a count of multiples of 2^-1074, is the value of a
/// finite binary64 number.
pub open spec fn representable(v: int) -> bool {
    exists|k: nat| k < INFINITY_BITS && #[trigger] magnitude_of(k) == distance(v)
}

/// The value of the rounded whole number `n`: what a sum with the exact
/// value `n` comes to.
pub open spec fn round_value(n: int) -> int {
    if n >= 0 {
        magnitude_of(rounded(n as nat, 1)) as int
    } else {
        -(magnitude_of(rounded((-n) as nat, 1)) as int)
    }
}

/// The sum of two finite numbers is a number, and has the rounded exact sum
/// for its value.
pub proof fn lemma_sum_rounds(x: Scalar, y: Scalar)
    requires
        x.finite(),
        y.finite(),
    ensures
        !x.spec_plus(y).nan(),
        x.spec_plus(y).value() == round_value(x.value() + y.value()),
        x.spec_plus(y).magnitude() == distance(round_value(x.value() + y.value())),
{
    let n = x.value() + y.value();
    lemma_magnitude_zero(0);
    lemma_rounded_zero(1);
    if n != 0 {
        lemma_rounding_exists(distance(n), 1);
        let k = rounded(distance(n), 1);
        assert(with_sign(n < 0, k).abs_bits() == k);
    }
}

/// The negation has the negated value and the same magnitude.
pub proof fn lemma_neg_value(x: Scalar)
    requires
        !x.nan(),
    ensures
        x.spec_neg().value() == -x.value(),
        x.spec_neg().abs_bits() == x.abs_bits(),
        !x.spec_neg().nan(),
{
}

/// Rounding is odd, keeps the order, and leaves a representable number as
/// it is.
pub proof fn lemma_round_value_ordered(n: int, m: int)
    requires
        n <= m,
    ensures
        round_value(n) <= round_value(m),
        round_value(-n) == -round_value(n),
{
    lemma_magnitude_zero(0);
    lemma_rounded_zero(1);
    if n >= 0 {
        lemma_rounded_monotone(n as nat, 1, m as nat, 1);
        lemma_magnitude_ordered(rounded(n as nat, 1), rounded(m as nat, 1));
    } else if m < 0 {
        lemma_rounded_monotone((-m) as nat, 1, (-n) as nat, 1);
        lemma_magnitude_ordered(rounded((-m) as nat, 1), rounded((-n) as nat, 1));
    }
}

/// A representable number rounds to itself.
pub proof fn lemma_round_value_exact(v: int)
    requires
        representable(v),
    ensures
        round_value(v) == v,
{
    let k = choose|k: nat| k < INFINITY_BITS && #[trigger] magnitude_of(k) == distance(v);
    lemma_rounded_exact(k);
}

/// The magnitude of a finite number is representable, and so is its value.
pub proof fn lemma_value_representable(x: Scalar)
    requires
        x.finite(),
    ensures
        representable(x.value()),
        representable(-x.value()),
        representable(x.magnitude() as int),
{
    assert(magnitude_of(x.abs_bits() as nat) == x.magnitude());
}

/// A rounded number is at least as near to the exact one as any
/// representable number.
pub proof fn lemma_round_value_nearest(n: int, v: int)
    requires
        representable(v),
    ensures
        distance(n - round_value(n)) <= distance(n - v),
{
    lemma_magnitude_zero(0);
    if n >= 0 {
        lemma_nearest_magnitude(n as nat, v);
    } else {
        lemma_nearest_magnitude((-n) as nat, -v);
    }
}

proof fn lemma_nearest_magnitude(n: nat, v: int)
    requires
        representable(v),
    ensures
        distance(n - magnitude_of(rounded(n, 1))) <= distance(n - v),
{
    lemma_rounding_exists(n, 1);
    let k = rounded(n, 1);
    let j = choose|j: nat| j < INFINITY_BITS && #[trigger] magnitude_of(j) == distance(v);
    let r = magnitude_of(k);
    let w = magnitude_of(j);
    // against the magnitude of `v`, which is at least as near as `v`
    if j > k {
        lemma_magnitude_ordered(k + 1, j);
        assert(2 * n <= r + magnitude_of(k + 1));
    } else if j < k {
        lemma_magnitude_ordered(j, (k - 1) as nat);
        assert(2 * n >= magnitude_of((k - 1) as nat) + r);
    }
    if k < INFINITY_BITS {
        lemma_magnitude_increases(k, k + 1);
    }
    if k > 0 {
        lemma_magnitude_increases((k - 1) as nat, k);
    }
    assert(distance(n - r) <= distance(n - w));
}

/// `m` times `q`.
pub open spec fn scaled(m: int, q: int) -> int {
    m * q
}

/// `v` is a whole multiple of `q`.
pub open spec fn multiple(v: int, q: int) -> bool {
    exists|m: int| v == #[trigger] scaled(m, q)
}

/// Sums, differences and negations of multiples are multiples.
proof fn lemma_multiple_sum(a: int, b: int, q: int)
    requires
        multiple(a, q),
        multiple(b, q),
    ensures
        multiple(a + b, q),
        multiple(a - b, q),
        multiple(-a, q),
{
    let ma = choose|m: int| a == #[trigger] scaled(m, q);
    let mb = choose|m: int| b == #[trigger] scaled(m, q);
    assert(a + b == scaled(ma + mb, q)) by (nonlinear_arith)
        requires
            a == ma * q,
            b == mb * q,
            scaled(ma + mb, q) == (ma + mb) * q,
    ;
    assert(a - b == scaled(ma - mb, q)) by (nonlinear_arith)
        requires
            a == ma * q,
            b == mb * q,
            scaled(ma - mb, q) == (ma - mb) * q,
    ;
    assert(-a == scaled(-ma, q)) by (nonlinear_arith)
        requires
            a == ma * q,
            scaled(-ma, q) == (-ma) * q,
    ;
}

/// A multiple of a multiple of `q` is a multiple of `q`.
proof fn lemma_multiple_coarser(v: int, q: int, c: int)
    requires
        multiple(v, c * q),
    ensures
        multiple(v, q),
{
    let m = choose|m: int| v == #[trigger] scaled(m, c * q);
    assert(v == scaled(m * c, q)) by (nonlinear_arith)
        requires
            v == m * (c * q),
            scaled(m * c, q) == (m * c) * q,
    ;
}

/// Significand and exponent of a finite number.
pub proof fn lemma_decompose(x: Scalar)
    requires
        x.finite(),
    ensures
        1 <= x.exponent() <= 2046,
        x.significand() < pow2(53),
        x.significand() >= pow2(52) || x.exponent() == 1,
        x.magnitude() == x.significand() * pow2((x.exponent() - 1) as nat),
{
    lemma_pow2_120();
    lemma2_to64();
    let f = x.abs_bits() as nat % (HIDDEN_BIT as nat);
    assert(f * pow2(0) == f) by (nonlinear_arith)
        requires
            pow2(0) == 1,
    ;
}

/// A significand of fewer than 54 bits at a valid exponent gives a
/// representable number.
pub proof fn lemma_representable_multiple(m: nat, e: nat)
    requires
        1 <= e <= 2046,
        m < pow2(53),
    ensures
        representable(scaled(m as int, pow2((e - 1) as nat) as int)),
        representable(-scaled(m as int, pow2((e - 1) as nat) as int)),
    decreases e,
{
    lemma_pow2_120();
    let q = pow2((e - 1) as nat);
    let v = scaled(m as int, q as int);
    assert(v >= 0) by (nonlinear_arith)
        requires
            v == m * q,
            m >= 0,
            q >= 0,
    ;
    if m >= pow2(52) || e == 1 {
        lemma_encode(e, m);
        let k = ((e - 1) * HIDDEN_BIT + m) as nat;
        assert((e - 1) * HIDDEN_BIT <= 2045 * HIDDEN_BIT) by (nonlinear_arith)
            requires
                1 <= e <= 2046,
        ;
        assert(k < INFINITY_BITS);
        assert(magnitude_of(k) == distance(v));
    } else {
        lemma_pow2_unfold((e - 1) as nat);
        assert(scaled((2 * m) as int, pow2((e - 2) as nat) as int) == v) by (nonlinear_arith)
            requires
                v == m * q,
                q == 2 * pow2((e - 2) as nat),
                scaled((2 * m) as int, pow2((e - 2) as nat) as int) == (2 * m) * pow2(
                    (e - 2) as nat,
                ),
        ;
        lemma_representable_multiple(2 * m, (e - 1) as nat);
    }
}

/// A multiple of the quantum `2^(e - 1)` of fewer than 2^53 quanta is
/// representable.
pub proof fn lemma_bounded_multiple(v: int, e: nat)
    requires
        1 <= e <= 2046,
        multiple(v, pow2((e - 1) as nat) as int),
        distance(v) < pow2(53) * pow2((e - 1) as nat),
    ensures
        representable(v),
{
    let q = pow2((e - 1) as nat) as int;
    lemma_pow2_pos((e - 1) as nat);
    let m = choose|m: int| v == #[trigger] scaled(m, q);
    let size = distance(m);
    assert(size < pow2(53) && distance(v) == size * q) by (nonlinear_arith)
        requires
            v == m * q,
            q > 0,
            distance(v) < pow2(53) * q,
            size == if m < 0 {
                -m
            } else {
                m
            },
            distance(v) == if v < 0 {
                -v
            } else {
                v
            },
    ;
    lemma_representable_multiple(size, e);
    assert(scaled(size as int, q) == distance(v));
}

/// A finite number of at least 2^52 quanta `2^(e - 1)` is a multiple of the
/// quantum.
pub proof fn lemma_multiple_of_quantum(x: Scalar, e: nat)
    requires
        x.finite(),
        1 <= e <= 2046,
        x.magnitude() >= pow2(52) * pow2((e - 1) as nat) || e == 1,
    ensures
        multiple(x.magnitude() as int, pow2((e - 1) as nat) as int),
        multiple(x.value(), pow2((e - 1) as nat) as int),
{
    lemma_decompose(x);
    let big = x.exponent();
    let m = x.significand();
    let q = pow2((e - 1) as nat);
    lemma_pow2_pos((e - 1) as nat);
    lemma2_to64();
    if big >= e {
        lemma_pow2_adds((big - e) as nat, (e - 1) as nat);
        let c = pow2((big - e) as nat);
        assert(x.magnitude() == scaled((m * c) as int, q as int)) by (nonlinear_arith)
            requires
                x.magnitude() == m * pow2((big - 1) as nat),
                pow2((big - 1) as nat) == c * q,
                scaled((m * c) as int, q as int) == (m * c) * q,
        ;
    } else {
        lemma_pow2_adds(1, (big - 1) as nat);
        lemma_pow2_adds(52, 1);
        lemma_pow2_ordered(big, (e - 1) as nat);
        lemma_pow2_pos((big - 1) as nat);
        assert(x.magnitude() < pow2(52) * q) by (nonlinear_arith)
            requires
                x.magnitude() == m * pow2((big - 1) as nat),
                m < pow2(52) * 2,
                pow2(big) == 2 * pow2((big - 1) as nat),
                pow2(big) <= q,
                pow2((big - 1) as nat) > 0,
        ;
    }
    lemma_multiple_sum(x.magnitude() as int, x.magnitude() as int, q as int);
}

/// Of two finite numbers, the one with the larger magnitude has the larger
/// or the same exponent.
pub proof fn lemma_exponent_ordered(a: Scalar, b: Scalar)
    requires
        a.finite(),
        b.finite(),
        a.magnitude() >= b.magnitude(),
    ensures
        a.exponent() >= b.exponent(),
{
    lemma_decompose(a);
    lemma_decompose(b);
    let (ea, eb) = (a.exponent(), b.exponent());
    if ea < eb {
        lemma_pow2_adds(1, (ea - 1) as nat);
        lemma_pow2_adds(52, 1);
        lemma2_to64();
        lemma_pow2_ordered(ea, (eb - 1) as nat);
        lemma_pow2_pos((ea - 1) as nat);
        let qa = pow2((ea - 1) as nat);
        let qb = pow2((eb - 1) as nat);
        assert(a.magnitude() < pow2(52) * (2 * qa)) by (nonlinear_arith)
            requires
                a.magnitude() == a.significand() * qa,
                a.significand() < pow2(52) * 2,
                qa > 0,
        ;
        assert(b.magnitude() >= pow2(52) * qb) by (nonlinear_arith)
            requires
                b.magnitude() == b.significand() * qb,
                b.significand() >= pow2(52),
        ;
        assert(pow2(52) * (2 * qa) <= pow2(52) * qb) by (nonlinear_arith)
            requires
                2 * qa <= qb,
        ;
    }
}

/// What the recovery of a rounding error starts from: two finite numbers,
/// the first not negative and not smaller in magnitude than the second,
/// whose rounded sum is finite.
pub open spec fn ready(a: Scalar, b: Scalar) -> bool {
    &&& a.finite()
    &&& b.finite()
    &&& a.value() >= 0
    &&& a.magnitude() >= b.magnitude()
    &&& round_value(a.value() + b.value()) < magnitude_of(INFINITY_BITS as nat)
}

/// The quantum of a finite number: the weight of the last bit of its
/// significand, `2^(exponent - 1)`.
pub open spec fn quantum(x: Scalar) -> int {
    pow2((x.exponent() - 1) as nat) as int
}

/// 2^53 quanta are the least magnitude of the next exponent, and round to
/// themselves.
proof fn lemma_top(e: nat)
    requires
        1 <= e <= 2046,
    ensures
        round_value((pow2(53) * pow2((e - 1) as nat)) as int) == pow2(53) * pow2((e - 1) as nat),
        e == 2046 ==> pow2(53) * pow2((e - 1) as nat) == magnitude_of(INFINITY_BITS as nat),
        pow2(53) * pow2((e - 1) as nat) == pow2(52) * pow2(e),
        pow2(53) * pow2((e - 1) as nat) <= magnitude_of(INFINITY_BITS as nat),
{
    lemma_pow2_120();
    lemma2_to64();
    lemma_pow2_adds(52, 1);
    lemma_pow2_adds(1, (e - 1) as nat);
    let q = pow2((e - 1) as nat);
    assert(pow2(53) * q == pow2(52) * pow2(e)) by (nonlinear_arith)
        requires
            pow2(53) == pow2(52) * 2,
            pow2(e) == 2 * q,
    ;
    lemma_encode(e + 1, HIDDEN_BIT as nat);
    let k = (e * HIDDEN_BIT + HIDDEN_BIT) as nat;
    assert(e * HIDDEN_BIT <= 2046 * HIDDEN_BIT) by (nonlinear_arith)
        requires
            e <= 2046,
    ;
    assert(k <= INFINITY_BITS);
    assert((e + 1 - 1) * HIDDEN_BIT + HIDDEN_BIT == k);
    lemma_rounded_exact(k);
    lemma_magnitude_ordered(k, INFINITY_BITS as nat);
    assert(pow2(53) * q >= 0) by (nonlinear_arith)
        requires
            pow2(53) >= 0,
            q >= 0,
    ;
}

/// The number with the rounded sum for its magnitude.
proof fn lemma_rounded_sum(a: Scalar, b: Scalar) -> (x: Scalar)
    requires
        ready(a, b),
    ensures
        x.finite(),
        x.magnitude() == round_value(a.value() + b.value()),
        a.value() + b.value() >= 0,
        round_value(a.value() + b.value()) >= 0,
{
    let n = a.value() + b.value();
    lemma_magnitude_zero(a.abs_bits() as nat);
    assert(n >= 0);
    lemma_rounding_exists(n as nat, 1);
    let k = rounded(n as nat, 1);
    if k >= INFINITY_BITS {
        lemma_magnitude_ordered(INFINITY_BITS as nat, k);
    }
    let x = with_sign(false, k);
    assert(x.abs_bits() == k);
    x
}

/// Both operands, their sum and its rounding are multiples of the quantum
/// of the smaller operand.
proof fn lemma_all_multiples(a: Scalar, b: Scalar)
    requires
        ready(a, b),
    ensures
        multiple(a.value(), quantum(b)),
        multiple(b.value(), quantum(b)),
        multiple(a.value() + b.value(), quantum(b)),
        multiple(round_value(a.value() + b.value()), quantum(b)),
        multiple(a.value(), quantum(a)),
{
    let n = a.value() + b.value();
    let eb = b.exponent();
    let ea = a.exponent();
    let qb = quantum(b);
    lemma_decompose(a);
    lemma_decompose(b);
    lemma_exponent_ordered(a, b);
    lemma_pow2_pos((eb - 1) as nat);
    lemma_magnitude_zero(a.abs_bits() as nat);
    // the operands
    lemma_pow2_pos((ea - 1) as nat);
    lemma_scaled_bound(b.significand() as int, pow2(52) as int, qb);
    lemma_multiple_of_quantum(b, eb);
    lemma_scaled_bound(a.significand() as int, pow2(52) as int, quantum(a));
    lemma_multiple_of_quantum(a, ea);
    lemma_pow2_adds((ea - eb) as nat, (eb - 1) as nat);
    assert(quantum(a) == pow2((ea - eb) as nat) * qb);
    lemma_multiple_coarser(a.value(), qb, pow2((ea - eb) as nat) as int);
    lemma_multiple_sum(a.value(), b.value(), qb);
    // the rounded sum
    let x = lemma_rounded_sum(a, b);
    let s = round_value(n);
    lemma_top(eb);
    if s >= pow2(52) * qb || eb == 1 {
        lemma_multiple_of_quantum(x, eb);
    } else {
        if n >= pow2(53) * qb {
            lemma_round_value_ordered((pow2(53) * qb) as int, n);
            lemma_pow2_adds(52, 1);
            lemma2_to64();
            assert(pow2(53) * qb >= pow2(52) * qb) by (nonlinear_arith)
                requires
                    pow2(53) == pow2(52) * 2,
                    qb > 0,
            ;
        }
        lemma_bounded_multiple(n, eb);
        lemma_round_value_exact(n);
    }
}

/// `m * q` is at least `least * q` where `m` is at least `least`.
proof fn lemma_scaled_bound(m: int, least: int, q: int)
    requires
        q >= 0,
    ensures
        m >= least ==> m * q >= least * q,
        m < least && q > 0 ==> m * q < least * q,
{
    assert(m >= least ==> m * q >= least * q) by (nonlinear_arith)
        requires
            q >= 0,
    ;
    assert(m < least && q > 0 ==> m * q < least * q) by (nonlinear_arith);
}

/// The rounding error of the sum is representable.
proof fn lemma_error_representable(a: Scalar, b: Scalar)
    requires
        ready(a, b),
    ensures
        representable(a.value() + b.value() - round_value(a.value() + b.value())),
        distance(a.value() + b.value() - round_value(a.value() + b.value())) <= b.magnitude(),
{
    let n = a.value() + b.value();
    let s = round_value(n);
    let eb = b.exponent();
    let qb = quantum(b);
    lemma_all_multiples(a, b);
    lemma_multiple_sum(n, s, qb);
    lemma_value_representable(a);
    lemma_round_value_nearest(n, a.value());
    lemma_decompose(b);
    lemma_pow2_pos((eb - 1) as nat);
    lemma_scaled_bound(b.significand() as int, pow2(53) as int, qb);
    lemma_bounded_multiple(n - s, eb);
}

/// The larger operand less the rounded sum is representable.
proof fn lemma_difference_representable(a: Scalar, b: Scalar)
    requires
        ready(a, b),
    ensures
        representable(a.value() - round_value(a.value() + b.value())),
{
    let av = a.value();
    let bv = b.value();
    let n = av + bv;
    let s = round_value(n);
    let ea = a.exponent();
    let eb = b.exponent();
    let qa = quantum(a);
    let qb = quantum(b);
    let x = lemma_rounded_sum(a, b);
    lemma_all_multiples(a, b);
    lemma_error_representable(a, b);
    lemma_decompose(a);
    lemma_decompose(b);
    lemma_pow2_pos((ea - 1) as nat);
    lemma_pow2_pos((eb - 1) as nat);
    lemma_magnitude_zero(a.abs_bits() as nat);
    lemma_value_representable(a);
    lemma_value_representable(b);
    lemma_round_value_exact(av);
    lemma_scaled_bound(a.significand() as int, pow2(53) as int, qa);
    lemma_scaled_bound(b.significand() as int, pow2(53) as int, qb);
    lemma_scaled_bound(a.significand() as int, pow2(52) as int, qa);
    lemma_top(ea);
    lemma_top(eb);
    lemma_pow2_adds(52, 1);
    lemma2_to64();
    if bv >= 0 {
        // the sum lies between the larger operand and its double
        lemma_round_value_ordered(av, n);
        assert(s <= 2 * av) by {
            if ea <= 2045 {
                lemma_representable_multiple(a.significand(), ea + 1);
                lemma_pow2_unfold(ea);
                assert(scaled(a.significand() as int, pow2(ea) as int) == 2 * av)
                    by (nonlinear_arith)
                    requires
                        av == a.significand() * qa,
                        pow2(ea) == 2 * qa,
                        scaled(a.significand() as int, pow2(ea) as int) == a.significand()
                            * pow2(ea),
                ;
                lemma_round_value_exact(2 * av);
                lemma_round_value_ordered(n, 2 * av);
            } else {
                assert(2 * av >= pow2(53) * qa) by (nonlinear_arith)
                    requires
                        av >= pow2(52) * qa,
                        pow2(53) == pow2(52) * 2,
                ;
            }
        }
        lemma_multiple_of_quantum(x, ea);
        lemma_multiple_sum(av, s, qa);
        lemma_bounded_multiple(av - s, ea);
    } else if 2 * (-bv) >= av {
        // the operands cancel exactly
        lemma_bounded_multiple(n, eb);
        lemma_round_value_exact(n);
        assert(av - s == -bv);
    } else {
        // the difference is the smaller operand and the rounding error
        lemma_multiple_sum(av, s, qb);
        let d = av - s;
        let e = n - s;
        assert(d == -bv + e);
        assert(0 <= d <= 2 * (-bv));
        if d < pow2(53) * qb {
            lemma_bounded_multiple(d, eb);
        } else {
            // both the larger operand and the rounded sum have twice the
            // quantum of the smaller operand
            assert(e > 0);
            assert(n >= pow2(53) * qb) by {
                if n < pow2(53) * qb {
                    lemma_bounded_multiple(n, eb);
                    lemma_round_value_exact(n);
                }
            }
            lemma_round_value_ordered((pow2(53) * qb) as int, n);
            assert(av >= pow2(52) * pow2(eb));
            assert(eb <= 2045) by {
                if eb == 2046 {
                    lemma_magnitude_increases(a.abs_bits() as nat, INFINITY_BITS as nat);
                }
            }
            lemma_multiple_of_quantum(a, eb + 1);
            lemma_multiple_of_quantum(x, eb + 1);
            lemma_multiple_sum(av, s, pow2(eb) as int);
            lemma_pow2_unfold(eb);
            assert(d < pow2(53) * pow2(eb)) by (nonlinear_arith)
                requires
                    d <= 2 * (-bv),
                    -bv < pow2(53) * qb,
                    pow2(eb) == 2 * qb,
            ;
            lemma_bounded_multiple(d, eb + 1);
        }
    }
}

/// A sum of two finite numbers whose exact value is representable is that
/// value, and finite.
pub proof fn lemma_exact_sum(x: Scalar, y: Scalar)
    requires
        x.finite(),
        y.finite(),
        representable(x.value() + y.value()),
    ensures
        x.spec_plus(y).finite(),
        x.spec_plus(y).value() == x.value() + y.value(),
{
    let n = x.value() + y.value();
    lemma_sum_rounds(x, y);
    lemma_round_value_exact(n);
    let k = choose|k: nat| k < INFINITY_BITS && #[trigger] magnitude_of(k) == distance(n);
    let r = x.spec_plus(y);
    if r.abs_bits() >= INFINITY_BITS {
        lemma_magnitude_ordered(INFINITY_BITS as nat, r.abs_bits() as nat);
        lemma_magnitude_increases(k, INFINITY_BITS as nat);
    }
}

/// The rounding error of a sum is recovered exactly from the operand that
/// is larger in magnitude: with `s` the rounded sum of two finite numbers
/// `a` and `b`, `a` not smaller in magnitude than `b`, the number `(a - s) +
/// b` is finite and is `a + b - s` exactly.
pub proof fn lemma_error_recovered(a: Scalar, b: Scalar)
    requires
        a.finite(),
        b.finite(),
        a.magnitude() >= b.magnitude(),
        a.spec_plus(b).finite(),
    ensures
        a.spec_minus(a.spec_plus(b)).finite(),
        a.spec_minus(a.spec_plus(b)).value() == a.value() - a.spec_plus(b).value(),
        a.spec_minus(a.spec_plus(b)).spec_plus(b).finite(),
        a.spec_minus(a.spec_plus(b)).spec_plus(b).value() == a.value() + b.value() - a.spec_plus(
            b,
        ).value(),
{
    let s = a.spec_plus(b);
    let n = a.value() + b.value();
    lemma_sum_rounds(a, b);
    lemma_neg_value(s);
    lemma_magnitude_zero(a.abs_bits() as nat);
    lemma_magnitude_zero(b.abs_bits() as nat);
    if s.abs_bits() < INFINITY_BITS {
        lemma_magnitude_increases(s.abs_bits() as nat, INFINITY_BITS as nat);
    }
    if a.value() >= 0 {
        assert(ready(a, b)) by {
            lemma_round_value_ordered(n, n);
        }
        lemma_difference_representable(a, b);
        lemma_error_representable(a, b);
    } else {
        // the mirror image
        let ma = a.spec_neg();
        let mb = b.spec_neg();
        lemma_neg_value(a);
        lemma_neg_value(b);
        lemma_round_value_ordered(n, n);
        assert(round_value(-n) == -round_value(n));
        assert(ready(ma, mb));
        lemma_difference_representable(ma, mb);
        lemma_error_representable(ma, mb);
        assert(distance(a.value() - s.value()) == distance(ma.value() - round_value(-n)));
        assert(distance(n - s.value()) == distance(-n - round_value(-n)));
    }
    assert(representable(a.value() - s.value()));
    assert(representable(n - s.value()));
    lemma_exact_sum(a, s.spec_neg());
    let d = a.spec_minus(s);
    lemma_exact_sum(d, b);
}

} // verus!
