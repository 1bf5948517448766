//! How the arithmetic keeps the order of numbers that are not negative.
//!
//! The statements are made over an order that puts a NaN above every
//! number: where an operation on the greater operand is invalid, the lesser
//! result is still not above the greater. The capped fee is what this is
//! for: a total that is a NaN counts as the cap.
use crate::arith::{
    distance, lemma_rounded_exact, lemma_rounded_monotone, lemma_rounded_zero,
    lemma_rounding_exists, rounded, with_sign,
};
use crate::rounding::lemma_magnitude_ordered;
use crate::scalar::{lemma_magnitude_zero, magnitude_of, unit, Scalar, INFINITY_BITS};
use vstd::arithmetic::power2::{lemma_pow2_pos, pow2};
use vstd::prelude::*;

verus! {

/// `x` is not negative and not above `y`, where a NaN `y` lies above
/// everything.
pub open spec fn rises(x: Scalar, y: Scalar) -> bool {
    y.nan() || (!x.nan() && 0 <= x.value() <= y.value())
}

/// A number that is not negative: a magnitude with a clear sign, or a zero
/// of either sign.
pub open spec fn not_negative(x: Scalar) -> bool {
    !x.nan() && x.value() >= 0
}

/// The number that `with_sign` makes has the magnitude bits and the sign
/// that it was given.
proof fn lemma_with_sign(negative: bool, k: nat)
    requires
        k <= INFINITY_BITS,
    ensures
        with_sign(negative, k).abs_bits() == k,
        with_sign(negative, k).negative() == negative,
        !with_sign(negative, k).nan(),
{
}

/// A number that is not negative has its magnitude for its value.
proof fn lemma_value_is_magnitude(x: Scalar)
    requires
        not_negative(x),
    ensures
        x.value() == x.magnitude(),
        x.negative() ==> x.abs_bits() == 0,
{
    lemma_magnitude_zero(x.abs_bits() as nat);
}

/// The value of a rounded result that is not negative in sign, or is zero.
proof fn lemma_rounded_value(negative: bool, num: nat, den: nat)
    requires
        den > 0,
        negative ==> num == 0,
    ensures
        with_sign(negative, rounded(num, den)).value() == magnitude_of(rounded(num, den)),
        not_negative(with_sign(negative, rounded(num, den))),
        rounded(num, den) <= INFINITY_BITS,
{
    lemma_rounding_exists(num, den);
    lemma_with_sign(negative, rounded(num, den));
    if negative {
        lemma_rounded_zero(den);
        lemma_magnitude_zero(0);
    }
}

/// The product of two finite numbers that are not negative, as a rounded
/// magnitude.
proof fn lemma_product_value(a: Scalar, c: Scalar)
    requires
        not_negative(a),
        not_negative(c),
        a.finite(),
        c.finite(),
    ensures
        not_negative(a.spec_times(c)),
        a.spec_times(c).value() == magnitude_of(
            rounded(a.magnitude() * c.magnitude(), pow2(1074)),
        ),
        rounded(a.magnitude() * c.magnitude(), pow2(1074)) <= INFINITY_BITS,
{
    lemma_value_is_magnitude(a);
    lemma_value_is_magnitude(c);
    lemma_pow2_pos(1074);
    lemma_magnitude_zero(0);
    let negative = a.negative() != c.negative();
    let num = a.magnitude() * c.magnitude();
    assert(negative ==> num == 0) by (nonlinear_arith)
        requires
            num == a.magnitude() * c.magnitude(),
            negative ==> a.magnitude() == 0 || c.magnitude() == 0,
    ;
    lemma_rounded_value(negative, num, pow2(1074));
}

/// Multiplying by a finite factor that is not negative keeps the order.
pub proof fn lemma_times_keeps_order(a: Scalar, b: Scalar, c: Scalar)
    requires
        rises(a, b),
        not_negative(c),
        c.finite(),
    ensures
        rises(a.spec_times(c), b.spec_times(c)),
        rises(c.spec_times(a), c.spec_times(b)),
{
    if !b.nan() {
        lemma_value_is_magnitude(a);
        lemma_value_is_magnitude(b);
        lemma_value_is_magnitude(c);
        lemma_pow2_pos(1074);
        lemma_magnitude_zero(a.abs_bits() as nat);
        lemma_magnitude_zero(b.abs_bits() as nat);
        lemma_magnitude_zero(c.abs_bits() as nat);
        if !a.finite() {
            // then `b` is the same infinity
            if b.finite() {
                crate::scalar::lemma_magnitude_increases(
                    b.abs_bits() as nat,
                    a.abs_bits() as nat,
                );
            }
            assert(a == b);
            lemma_with_sign(false, INFINITY_BITS as nat);
        } else if !b.finite() {
            if !c.is_zero() {
                lemma_product_value(a, c);
                lemma_product_value(c, a);
                lemma_with_sign(false, INFINITY_BITS as nat);
                lemma_magnitude_ordered(
                    rounded(a.magnitude() * c.magnitude(), pow2(1074)),
                    INFINITY_BITS as nat,
                );
                lemma_magnitude_ordered(
                    rounded(c.magnitude() * a.magnitude(), pow2(1074)),
                    INFINITY_BITS as nat,
                );
            }
        } else {
            lemma_product_value(a, c);
            lemma_product_value(b, c);
            lemma_product_value(c, a);
            lemma_product_value(c, b);
            let d = pow2(1074);
            let (ma, mb, mc) = (a.magnitude(), b.magnitude(), c.magnitude());
            assert((ma * mc) * d <= (mb * mc) * d) by (nonlinear_arith)
                requires
                    ma <= mb,
                    mc >= 0,
                    d > 0,
            ;
            assert((mc * ma) * d <= (mc * mb) * d) by (nonlinear_arith)
                requires
                    ma <= mb,
                    mc >= 0,
                    d > 0,
            ;
            lemma_rounded_monotone(ma * mc, d, mb * mc, d);
            lemma_rounded_monotone(mc * ma, d, mc * mb, d);
            lemma_magnitude_ordered(rounded(ma * mc, d), rounded(mb * mc, d));
            lemma_magnitude_ordered(rounded(mc * ma, d), rounded(mc * mb, d));
        }
    }
}

/// Squaring keeps the order.
pub proof fn lemma_square_keeps_order(a: Scalar, b: Scalar)
    requires
        rises(a, b),
    ensures
        rises(a.spec_times(a), b.spec_times(b)),
{
    if !b.nan() {
        lemma_value_is_magnitude(a);
        lemma_value_is_magnitude(b);
        lemma_pow2_pos(1074);
        lemma_magnitude_zero(a.abs_bits() as nat);
        lemma_magnitude_zero(b.abs_bits() as nat);
        lemma_with_sign(false, INFINITY_BITS as nat);
        if !a.finite() {
            if b.finite() {
                crate::scalar::lemma_magnitude_increases(
                    b.abs_bits() as nat,
                    a.abs_bits() as nat,
                );
            }
            assert(a == b);
        } else if !b.finite() {
            lemma_product_value(a, a);
            lemma_magnitude_ordered(
                rounded(a.magnitude() * a.magnitude(), pow2(1074)),
                INFINITY_BITS as nat,
            );
        } else {
            lemma_product_value(a, a);
            lemma_product_value(b, b);
            let d = pow2(1074);
            let (ma, mb) = (a.magnitude(), b.magnitude());
            assert((ma * ma) * d <= (mb * mb) * d) by (nonlinear_arith)
                requires
                    ma <= mb,
                    d > 0,
            ;
            lemma_rounded_monotone(ma * ma, d, mb * mb, d);
            lemma_magnitude_ordered(rounded(ma * ma, d), rounded(mb * mb, d));
        }
    }
}

/// The sum of two finite numbers that are not negative, as a rounded
/// magnitude.
proof fn lemma_sum_value(c: Scalar, a: Scalar)
    requires
        not_negative(a),
        not_negative(c),
        a.finite(),
        c.finite(),
    ensures
        not_negative(c.spec_plus(a)),
        c.spec_plus(a).value() == magnitude_of(rounded(c.magnitude() + a.magnitude(), 1)),
        rounded(c.magnitude() + a.magnitude(), 1) <= INFINITY_BITS,
{
    lemma_value_is_magnitude(a);
    lemma_value_is_magnitude(c);
    lemma_magnitude_zero(0);
    let n = c.value() + a.value();
    assert(distance(n) == c.magnitude() + a.magnitude());
    if n == 0 {
        lemma_rounded_zero(1);
        lemma_with_sign(c.negative() && a.negative(), 0);
    } else {
        lemma_rounded_value(false, distance(n), 1);
    }
}

/// Adding to a number that is not negative keeps the order.
pub proof fn lemma_plus_keeps_order(c: Scalar, a: Scalar, b: Scalar)
    requires
        rises(a, b),
        not_negative(c),
    ensures
        rises(c.spec_plus(a), c.spec_plus(b)),
{
    if !b.nan() {
        lemma_value_is_magnitude(a);
        lemma_value_is_magnitude(b);
        lemma_value_is_magnitude(c);
        lemma_magnitude_zero(a.abs_bits() as nat);
        lemma_magnitude_zero(b.abs_bits() as nat);
        lemma_magnitude_zero(c.abs_bits() as nat);
        lemma_with_sign(false, INFINITY_BITS as nat);
        if !a.finite() {
            if b.finite() {
                crate::scalar::lemma_magnitude_increases(
                    b.abs_bits() as nat,
                    a.abs_bits() as nat,
                );
            }
            assert(a == b);
        } else if !c.finite() {
        } else if !b.finite() {
            lemma_sum_value(c, a);
            lemma_magnitude_ordered(
                rounded(c.magnitude() + a.magnitude(), 1),
                INFINITY_BITS as nat,
            );
        } else {
            lemma_sum_value(c, a);
            lemma_sum_value(c, b);
            let (ma, mb, mc) = (a.magnitude(), b.magnitude(), c.magnitude());
            assert((mc + ma) * 1 <= (mc + mb) * 1);
            lemma_rounded_monotone(mc + ma, 1, mc + mb, 1);
            lemma_magnitude_ordered(rounded(mc + ma, 1), rounded(mc + mb, 1));
        }
    }
}

/// A cap keeps the order, and puts the NaN that lay above everything at
/// the cap.
pub proof fn lemma_min_keeps_order(a: Scalar, b: Scalar, cap: Scalar)
    requires
        rises(a, b),
        not_negative(cap),
    ensures
        a.spec_min(cap).spec_le(b.spec_min(cap)),
{
}

/// A number of one or more.
pub open spec fn at_least_one(x: Scalar) -> bool {
    !x.nan() && x.value() >= unit()
}

/// A finite number that is not negative, times one, is that number; and if
/// its sign bit is clear, the very same encoding.
pub proof fn lemma_times_one(y: Scalar)
    requires
        not_negative(y),
        y.finite(),
    ensures
        not_negative(y.spec_times(Scalar::one())),
        y.spec_times(Scalar::one()).value() == y.value(),
        !y.negative() ==> y.spec_times(Scalar::one()) == y,
{
    lemma_value_is_magnitude(y);
    crate::scalar::lemma_one_magnitude();
    lemma_product_value(y, Scalar::one());
    let d = pow2(1074);
    lemma_pow2_pos(1074);
    lemma_rounded_exact(y.abs_bits() as nat);
    lemma_rounding_exists(y.magnitude() * d, d);
    assert(1 * d == d);
    crate::rounding::lemma_nearest_scaled(y.magnitude(), 1, d, rounded(y.magnitude() * d, d));
    lemma_rounding_exists(y.magnitude(), 1);
    crate::rounding::lemma_nearest_unique(
        y.magnitude(),
        1,
        rounded(y.magnitude() * d, d),
        y.abs_bits() as nat,
    );
}

/// The product of two numbers of one or more is one or more.
pub proof fn lemma_product_at_least_one(a: Scalar, b: Scalar)
    requires
        at_least_one(a),
        at_least_one(b),
    ensures
        at_least_one(a.spec_times(b)),
{
    lemma_pow2_pos(1074);
    crate::scalar::lemma_one_magnitude();
    lemma_value_is_magnitude(a);
    lemma_value_is_magnitude(b);
    lemma_magnitude_zero(a.abs_bits() as nat);
    lemma_magnitude_zero(b.abs_bits() as nat);
    lemma_with_sign(false, INFINITY_BITS as nat);
    lemma_magnitude_ordered(crate::scalar::ONE_BITS as nat, INFINITY_BITS as nat);
    if a.finite() {
        if b.finite() {
            lemma_product_value(a, b);
        }
        lemma_times_one(a);
        lemma_times_keeps_order(Scalar::one(), b, a);
    }
}

/// A finite number above zero, times a number of one or more, is a number
/// that is not below the first.
pub proof fn lemma_scaled_not_below(c: Scalar, x: Scalar)
    requires
        c.finite(),
        c.value() > 0,
        at_least_one(x),
    ensures
        !c.spec_times(x).nan(),
        c.spec_times(x).value() >= c.value(),
{
    lemma_pow2_pos(1074);
    crate::scalar::lemma_one_magnitude();
    lemma_value_is_magnitude(c);
    lemma_value_is_magnitude(x);
    lemma_magnitude_zero(c.abs_bits() as nat);
    lemma_magnitude_zero(x.abs_bits() as nat);
    lemma_with_sign(false, INFINITY_BITS as nat);
    if x.finite() {
        lemma_product_value(c, x);
    }
    lemma_times_one(c);
    lemma_times_keeps_order(Scalar::one(), x, c);
}

/// A power of a number of one or more, times a running product of one or
/// more, is one or more.
pub proof fn lemma_power_at_least_one(base: Scalar, pow: nat, acc: Scalar)
    requires
        at_least_one(base),
        at_least_one(acc),
    ensures
        at_least_one(base.spec_power_from(pow, acc)),
    decreases pow,
{
    if pow != 0 {
        lemma_product_at_least_one(acc, base);
        lemma_product_at_least_one(base, base);
        let next = if pow % 2 == 1 {
            acc.spec_times(base)
        } else {
            acc
        };
        lemma_power_at_least_one(base.spec_times(base), pow / 2, next);
    }
}

/// One plus a finite number that is not negative is one or more.
pub proof fn lemma_one_plus(x: Scalar)
    requires
        not_negative(x),
        x.finite(),
    ensures
        at_least_one(Scalar::one().spec_plus(x)),
{
    crate::scalar::lemma_one_magnitude();
    lemma_magnitude_zero(0);
    lemma_pow2_pos(1074);
    let zero = Scalar::zero();
    lemma_plus_keeps_order(Scalar::one(), zero, x);
    lemma_sum_value(Scalar::one(), zero);
    lemma_sum_value(Scalar::one(), x);
    lemma_rounded_exact(crate::scalar::ONE_BITS as nat);
}

/// Dividing a finite number that is not negative by a whole number of one
/// or more leaves a finite number that is not negative.
pub proof fn lemma_share_is_finite(x: Scalar, whole: Scalar, n: nat)
    requires
        not_negative(x),
        x.finite(),
        not_negative(whole),
        whole.finite(),
        n >= 1,
        whole.magnitude() == n * pow2(1074),
    ensures
        not_negative(x.spec_over(whole)),
        x.spec_over(whole).finite(),
{
    lemma_value_is_magnitude(x);
    lemma_value_is_magnitude(whole);
    lemma_magnitude_zero(x.abs_bits() as nat);
    lemma_magnitude_zero(whole.abs_bits() as nat);
    lemma_pow2_pos(1074);
    let d = pow2(1074);
    let num = x.magnitude() * d;
    let den = whole.magnitude();
    assert(den > 0) by (nonlinear_arith)
        requires
            den == n * d,
            n >= 1,
            d > 0,
    ;
    assert(whole.negative() ==> false);
    assert(x.negative() ==> num == 0) by (nonlinear_arith)
        requires
            num == x.magnitude() * d,
            x.negative() ==> x.magnitude() == 0,
    ;
    lemma_rounded_value(x.negative() != whole.negative(), num, den);
    assert(num * 1 <= x.magnitude() * den) by (nonlinear_arith)
        requires
            num == x.magnitude() * d,
            den == n * d,
            n >= 1,
            d > 0,
    ;
    lemma_rounded_monotone(num, den, x.magnitude(), 1);
    lemma_rounded_exact(x.abs_bits() as nat);
    lemma_with_sign(x.negative() != whole.negative(), rounded(num, den));
}

} // verus!
