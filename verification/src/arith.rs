//! Correctly rounded arithmetic on binary64 encodings.
//!
//! Sum, difference, product and quotient are computed on the encodings in
//! integer arithmetic and proved to be what IEEE-754 asks for: the exact
//! result, rounded to nearest with ties to even (`crate::rounding`). The
//! signs of zeros and the results at infinity follow the standard. A result
//! that is not a number is always the one encoding `NAN_BITS`.
use crate::rounding::{
    bit_length, lemma_encode, lemma_nearest_between, lemma_nearest_unique,
    lemma_pow2_120, lemma_pow2_ordered, nearest, power_of_two, round_magnitude,
};
use crate::scalar::{
    lemma_magnitude_increases, lemma_magnitude_zero, magnitude_of, unit, Scalar, HIDDEN_BIT,
    INFINITY_BITS, ONE_BITS, SIGN_BIT,
};
use vstd::arithmetic::power2::{lemma2_to64, lemma_pow2_adds, lemma_pow2_pos, pow2};
use vstd::prelude::*;

verus! {

/// Encoding of the NaN that every invalid operation yields.
pub const NAN_BITS: u64 = 0x7FF8_0000_0000_0000;

/// The magnitude bits that the exact value `num / den` rounds to. Every
/// exact value has a rounding (`lemma_rounding_exists`) and no second one
/// (`lemma_nearest_unique`).
pub open spec fn rounded(num: nat, den: nat) -> nat {
    choose|k: nat| nearest(num, den, k)
}

/// A rounding that has been found is the rounding.
pub proof fn lemma_rounded(num: nat, den: nat, k: nat)
    requires
        den > 0,
        nearest(num, den, k),
    ensures
        rounded(num, den) == k,
{
    lemma_nearest_unique(num, den, k, rounded(num, den));
}

/// Zero rounds to zero.
pub proof fn lemma_rounded_zero(den: nat)
    requires
        den > 0,
    ensures
        rounded(0, den) == 0,
{
    lemma_magnitude_zero(0);
    lemma_magnitude_increases(0, 1);
    assert(0 < (magnitude_of(0) + magnitude_of(1)) * den) by (nonlinear_arith)
        requires
            magnitude_of(0) + magnitude_of(1) > 0,
            den > 0,
    ;
    lemma_rounded(0, den, 0);
}

/// A magnitude that an encoding has rounds to that encoding.
pub proof fn lemma_rounded_exact(k: nat)
    requires
        k <= INFINITY_BITS,
    ensures
        rounded(magnitude_of(k), 1) == k,
{
    if k < INFINITY_BITS {
        lemma_magnitude_increases(k, k + 1);
        lemma_nearest_between(magnitude_of(k), 1, k, false);
    } else {
        crate::rounding::lemma_nearest_overflow(magnitude_of(k), 1);
    }
    lemma_rounded(magnitude_of(k), 1, k);
}

/// The magnitude bits with the greatest magnitude not above `num / den`,
/// from `k` on.
proof fn lemma_floor_search(num: nat, den: nat, k: nat) -> (j: nat)
    requires
        den > 0,
        k <= INFINITY_BITS,
        magnitude_of(k) * den <= num,
    ensures
        k <= j <= INFINITY_BITS,
        magnitude_of(j) * den <= num,
        j == INFINITY_BITS || num < magnitude_of(j + 1) * den,
    decreases INFINITY_BITS - k,
{
    if k == INFINITY_BITS {
        k
    } else if num < magnitude_of(k + 1) * den {
        k
    } else {
        lemma_floor_search(num, den, k + 1)
    }
}

/// Every exact value has a rounding.
pub proof fn lemma_rounding_exists(num: nat, den: nat)
    requires
        den > 0,
    ensures
        nearest(num, den, rounded(num, den)),
{
    lemma_magnitude_zero(0);
    assert(magnitude_of(0) * den == 0) by (nonlinear_arith)
        requires
            magnitude_of(0) == 0,
    ;
    let j = lemma_floor_search(num, den, 0);
    if j == INFINITY_BITS {
        crate::rounding::lemma_nearest_overflow(num, den);
    } else {
        let mid = magnitude_of(j) + magnitude_of(j + 1);
        let up = 2 * num > mid * den || (2 * num == mid * den && j % 2 == 1);
        lemma_nearest_between(num, den, j, up);
    }
}

/// Rounding keeps the order: a greater exact value does not get a lesser
/// rounding.
pub proof fn lemma_rounded_monotone(n1: nat, d1: nat, n2: nat, d2: nat)
    requires
        d1 > 0,
        d2 > 0,
        n1 * d2 <= n2 * d1,
    ensures
        rounded(n1, d1) <= rounded(n2, d2),
{
    let k1 = rounded(n1, d1);
    let k2 = rounded(n2, d2);
    lemma_rounding_exists(n1, d1);
    lemma_rounding_exists(n2, d2);
    if k1 > k2 {
        let upper = magnitude_of(k2) + magnitude_of(k2 + 1);
        let lower = magnitude_of((k1 - 1) as nat) + magnitude_of(k1);
        crate::rounding::lemma_magnitude_ordered(k2, (k1 - 1) as nat);
        crate::rounding::lemma_magnitude_ordered(k2 + 1, k1);
        assert(upper <= lower);
        assert(2 * n2 <= upper * d2);
        assert(2 * n1 >= lower * d1);
        // lower * d1 * d2 <= 2 * n1 * d2 <= 2 * n2 * d1 <= upper * d2 * d1
        let a = lower * d1;
        let b = upper * d2;
        assert(a * d2 <= (2 * n1) * d2) by (nonlinear_arith)
            requires
                a <= 2 * n1,
                d2 > 0,
        ;
        assert((2 * n1) * d2 == 2 * (n1 * d2)) by (nonlinear_arith);
        assert((2 * n2) * d1 == 2 * (n2 * d1)) by (nonlinear_arith);
        assert((2 * n2) * d1 <= b * d1) by (nonlinear_arith)
            requires
                2 * n2 <= b,
                d1 > 0,
        ;
        assert(a * d2 == lower * (d1 * d2)) by (nonlinear_arith)
            requires
                a == lower * d1,
        ;
        assert(b * d1 == upper * (d1 * d2)) by (nonlinear_arith)
            requires
                b == upper * d2,
        ;
        let dd = d1 * d2;
        assert(dd > 0) by (nonlinear_arith)
            requires
                dd == d1 * d2,
                d1 > 0,
                d2 > 0,
        ;
        assert(lower * dd <= upper * dd);
        assert(lower <= upper) by (nonlinear_arith)
            requires
                lower * dd <= upper * dd,
                dd > 0,
        ;
        // so the two midpoints are one, the values lie on it, and both
        // roundings are even neighbours
        if k1 - 1 > k2 {
            lemma_magnitude_increases(k2, (k1 - 1) as nat);
        }
        assert(k1 == k2 + 1);
        assert(a * d2 == (2 * n1) * d2);
        assert(a == 2 * n1) by (nonlinear_arith)
            requires
                a * d2 == (2 * n1) * d2,
                d2 > 0,
        ;
        assert((2 * n2) * d1 == b * d1);
        assert(2 * n2 == b) by (nonlinear_arith)
            requires
                (2 * n2) * d1 == b * d1,
                d1 > 0,
        ;
        assert(k1 % 2 == 0 && k2 % 2 == 0);
    }
}

/// The number with the magnitude bits `abs` and the given sign.
pub open spec fn with_sign(negative: bool, abs: nat) -> Scalar {
    Scalar {
        bits: (if negative {
            abs + SIGN_BIT
        } else {
            abs as int
        }) as u64,
    }
}

/// The whole number `n` is the least that is not below `value`, a count of
/// multiples of 2^-1074.
pub open spec fn is_ceiling(value: int, n: int) -> bool {
    (n - 1) * unit() < value <= n * unit()
}

/// The absolute value of an integer.
pub open spec fn distance(n: int) -> nat {
    if n < 0 {
        (-n) as nat
    } else {
        n as nat
    }
}

impl Scalar {
    /// The exponent field, read as 1 on a subnormal: the magnitude is the
    /// significand times `2^(exponent - 1)`.
    pub open spec fn exponent(self) -> nat {
        let e = self.abs_bits() as nat / (HIDDEN_BIT as nat);
        if e == 0 {
            1
        } else {
            e
        }
    }

    /// The significand with its leading bit, which a subnormal lacks.
    pub open spec fn significand(self) -> nat {
        let e = self.abs_bits() as nat / (HIDDEN_BIT as nat);
        let f = self.abs_bits() as nat % (HIDDEN_BIT as nat);
        if e == 0 {
            f
        } else {
            HIDDEN_BIT as nat + f
        }
    }

    /// The magnitude is zero.
    pub open spec fn is_zero(self) -> bool {
        self.abs_bits() == 0
    }

    /// The negation: the same encoding with the sign bit flipped.
    pub open spec fn spec_neg(self) -> Scalar {
        with_sign(!self.negative(), self.abs_bits() as nat)
    }

    /// The product as IEEE-754 defines it.
    pub open spec fn spec_times(self, other: Scalar) -> Scalar {
        let negative = self.negative() != other.negative();
        if self.nan() || other.nan() {
            Scalar { bits: NAN_BITS }
        } else if !self.finite() || !other.finite() {
            if self.is_zero() || other.is_zero() {
                Scalar { bits: NAN_BITS }
            } else {
                with_sign(negative, INFINITY_BITS as nat)
            }
        } else {
            with_sign(negative, rounded(self.magnitude() * other.magnitude(), pow2(1074)))
        }
    }

    /// The quotient as IEEE-754 defines it.
    pub open spec fn spec_over(self, other: Scalar) -> Scalar {
        let negative = self.negative() != other.negative();
        if self.nan() || other.nan() {
            Scalar { bits: NAN_BITS }
        } else if !self.finite() {
            if !other.finite() {
                Scalar { bits: NAN_BITS }
            } else {
                with_sign(negative, INFINITY_BITS as nat)
            }
        } else if !other.finite() {
            with_sign(negative, 0)
        } else if other.is_zero() {
            if self.is_zero() {
                Scalar { bits: NAN_BITS }
            } else {
                with_sign(negative, INFINITY_BITS as nat)
            }
        } else {
            with_sign(negative, rounded(self.magnitude() * pow2(1074), other.magnitude()))
        }
    }

    /// The sum as IEEE-754 defines it. An exact sum of zero is positive,
    /// unless both operands are negative (zeros).
    pub open spec fn spec_plus(self, other: Scalar) -> Scalar {
        if self.nan() || other.nan() {
            Scalar { bits: NAN_BITS }
        } else if !self.finite() {
            if !other.finite() && self.negative() != other.negative() {
                Scalar { bits: NAN_BITS }
            } else {
                with_sign(self.negative(), INFINITY_BITS as nat)
            }
        } else if !other.finite() {
            with_sign(other.negative(), INFINITY_BITS as nat)
        } else {
            let n = self.value() + other.value();
            if n == 0 {
                with_sign(self.negative() && other.negative(), 0)
            } else {
                with_sign(n < 0, rounded(distance(n), 1))
            }
        }
    }

    /// The difference as IEEE-754 defines it: the sum with the negation.
    pub open spec fn spec_minus(self, other: Scalar) -> Scalar {
        self.spec_plus(other.spec_neg())
    }

    /// The whole number `n` as a binary64 number, rounded where its
    /// magnitude exceeds 2^53.
    pub open spec fn spec_from_int(n: int) -> Scalar {
        if n == 0 {
            Scalar { bits: 0 }
        } else {
            with_sign(n < 0, rounded(distance(n) * pow2(1074), 1))
        }
    }

    /// The running product of binary exponentiation: `acc` times `self`
    /// raised to `pow`, one bit of `pow` at a time from the lowest, every
    /// product rounded.
    pub open spec fn spec_power_from(self, pow: nat, acc: Scalar) -> Scalar
        decreases pow,
    {
        if pow == 0 {
            acc
        } else {
            let next = if pow % 2 == 1 {
                acc.spec_times(self)
            } else {
                acc
            };
            self.spec_times(self).spec_power_from(pow / 2, next)
        }
    }

    /// The power `self^n` by binary exponentiation; for a negative `n`, the
    /// reciprocal of the power with `-n`.
    pub open spec fn spec_powi(self, n: int) -> Scalar {
        let power = self.spec_power_from(distance(n), Scalar { bits: ONE_BITS });
        if n < 0 {
            (Scalar { bits: ONE_BITS }).spec_over(power)
        } else {
            power
        }
    }

    /// What `ceil_to_i64` gives: the least whole number that is not below
    /// the number, held to the range of `i64`; zero for a NaN.
    pub open spec fn spec_ceil(self) -> int {
        if self.nan() {
            0
        } else if self.value() > (i64::MAX as int) * unit() {
            i64::MAX as int
        } else if self.value() <= (i64::MIN as int) * unit() {
            i64::MIN as int
        } else {
            choose|n: int| is_ceiling(self.value(), n)
        }
    }

    /// The number with the magnitude bits `abs` and the given sign.
    fn pack(negative: bool, abs: u64) -> (r: Scalar)
        requires
            abs <= INFINITY_BITS,
        ensures
            r == with_sign(negative, abs as nat),
            r.abs_bits() == abs,
            r.negative() == negative,
    {
        if negative {
            Scalar { bits: abs + SIGN_BIT }
        } else {
            Scalar { bits: abs }
        }
    }

    /// Significand and exponent of a finite number.
    fn unpack(self) -> (r: (u64, i64))
        requires
            self.finite(),
        ensures
            r.0 == self.significand(),
            r.1 == self.exponent(),
            1 <= r.1 <= 2046,
            r.0 < 2 * HIDDEN_BIT,
            r.0 >= HIDDEN_BIT || r.1 == 1,
            self.magnitude() == r.0 * pow2((r.1 - 1) as nat),
            r.0 == 0 <==> self.is_zero(),
    {
        let abs = self.abs().to_bits();
        let e = abs / HIDDEN_BIT;
        let f = abs % HIDDEN_BIT;
        proof {
            lemma2_to64();
            lemma_magnitude_zero(abs as nat);
            assert(abs as nat / (HIDDEN_BIT as nat) == e);
            assert(abs as nat % (HIDDEN_BIT as nat) == f);
            assert(f * pow2(0) == f) by (nonlinear_arith)
                requires
                    pow2(0) == 1,
            ;
        }
        if e == 0 {
            (f, 1)
        } else {
            (HIDDEN_BIT + f, e as i64)
        }
    }

    /// The NaN that invalid operations yield.
    pub fn nan_value() -> (r: Scalar)
        ensures
            r.bits == NAN_BITS,
            r.nan(),
    {
        Scalar { bits: NAN_BITS }
    }

    /// The negation.
    pub fn neg(self) -> (r: Scalar)
        ensures
            r == self.spec_neg(),
            r.abs_bits() == self.abs_bits(),
            r.negative() == !self.negative(),
    {
        if self.bits >= SIGN_BIT {
            Scalar { bits: self.bits - SIGN_BIT }
        } else {
            Scalar { bits: self.bits + SIGN_BIT }
        }
    }

    /// The product, correctly rounded.
    pub fn times(self, other: Scalar) -> (r: Scalar)
        ensures
            r == self.spec_times(other),
    {
        let negative = self.is_sign_negative() != other.is_sign_negative();
        if self.is_nan() || other.is_nan() {
            return Scalar::nan_value();
        }
        if !self.is_finite() || !other.is_finite() {
            if self.abs().to_bits() == 0 || other.abs().to_bits() == 0 {
                return Scalar::nan_value();
            }
            return Scalar::pack(negative, INFINITY_BITS);
        }
        let (ma, ea) = self.unpack();
        let (mb, eb) = other.unpack();
        let ghost num = self.magnitude() * other.magnitude();
        let ghost den = pow2(1074);
        proof {
            lemma_pow2_pos(1074);
        }
        if ma == 0 || mb == 0 {
            proof {
                assert(num == 0) by (nonlinear_arith)
                    requires
                        num == self.magnitude() * other.magnitude(),
                        self.magnitude() == 0 || other.magnitude() == 0,
                ;
                lemma_rounded_zero(den);
            }
            return Scalar::pack(negative, 0);
        }
        proof {
            lemma_pow2_120();
            assert(ma * mb < 0x20_0000_0000_0000 * 0x20_0000_0000_0000) by (nonlinear_arith)
                requires
                    0 < ma < 0x20_0000_0000_0000,
                    0 < mb < 0x20_0000_0000_0000,
            ;
            assert(ma * mb > 0) by (nonlinear_arith)
                requires
                    ma > 0,
                    mb > 0,
            ;
        }
        let sig: u128 = ma as u128 * mb as u128;
        let scale: i64 = ea + eb - 2 - 1074;
        proof {
            let s = (scale + 1200) as nat;
            let pa = pow2((ea - 1) as nat);
            let pb = pow2((eb - 1) as nat);
            lemma_pow2_adds((ea - 1) as nat, (eb - 1) as nat);
            lemma_pow2_adds((ea - 1 + eb - 1) as nat, 1200);
            lemma_pow2_adds(s, 1074);
            assert(s + 1074 == (ea - 1 + eb - 1) + 1200);
            assert(sig * (pow2(s) * den) == num * pow2(1200)) by (nonlinear_arith)
                requires
                    sig == ma * mb,
                    num == (ma * pa) * (mb * pb),
                    den == pow2(1074),
                    pow2(s) * pow2(1074) == (pa * pb) * pow2(1200),
            ;
            lemma_pow2_pos(s);
            assert(pow2(s) * den > 0) by (nonlinear_arith)
                requires
                    pow2(s) > 0,
                    den > 0,
            ;
            assert((sig + 1) * (pow2(s) * den) > sig * (pow2(s) * den)) by (nonlinear_arith)
                requires
                    pow2(s) * den > 0,
            ;
        }
        let k = round_magnitude(sig, scale, false, Ghost(num), Ghost(den));
        proof {
            lemma_rounded(num, den, k as nat);
        }
        Scalar::pack(negative, k)
    }

    /// The quotient, correctly rounded.
    pub fn over(self, other: Scalar) -> (r: Scalar)
        ensures
            r == self.spec_over(other),
    {
        let negative = self.is_sign_negative() != other.is_sign_negative();
        if self.is_nan() || other.is_nan() {
            return Scalar::nan_value();
        }
        if !self.is_finite() {
            if !other.is_finite() {
                return Scalar::nan_value();
            }
            return Scalar::pack(negative, INFINITY_BITS);
        }
        if !other.is_finite() {
            return Scalar::pack(negative, 0);
        }
        let (ma, ea) = self.unpack();
        let (mb, eb) = other.unpack();
        if mb == 0 {
            if ma == 0 {
                return Scalar::nan_value();
            }
            return Scalar::pack(negative, INFINITY_BITS);
        }
        let ghost num = self.magnitude() * pow2(1074);
        let ghost den = other.magnitude();
        proof {
            lemma_magnitude_zero(other.abs_bits() as nat);
            lemma_pow2_120();
        }
        if ma == 0 {
            proof {
                assert(num == 0) by (nonlinear_arith)
                    requires
                        num == self.magnitude() * pow2(1074),
                        self.magnitude() == 0,
                ;
                lemma_rounded_zero(den);
            }
            return Scalar::pack(negative, 0);
        }
        proof {
            lemma_pow2_ordered(53, 120);
        }
        let la = bit_length(ma as u128);
        proof {
            if la > 53 {
                lemma_pow2_ordered(53, (la - 1) as nat);
            }
        }
        let g: u32 = 116 - la;
        let lift = power_of_two(g);
        proof {
            lemma_pow2_adds(la as nat, g as nat);
            lemma_pow2_adds((la - 1) as nat, g as nat);
            lemma_pow2_ordered(116, 120);
            lemma_pow2_pos(g as nat);
            assert(ma * lift < pow2(116)) by (nonlinear_arith)
                requires
                    ma < pow2(la as nat),
                    lift > 0,
                    pow2(116) == pow2(la as nat) * lift,
            ;
            assert(ma * lift >= pow2(115)) by (nonlinear_arith)
                requires
                    ma >= pow2((la - 1) as nat),
                    pow2(115) == pow2((la - 1) as nat) * lift,
            ;
        }
        let n: u128 = ma as u128 * lift;
        let q: u128 = n / (mb as u128);
        let rem: u128 = n % (mb as u128);
        let sticky = rem != 0;
        let scale: i64 = ea - eb + 1074 - g as i64;
        proof {
            vstd::arithmetic::div_mod::lemma_fundamental_div_mod(n as int, mb as int);
            assert(n == mb * q + rem);
            lemma_pow2_adds(53, 62);
            vstd::arithmetic::power2::lemma2_to64_rest();
            if q < 0x20_0000_0000_0000 {
                assert(mb * q <= 0x1F_FFFF_FFFF_FFFF * 0x1F_FFFF_FFFF_FFFF) by (nonlinear_arith)
                    requires
                        0 <= q <= 0x1F_FFFF_FFFF_FFFF,
                        0 < mb <= 0x1F_FFFF_FFFF_FFFF,
                ;
                assert(0x20_0000_0000_0000 * 0x4000_0000_0000_0000
                    > 0x1F_FFFF_FFFF_FFFF * 0x1F_FFFF_FFFF_FFFF + 0x1F_FFFF_FFFF_FFFF)
                    by (nonlinear_arith);
            }
            assert(q >= pow2(53));
            assert(q <= n) by (nonlinear_arith)
                requires
                    n == mb * q + rem,
                    mb >= 1,
                    q >= 0,
                    rem >= 0,
            ;
            lemma_pow2_pos(53);
            // the quotient brackets the exact value
            let s = (scale + 1200) as nat;
            let pa = pow2((ea - 1) as nat);
            let pb = pow2((eb - 1) as nat);
            let z = pow2((s + eb - 1) as nat);
            lemma_pow2_adds(s, (eb - 1) as nat);
            lemma_pow2_adds(g as nat, (s + eb - 1) as nat);
            lemma_pow2_adds((ea - 1) as nat, 1074);
            lemma_pow2_adds((ea - 1 + 1074) as nat, 1200);
            assert(g + (s + eb - 1) == (ea - 1 + 1074) + 1200);
            lemma_pow2_pos((s + eb - 1) as nat);
            assert(pow2(s) * den == mb * z) by (nonlinear_arith)
                requires
                    den == mb * pb,
                    z == pow2(s) * pb,
            ;
            assert(num * pow2(1200) == n * z) by (nonlinear_arith)
                requires
                    num == (ma * pa) * pow2(1074),
                    n == ma * lift,
                    lift * z == (pa * pow2(1074)) * pow2(1200),
            ;
            assert(q * (mb * z) <= n * z) by (nonlinear_arith)
                requires
                    n == mb * q + rem,
                    rem >= 0,
                    z > 0,
            ;
            assert(n * z < (q + 1) * (mb * z)) by (nonlinear_arith)
                requires
                    n == mb * q + rem,
                    rem < mb,
                    z > 0,
            ;
            assert(rem != 0 ==> q * (mb * z) != n * z) by (nonlinear_arith)
                requires
                    n == mb * q + rem,
                    rem >= 0,
                    z > 0,
            ;
            assert(rem == 0 ==> q * (mb * z) == n * z) by (nonlinear_arith)
                requires
                    n == mb * q + rem,
            ;
        }
        let k = round_magnitude(q, scale, sticky, Ghost(num), Ghost(den));
        proof {
            lemma_rounded(num, den, k as nat);
        }
        Scalar::pack(negative, k)
    }

    /// The sum, correctly rounded.
    pub fn plus(self, other: Scalar) -> (r: Scalar)
        ensures
            r == self.spec_plus(other),
    {
        let sa = self.is_sign_negative();
        let sb = other.is_sign_negative();
        if self.is_nan() || other.is_nan() {
            return Scalar::nan_value();
        }
        if !self.is_finite() {
            if !other.is_finite() && sa != sb {
                return Scalar::nan_value();
            }
            return Scalar::pack(sa, INFINITY_BITS);
        }
        if !other.is_finite() {
            return Scalar::pack(sb, INFINITY_BITS);
        }
        let (ma, ea) = self.unpack();
        let (mb, eb) = other.unpack();
        let ghost n = self.value() + other.value();
        let (mx, ex, sx, my, ey, sy) = if ea >= eb {
            (ma, ea, sa, mb, eb, sb)
        } else {
            (mb, eb, sb, ma, ea, sa)
        };
        let gap: i64 = ex - ey;
        let ghost px = pow2((ex - 1) as nat);
        let ghost py = pow2((ey - 1) as nat);
        let ghost vx = if sx {
            -(mx * px)
        } else {
            mx * px
        };
        let ghost vy = if sy {
            -(my * py)
        } else {
            my * py
        };
        proof {
            assert(n == vx + vy);
            lemma_pow2_120();
            lemma_pow2_pos((ey - 1) as nat);
            lemma_pow2_pos(1200);
        }
        if gap <= 64 {
            let lift = power_of_two(gap as u32);
            proof {
                lemma_pow2_adds(53, gap as nat);
                lemma_pow2_ordered((53 + gap) as nat, 117);
                lemma_pow2_ordered(117, 120);
                lemma_pow2_ordered(53, 117);
                lemma_aligned_sum_fits();
                lemma_pow2_pos(gap as nat);
                assert(mx * lift < pow2(117)) by (nonlinear_arith)
                    requires
                        mx < pow2(53),
                        pow2(53) * lift <= pow2(117),
                        lift > 0,
                ;
            }
            let big: u128 = mx as u128 * lift;
            let small: u128 = my as u128;
            let sig: u128;
            let negative: bool;
            if sx == sy {
                sig = big + small;
                negative = sx;
            } else if big >= small {
                sig = big - small;
                negative = sx;
            } else {
                sig = small - big;
                negative = sy;
            }
            proof {
                lemma_pow2_adds(gap as nat, (ey - 1) as nat);
                assert(mx * px == big * py) by (nonlinear_arith)
                    requires
                        big == mx * lift,
                        px == lift * py,
                ;
                assert(distance(n) == sig * py && (sig != 0 ==> negative == (n < 0))) by {
                    lemma_combine(big as int, small as int, py as int, sx, sy);
                }
                if sig == 0 {
                    assert(sig * py == 0) by (nonlinear_arith)
                        requires
                            sig == 0,
                    ;
                }
            }
            if sig == 0 {
                return Scalar::pack(sa && sb, 0);
            }
            proof {
                let s = (ey - 1 + 1200) as nat;
                lemma_pow2_adds((ey - 1) as nat, 1200);
                lemma_pow2_pos(s);
                assert(sig * (pow2(s) * 1) == distance(n) * pow2(1200)) by (nonlinear_arith)
                    requires
                        distance(n) == sig * py,
                        pow2(s) == py * pow2(1200),
                ;
                assert((sig + 1) * (pow2(s) * 1) > sig * (pow2(s) * 1)) by (nonlinear_arith)
                    requires
                        pow2(s) > 0,
                ;
                assert(sig * py != 0) by (nonlinear_arith)
                    requires
                        sig > 0,
                        py > 0,
                ;
            }
            let k = round_magnitude(sig, ey - 1, false, Ghost(distance(n)), Ghost(1));
            proof {
                lemma_rounded(distance(n), 1, k as nat);
            }
            Scalar::pack(negative, k)
        } else {
            // the lesser operand lies below a quarter of the last place of
            // the greater: it can only tip the rounding
            let sticky = my != 0;
            let sig: u128 = if sticky && sx != sy {
                4 * (mx as u128) - 1
            } else {
                4 * (mx as u128)
            };
            proof {
                let z = pow2((ex - 3) as nat);
                let s = (ex - 3 + 1200) as nat;
                lemma_pow2_adds(2, (ex - 3) as nat);
                lemma2_to64();
                assert(px == 4 * z);
                lemma_pow2_adds(53, (ey - 1) as nat);
                lemma_pow2_ordered((53 + ey - 1) as nat, (ex - 3) as nat);
                assert(my * py < z) by (nonlinear_arith)
                    requires
                        my < pow2(53),
                        py > 0,
                        pow2(53) * py <= z,
                ;
                lemma_pow2_pos((ex - 3) as nat);
                lemma_pow2_adds((ex - 3) as nat, 1200);
                lemma_pow2_ordered(54, 120);
                lemma_pow2_adds(1, 53);
                lemma_far(mx as int, z as int, (my * py) as int, pow2(1200) as int, sx, sy);
                assert(n == (if sx {
                    -(4 * mx * z)
                } else {
                    4 * mx * z
                }) + vy) by (nonlinear_arith)
                    requires
                        n == vx + vy,
                        vx == if sx {
                            -(mx * px)
                        } else {
                            mx * px
                        },
                        px == 4 * z,
                ;
                assert(my == 0 ==> my * py == 0) by (nonlinear_arith);
                assert(my != 0 ==> my * py > 0) by (nonlinear_arith)
                    requires
                        py > 0,
                        my >= 0,
                ;
                assert(pow2(s) * 1 == z * pow2(1200));
            }
            let k = round_magnitude(sig, ex - 3, sticky, Ghost(distance(n)), Ghost(1));
            proof {
                lemma_rounded(distance(n), 1, k as nat);
            }
            Scalar::pack(sx, k)
        }
    }

    /// The difference, correctly rounded.
    pub fn minus(self, other: Scalar) -> (r: Scalar)
        ensures
            r == self.spec_minus(other),
    {
        self.plus(other.neg())
    }

    /// The whole number `n` as a binary64 number.
    pub fn from_i64(n: i64) -> (r: Scalar)
        ensures
            r == Scalar::spec_from_int(n as int),
    {
        if n == 0 {
            return Scalar::zero();
        }
        let sig: u128 = if n < 0 {
            (-(n as i128)) as u128
        } else {
            n as u128
        };
        let ghost num = distance(n as int) * pow2(1074);
        proof {
            lemma_pow2_120();
            lemma_pow2_adds(1074, 1200);
            lemma_pow2_pos(2274);
            assert(sig * (pow2(2274) * 1) == num * pow2(1200)) by (nonlinear_arith)
                requires
                    num == sig * pow2(1074),
                    pow2(2274) == pow2(1074) * pow2(1200),
            ;
            assert((sig + 1) * (pow2(2274) * 1) > sig * (pow2(2274) * 1)) by (nonlinear_arith)
                requires
                    pow2(2274) > 0,
            ;
        }
        let k = round_magnitude(sig, 1074, false, Ghost(num), Ghost(1));
        proof {
            lemma_rounded(num, 1, k as nat);
        }
        Scalar::pack(n < 0, k)
    }
    /// The power `self^n`, by binary exponentiation with correctly rounded
    /// products.
    pub fn powi(self, n: i64) -> (r: Scalar)
        ensures
            r == self.spec_powi(n as int),
    {
        let mut base = self;
        let mut pow: u64 = if n < 0 {
            (-(n as i128)) as u64
        } else {
            n as u64
        };
        let mut product = Scalar::one();
        while pow > 0
            invariant
                base.spec_power_from(pow as nat, product) == self.spec_power_from(
                    distance(n as int),
                    Scalar { bits: ONE_BITS },
                ),
            decreases pow,
        {
            let ghost before = (base, pow, product);
            if pow % 2 == 1 {
                product = product.times(base);
            }
            pow = pow / 2;
            if pow > 0 {
                base = base.times(base);
            }
            proof {
                let squared = before.0.spec_times(before.0);
                assert(before.0.spec_power_from(before.1 as nat, before.2)
                    == squared.spec_power_from(pow as nat, product));
                if pow == 0 {
                    assert(squared.spec_power_from(0, product) == product);
                    assert(base.spec_power_from(0, product) == product);
                }
            }
        }
        if n < 0 {
            Scalar::one().over(product)
        } else {
            product
        }
    }

    /// The least whole number that is not below the number, held to the
    /// range of `i64`; zero for a NaN.
    pub fn ceil_to_i64(self) -> (r: i64)
        ensures
            r == self.spec_ceil(),
    {
        if self.is_nan() {
            return 0;
        }
        if !self.is_finite() {
            proof {
                lemma_huge(self);
            }
            return if self.is_sign_negative() {
                i64::MIN
            } else {
                i64::MAX
            };
        }
        let negative = self.is_sign_negative();
        let (m, e) = self.unpack();
        proof {
            lemma_pow2_120();
            lemma_pow2_pos(1074);
        }
        if m == 0 {
            proof {
                assert(m * pow2((e - 1) as nat) == 0) by (nonlinear_arith)
                    requires
                        m == 0,
                ;
                lemma_ceil(self, 0);
            }
            return 0;
        }
        if e >= 1075 {
            let up: i64 = e - 1075;
            if up >= 11 {
                proof {
                    lemma_huge(self);
                }
                return if negative {
                    i64::MIN
                } else {
                    i64::MAX
                };
            }
            let lift = power_of_two(up as u32);
            proof {
                lemma_pow2_adds(53, up as nat);
                lemma_pow2_ordered((53 + up) as nat, 63);
                vstd::arithmetic::power2::lemma2_to64_rest();
                lemma_pow2_pos(up as nat);
                assert(m * lift < pow2(63)) by (nonlinear_arith)
                    requires
                        m < pow2(53),
                        lift > 0,
                        pow2(53) * lift <= pow2(63),
                ;
                assert(m * lift >= 1) by (nonlinear_arith)
                    requires
                        m >= 1,
                        lift >= 1,
                ;
            }
            let whole: u128 = m as u128 * lift;
            let n: i64 = if negative {
                -(whole as i64)
            } else {
                whole as i64
            };
            proof {
                lemma_pow2_adds(up as nat, 1074);
                assert(self.magnitude() == whole * unit()) by (nonlinear_arith)
                    requires
                        self.magnitude() == m * pow2((e - 1) as nat),
                        whole == m * lift,
                        pow2((e - 1) as nat) == lift * unit(),
                ;
                assert(n * unit() == self.value()) by (nonlinear_arith)
                    requires
                        self.magnitude() == whole * unit(),
                        self.value() == if negative {
                            -(self.magnitude() as int)
                        } else {
                            self.magnitude() as int
                        },
                        n == if negative {
                            -(whole as int)
                        } else {
                            whole as int
                        },
                ;
                assert((n - 1) * unit() < n * unit()) by (nonlinear_arith)
                    requires
                        unit() > 0,
                ;
                lemma_ceil(self, n as int);
            }
            return n;
        }
        // below 2^53: a whole part and a fraction
        let down: i64 = 1075 - e;
        let floor: u64;
        let fraction: bool;
        if down > 53 {
            floor = 0;
            fraction = true;
            proof {
                lemma_pow2_adds((e - 1) as nat, down as nat);
                lemma_pow2_ordered(53, (down - 1) as nat);
                vstd::arithmetic::power2::lemma_pow2_unfold(down as nat);
                lemma_split(m as nat, pow2(down as nat), pow2((e - 1) as nat), unit());
                assert((m as nat) / pow2(down as nat) == 0 && (m as nat) % pow2(down as nat) == m) by {
                    vstd::arithmetic::div_mod::lemma_fundamental_div_mod_converse(
                        m as int,
                        pow2(down as nat) as int,
                        0,
                        m as int,
                    );
                }
            }
        } else {
            let cut = power_of_two(down as u32) as u64;
            proof {
                lemma_pow2_ordered(down as nat, 53);
                lemma_pow2_pos(down as nat);
                lemma_pow2_adds((e - 1) as nat, down as nat);
                lemma_split(m as nat, pow2(down as nat), pow2((e - 1) as nat), unit());
            }
            floor = m / cut;
            fraction = m % cut != 0;
        }
        let n: i64 = if negative {
            -(floor as i64)
        } else if fraction {
            floor as i64 + 1
        } else {
            floor as i64
        };
        proof {
            let u = unit() as int;
            let mag = self.magnitude() as int;
            assert(floor * u <= mag < (floor + 1) * u);
            assert(fraction <==> mag != floor * u);
            assert((floor + 1) * u == floor * u + u) by (nonlinear_arith);
            assert((floor - 1) * u == floor * u - u) by (nonlinear_arith);
            assert((-(floor as int) - 1) * u == -(floor * u) - u) by (nonlinear_arith);
            assert((-(floor as int)) * u == -(floor * u)) by (nonlinear_arith);
            lemma_ceil(self, n as int);
        }
        n
    }
}

/// The sum of two aligned significands, one below 2^117 and one below 2^53,
/// lies below 2^120.
proof fn lemma_aligned_sum_fits()
    ensures
        pow2(117) + pow2(53) < pow2(120),
{
    lemma_pow2_ordered(53, 117);
    vstd::arithmetic::power2::lemma_pow2_unfold(118);
    lemma_pow2_ordered(118, 120);
    vstd::arithmetic::power2::lemma_pow2_unfold(120);
    vstd::arithmetic::power2::lemma_pow2_unfold(119);
    lemma_pow2_pos(118);
}

/// The sum of two signed multiples of one quantum: its distance from zero
/// and its sign.
proof fn lemma_combine(big: int, small: int, py: int, sx: bool, sy: bool)
    requires
        big >= 0,
        small >= 0,
        py > 0,
    ensures
        ({
            let vx = if sx {
                -(big * py)
            } else {
                big * py
            };
            let vy = if sy {
                -(small * py)
            } else {
                small * py
            };
            let sig = if sx == sy {
                big + small
            } else if big >= small {
                big - small
            } else {
                small - big
            };
            let negative = if sx == sy || big >= small {
                sx
            } else {
                sy
            };
            &&& distance(vx + vy) == sig * py
            &&& sig != 0 ==> negative == (vx + vy < 0)
        }),
{
    assert((big + small) * py == big * py + small * py) by (nonlinear_arith);
    assert((big - small) * py == big * py - small * py) by (nonlinear_arith);
    assert((small - big) * py == small * py - big * py) by (nonlinear_arith);
    assert(big * py >= 0 && small * py >= 0) by (nonlinear_arith)
        requires
            big >= 0,
            small >= 0,
            py > 0,
    ;
    assert(big >= small ==> big * py >= small * py) by (nonlinear_arith)
        requires
            py > 0,
    ;
    assert(big < small ==> big * py < small * py) by (nonlinear_arith)
        requires
            py > 0,
    ;
    assert(big + small != 0 ==> (big + small) * py > 0) by (nonlinear_arith)
        requires
            big >= 0,
            small >= 0,
            py > 0,
    ;
    assert(big - small > 0 ==> (big - small) * py > 0) by (nonlinear_arith)
        requires
            py > 0,
    ;
}

/// A sum whose lesser term `tiny` lies below a quarter of the last place
/// `4 * z` of the greater term `4 * mx * z`.
proof fn lemma_far(mx: int, z: int, tiny: int, c: int, sx: bool, sy: bool)
    requires
        mx >= 1,
        z > 0,
        0 <= tiny < z,
        c > 0,
    ensures
        ({
            let vx = if sx {
                -(4 * mx * z)
            } else {
                4 * mx * z
            };
            let vy = if sy {
                -tiny
            } else {
                tiny
            };
            let sig = if tiny != 0 && sx != sy {
                4 * mx - 1
            } else {
                4 * mx
            };
            let d = distance(vx + vy);
            &&& vx + vy != 0
            &&& (vx + vy < 0) == sx
            &&& sig * (z * c) <= d * c < (sig + 1) * (z * c)
            &&& tiny != 0 <==> sig * (z * c) != d * c
        }),
{
    let whole = 4 * mx * z;
    assert(whole >= 4 * z) by (nonlinear_arith)
        requires
            whole == 4 * mx * z,
            mx >= 1,
            z > 0,
    ;
    assert((4 * mx) * (z * c) == whole * c) by (nonlinear_arith)
        requires
            whole == 4 * mx * z,
    ;
    assert((4 * mx - 1) * (z * c) == whole * c - z * c) by (nonlinear_arith)
        requires
            whole == 4 * mx * z,
    ;
    assert((4 * mx + 1) * (z * c) == whole * c + z * c) by (nonlinear_arith)
        requires
            whole == 4 * mx * z,
    ;
    assert((whole + tiny) * c == whole * c + tiny * c) by (nonlinear_arith);
    assert((whole - tiny) * c == whole * c - tiny * c) by (nonlinear_arith);
    assert(tiny * c < z * c) by (nonlinear_arith)
        requires
            tiny < z,
            c > 0,
    ;
    assert(tiny != 0 ==> tiny * c > 0) by (nonlinear_arith)
        requires
            tiny >= 0,
            c > 0,
    ;
    assert(tiny == 0 ==> tiny * c == 0) by (nonlinear_arith);
}

/// A whole number that bounds a number from above, with the whole number
/// below it lying below the number, is its ceiling.
proof fn lemma_ceil(x: Scalar, n: int)
    requires
        !x.nan(),
        (n - 1) * unit() < x.value() <= n * unit(),
        i64::MIN < n <= i64::MAX || (n == i64::MIN && x.value() == n * unit()),
    ensures
        x.spec_ceil() == n,
{
    lemma_pow2_pos(1074);
    let u = unit() as int;
    assert(x.value() <= (i64::MAX as int) * u) by (nonlinear_arith)
        requires
            x.value() <= n * u,
            n <= i64::MAX,
            u > 0,
    ;
    if n > i64::MIN {
        assert(x.value() > (i64::MIN as int) * u) by (nonlinear_arith)
            requires
                (n - 1) * u < x.value(),
                n - 1 >= i64::MIN,
                u > 0,
        ;
        assert(is_ceiling(x.value(), n));
        let c = choose|c: int| is_ceiling(x.value(), c);
        assert(c == n) by (nonlinear_arith)
            requires
                (c - 1) * u < x.value() <= c * u,
                (n - 1) * u < x.value() <= n * u,
                u > 0,
        ;
    }
}

/// A number of magnitude 2^63 or more lies outside the range of `i64`,
/// except for -2^63 itself, which is its least member.
proof fn lemma_huge(x: Scalar)
    requires
        !x.nan(),
        x.abs_bits() >= (1075 + 11 - 1) * HIDDEN_BIT + HIDDEN_BIT,
    ensures
        x.spec_ceil() == if x.negative() {
            i64::MIN as int
        } else {
            i64::MAX as int
        },
{
    let least = ((1075 + 11 - 1) * HIDDEN_BIT + HIDDEN_BIT) as nat;
    lemma_encode(1086, HIDDEN_BIT as nat);
    crate::rounding::lemma_magnitude_ordered(least, x.abs_bits() as nat);
    lemma_pow2_120();
    lemma_pow2_adds(52, 1085);
    lemma_pow2_adds(63, 1074);
    vstd::arithmetic::power2::lemma2_to64_rest();
    assert(magnitude_of(least) == pow2(63) * unit());
    lemma_pow2_pos(1074);
    assert((i64::MAX as int) * unit() < pow2(63) * unit()) by (nonlinear_arith)
        requires
            i64::MAX < pow2(63),
            unit() > 0,
    ;
    assert((i64::MIN as int) * unit() == -(pow2(63) * unit())) by (nonlinear_arith)
        requires
            i64::MIN == -pow2(63),
    ;
}

/// Splitting `m * p` units at the whole numbers, where a whole is `cut * p`
/// units: the quotient of `m` by `cut` is the whole part.
proof fn lemma_split(m: nat, cut: nat, p: nat, whole: nat)
    requires
        cut > 0,
        p > 0,
        whole == p * cut,
    ensures
        (m / cut) * whole <= m * p < (m / cut + 1) * whole,
        m % cut == 0 <==> m * p == (m / cut) * whole,
{
    let f = m / cut;
    let rest = m % cut;
    vstd::arithmetic::div_mod::lemma_fundamental_div_mod(m as int, cut as int);
    assert(m == cut * f + rest);
    assert(m * p == f * whole + rest * p) by (nonlinear_arith)
        requires
            m == cut * f + rest,
            whole == p * cut,
    ;
    assert((f + 1) * whole == f * whole + cut * p) by (nonlinear_arith)
        requires
            whole == p * cut,
    ;
    assert(rest * p < cut * p) by (nonlinear_arith)
        requires
            rest < cut,
            p > 0,
    ;
    assert(rest != 0 ==> rest * p > 0) by (nonlinear_arith)
        requires
            rest >= 0,
            p > 0,
    ;
    assert(rest == 0 ==> rest * p == 0) by (nonlinear_arith);
}

} // verus!
