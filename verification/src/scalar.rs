//! Binary64 numbers held by their encoding, with an exact order.
//!
//! Every quantity of the schedule (a price, an allocation, a fee rate, a
//! duration) is an IEEE-754 binary64 number. This module carries such a
//! number as its 64-bit encoding and decides, on the encoding alone, what
//! kind of number it is and how it compares with another. The arithmetic on
//! encodings stands in `crate::arith`.
//!
//! The mathematical model of a number is [`Scalar::value`]: an integer that
//! counts multiples of 2^-1074, the spacing of the smallest subnormals. Every
//! finite binary64 number is such a multiple, so the model is exact.
use vstd::arithmetic::power2::*;
use vstd::prelude::*;

verus! {

/// Encoding of the sign bit.
pub const SIGN_BIT: u64 = 0x8000_0000_0000_0000;

/// Encoding of positive infinity; a larger magnitude encodes a NaN.
pub const INFINITY_BITS: u64 = 0x7FF0_0000_0000_0000;

/// Weight of the implicit leading bit of a normal significand, 2^52.
pub const HIDDEN_BIT: u64 = 0x0010_0000_0000_0000;

/// Encoding of 1.
pub const ONE_BITS: u64 = 0x3FF0_0000_0000_0000;

/// Encoding of 2.
pub const TWO_BITS: u64 = 0x4000_0000_0000_0000;

/// Encoding of -2.
pub const MINUS_TWO_BITS: u64 = 0xC000_0000_0000_0000;

/// Encoding of negative infinity.
pub const NEG_INFINITY_BITS: u64 = 0xFFF0_0000_0000_0000;

/// Encoding of 10000, the number of basis points in a whole.
pub const TEN_THOUSAND_BITS: u64 = 0x40C3_8800_0000_0000;

/// Encoding of the binary64 number nearest to 10^-12.
pub const PICO_BITS: u64 = 0x3D71_9799_812D_EA11;

/// Significand of that number, which is `PICO_SIGNIFICAND * 2^-92`.
pub const PICO_SIGNIFICAND: u64 = 4951760157141521;

/// The magnitude, in multiples of 2^-1074, that the magnitude bits `abs`
/// encode: the fraction field alone for a subnormal, otherwise the full
/// significand scaled by the exponent field.
pub open spec fn magnitude_of(abs: nat) -> nat {
    let e = abs / (HIDDEN_BIT as nat);
    let f = abs % (HIDDEN_BIT as nat);
    if e == 0 {
        f
    } else {
        (HIDDEN_BIT as nat + f) * pow2((e - 1) as nat)
    }
}

/// The model's value of 1: 2^1074 multiples of 2^-1074.
pub open spec fn unit() -> nat {
    pow2(1074)
}

/// Larger magnitude bits encode a larger magnitude.
pub proof fn lemma_magnitude_increases(a: nat, b: nat)
    requires
        a < b,
    ensures
        magnitude_of(a) < magnitude_of(b),
{
    let h = HIDDEN_BIT as nat;
    let ea = a / h;
    let fa = a % h;
    let eb = b / h;
    let fb = b % h;
    assert(a == ea * h + fa && b == eb * h + fb);
    assert(ea <= eb);
    if ea == eb {
        if ea != 0 {
            let p = pow2((ea - 1) as nat);
            lemma_pow2_pos((ea - 1) as nat);
            assert((h + fa) * p < (h + fb) * p) by (nonlinear_arith)
                requires
                    p > 0,
                    fa < fb,
            ;
        }
    } else {
        let pa = pow2(ea);
        let pb = pow2((eb - 1) as nat);
        lemma_pow2_pos((eb - 1) as nat);
        assert(magnitude_of(a) < h * pa) by {
            if ea == 0 {
                lemma2_to64();
            } else {
                let p = pow2((ea - 1) as nat);
                lemma_pow2_pos((ea - 1) as nat);
                lemma_pow2_unfold(ea);
                assert((h + fa) * p < h * (2 * p)) by (nonlinear_arith)
                    requires
                        p > 0,
                        fa < h,
                ;
            }
        }
        assert(pa <= pb) by {
            if ea < eb - 1 {
                lemma_pow2_strictly_increases(ea, (eb - 1) as nat);
            }
        }
        assert(h * pa <= (h + fb) * pb) by (nonlinear_arith)
            requires
                pa <= pb,
                0 <= fb,
                h > 0,
        ;
    }
}

/// Only the magnitude bits zero encode the magnitude zero.
pub proof fn lemma_magnitude_zero(a: nat)
    ensures
        magnitude_of(a) == 0 <==> a == 0,
{
    if a > 0 {
        lemma_magnitude_increases(0, a);
    }
}

/// An IEEE-754 binary64 number, held by its encoding.
///
/// The derived `==` compares encodings: it tells the two zeros apart and
/// finds a NaN equal to itself. [`Scalar::same`] compares numbers.
#[derive(Clone, Copy, Debug, PartialEq, Eq, Structural)]
pub struct Scalar {
    pub bits: u64,
}

impl Scalar {
    /// The encoding with the sign bit cleared.
    pub open spec fn abs_bits(self) -> u64 {
        if self.bits >= SIGN_BIT {
            (self.bits - SIGN_BIT) as u64
        } else {
            self.bits
        }
    }

    /// The sign bit is set (also on a negative zero or a NaN).
    pub open spec fn negative(self) -> bool {
        self.bits >= SIGN_BIT
    }

    /// The encoding is a NaN.
    pub open spec fn nan(self) -> bool {
        self.abs_bits() > INFINITY_BITS
    }

    /// The encoding is neither an infinity nor a NaN.
    pub open spec fn finite(self) -> bool {
        self.abs_bits() < INFINITY_BITS
    }

    /// The magnitude in multiples of 2^-1074. An infinity gets the magnitude
    /// that its encoding continues the finite ones with, 2^2098, which lies
    /// beyond every finite magnitude.
    pub open spec fn magnitude(self) -> nat {
        magnitude_of(self.abs_bits() as nat)
    }

    /// The number in multiples of 2^-1074; meaningful unless `nan()`.
    pub open spec fn value(self) -> int {
        if self.negative() {
            -(self.magnitude() as int)
        } else {
            self.magnitude() as int
        }
    }

    /// `self < other` as IEEE-754 orders them: false when either is a NaN.
    pub open spec fn spec_lt(self, other: Scalar) -> bool {
        !self.nan() && !other.nan() && self.value() < other.value()
    }

    /// `self <= other` as IEEE-754 orders them: false when either is a NaN.
    pub open spec fn spec_le(self, other: Scalar) -> bool {
        !self.nan() && !other.nan() && self.value() <= other.value()
    }

    /// `self == other` as IEEE-754 compares them: false when either is a
    /// NaN, true of the two zeros.
    pub open spec fn spec_same(self, other: Scalar) -> bool {
        !self.nan() && !other.nan() && self.value() == other.value()
    }

    /// The number whose encoding is `bits`.
    pub fn from_bits(bits: u64) -> (r: Scalar)
        ensures
            r.bits == bits,
    {
        Scalar { bits }
    }

    /// The encoding.
    pub fn to_bits(self) -> (r: u64)
        ensures
            r == self.bits,
    {
        self.bits
    }

    /// Positive zero.
    pub open spec fn spec_zero() -> Scalar {
        Scalar { bits: 0 }
    }

    /// The number 1.
    pub open spec fn spec_one() -> Scalar {
        Scalar { bits: ONE_BITS }
    }

    /// The number 10000.
    pub open spec fn spec_ten_thousand() -> Scalar {
        Scalar { bits: TEN_THOUSAND_BITS }
    }

    /// The binary64 number nearest to 10^-12.
    pub open spec fn spec_pico() -> Scalar {
        Scalar { bits: PICO_BITS }
    }

    /// The same number with the sign bit cleared.
    pub open spec fn spec_abs(self) -> Scalar {
        Scalar { bits: self.abs_bits() }
    }

    /// Positive zero.
    #[verifier::when_used_as_spec(spec_zero)]
    pub fn zero() -> (r: Scalar)
        ensures
            r == Scalar::spec_zero(),
            r.bits == 0,
            r.finite(),
            r.value() == 0,
    {
        proof {
            lemma_magnitude_zero(0);
        }
        Scalar { bits: 0 }
    }

    /// The number 1.
    #[verifier::when_used_as_spec(spec_one)]
    pub fn one() -> (r: Scalar)
        ensures
            r == Scalar::spec_one(),
            r.bits == ONE_BITS,
            r.finite(),
            r.value() == unit(),
    {
        proof {
            lemma2_to64();
            lemma2_to64_rest();
            lemma_whole_value(1, 0);
        }
        Scalar { bits: ONE_BITS }
    }

    /// The number 2.
    pub fn two() -> (r: Scalar)
        ensures
            r.bits == TWO_BITS,
            r.finite(),
            r.value() == 2 * unit(),
    {
        proof {
            lemma2_to64();
            lemma2_to64_rest();
            lemma_whole_value(2, 1);
        }
        Scalar { bits: TWO_BITS }
    }

    /// The number -2.
    pub fn minus_two() -> (r: Scalar)
        ensures
            r.bits == MINUS_TWO_BITS,
            r.finite(),
            r.value() == -2 * unit(),
    {
        proof {
            lemma2_to64();
            lemma2_to64_rest();
            lemma_whole_value(2, 1);
        }
        Scalar { bits: MINUS_TWO_BITS }
    }

    /// The number 10000.
    #[verifier::when_used_as_spec(spec_ten_thousand)]
    pub fn ten_thousand() -> (r: Scalar)
        ensures
            r == Scalar::spec_ten_thousand(),
            r.bits == TEN_THOUSAND_BITS,
            r.finite(),
            r.value() == 10000 * unit(),
    {
        proof {
            lemma2_to64();
            lemma2_to64_rest();
            lemma_whole_value(10000, 13);
        }
        Scalar { bits: TEN_THOUSAND_BITS }
    }

    /// The binary64 number nearest to 10^-12 (see `lemma_pico_is_nearest`),
    /// the tolerance under which a ratio counts as 1 and the least extent
    /// of a chart axis.
    #[verifier::when_used_as_spec(spec_pico)]
    pub fn pico() -> (r: Scalar)
        ensures
            r == Scalar::spec_pico(),
            r.bits == PICO_BITS,
            r.finite(),
            !r.negative(),
            r.value() == PICO_SIGNIFICAND * pow2(982),
    {
        proof {
            lemma_pico_is_nearest();
        }
        Scalar { bits: PICO_BITS }
    }

    /// Negative infinity, below every other number.
    pub fn neg_infinity() -> (r: Scalar)
        ensures
            r.bits == NEG_INFINITY_BITS,
            !r.nan(),
            !r.finite(),
            r.negative(),
    {
        Scalar { bits: NEG_INFINITY_BITS }
    }

    fn magnitude_bits(self) -> (r: u64)
        ensures
            r == self.abs_bits(),
    {
        if self.bits >= SIGN_BIT {
            self.bits - SIGN_BIT
        } else {
            self.bits
        }
    }

    /// Whether the sign bit is set.
    pub fn is_sign_negative(self) -> (r: bool)
        ensures
            r == self.negative(),
    {
        self.bits >= SIGN_BIT
    }

    /// Whether this is a NaN.
    pub fn is_nan(self) -> (r: bool)
        ensures
            r == self.nan(),
    {
        self.magnitude_bits() > INFINITY_BITS
    }

    /// Whether this is neither an infinity nor a NaN.
    pub fn is_finite(self) -> (r: bool)
        ensures
            r == self.finite(),
    {
        self.magnitude_bits() < INFINITY_BITS
    }

    /// The same number with the sign bit cleared.
    #[verifier::when_used_as_spec(spec_abs)]
    pub fn abs(self) -> (r: Scalar)
        ensures
            r == self.spec_abs(),
            r.bits == self.abs_bits(),
            !r.negative(),
            r.nan() == self.nan(),
            r.magnitude() == self.magnitude(),
            r.value() == self.magnitude(),
    {
        Scalar { bits: self.magnitude_bits() }
    }

    /// `self < other`, false when either is a NaN.
    pub fn lt(self, other: Scalar) -> (r: bool)
        ensures
            r == self.spec_lt(other),
    {
        let a = self.magnitude_bits();
        let b = other.magnitude_bits();
        if a > INFINITY_BITS || b > INFINITY_BITS {
            return false;
        }
        proof {
            lemma_magnitude_zero(a as nat);
            lemma_magnitude_zero(b as nat);
            if a < b {
                lemma_magnitude_increases(a as nat, b as nat);
            }
            if b < a {
                lemma_magnitude_increases(b as nat, a as nat);
            }
        }
        if self.bits >= SIGN_BIT {
            if other.bits >= SIGN_BIT {
                b < a
            } else {
                a != 0 || b != 0
            }
        } else {
            if other.bits >= SIGN_BIT {
                false
            } else {
                a < b
            }
        }
    }

    /// `self <= other`, false when either is a NaN.
    pub fn le(self, other: Scalar) -> (r: bool)
        ensures
            r == self.spec_le(other),
    {
        if self.is_nan() || other.is_nan() {
            false
        } else {
            !other.lt(self)
        }
    }

    /// `self > other`, false when either is a NaN.
    pub fn gt(self, other: Scalar) -> (r: bool)
        ensures
            r == other.spec_lt(self),
    {
        other.lt(self)
    }

    /// `self >= other`, false when either is a NaN.
    pub fn ge(self, other: Scalar) -> (r: bool)
        ensures
            r == other.spec_le(self),
    {
        other.le(self)
    }

    /// `self == other` as numbers: false when either is a NaN, true of the
    /// two zeros.
    pub fn same(self, other: Scalar) -> (r: bool)
        ensures
            r == self.spec_same(other),
    {
        self.le(other) && other.le(self)
    }

    /// What `max` selects: the other operand where one is a NaN, otherwise
    /// the greater, and `self` where the two compare equal.
    pub open spec fn spec_max(self, other: Scalar) -> Scalar {
        if self.nan() {
            other
        } else if other.nan() {
            self
        } else if self.value() < other.value() {
            other
        } else {
            self
        }
    }

    /// What `min` selects: the other operand where one is a NaN, otherwise
    /// the lesser, and `self` where the two compare equal.
    pub open spec fn spec_min(self, other: Scalar) -> Scalar {
        if self.nan() {
            other
        } else if other.nan() {
            self
        } else if other.value() < self.value() {
            other
        } else {
            self
        }
    }

    /// What `clamp` selects: `lo` below it, `hi` above it, else `self` (a
    /// NaN stays a NaN).
    pub open spec fn spec_clamp(self, lo: Scalar, hi: Scalar) -> Scalar {
        if self.spec_lt(lo) {
            lo
        } else if hi.spec_lt(self) {
            hi
        } else {
            self
        }
    }

    /// The greater of two numbers, ignoring a NaN operand.
    pub fn max(self, other: Scalar) -> (r: Scalar)
        ensures
            r == self.spec_max(other),
    {
        if self.is_nan() {
            other
        } else if other.is_nan() {
            self
        } else if self.lt(other) {
            other
        } else {
            self
        }
    }

    /// The lesser of two numbers, ignoring a NaN operand.
    pub fn min(self, other: Scalar) -> (r: Scalar)
        ensures
            r == self.spec_min(other),
    {
        if self.is_nan() {
            other
        } else if other.is_nan() {
            self
        } else if other.lt(self) {
            other
        } else {
            self
        }
    }

    /// The number restricted to the interval from `lo` to `hi`.
    pub fn clamp(self, lo: Scalar, hi: Scalar) -> (r: Scalar)
        requires
            lo.spec_le(hi),
        ensures
            r == self.spec_clamp(lo, hi),
    {
        if self.lt(lo) {
            lo
        } else if hi.lt(self) {
            hi
        } else {
            self
        }
    }
}

/// A normal encoding with exponent field `1023 + shift` and the significand
/// of the whole number `n` (so `n * 2^(52 - shift) ` fills 53 bits) has the
/// value `n` exactly.
proof fn lemma_whole_value(n: nat, shift: nat)
    requires
        shift <= 52,
        pow2(shift) <= n < 2 * pow2(shift),
    ensures
        magnitude_of(
            ((1023 + shift) * HIDDEN_BIT + (n * pow2((52 - shift) as nat) - HIDDEN_BIT)) as nat,
        ) == n * unit(),
{
    let h = HIDDEN_BIT as nat;
    let low = pow2((52 - shift) as nat);
    lemma2_to64_rest();
    assert(h == pow2(52));
    lemma_pow2_adds(shift, (52 - shift) as nat);
    assert(pow2(shift) * low == h);
    lemma_pow2_pos((52 - shift) as nat);
    assert(h <= n * low < 2 * h) by (nonlinear_arith)
        requires
            pow2(shift) <= n < 2 * pow2(shift),
            pow2(shift) * low == h,
            low > 0,
    ;
    let f = (n * low - h) as nat;
    let abs = ((1023 + shift) * h + f) as nat;
    assert(abs / h == 1023 + shift && abs % h == f) by {
        vstd::arithmetic::div_mod::lemma_fundamental_div_mod_converse(
            abs as int,
            h as int,
            (1023 + shift) as int,
            f as int,
        );
    }
    lemma_pow2_adds((52 - shift) as nat, 1022 + shift);
    assert(low * pow2(1022 + shift) == pow2(1074));
    assert((h + f) * pow2(1022 + shift) == n * pow2(1074)) by (nonlinear_arith)
        requires
            h + f == n * low,
            low * pow2(1022 + shift) == pow2(1074),
    ;
}

/// The number 1 is 2^1074 multiples of 2^-1074.
pub proof fn lemma_one_magnitude()
    ensures
        (Scalar { bits: ONE_BITS }).magnitude() == unit(),
        (Scalar { bits: ONE_BITS }).finite(),
        !(Scalar { bits: ONE_BITS }).negative(),
{
    lemma2_to64();
    lemma2_to64_rest();
    lemma_whole_value(1, 0);
}

/// The number 10000 is 10000 * 2^1074 multiples of 2^-1074.
pub proof fn lemma_ten_thousand_magnitude()
    ensures
        (Scalar { bits: TEN_THOUSAND_BITS }).magnitude() == 10000 * unit(),
        (Scalar { bits: TEN_THOUSAND_BITS }).finite(),
        !(Scalar { bits: TEN_THOUSAND_BITS }).negative(),
{
    lemma2_to64();
    lemma2_to64_rest();
    lemma_whole_value(10000, 13);
}

/// The number that `PICO_BITS` encodes is 10^-12 rounded to the nearest
/// binary64 number. Its significand is `PICO_SIGNIFICAND` and its unit in
/// the last place is 2^-92 (2^982 multiples of 2^-1074), so it lies below
/// 10^-12 by less than half a unit: scaled by 2^92 * 10^12, the distance is
/// `2^92 - PICO_SIGNIFICAND * 10^12`, and half a unit is `10^12 / 2`.
pub proof fn lemma_pico_is_nearest()
    ensures
        (Scalar { bits: PICO_BITS }).magnitude() == PICO_SIGNIFICAND * pow2(982),
        PICO_SIGNIFICAND * 1_000_000_000_000 < pow2(92),
        2 * (pow2(92) - PICO_SIGNIFICAND * 1_000_000_000_000) < 1_000_000_000_000,
{
    let h = HIDDEN_BIT as nat;
    let s = Scalar { bits: PICO_BITS };
    assert(s.abs_bits() as nat / h == 983);
    assert(s.abs_bits() as nat % h == 0x1_9799_812D_EA11);
    assert(h + 0x1_9799_812D_EA11 == PICO_SIGNIFICAND);
    lemma2_to64();
    lemma2_to64_rest();
    lemma_pow2_adds(64, 28);
    assert(pow2(92) == 0x10000000000000000 * 0x10000000);
}

} // verus!
