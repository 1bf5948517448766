//! Rounding to nearest, ties to even: which binary64 encoding stands for an
//! exact result, and how it is found.
//!
//! An exact result is a non-negative rational `num / den`, counted like
//! every magnitude in multiples of 2^-1074. The encoding that stands for it
//! is the one whose magnitude is nearest; of two that are equally near, the
//! even one. Past the midpoint between the largest finite magnitude and
//! 2^1024 the result is infinity, whose encoding continues the finite ones.
use crate::scalar::{lemma_magnitude_increases, magnitude_of, HIDDEN_BIT, INFINITY_BITS};
use vstd::arithmetic::power2::{
    lemma2_to64, lemma2_to64_rest, lemma_pow2_adds, lemma_pow2_pos,
    lemma_pow2_strictly_increases, lemma_pow2_unfold, pow2,
};
use vstd::prelude::*;

verus! {

/// The magnitude bits `k` are the rounding of `num / den`: the exact value
/// lies between the midpoints to the neighbours of `k`, and on a midpoint
/// only where `k` is even.
pub open spec fn nearest(num: nat, den: nat, k: nat) -> bool {
    &&& k <= INFINITY_BITS
    &&& (k == 0 || {
        let below = magnitude_of((k - 1) as nat) + magnitude_of(k);
        2 * num > below * den || (2 * num == below * den && k % 2 == 0)
    })
    &&& (k == INFINITY_BITS || {
        let above = magnitude_of(k) + magnitude_of(k + 1);
        2 * num < above * den || (2 * num == above * den && k % 2 == 0)
    })
}

/// Magnitudes do not fall as the magnitude bits grow.
pub proof fn lemma_magnitude_ordered(a: nat, b: nat)
    requires
        a <= b,
    ensures
        magnitude_of(a) <= magnitude_of(b),
{
    if a < b {
        lemma_magnitude_increases(a, b);
    }
}

/// An exact value has one rounding only.
pub proof fn lemma_nearest_unique(num: nat, den: nat, k1: nat, k2: nat)
    requires
        den > 0,
        nearest(num, den, k1),
        nearest(num, den, k2),
    ensures
        k1 == k2,
{
    lemma_nearest_not_above(num, den, k1, k2);
    lemma_nearest_not_above(num, den, k2, k1);
}

proof fn lemma_nearest_not_above(num: nat, den: nat, k1: nat, k2: nat)
    requires
        den > 0,
        nearest(num, den, k1),
        nearest(num, den, k2),
    ensures
        k2 <= k1,
{
    if k1 < k2 {
        let upper = magnitude_of(k1) + magnitude_of(k1 + 1);
        let lower = magnitude_of((k2 - 1) as nat) + magnitude_of(k2);
        lemma_magnitude_ordered(k1, (k2 - 1) as nat);
        lemma_magnitude_ordered(k1 + 1, k2);
        assert(upper <= lower);
        assert(2 * num <= upper * den);
        assert(2 * num >= lower * den);
        assert(upper * den <= lower * den) by (nonlinear_arith)
            requires
                upper <= lower,
                den > 0,
        ;
        if k2 > k1 + 1 {
            lemma_magnitude_increases(k1 + 1, k2);
            assert(upper < lower);
            assert(upper * den < lower * den) by (nonlinear_arith)
                requires
                    upper < lower,
                    den > 0,
            ;
        }
    }
}

/// Between two neighbouring encodings the midpoint decides: below it the
/// lower one is the rounding, above it the upper one, on it the even one.
pub proof fn lemma_nearest_between(num: nat, den: nat, k: nat, up: bool)
    requires
        den > 0,
        k < INFINITY_BITS,
        magnitude_of(k) * den <= num < magnitude_of(k + 1) * den,
        ({
            let mid = magnitude_of(k) + magnitude_of(k + 1);
            if up {
                2 * num > mid * den || (2 * num == mid * den && k % 2 == 1)
            } else {
                2 * num < mid * den || (2 * num == mid * den && k % 2 == 0)
            }
        }),
    ensures
        nearest(
            num,
            den,
            if up {
                k + 1
            } else {
                k
            },
        ),
{
    let lo = magnitude_of(k);
    let hi = magnitude_of(k + 1);
    if up {
        if k + 1 < INFINITY_BITS {
            let next = magnitude_of(k + 2);
            lemma_magnitude_increases(k + 1, k + 2);
            assert(2 * num < (hi + next) * den) by (nonlinear_arith)
                requires
                    num < hi * den,
                    hi < next,
                    den > 0,
            ;
        }
    } else {
        if k > 0 {
            let prev = magnitude_of((k - 1) as nat);
            lemma_magnitude_increases((k - 1) as nat, k);
            assert(2 * num > (prev + lo) * den) by (nonlinear_arith)
                requires
                    lo * den <= num,
                    prev < lo,
                    den > 0,
            ;
        }
    }
}

/// An exact value at or beyond 2^1024 rounds to infinity.
pub proof fn lemma_nearest_overflow(num: nat, den: nat)
    requires
        den > 0,
        num >= magnitude_of(INFINITY_BITS as nat) * den,
    ensures
        nearest(num, den, INFINITY_BITS as nat),
{
    let top = magnitude_of(INFINITY_BITS as nat);
    let prev = magnitude_of((INFINITY_BITS - 1) as nat);
    lemma_magnitude_increases((INFINITY_BITS - 1) as nat, INFINITY_BITS as nat);
    assert(2 * num > (prev + top) * den) by (nonlinear_arith)
        requires
            num >= top * den,
            prev < top,
            den > 0,
    ;
}

/// Scaling numerator and denominator alike does not change the rounding.
pub proof fn lemma_nearest_scaled(num: nat, den: nat, c: nat, k: nat)
    requires
        c > 0,
        nearest(num * c, den * c, k),
    ensures
        nearest(num, den, k),
{
    if k != 0 {
        let below = magnitude_of((k - 1) as nat) + magnitude_of(k);
        lemma_scaled_order(2 * num, below * den, c);
        assert(2 * (num * c) == (2 * num) * c) by (nonlinear_arith);
        assert(below * (den * c) == (below * den) * c) by (nonlinear_arith);
    }
    if k != INFINITY_BITS {
        let above = magnitude_of(k) + magnitude_of(k + 1);
        lemma_scaled_order(2 * num, above * den, c);
        assert(2 * (num * c) == (2 * num) * c) by (nonlinear_arith);
        assert(above * (den * c) == (above * den) * c) by (nonlinear_arith);
    }
}

proof fn lemma_scaled_order(a: nat, b: nat, c: nat)
    requires
        c > 0,
    ensures
        a * c < b * c <==> a < b,
        a * c == b * c <==> a == b,
        a * c > b * c <==> a > b,
{
    assert(a < b ==> a * c < b * c) by (nonlinear_arith)
        requires
            c > 0,
    ;
    assert(a > b ==> a * c > b * c) by (nonlinear_arith)
        requires
            c > 0,
    ;
}

/// The encoding with exponent field `e` (1 for a subnormal) and full
/// significand `m` has the magnitude `m * 2^(e - 1)`. A significand of 2^53
/// carries into the next exponent, and the encoding still holds.
pub proof fn lemma_encode(e: nat, m: nat)
    requires
        e >= 1,
        m <= 2 * HIDDEN_BIT,
        m >= HIDDEN_BIT || e == 1,
    ensures
        magnitude_of(((e - 1) * HIDDEN_BIT + m) as nat) == m * pow2((e - 1) as nat),
{
    let h = HIDDEN_BIT as nat;
    let k = ((e - 1) * h + m) as nat;
    if m < h {
        assert(k == m);
        assert(k / h == 0 && k % h == m);
        lemma2_to64();
    } else if m < 2 * h {
        assert(k == e * h + (m - h)) by (nonlinear_arith)
            requires
                k == (e - 1) * h + m,
        ;
        vstd::arithmetic::div_mod::lemma_fundamental_div_mod_converse(
            k as int,
            h as int,
            e as int,
            (m - h) as int,
        );
    } else {
        assert(k == (e + 1) * h + 0) by (nonlinear_arith)
            requires
                k == (e - 1) * h + m,
                m == 2 * h,
        ;
        vstd::arithmetic::div_mod::lemma_fundamental_div_mod_converse(
            k as int,
            h as int,
            (e + 1) as int,
            0,
        );
        vstd::arithmetic::power2::lemma_pow2_unfold(e);
        assert(h * pow2(e) == (2 * h) * pow2((e - 1) as nat)) by (nonlinear_arith)
            requires
                pow2(e) == 2 * pow2((e - 1) as nat),
        ;
    }
}

/// The rounding of a value that lies between `m` and `m + 1` quanta, where
/// the quantum is `2^(e - 1)`: `m` quanta, or one more where `up`.
pub proof fn lemma_round_choice(num: nat, den: nat, e: nat, m: nat, up: bool)
    requires
        den > 0,
        1 <= e <= 2046,
        m < 2 * HIDDEN_BIT,
        m >= HIDDEN_BIT || e == 1,
        m * pow2((e - 1) as nat) * den <= num < (m + 1) * pow2((e - 1) as nat) * den,
        ({
            let mid = (2 * m + 1) * pow2((e - 1) as nat) * den;
            if up {
                2 * num > mid || (2 * num == mid && m % 2 == 1)
            } else {
                2 * num < mid || (2 * num == mid && m % 2 == 0)
            }
        }),
    ensures
        (e - 1) * HIDDEN_BIT + m + 1 <= INFINITY_BITS,
        nearest(
            num,
            den,
            ((e - 1) * HIDDEN_BIT + m + if up {
                1nat
            } else {
                0nat
            }) as nat,
        ),
{
    let h = HIDDEN_BIT as nat;
    let q = pow2((e - 1) as nat);
    let k = ((e - 1) * h + m) as nat;
    lemma_encode(e, m);
    lemma_encode(e, m + 1);
    assert(k + 1 == (e - 1) * h + (m + 1));
    assert((e - 1) * h <= 2045 * h) by (nonlinear_arith)
        requires
            e <= 2046,
            e >= 1,
    ;
    assert(k % 2 == m % 2) by {
        assert(((e - 1) * (h / 2)) * 2 == (e - 1) * h) by (nonlinear_arith)
            requires
                h == 0x0010_0000_0000_0000,
        ;
        vstd::arithmetic::div_mod::lemma_mod_multiples_vanish(
            ((e - 1) * (h / 2)) as int,
            m as int,
            2,
        );
    }
    assert(magnitude_of(k) + magnitude_of(k + 1) == (2 * m + 1) * q) by (nonlinear_arith)
        requires
            magnitude_of(k) == m * q,
            magnitude_of(k + 1) == (m + 1) * q,
    ;
    assert((magnitude_of(k) + magnitude_of(k + 1)) * den == (2 * m + 1) * q * den);
    lemma_nearest_between(num, den, k, up);
}


/// Powers of two do not fall as the exponent grows.
pub proof fn lemma_pow2_ordered(a: nat, b: nat)
    requires
        a <= b,
    ensures
        pow2(a) <= pow2(b),
{
    if a < b {
        lemma_pow2_strictly_increases(a, b);
    }
}

/// 2^120, the bound on the significands that are rounded.
pub proof fn lemma_pow2_120()
    ensures
        pow2(120) == 0x1_0000_0000_0000_0000_0000_0000_0000_00,
        pow2(52) == HIDDEN_BIT,
        pow2(53) == 2 * HIDDEN_BIT,
{
    lemma2_to64_rest();
    lemma_pow2_adds(60, 60);
    assert(0x1000000000000000 * 0x1000000000000000
        == 0x1_0000_0000_0000_0000_0000_0000_0000_00) by (nonlinear_arith);
}

/// The power `2^n`.
pub(crate) fn power_of_two(n: u32) -> (p: u128)
    requires
        n <= 120,
    ensures
        p == pow2(n as nat),
{
    let mut p: u128 = 1;
    let mut i: u32 = 0;
    proof {
        lemma2_to64();
    }
    while i < n
        invariant
            i <= n <= 120,
            p == pow2(i as nat),
        decreases n - i,
    {
        proof {
            lemma_pow2_unfold((i + 1) as nat);
            lemma_pow2_ordered((i + 1) as nat, 120);
            lemma_pow2_120();
        }
        p = p * 2;
        i += 1;
    }
    p
}

/// The number of bits of `w`: the `len` with `2^(len - 1) <= w < 2^len`.
pub(crate) fn bit_length(w: u128) -> (len: u32)
    requires
        0 < w < pow2(120),
    ensures
        1 <= len <= 120,
        pow2((len - 1) as nat) <= w < pow2(len as nat),
{
    let mut p: u128 = 1;
    let mut len: u32 = 0;
    proof {
        lemma2_to64();
        lemma_pow2_120();
    }
    while p <= w
        invariant
            len <= 120,
            p == pow2(len as nat),
            len > 0 ==> pow2((len - 1) as nat) <= w,
            w < pow2(120),
            pow2(120) == 0x1_0000_0000_0000_0000_0000_0000_0000_00,
        decreases 121 - len,
    {
        proof {
            if len >= 120 {
                lemma_pow2_ordered(120, len as nat);
            }
            lemma_pow2_unfold((len + 1) as nat);
            lemma_pow2_ordered((len + 1) as nat, 120);
        }
        p = p * 2;
        len += 1;
    }
    len
}

/// What the rounding is told of the exact value `num / den`: scaled by
/// `2^-scale` it lies between `sig` and `sig + 1`, and `sticky` says that it
/// is not `sig` itself. (Both sides are scaled by 2^1200, so that every
/// power of two in the statement is a whole number.)
pub open spec fn approximates(num: nat, den: nat, sig: nat, scale: int, sticky: bool) -> bool {
    let s = (scale + 1200) as nat;
    &&& den > 0
    &&& scale + 1200 >= 0
    &&& sig * (pow2(s) * den) <= num * pow2(1200) < (sig + 1) * (pow2(s) * den)
    &&& sticky <==> sig * (pow2(s) * den) != num * pow2(1200)
}

/// Cutting `sig` at a power of two `p`: the quotient counts the quanta
/// `p * w` below `y`, and the remainder, with `sticky`, tells on which side
/// of the midpoint to the next quantum `y` lies.
proof fn lemma_cut(sig: nat, p: nat, w: nat, y: nat, sticky: bool)
    requires
        p >= 2,
        p % 2 == 0,
        w > 0,
        sig * w <= y < (sig + 1) * w,
        sticky <==> sig * w != y,
    ensures
        ({
            let m = sig / p;
            let rem = sig % p;
            let half = p / 2;
            let mid = (2 * m + 1) * (p * w);
            &&& m * (p * w) <= y < (m + 1) * (p * w)
            &&& rem > half ==> 2 * y > mid
            &&& rem < half ==> 2 * y < mid
            &&& rem == half && sticky ==> 2 * y > mid
            &&& rem == half && !sticky ==> 2 * y == mid
        }),
{
    let m = sig / p;
    let rem = sig % p;
    let half = p / 2;
    vstd::arithmetic::div_mod::lemma_fundamental_div_mod(sig as int, p as int);
    assert(sig == p * m + rem);
    assert(0 <= rem < p);
    let a = m * p;
    assert(sig * w == a * w + rem * w) by (nonlinear_arith)
        requires
            sig == p * m + rem,
            a == m * p,
    ;
    assert((sig + 1) * w == a * w + rem * w + w) by (nonlinear_arith)
        requires
            sig == p * m + rem,
            a == m * p,
    ;
    assert(m * (p * w) == a * w) by (nonlinear_arith)
        requires
            a == m * p,
    ;
    assert((m + 1) * (p * w) == a * w + 2 * (half * w)) by (nonlinear_arith)
        requires
            a == m * p,
            p == 2 * half,
    ;
    assert((2 * m + 1) * (p * w) == 2 * (a * w) + 2 * (half * w)) by (nonlinear_arith)
        requires
            a == m * p,
            p == 2 * half,
    ;
    assert(rem * w + w <= 2 * (half * w)) by (nonlinear_arith)
        requires
            rem + 1 <= 2 * half,
            w > 0,
    ;
    assert(rem > half ==> rem * w >= half * w + w) by (nonlinear_arith)
        requires
            w > 0,
    ;
    assert(rem < half ==> rem * w + w <= half * w) by (nonlinear_arith)
        requires
            w > 0,
    ;
    assert(rem * w >= 0) by (nonlinear_arith);
}

/// The rounding of the exact value `num / den`, which scaled by `2^-scale`
/// lies between `sig` and `sig + 1`. Where it lies strictly between them
/// (`sticky`), `sig` must have 54 bits or more, so that the cut lies above
/// its last bit.
pub(crate) fn round_magnitude(
    sig: u128,
    scale: i64,
    sticky: bool,
    Ghost(num): Ghost<nat>,
    Ghost(den): Ghost<nat>,
) -> (k: u64)
    requires
        0 < sig < pow2(120),
        -1200 <= scale <= 3100,
        sticky ==> sig >= pow2(53),
        approximates(num, den, sig as nat, scale as int, sticky),
    ensures
        nearest(num, den, k as nat),
{
    let len = bit_length(sig);
    let e: i64 = len as i64 + scale - 52;
    let ghost s = (scale + 1200) as nat;
    let ghost w = pow2(s) * den;
    let ghost y = num * pow2(1200);
    let ghost big = den * pow2(1200);
    proof {
        lemma_pow2_120();
        lemma_pow2_pos(s);
        lemma_pow2_pos(1200);
        assert(w > 0) by (nonlinear_arith)
            requires
                w == pow2(s) * den,
                pow2(s) > 0,
                den > 0,
        ;
        assert(big > 0) by (nonlinear_arith)
            requires
                big == den * pow2(1200),
                pow2(1200) > 0,
                den > 0,
        ;
        if sticky {
            if len < 54 {
                lemma_pow2_ordered(len as nat, 53);
            }
            assert(len >= 54);
        }
    }
    if e >= 2047 {
        proof {
            // y >= sig * w >= 2^(len - 1) * 2^s * den >= 2^2098 * (den * 2^1200)
            let top = magnitude_of(INFINITY_BITS as nat);
            lemma_encode(2047, HIDDEN_BIT as nat);
            assert((2047 - 1) * HIDDEN_BIT + HIDDEN_BIT == INFINITY_BITS);
            assert(top == HIDDEN_BIT * pow2(2046));
            lemma_pow2_adds(52, 2046);
            lemma_pow2_adds(2098, 1200);
            lemma_pow2_adds((len - 1) as nat, s);
            lemma_pow2_ordered(3298, (len - 1 + s) as nat);
            let lead = pow2((len - 1) as nat);
            assert(sig * w >= pow2(3298) * den) by (nonlinear_arith)
                requires
                    sig >= lead,
                    w == pow2(s) * den,
                    lead * pow2(s) >= pow2(3298),
            ;
            assert(top * big == pow2(3298) * den) by (nonlinear_arith)
                requires
                    top == pow2(2098),
                    big == den * pow2(1200),
                    pow2(3298) == pow2(2098) * pow2(1200),
            ;
            lemma_nearest_overflow(y, big);
            lemma_nearest_scaled(num, den, pow2(1200), INFINITY_BITS as nat);
        }
        return INFINITY_BITS;
    }
    let field: i64 = if e >= 1 {
        e
    } else {
        1
    };
    let drop: i64 = if e >= 1 {
        len as i64 - 53
    } else {
        -scale
    };
    let ghost q = pow2((field - 1) as nat);
    let ghost quantum = q * big;
    proof {
        assert(drop == field - 1 - scale);
        lemma_pow2_pos((field - 1) as nat);
        // the value is below 2^53 quanta, and, above the subnormals, at
        // least 2^52 quanta
        lemma_pow2_adds((field - 1) as nat, 1200);
        assert(quantum == pow2((field - 1 + 1200) as nat) * den) by (nonlinear_arith)
            requires
                quantum == q * big,
                big == den * pow2(1200),
                pow2((field - 1 + 1200) as nat) == q * pow2(1200),
        ;
    }
    let m: u128;
    let up: bool;
    if drop <= 0 {
        let c: u32 = (-drop) as u32;
        proof {
            assert(!sticky);
            lemma_pow2_adds(len as nat, c as nat);
            lemma_pow2_adds((len - 1) as nat, c as nat);
            if e >= 1 {
                assert(len + c == 53);
            } else {
                lemma_pow2_ordered((len + c) as nat, 52);
            }
            lemma_pow2_pos(c as nat);
            assert(sig * pow2(c as nat) < pow2(len as nat) * pow2(c as nat)) by (nonlinear_arith)
                requires
                    sig < pow2(len as nat),
                    pow2(c as nat) > 0,
            ;
            assert(sig * pow2(c as nat) >= pow2((len - 1) as nat) * pow2(c as nat))
                by (nonlinear_arith)
                requires
                    sig >= pow2((len - 1) as nat),
            ;
            lemma_pow2_ordered(c as nat, 120);
        }
        m = sig * power_of_two(c);
        up = false;
        proof {
            // exactly m quanta
            lemma_pow2_adds(c as nat, (field - 1 + 1200) as nat);
            assert(s == c + (field - 1 + 1200));
            assert(m * quantum == sig * w) by (nonlinear_arith)
                requires
                    m == sig * pow2(c as nat),
                    quantum == pow2((field - 1 + 1200) as nat) * den,
                    w == pow2(s) * den,
                    pow2(s) == pow2(c as nat) * pow2((field - 1 + 1200) as nat),
            ;
            assert(y == m * quantum);
            assert((m + 1) * quantum == m * quantum + quantum) by (nonlinear_arith);
            assert((2 * m + 1) * quantum == 2 * (m * quantum) + quantum) by (nonlinear_arith);
            assert(quantum > 0) by (nonlinear_arith)
                requires
                    quantum == q * big,
                    q > 0,
                    big > 0,
            ;
        }
    } else if drop > 120 {
        m = 0;
        up = false;
        proof {
            // subnormal, and far below half of the least quantum
            assert(field == 1);
            lemma2_to64();
            assert(q == 1);
            assert(quantum == big) by (nonlinear_arith)
                requires
                    quantum == q * big,
                    q == 1,
            ;
            lemma_pow2_adds(s, drop as nat);
            assert(s + drop == 1200);
            lemma_pow2_ordered(121, drop as nat);
            lemma_pow2_unfold(121);
            assert(big == pow2(drop as nat) * w) by (nonlinear_arith)
                requires
                    big == den * pow2(1200),
                    w == pow2(s) * den,
                    pow2(1200) == pow2(s) * pow2(drop as nat),
            ;
            assert(2 * ((sig + 1) * w) <= pow2(drop as nat) * w) by (nonlinear_arith)
                requires
                    sig + 1 <= pow2(120),
                    pow2(drop as nat) >= 2 * pow2(120),
                    w > 0,
            ;
            assert(0 * quantum == 0) by (nonlinear_arith);
            assert((0 + 1) * quantum == quantum) by (nonlinear_arith);
            assert((2 * 0 + 1) * quantum == quantum) by (nonlinear_arith);
        }
    } else {
        let p = power_of_two(drop as u32);
        proof {
            lemma_pow2_pos(drop as nat);
        }
        m = sig / p;
        let rem = sig % p;
        let half = p / 2;
        up = rem > half || (rem == half && (sticky || m % 2 == 1));
        proof {
            lemma_pow2_unfold(drop as nat);
            lemma_pow2_pos((drop - 1) as nat);
            assert(p >= 2 && p % 2 == 0);
            lemma_cut(sig as nat, p as nat, w, y, sticky);
            lemma_pow2_adds(s, drop as nat);
            assert(s + drop == field - 1 + 1200);
            assert(quantum == p * w) by (nonlinear_arith)
                requires
                    quantum == pow2((field - 1 + 1200) as nat) * den,
                    w == pow2(s) * den,
                    pow2((field - 1 + 1200) as nat) == pow2(s) * p,
            ;
            // the quotient is a significand
            if e >= 1 {
                lemma_pow2_adds(52, drop as nat);
                lemma_pow2_adds(53, drop as nat);
                assert(len - 1 == 52 + drop);
                assert(m >= pow2(52) && m < pow2(53)) by (nonlinear_arith)
                    requires
                        sig >= pow2(52) * p,
                        sig < pow2(53) * p,
                        m == sig / p,
                        p > 0,
                ;
            } else {
                if len >= drop {
                    lemma_pow2_ordered((len - drop) as nat, 52);
                    lemma_pow2_adds((len - drop) as nat, drop as nat);
                    assert(m < pow2(52)) by (nonlinear_arith)
                        requires
                            sig < pow2((len - drop) as nat) * p,
                            pow2((len - drop) as nat) <= pow2(52),
                            m == sig / p,
                            p > 0,
                    ;
                } else {
                    lemma_pow2_ordered(len as nat, drop as nat);
                    assert(m == 0) by (nonlinear_arith)
                        requires
                            sig < p,
                            m == sig / p,
                            p > 0,
                    ;
                }
            }
        }
    }
    proof {
        assert(m < 2 * HIDDEN_BIT);
        assert(m >= HIDDEN_BIT || field == 1);
        assert((m * q) * big == m * quantum) by (nonlinear_arith)
            requires
                quantum == q * big,
        ;
        assert(((m + 1) * q) * big == (m + 1) * quantum) by (nonlinear_arith)
            requires
                quantum == q * big,
        ;
        assert(((2 * m + 1) * q) * big == (2 * m + 1) * quantum) by (nonlinear_arith)
            requires
                quantum == q * big,
        ;
        lemma_round_choice(y, big, field as nat, m as nat, up);
        let k = ((field - 1) * HIDDEN_BIT + m + if up {
            1nat
        } else {
            0nat
        }) as nat;
        lemma_nearest_scaled(num, den, pow2(1200), k);
        assert((field - 1) * HIDDEN_BIT <= 2045 * HIDDEN_BIT) by (nonlinear_arith)
            requires
                1 <= field <= 2046,
        ;
    }
    let step: u64 = if up {
        1
    } else {
        0
    };
    (field - 1) as u64 * HIDDEN_BIT + m as u64 + step
}

} // verus!
