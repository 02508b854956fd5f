//! Binary32 values held as bit patterns.
//!
//! A channel, an opacity or a coverage is an IEEE-754 binary32 number. The
//! engine stores its 32 bits and decides on them: which numbers are equal, which
//! is smaller, which is no number at all. Everything here is exact integer work
//! on the pattern.
use vstd::prelude::*;
use vstd::arithmetic::power2::{
    lemma2_to64, lemma_pow2_adds, lemma_pow2_strictly_increases, lemma_pow2_unfold, pow2,
};

verus! {

/// The pattern of `0.0`.
pub const F_ZERO: u32 = 0;

/// The pattern of `0.5`.
pub const F_HALF: u32 = 0x3f00_0000;

/// The pattern of `1.0`.
pub const F_ONE: u32 = 0x3f80_0000;

/// The pattern of `2.0`.
pub const F_TWO: u32 = 0x4000_0000;

/// The pattern of `4.0`.
pub const F_FOUR: u32 = 0x4080_0000;

/// The pattern of `6.0`.
pub const F_SIX: u32 = 0x40c0_0000;

/// The pattern of `0.000001`, a range that is still divided by.
pub const F_TINY: u32 = 0x358637bd;

/// The pattern of the sign bit alone, which is `-0.0`.
pub const F_SIGN: u32 = 0x8000_0000;

/// The pattern of positive infinity.
pub const F_INFINITY: u32 = 0x7f80_0000;

/// The pattern without its sign bit.
pub open spec fn magnitude(b: u32) -> int {
    if b >= F_SIGN { b - F_SIGN } else { b as int }
}

/// True if the pattern is not a number.
pub open spec fn nan(b: u32) -> bool {
    magnitude(b) > F_INFINITY
}

/// True if the pattern is a zero of either sign.
pub open spec fn zero(b: u32) -> bool {
    magnitude(b) == 0
}

/// True if the pattern is a number and not an infinity.
pub open spec fn finite(b: u32) -> bool {
    magnitude(b) < F_INFINITY
}

/// The place of a number in the order of all numbers; both zeros share a place.
pub open spec fn rank(b: u32) -> int {
    if b >= F_SIGN { -magnitude(b) } else { magnitude(b) }
}

/// `a < b` as numbers. Nothing is smaller or larger than what is no number.
pub open spec fn less(a: u32, b: u32) -> bool {
    !nan(a) && !nan(b) && rank(a) < rank(b)
}

/// `a == b` as numbers. What is no number equals nothing, itself included.
pub open spec fn same(a: u32, b: u32) -> bool {
    !nan(a) && !nan(b) && rank(a) == rank(b)
}

/// `v` clamped to `lo..=hi`; what is no number stays.
pub open spec fn clamped(v: u32, lo: u32, hi: u32) -> u32 {
    if less(v, lo) {
        lo
    } else if less(hi, v) {
        hi
    } else {
        v
    }
}

/// `v` clamped to `0.0..=1.0`, and `0.0` for what is no number.
pub open spec fn unit(v: u32) -> u32 {
    if nan(v) { F_ZERO } else { clamped(v, F_ZERO, F_ONE) }
}

fn magnitude_of(b: u32) -> (r: u32)
    ensures
        r == magnitude(b),
{
    if b >= F_SIGN { b - F_SIGN } else { b }
}

/// True if the pattern is not a number.
pub fn is_nan(b: u32) -> (r: bool)
    ensures
        r == nan(b),
{
    magnitude_of(b) > F_INFINITY
}

/// True if the pattern is `0.0` or `-0.0`.
pub fn is_zero(b: u32) -> (r: bool)
    ensures
        r == zero(b),
{
    magnitude_of(b) == 0
}

/// True if the pattern is a number and not an infinity.
pub fn is_finite(b: u32) -> (r: bool)
    ensures
        r == finite(b),
{
    magnitude_of(b) < F_INFINITY
}

fn rank_of(b: u32) -> (r: i64)
    ensures
        r == rank(b),
{
    if b >= F_SIGN { -(magnitude_of(b) as i64) } else { magnitude_of(b) as i64 }
}

/// `a < b` as numbers.
pub fn is_less(a: u32, b: u32) -> (r: bool)
    ensures
        r == less(a, b),
{
    !is_nan(a) && !is_nan(b) && rank_of(a) < rank_of(b)
}

/// `a == b` as numbers.
pub fn is_same(a: u32, b: u32) -> (r: bool)
    ensures
        r == same(a, b),
{
    !is_nan(a) && !is_nan(b) && rank_of(a) == rank_of(b)
}

/// `v` clamped to `lo..=hi`; what is no number stays.
pub fn clamp(v: u32, lo: u32, hi: u32) -> (r: u32)
    ensures
        r == clamped(v, lo, hi),
{
    if is_less(v, lo) {
        lo
    } else if is_less(hi, v) {
        hi
    } else {
        v
    }
}

/// Clamp a value to `0.0..=1.0`, mapping what is no number to `0.0`.
///
/// Used for alpha, opacity and coverage values.
pub fn clamp01_nan0(v: u32) -> (r: u32)
    ensures
        r == unit(v),
{
    if is_nan(v) { F_ZERO } else { clamp(v, F_ZERO, F_ONE) }
}

/// `v`, or zero if it is negative or no number.
pub open spec fn at_least_zero(v: u32) -> u32 {
    if less(F_ZERO, v) { v } else { F_ZERO }
}

/// `v`, or zero if it is negative or no number.
pub fn max_zero(v: u32) -> (r: u32)
    ensures
        r == at_least_zero(v),
{
    if is_less(F_ZERO, v) { v } else { F_ZERO }
}

/// A clamped value lies between zero and one, and clamping it again changes
/// nothing.
pub proof fn unit_is_idempotent(v: u32)
    ensures
        !nan(unit(v)),
        rank(F_ZERO) <= rank(unit(v)) <= rank(F_ONE),
        unit(unit(v)) == unit(v),
{
}

/// The integer nearest to `n / d`; of two equally near, the even one.
pub open spec fn half_even(n: nat, d: nat) -> nat {
    let q = n / d;
    let r = n % d;
    if 2 * r < d || (2 * r == d && q % 2 == 0) {
        q
    } else {
        (q + 1) as nat
    }
}

/// The number of binary digits of `n`.
pub open spec fn digits(n: nat) -> nat
    decreases n,
{
    if n == 0 { 0 } else { (digits(n / 2) + 1) as nat }
}

/// The pattern of the number nearest to the integer `n`; of two equally near,
/// the one with an even last digit.
///
/// With `k` binary digits the exponent is `126 + k`, and the first 24 digits,
/// rounded, are the significand. A significand that rounds up to 25 digits
/// carries into the exponent.
pub open spec fn number_of(n: nat) -> int {
    let k = digits(n);
    if n == 0 {
        0
    } else if k <= 24 {
        (126 + k) * 0x80_0000 + n * pow2((24 - k) as nat) - 0x80_0000
    } else {
        (126 + k) * 0x80_0000 + half_even(n, pow2((k - 24) as nat)) - 0x80_0000
    }
}

fn halve_even(n: u64, d: u64) -> (r: u64)
    requires
        0 < d <= 0x100_0000_0000,
    ensures
        r == half_even(n as nat, d as nat),
        r <= n + 1,
{
    let q: u64 = n / d;
    let r: u64 = n % d;
    assert(q <= n) by (nonlinear_arith)
        requires
            q == n as int / d as int,
            d >= 1,
            n >= 0,
    ;
    assert(0 <= r < d) by (nonlinear_arith)
        requires
            r == n as int % d as int,
            d >= 1,
    ;
    if 2 * r < d || (2 * r == d && q % 2 == 0) {
        q
    } else {
        assert(2 * q <= n) by (nonlinear_arith)
            requires
                q == n as int / d as int,
                d >= 2,
                n >= 0,
        ;
        q + 1
    }
}

fn power_of_two(s: u32) -> (r: u64)
    requires
        s <= 40,
    ensures
        r == pow2(s as nat),
        0 < r <= 0x100_0000_0000,
{
    let mut r: u64 = 1;
    let mut i: u32 = 0;
    proof {
        lemma2_to64();
        lemma_pow2_adds(32, 8);
        if 0 < s {
            lemma_pow2_strictly_increases(0, s as nat);
        }
        if s < 40 {
            lemma_pow2_strictly_increases(s as nat, 40);
        }
    }
    while i < s
        invariant
            i <= s <= 40,
            r == pow2(i as nat),
            0 < r <= pow2(s as nat),
            pow2(s as nat) <= 0x100_0000_0000,
        decreases s - i,
    {
        proof {
            lemma_pow2_unfold((i + 1) as nat);
            if i + 1 < s {
                lemma_pow2_strictly_increases((i + 1) as nat, s as nat);
            }
        }
        r = r * 2;
        i = i + 1;
    }
    r
}

/// The digits of a number bound it from both sides.
pub proof fn lemma_digits(n: nat, k: nat)
    requires
        n < pow2(k),
    ensures
        digits(n) <= k,
        n > 0 ==> pow2((digits(n) - 1) as nat) <= n < pow2(digits(n)),
        n > 0 ==> digits(n) >= 1,
    decreases n,
{
    if n > 0 {
        if k == 0 {
            lemma2_to64();
        } else {
            lemma_pow2_unfold(k);
            lemma_digits(n / 2, (k - 1) as nat);
            lemma_pow2_unfold(digits(n));
            if n / 2 > 0 {
                lemma_pow2_unfold(digits(n / 2));
            } else {
                lemma2_to64();
            }
        }
    }
}

fn count_digits(n: u64) -> (k: u32)
    ensures
        k == digits(n as nat),
        k <= 64,
{
    proof {
        lemma2_to64();
        lemma_digits(n as nat, 64);
    }
    let mut m: u64 = n;
    let mut k: u32 = 0;
    while m > 0
        invariant
            k + digits(m as nat) == digits(n as nat),
            digits(n as nat) <= 64,
        decreases m,
    {
        m = m / 2;
        k = k + 1;
    }
    k
}

/// The pattern of a positive integer is at least that of one, and far from
/// infinity.
pub proof fn lemma_integer_pattern(n: nat)
    requires
        1 <= n <= u32::MAX,
    ensures
        127 * 0x80_0000 <= number_of(n) <= 159 * 0x80_0000,
{
    lemma2_to64();
    lemma_digits(n, 32);
    let k = digits(n);
    let p = pow2((k - 1) as nat);
    lemma_pow2_unfold(k);
    if k <= 24 {
        let q = pow2((24 - k) as nat);
        lemma_pow2_adds((k - 1) as nat, (24 - k) as nat);
        assert(p * q == 0x80_0000);
        assert(0x80_0000 <= n * q < 0x100_0000) by (nonlinear_arith)
            requires
                p <= n < 2 * p,
                p * q == 0x80_0000,
                q > 0,
        ;
    } else {
        let q = pow2((k - 24) as nat);
        lemma_pow2_adds(23, (k - 24) as nat);
        assert(0x80_0000 * q == p);
        assert(0x80_0000 <= n / q < 0x100_0000) by (nonlinear_arith)
            requires
                0x80_0000 * q <= n < 0x100_0000 * q,
                q > 0,
        ;
    }
}

/// The pattern of the number nearest to an integer.
pub fn from_u64(n: u64) -> (b: u32)
    ensures
        b == number_of(n as nat),
{
    if n == 0 {
        return 0;
    }
    let k: u32 = count_digits(n);
    proof {
        lemma2_to64();
        lemma_digits(n as nat, 64);
    }
    let significand: u64 = if k <= 24 {
        let p: u64 = power_of_two(24 - k);
        proof {
            lemma_pow2_adds((24 - k) as nat, k as nat);
            assert(n * pow2((24 - k) as nat) <= pow2(k as nat) * pow2((24 - k) as nat))
                by (nonlinear_arith)
                requires
                    n <= pow2(k as nat),
            ;
            assert(n * pow2((24 - k) as nat) >= pow2((k - 1) as nat) * pow2((24 - k) as nat))
                by (nonlinear_arith)
                requires
                    n >= pow2((k - 1) as nat),
            ;
            lemma_pow2_adds((k - 1) as nat, (24 - k) as nat);
            lemma_pow2_adds(k as nat, (24 - k) as nat);
        }
        n * p
    } else {
        let d: u64 = power_of_two(k - 24);
        proof {
            lemma_pow2_adds(24, (k - 24) as nat);
            lemma_pow2_adds(23, (k - 24) as nat);
            let dd = pow2((k - 24) as nat) as int;
            assert(n as int / dd < 0x100_0000) by (nonlinear_arith)
                requires
                    n < 0x100_0000 * dd,
                    dd > 0,
            ;
            assert(n as int / dd >= 0x80_0000) by (nonlinear_arith)
                requires
                    n >= 0x80_0000 * dd,
                    dd > 0,
            ;
        }
        halve_even(n, d)
    };
    ((126 + k) as u64 * 0x80_0000 + significand - 0x80_0000) as u32
}

/// The pattern of the number nearest to an integer.
pub fn from_u32(n: u32) -> (b: u32)
    ensures
        b == number_of(n as nat),
{
    from_u64(n as u64)
}

/// A pattern between `0.0` and `1.0` in steps of 2⁻²⁴, rounded.
pub open spec fn steps(b: u32) -> nat {
    let m = magnitude(b);
    let e = m / 0x80_0000;
    let s = 126 - e;
    if e == 0 || s > 32 {
        0
    } else if e >= 127 {
        0x100_0000
    } else {
        half_even((0x80_0000 + m % 0x80_0000) as nat, pow2(s as nat))
    }
}

/// `1.0 - v` for a `v` between `0.0` and `1.0`.
///
/// The difference is a whole number of steps of 2⁻²⁴: as many as `v` is short of
/// 2²⁴ of them.
pub open spec fn complement_spec(v: u32) -> u32 {
    let n = 0x100_0000 - steps(v);
    if n == 0 { F_ZERO } else { (number_of(n as nat) - 24 * 0x80_0000) as u32 }
}

/// `1.0 - v` for a `v` between `0.0` and `1.0`.
pub fn complement(v: u32) -> (r: u32)
    requires
        rank(F_ZERO) <= rank(v) <= rank(F_ONE),
    ensures
        r == complement_spec(v),
        r <= F_ONE,
        !nan(r),
        rank(F_ZERO) <= rank(r) <= rank(F_ONE),
{
    let m: u32 = magnitude_of(v);
    let e: u32 = m / 0x80_0000;
    let count: u32 = if e == 0 || e < 94 {
        0
    } else if e >= 127 {
        0x100_0000
    } else {
        let d: u64 = power_of_two(126 - e);
        let frac: u64 = 0x80_0000 + (m % 0x80_0000) as u64;
        let q: u64 = halve_even(frac, d);
        proof {
            lemma2_to64();
            let dd = d as int;
            assert(frac as int / dd <= frac) by (nonlinear_arith)
                requires
                    dd >= 1,
                    frac >= 0,
            ;
        }
        q as u32
    };
    let n: u32 = 0x100_0000 - count;
    if n == 0 {
        return F_ZERO;
    }
    proof {
        lemma_number_range(n as nat);
    }
    from_u32(n) - 24 * 0x80_0000
}

/// The pattern of an integer from one to 2²⁴.
proof fn lemma_number_range(n: nat)
    requires
        0 < n <= 0x100_0000,
    ensures
        127 * 0x80_0000 <= number_of(n) <= F_ONE + 24 * 0x80_0000,
{
    lemma2_to64();
    lemma_digits(n, 25);
    let k = digits(n);
    if k <= 24 {
        lemma_pow2_adds((k - 1) as nat, (24 - k) as nat);
        lemma_pow2_adds(k, (24 - k) as nat);
        assert(n * pow2((24 - k) as nat) >= pow2((k - 1) as nat) * pow2((24 - k) as nat))
            by (nonlinear_arith)
            requires
                n >= pow2((k - 1) as nat),
        ;
        assert(n * pow2((24 - k) as nat) <= pow2(k) * pow2((24 - k) as nat)) by (nonlinear_arith)
            requires
                n <= pow2(k),
        ;
    } else {
        assert(n == 0x100_0000);
        assert(half_even(n, 2) == 0x80_0000);
    }
}

/// Nothing is left of one, and all of one is left of zero.
pub proof fn complement_of_ends()
    ensures
        complement_spec(F_ZERO) == F_ONE,
        complement_spec(F_SIGN) == F_ONE,
        complement_spec(F_ONE) == F_ZERO,
        complement_spec(F_HALF) == F_HALF,
{
    lemma2_to64();
    assert(digits(0x100_0000) == 25) by {
        reveal_with_fuel(digits, 26);
    }
    assert(digits(0x80_0000) == 24) by {
        reveal_with_fuel(digits, 25);
    }
    assert(half_even(0x100_0000, 2) == 0x80_0000);
    assert(half_even(0x80_0000, 1) == 0x80_0000);
    assert(steps(F_HALF) == 0x80_0000);
    assert(number_of(0x80_0000) == 150 * 0x80_0000);
}

/// The whole number nearest to a number's magnitude, halves rounded up.
///
/// A number with exponent `e` is its 24-digit significand times 2 to the power
/// `e - 150`.
pub open spec fn whole(m: int) -> int {
    let e = m / 0x80_0000;
    let f = 0x80_0000 + m % 0x80_0000;
    if e < 126 {
        0
    } else if e >= 150 {
        f * pow2((e - 150) as nat)
    } else {
        (2 * f + pow2((150 - e) as nat)) / (2 * pow2((150 - e) as nat) as int)
    }
}

/// A number rounded to the nearest `i32`: halves away from zero, out of range to
/// the nearest end, zero for what is no number.
pub open spec fn nearest_i32(b: u32) -> int {
    if nan(b) {
        0
    } else if magnitude(b) >= 158 * 0x80_0000 {
        if b >= F_SIGN { i32::MIN as int } else { i32::MAX as int }
    } else if b >= F_SIGN {
        -whole(magnitude(b))
    } else {
        whole(magnitude(b))
    }
}

/// A whole number with at most 24 binary digits survives becoming a number and being
/// rounded again, and so does its negative.
pub proof fn whole_numbers_survive(n: nat)
    requires
        1 <= n < 0x100_0000,
    ensures
        nearest_i32(number_of(n) as u32) == n,
        nearest_i32((number_of(n) + F_SIGN) as u32) == -n,
{
    lemma2_to64();
    lemma_integer_pattern(n);
    lemma_digits(n, 24);
    let k = digits(n);
    let p = pow2((k - 1) as nat);
    let q = pow2((24 - k) as nat);
    lemma_pow2_unfold(k);
    lemma_pow2_adds((k - 1) as nat, (24 - k) as nat);
    assert(p * q == 0x80_0000);
    assert(q > 0) by (nonlinear_arith)
        requires
            p * q == 0x80_0000,
            q >= 0,
    ;
    assert(0x80_0000 <= n * q < 0x100_0000) by (nonlinear_arith)
        requires
            p <= n < 2 * p,
            p * q == 0x80_0000,
            q > 0,
    ;
    let m = number_of(n);
    assert(m / 0x80_0000 == 126 + k);
    assert(0x80_0000 + m % 0x80_0000 == n * q);
    assert(whole(m) == n) by {
        if k == 24 {
            assert(n * q == n) by (nonlinear_arith)
                requires
                    q == 1,
            ;
            assert(n * 1 == n);
        } else {
            assert(((2 * (n * q) + q) as int) / (2 * q as int) == n) by (nonlinear_arith)
                requires
                    q > 0,
            ;
        }
    }
}

/// Round a number to the nearest `i32`.
pub fn round_i32(b: u32) -> (r: i32)
    ensures
        r == nearest_i32(b),
{
    if is_nan(b) {
        return 0;
    }
    let m: u32 = magnitude_of(b);
    if m >= 158 * 0x80_0000 {
        return if b >= F_SIGN { i32::MIN } else { i32::MAX };
    }
    let e: u32 = m / 0x80_0000;
    let f: u64 = 0x80_0000 + (m % 0x80_0000) as u64;
    proof {
        lemma2_to64();
    }
    let n: u64 = if e < 126 {
        0
    } else if e >= 150 {
        let p: u64 = power_of_two(e - 150);
        proof {
            if e < 157 {
                lemma_pow2_strictly_increases((e - 150) as nat, 7);
            }
            assert(f * p <= 0xff_ffff * 128) by (nonlinear_arith)
                requires
                    0 <= f <= 0xff_ffff,
                    0 <= p <= 128,
            ;
        }
        f * p
    } else {
        let d: u64 = power_of_two(150 - e);
        proof {
            assert((2 * f + d) / (2 * d) <= 2 * f + d) by (nonlinear_arith)
                requires
                    d >= 1,
                    f >= 0,
            ;
            assert((2 * f + d) / (2 * d) <= f + 1) by (nonlinear_arith)
                requires
                    d >= 1,
                    f >= 0,
            ;
        }
        (2 * f + d) / (2 * d)
    };
    if b >= F_SIGN { (-(n as i64)) as i32 } else { n as i32 }
}

/// A number rounded to the nearest `u64`: halves away from zero, out of range to the
/// nearest end, zero for what is no number.
pub open spec fn nearest_u64(b: u32) -> int {
    if nan(b) || b >= F_SIGN {
        0
    } else if b >= 191 * 0x80_0000 {
        u64::MAX as int
    } else {
        whole(b as int)
    }
}

/// Round a number to the nearest `u64`.
pub fn round_u64(b: u32) -> (r: u64)
    ensures
        r == nearest_u64(b),
{
    if is_nan(b) || b >= F_SIGN {
        return 0;
    }
    if b >= 191 * 0x80_0000 {
        return u64::MAX;
    }
    let e: u32 = b / 0x80_0000;
    let f: u64 = 0x80_0000 + (b % 0x80_0000) as u64;
    proof {
        lemma2_to64();
    }
    if e < 126 {
        0
    } else if e >= 150 {
        let p: u64 = power_of_two(e - 150);
        proof {
            assert(f * p <= 0xff_ffff * 0x100_0000_0000) by (nonlinear_arith)
                requires
                    0 <= f <= 0xff_ffff,
                    0 <= p <= 0x100_0000_0000,
            ;
        }
        f * p
    } else {
        let d: u64 = power_of_two(150 - e);
        (2 * f + d) / (2 * d)
    }
}

/// `a <= b` as numbers.
pub open spec fn at_most(a: u32, b: u32) -> bool {
    !nan(a) && !nan(b) && rank(a) <= rank(b)
}

/// `a <= b` as numbers.
pub fn is_at_most(a: u32, b: u32) -> (r: bool)
    ensures
        r == at_most(a, b),
{
    !is_nan(a) && !is_nan(b) && rank_of(a) <= rank_of(b)
}

/// The smaller of two numbers; of what is no number and a number, the number.
pub open spec fn smaller(a: u32, b: u32) -> u32 {
    if nan(a) || less(b, a) { b } else { a }
}

/// The smaller of two numbers.
pub fn min(a: u32, b: u32) -> (r: u32)
    ensures
        r == smaller(a, b),
{
    if is_nan(a) || is_less(b, a) { b } else { a }
}

/// The larger of two numbers; of what is no number and a number, the number.
pub open spec fn larger(a: u32, b: u32) -> u32 {
    if nan(a) || less(a, b) { b } else { a }
}

/// The larger of two numbers.
pub fn max(a: u32, b: u32) -> (r: u32)
    ensures
        r == larger(a, b),
{
    if is_nan(a) || is_less(a, b) { b } else { a }
}

/// A number without its sign.
pub open spec fn absolute(b: u32) -> u32 {
    magnitude(b) as u32
}

/// A number without its sign.
pub fn abs(b: u32) -> (r: u32)
    ensures
        r == absolute(b),
{
    magnitude_of(b)
}

/// The number nearest to an unsigned integer.
pub open spec fn number_of_u32(n: u32) -> u32 {
    number_of(n as nat) as u32
}

/// A number with the other sign.
pub open spec fn negated(b: u32) -> u32 {
    if b >= F_SIGN { (b - F_SIGN) as u32 } else { (b + F_SIGN) as u32 }
}

/// A number with the other sign.
pub fn negate(b: u32) -> (r: u32)
    ensures
        r == negated(b),
{
    if b >= F_SIGN { b - F_SIGN } else { b + F_SIGN }
}

/// The number nearest to an integer of either sign.
pub open spec fn number_of_int(n: int) -> u32 {
    if n < 0 { (F_SIGN + number_of((-n) as nat)) as u32 } else { number_of(n as nat) as u32 }
}

/// The number nearest to an integer of either sign.
pub fn from_i64(n: i64) -> (b: u32)
    requires
        -0xffff_ffff <= n <= 0xffff_ffff,
    ensures
        b == number_of_int(n as int),
{
    if n < 0 {
        proof {
            lemma_integer_pattern((-n) as nat);
        }
        F_SIGN + from_u32((-n) as u32)
    } else {
        from_u32(n as u32)
    }
}

/// The number nearest to an integer of either sign.
pub open spec fn number_of_i32(n: i32) -> u32 {
    number_of_int(n as int)
}

/// The number nearest to an integer of either sign.
pub fn from_i32(n: i32) -> (b: u32)
    ensures
        b == number_of_i32(n),
{
    from_i64(n as i64)
}

} // verus!
