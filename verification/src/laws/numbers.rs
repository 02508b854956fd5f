//! Numbers.
use vstd::prelude::*;

use vstd::arithmetic::power2::{lemma2_to64, lemma_pow2_pos, lemma_pow2_unfold, pow2};

use crate::float_bits::{
    absolute, at_least_zero, at_most, clamped, digits, half_even, larger, less, magnitude, nan,
    nearest_i32, negated, number_of, number_of_int, rank, same, smaller, unit, F_ONE, F_SIGN,
    F_ZERO,
};

verus! {

/// Of two numbers one is less than the other, or they are the same, and never two of
/// these. Nothing compares with what is no number.
pub proof fn numbers_are_ordered(a: u32, b: u32, c: u32)
    ensures
        !nan(a) && !nan(b) ==> (less(a, b) || less(b, a) || same(a, b)),
        !(less(a, b) && less(b, a)) && !(less(a, b) && same(a, b)),
        less(a, b) && less(b, c) ==> less(a, c),
        at_most(a, b) <==> less(a, b) || same(a, b),
        nan(a) ==> !less(a, b) && !less(b, a) && !same(a, b),
        !nan(a) && a < F_SIGN && !nan(b) && b < F_SIGN ==> (less(a, b) <==> a < b),
        !nan(a) && !nan(b) ==> (less(negated(a), negated(b)) <==> less(b, a)),
        same(F_ZERO, F_SIGN),
{
}

/// A clamped number lies within its bounds, is the number where that does, and else the
/// nearer bound; clamping again changes nothing.
pub proof fn clamping_keeps_within_bounds(v: u32, lo: u32, hi: u32)
    requires
        less(lo, hi) && !nan(v),
    ensures
        at_most(lo, clamped(v, lo, hi)) && at_most(clamped(v, lo, hi), hi),
        at_most(lo, v) && at_most(v, hi) ==> clamped(v, lo, hi) == v,
        less(v, lo) ==> clamped(v, lo, hi) == lo,
        less(hi, v) ==> clamped(v, lo, hi) == hi,
        clamped(clamped(v, lo, hi), lo, hi) == clamped(v, lo, hi),
{
}

/// The unit range is from zero to one, and what is no number counts as zero there.
pub proof fn units_lie_between_zero_and_one(v: u32)
    ensures
        at_most(F_ZERO, unit(v)) && at_most(unit(v), F_ONE),
        nan(v) ==> unit(v) == F_ZERO,
        at_most(F_ZERO, v) && at_most(v, F_ONE) ==> unit(v) == v,
        less(F_ONE, v) ==> unit(v) == F_ONE,
        less(v, F_ZERO) ==> unit(v) == F_ZERO,
        !nan(v) ==> at_most(F_ZERO, at_least_zero(v)) && at_most(v, at_least_zero(v)),
        at_most(F_ZERO, v) ==> same(at_least_zero(v), v),
{
}

/// The smaller and the larger of two numbers are the two, in order; of what is no
/// number and a number they are the number.
pub proof fn smaller_and_larger_are_the_two(a: u32, b: u32)
    ensures
        !nan(a) && !nan(b) ==> {
            &&& at_most(smaller(a, b), a) && at_most(smaller(a, b), b)
            &&& at_most(a, larger(a, b)) && at_most(b, larger(a, b))
        },
        smaller(a, b) == a || smaller(a, b) == b,
        larger(a, b) == a || larger(a, b) == b,
        nan(a) ==> smaller(a, b) == b && larger(a, b) == b,
        nan(b) ==> smaller(a, b) == a || nan(a),
        nan(b) ==> larger(a, b) == a || nan(a),
{
}

/// A sign changes to the other and back, and a number without its sign is not less
/// than zero and one of the two.
pub proof fn signs_change(b: u32)
    ensures
        negated(negated(b)) == b,
        absolute(b) == b || absolute(b) == negated(b),
        absolute(b) < F_SIGN,
        absolute(negated(b)) == absolute(b),
        !nan(b) ==> at_most(F_ZERO, absolute(b)) && rank(negated(b)) == -rank(b),
{
}

/// Rounding to an integer treats both signs alike, as long as there is one.
pub proof fn rounding_knows_no_sign(b: u32)
    requires
        magnitude(b) < 158 * 0x80_0000,
    ensures
        nearest_i32(negated(b)) == -nearest_i32(b),
{
}

/// A number that is twice another has the next exponent and the same digits.
pub proof fn doubling_raises_the_exponent(n: nat)
    requires
        n > 0,
    ensures
        number_of(2 * n) == number_of(n) + 0x80_0000,
        number_of_int(-(n as int)) == (F_SIGN + number_of(n)) as u32,
{
    let k = digits(n);
    assert(digits(2 * n) == k + 1) by {
        assert((2 * n) / 2 == n);
    }
    if k + 1 <= 24 {
        lemma_pow2_unfold((24 - k) as nat);
        let q = pow2((23 - k) as nat);
        assert((2 * n) * q == n * (2 * q)) by (nonlinear_arith);
    } else {
        let q = pow2((k + 1 - 24) as nat);
        lemma2_to64();
        if k > 24 {
            lemma_pow2_unfold((k + 1 - 24) as nat);
            let r = pow2((k - 24) as nat);
            lemma_pow2_pos((k - 24) as nat);
            lemma_half_even_doubles(n, r);
        } else {
            assert(q == 2 && pow2(0) == 1);
            assert(half_even(2 * n, 2) == n);
            assert(n * 1 == n);
        }
    }
}

proof fn lemma_half_even_doubles(n: nat, r: nat)
    requires
        r > 0,
    ensures
        half_even(2 * n, 2 * r) == half_even(n, r),
{
    let (q, s) = (n / r, n % r);
    assert(n == q * r + s && 0 <= s < r) by (nonlinear_arith)
        requires
            r > 0,
            q == n / r,
            s == n % r,
    ;
    assert(2 * n == q * (2 * r) + 2 * s) by (nonlinear_arith)
        requires
            n == q * r + s,
    ;
    assert((2 * n) / (2 * r) == q && (2 * n) % (2 * r) == 2 * s) by (nonlinear_arith)
        requires
            2 * n == q * (2 * r) + 2 * s,
            0 <= 2 * s < 2 * r,
            r > 0,
    ;
}

} // verus!
