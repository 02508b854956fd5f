//! Arithmetic as the laws of this crate speak of it.
//!
//! What the engine computes with rounds, so an identity between what it is given
//! and what it returns holds only as far as nothing is lost. [`exact`] describes
//! arithmetic that loses nothing. [`rounding`] collects facts that hold of binary32
//! arithmetic too.
use vstd::prelude::*;

use crate::arith::{difference, product, quotient, root, sum, Arith};
use crate::float_bits::{
    absolute, at_most, finite, nan, negated, zero, F_ONE, F_SIGN, F_TWO, F_ZERO,
};
use crate::pixel::Rgba32F;

verus! {

/// 2⁶⁰, whose square is still a number.
pub const F_LARGE: u32 = 0x5d80_0000;

/// On the numbers in `d` adding loses nothing and can be taken back.
#[verifier::opaque]
pub open spec fn adds<M: Arith>(m: &M, d: Set<u32>) -> bool {
    &&& forall|a: u32, b: u32|
        d.contains(a) && d.contains(b) ==> d.contains(#[trigger] sum(m, a, b)) && sum(m, a, b)
            == sum(m, b, a)
    &&& forall|a: u32, b: u32, c: u32|
        d.contains(a) && d.contains(b) && d.contains(c) ==> #[trigger] sum(m, sum(m, a, b), c)
            == sum(m, a, sum(m, b, c))
    &&& forall|a: u32| d.contains(a) ==> #[trigger] sum(m, a, F_ZERO) == a
    &&& forall|a: u32, b: u32|
        d.contains(a) && d.contains(b) ==> d.contains(#[trigger] difference(m, a, b)) && sum(
            m,
            difference(m, a, b),
            b,
        ) == a
}

/// On the numbers in `d` multiplying loses nothing and can be taken back.
#[verifier::opaque]
pub open spec fn multiplies<M: Arith>(m: &M, d: Set<u32>) -> bool {
    &&& forall|a: u32, b: u32|
        d.contains(a) && d.contains(b) ==> d.contains(#[trigger] product(m, a, b)) && product(
            m,
            a,
            b,
        ) == product(m, b, a)
    &&& forall|a: u32, b: u32, c: u32|
        d.contains(a) && d.contains(b) && d.contains(c) ==> #[trigger] product(
            m,
            product(m, a, b),
            c,
        ) == product(m, a, product(m, b, c))
    &&& forall|a: u32| d.contains(a) ==> #[trigger] product(m, a, F_ONE) == a
    &&& forall|a: u32, b: u32|
        d.contains(a) && d.contains(b) && b != F_ZERO ==> d.contains(#[trigger] quotient(m, a, b))
            && product(m, quotient(m, a, b), b) == a
}

/// On the numbers in `d` a product with a sum is the sum of the products.
#[verifier::opaque]
pub open spec fn distributes<M: Arith>(m: &M, d: Set<u32>) -> bool {
    forall|a: u32, b: u32, c: u32|
        d.contains(a) && d.contains(b) && d.contains(c) ==> #[trigger] product(m, a, sum(m, b, c))
            == sum(m, product(m, a, b), product(m, a, c))
}

/// On the numbers in `d` the arithmetic loses nothing: they form a field.
pub open spec fn exact<M: Arith>(m: &M, d: Set<u32>) -> bool {
    d.contains(F_ZERO) && d.contains(F_ONE) && adds(m, d) && multiplies(m, d) && distributes(m, d)
}

/// Changing the sign of a number in `d` takes it from zero.
pub open spec fn signed<M: Arith>(m: &M, d: Set<u32>) -> bool {
    &&& !d.contains(F_SIGN)
    &&& forall|a: u32|
        d.contains(a) && a != F_ZERO ==> #[trigger] negated(a) == difference(m, F_ZERO, a)
            && d.contains(negated(a))
}

/// Facts that hold of arithmetic that rounds, too.
pub open spec fn rounding<M: Arith>(m: &M) -> bool {
    // A number less itself is nothing, and nothing added changes nothing.
    &&& forall|a: u32| finite(a) ==> #[trigger] difference(m, a, a) == F_ZERO
    &&& forall|a: u32| !nan(a) && a != F_SIGN ==> #[trigger] sum(m, a, F_ZERO) == a
    &&& forall|a: u32| !nan(a) && a != F_SIGN ==> #[trigger] sum(m, F_ZERO, a) == a
    &&& forall|a: u32, b: u32| zero(a) && zero(b) ==> zero(#[trigger] sum(m, a, b))
    // The order of two numbers does not matter.
    &&& forall|a: u32, b: u32|
        finite(a) && finite(b) ==> #[trigger] sum(m, a, b) == sum(m, b, a)
    // Nothing times a number is nothing, and one is neutral.
    &&& product(m, F_ZERO, F_ZERO) == F_ZERO
    &&& forall|a: u32, b: u32| zero(a) && finite(b) ==> zero(#[trigger] product(m, a, b))
    &&& forall|a: u32| !nan(a) ==> #[trigger] product(m, a, F_ONE) == a
    // A square is not negative, and a sum of such numbers is no less than each.
    &&& forall|a: u32|
        !nan(a) ==> !nan(#[trigger] product(m, a, a)) && product(m, a, a) < F_SIGN
    &&& forall|a: u32, b: u32|
        !nan(a) && !nan(b) && a < F_SIGN && b < F_SIGN ==> at_most(a, #[trigger] sum(m, a, b))
            && at_most(b, sum(m, a, b)) && sum(m, a, b) < F_SIGN
    // A number holds itself once, and nothing holds no number.
    &&& forall|a: u32| finite(a) && !zero(a) ==> #[trigger] quotient(m, a, a) == F_ONE
    &&& forall|a: u32, b: u32|
        zero(a) && finite(b) && !zero(b) ==> zero(#[trigger] quotient(m, a, b))
    &&& forall|a: u32, b: u32|
        finite(a) && finite(b) && !zero(b) ==> #[trigger] quotient(m, negated(a), b) == negated(
            quotient(m, a, b),
        )
    // The root of the square of a number that is not too small or too large is the
    // number.
    &&& root(m, F_ZERO) == F_ZERO
    &&& forall|a: u32|
        at_most(F_ONE, absolute(a)) && at_most(absolute(a), F_LARGE) ==> #[trigger] root(
            m,
            product(m, a, a),
        ) == absolute(a)
}

/// Two is one and one.
pub open spec fn counting<M: Arith>(m: &M, d: Set<u32>) -> bool {
    d.contains(F_TWO) && sum(m, F_ONE, F_ONE) == F_TWO
}

/// The channels and the alpha of a pixel lie in `d`.
pub open spec fn made_of(d: Set<u32>, px: Rgba32F) -> bool {
    d.contains(px.r) && d.contains(px.g) && d.contains(px.b) && d.contains(px.a)
}

/// What two numbers make of each other.
pub proof fn two<M: Arith>(m: &M, d: Set<u32>, a: u32, b: u32)
    requires
        exact(m, d),
        d.contains(a) && d.contains(b),
    ensures
        d.contains(F_ZERO) && d.contains(F_ONE),
        d.contains(sum(m, a, b)) && d.contains(product(m, a, b)) && d.contains(difference(m, a, b)),
        sum(m, a, b) == sum(m, b, a) && product(m, a, b) == product(m, b, a),
        sum(m, difference(m, a, b), b) == a && sum(m, b, difference(m, a, b)) == a,
        sum(m, a, F_ZERO) == a && sum(m, F_ZERO, a) == a,
        product(m, a, F_ONE) == a && product(m, F_ONE, a) == a,
        b != F_ZERO ==> d.contains(quotient(m, a, b)) && product(m, quotient(m, a, b), b) == a
            && product(m, b, quotient(m, a, b)) == a,
{
    reveal(adds);
    reveal(multiplies);
    let e = difference(m, a, b);
    assert(sum(m, e, b) == sum(m, b, e));
    assert(sum(m, a, F_ZERO) == sum(m, F_ZERO, a));
    assert(product(m, a, F_ONE) == product(m, F_ONE, a));
    if b != F_ZERO {
        let q = quotient(m, a, b);
        assert(product(m, q, b) == product(m, b, q));
    }
}

/// Three numbers add up to the same in any order.
pub proof fn sums<M: Arith>(m: &M, d: Set<u32>, a: u32, b: u32, c: u32)
    requires
        exact(m, d),
        d.contains(a) && d.contains(b) && d.contains(c),
    ensures
        ({
            let all = sum(m, sum(m, a, b), c);
            &&& d.contains(all)
            &&& all == sum(m, a, sum(m, b, c)) && all == sum(m, sum(m, b, c), a)
            &&& all == sum(m, sum(m, a, c), b) && all == sum(m, b, sum(m, a, c))
            &&& all == sum(m, c, sum(m, a, b)) && all == sum(m, a, sum(m, c, b))
        }),
{
    reveal(adds);
    assert(sum(m, sum(m, a, b), c) == sum(m, a, sum(m, b, c)));
    assert(sum(m, sum(m, a, c), b) == sum(m, a, sum(m, c, b)));
    assert(sum(m, b, c) == sum(m, c, b));
    assert(sum(m, a, sum(m, b, c)) == sum(m, sum(m, b, c), a));
    assert(sum(m, sum(m, a, c), b) == sum(m, b, sum(m, a, c)));
    assert(sum(m, sum(m, a, b), c) == sum(m, c, sum(m, a, b)));
}

/// Three numbers multiply to the same in any order.
pub proof fn products<M: Arith>(m: &M, d: Set<u32>, a: u32, b: u32, c: u32)
    requires
        exact(m, d),
        d.contains(a) && d.contains(b) && d.contains(c),
    ensures
        ({
            let all = product(m, product(m, a, b), c);
            &&& d.contains(all)
            &&& all == product(m, a, product(m, b, c)) && all == product(m, product(m, b, c), a)
            &&& all == product(m, product(m, a, c), b) && all == product(m, b, product(m, a, c))
            &&& all == product(m, c, product(m, a, b)) && all == product(m, a, product(m, c, b))
        }),
{
    reveal(multiplies);
    assert(product(m, product(m, a, b), c) == product(m, a, product(m, b, c)));
    assert(product(m, product(m, a, c), b) == product(m, a, product(m, c, b)));
    assert(product(m, b, c) == product(m, c, b));
    assert(product(m, a, product(m, b, c)) == product(m, product(m, b, c), a));
    assert(product(m, product(m, a, c), b) == product(m, b, product(m, a, c)));
    assert(product(m, product(m, a, b), c) == product(m, c, product(m, a, b)));
}

/// A number times a sum is the sum of the products.
pub proof fn spreads<M: Arith>(m: &M, d: Set<u32>, a: u32, b: u32, c: u32)
    requires
        exact(m, d),
        d.contains(a) && d.contains(b) && d.contains(c),
    ensures
        d.contains(product(m, a, sum(m, b, c))),
        product(m, a, sum(m, b, c)) == sum(m, product(m, a, b), product(m, a, c)),
        product(m, sum(m, b, c), a) == sum(m, product(m, b, a), product(m, c, a)),
{
    two(m, d, b, c);
    two(m, d, a, b);
    two(m, d, a, c);
    two(m, d, a, sum(m, b, c));
    reveal(distributes);
}

/// Two sums add up term by term.
pub proof fn sums_exchange<M: Arith>(m: &M, d: Set<u32>, a: u32, b: u32, c: u32, e: u32)
    requires
        exact(m, d),
        d.contains(a) && d.contains(b) && d.contains(c) && d.contains(e),
    ensures
        sum(m, sum(m, a, b), sum(m, c, e)) == sum(m, sum(m, a, c), sum(m, b, e)),
        d.contains(sum(m, sum(m, a, b), sum(m, c, e))),
{
    two(m, d, a, b);
    two(m, d, c, e);
    two(m, d, b, e);
    two(m, d, a, c);
    two(m, d, sum(m, a, b), sum(m, c, e));
    sums(m, d, a, b, sum(m, c, e));
    sums(m, d, b, c, e);
    sums(m, d, a, c, sum(m, b, e));
}

/// Two products multiply factor by factor.
pub proof fn products_exchange<M: Arith>(m: &M, d: Set<u32>, a: u32, b: u32, c: u32, e: u32)
    requires
        exact(m, d),
        d.contains(a) && d.contains(b) && d.contains(c) && d.contains(e),
    ensures
        product(m, product(m, a, b), product(m, c, e)) == product(
            m,
            product(m, a, c),
            product(m, b, e),
        ),
        d.contains(product(m, product(m, a, b), product(m, c, e))),
{
    two(m, d, a, b);
    two(m, d, c, e);
    two(m, d, b, e);
    two(m, d, a, c);
    two(m, d, product(m, a, b), product(m, c, e));
    products(m, d, a, b, product(m, c, e));
    products(m, d, b, c, e);
    products(m, d, a, c, product(m, b, e));
}

/// What was added can be taken away again.
pub proof fn adding_cancels<M: Arith>(m: &M, d: Set<u32>, a: u32, b: u32)
    requires
        exact(m, d),
        d.contains(a),
        d.contains(b),
    ensures
        difference(m, sum(m, a, b), b) == a,
        difference(m, a, a) == F_ZERO,
        difference(m, a, F_ZERO) == a,
{
    two(m, d, a, b);
    two(m, d, sum(m, a, b), b);
    sums_cancel(m, d, difference(m, sum(m, a, b), b), a, b);
    two(m, d, a, a);
    two(m, d, F_ZERO, a);
    sums_cancel(m, d, difference(m, a, a), F_ZERO, a);
    two(m, d, a, F_ZERO);
    two(m, d, difference(m, a, F_ZERO), F_ZERO);
}

/// Equal sums with one number have equal others.
pub proof fn sums_cancel<M: Arith>(m: &M, d: Set<u32>, a: u32, b: u32, c: u32)
    requires
        exact(m, d),
        d.contains(a),
        d.contains(b),
        d.contains(c),
        sum(m, a, c) == sum(m, b, c),
    ensures
        a == b,
{
    let n = difference(m, F_ZERO, c);
    two(m, d, a, a);
    two(m, d, F_ZERO, c);
    sums(m, d, a, c, n);
    sums(m, d, b, c, n);
    two(m, d, b, b);
}

/// Nothing times a number is nothing.
pub proof fn nothing_absorbs<M: Arith>(m: &M, d: Set<u32>, a: u32)
    requires
        exact(m, d),
        d.contains(a),
    ensures
        product(m, a, F_ZERO) == F_ZERO,
        product(m, F_ZERO, a) == F_ZERO,
{
    two(m, d, a, a);
    two(m, d, a, F_ZERO);
    two(m, d, F_ZERO, F_ZERO);
    let z = product(m, a, F_ZERO);
    two(m, d, z, z);
    spreads(m, d, a, F_ZERO, F_ZERO);
    sums_cancel(m, d, z, F_ZERO, z);
}

/// Equal products with one number that is not nothing have equal others.
pub proof fn products_cancel<M: Arith>(m: &M, d: Set<u32>, a: u32, b: u32, c: u32)
    requires
        exact(m, d),
        d.contains(a),
        d.contains(b),
        d.contains(c),
        c != F_ZERO,
        product(m, a, c) == product(m, b, c),
    ensures
        a == b,
{
    two(m, d, a, a);
    two(m, d, b, b);
    let i = quotient(m, F_ONE, c);
    two(m, d, F_ONE, c);
    products(m, d, a, c, i);
    products(m, d, b, c, i);
}

/// A quotient is the number that gives the dividend back.
pub proof fn quotients_are_unique<M: Arith>(m: &M, d: Set<u32>, a: u32, b: u32, x: u32)
    requires
        exact(m, d),
        d.contains(a),
        d.contains(b),
        d.contains(x),
        b != F_ZERO,
        product(m, x, b) == a,
    ensures
        quotient(m, a, b) == x,
{
    two(m, d, a, b);
    products_cancel(m, d, quotient(m, a, b), x, b);
}

/// A difference is the number that gives the first one back.
pub proof fn differences_are_unique<M: Arith>(m: &M, d: Set<u32>, a: u32, b: u32, x: u32)
    requires
        exact(m, d),
        d.contains(a),
        d.contains(b),
        d.contains(x),
        sum(m, x, b) == a,
    ensures
        difference(m, a, b) == x,
{
    two(m, d, a, b);
    sums_cancel(m, d, difference(m, a, b), x, b);
}

/// A number times a difference is the difference of the products.
pub proof fn differences_spread<M: Arith>(m: &M, d: Set<u32>, a: u32, b: u32, c: u32)
    requires
        exact(m, d),
        d.contains(a),
        d.contains(b),
        d.contains(c),
    ensures
        d.contains(product(m, a, difference(m, b, c))),
        product(m, a, difference(m, b, c)) == difference(m, product(m, a, b), product(m, a, c)),
        product(m, difference(m, b, c), a) == difference(m, product(m, b, a), product(m, c, a)),
{
    let e = difference(m, b, c);
    two(m, d, b, c);
    two(m, d, a, e);
    two(m, d, a, b);
    two(m, d, a, c);
    spreads(m, d, a, e, c);
    differences_are_unique(m, d, product(m, a, b), product(m, a, c), product(m, a, e));
}

/// Two differences that go on from each other add up to the whole.
pub proof fn differences_chain<M: Arith>(m: &M, d: Set<u32>, a: u32, b: u32, c: u32)
    requires
        exact(m, d),
        d.contains(a),
        d.contains(b),
        d.contains(c),
    ensures
        sum(m, difference(m, a, b), difference(m, b, c)) == difference(m, a, c),
        difference(m, difference(m, a, c), difference(m, b, c)) == difference(m, a, b),
{
    let (x, y) = (difference(m, a, b), difference(m, b, c));
    two(m, d, a, b);
    two(m, d, b, c);
    two(m, d, x, y);
    sums(m, d, x, y, c);
    differences_are_unique(m, d, a, c, sum(m, x, y));
    adding_cancels(m, d, x, y);
}

/// A difference and the opposite one add up to nothing and have one square.
pub proof fn squares_have_no_sign<M: Arith>(m: &M, d: Set<u32>, a: u32, b: u32)
    requires
        exact(m, d),
        d.contains(a),
        d.contains(b),
    ensures
        sum(m, difference(m, a, b), difference(m, b, a)) == F_ZERO,
        product(m, difference(m, a, b), difference(m, a, b)) == product(
            m,
            difference(m, b, a),
            difference(m, b, a),
        ),
{
    let (x, y) = (difference(m, a, b), difference(m, b, a));
    two(m, d, a, b);
    two(m, d, b, a);
    differences_chain(m, d, a, b, a);
    adding_cancels(m, d, a, a);
    nothing_absorbs(m, d, x);
    nothing_absorbs(m, d, y);
    spreads(m, d, x, x, y);
    spreads(m, d, y, x, y);
    two(m, d, x, y);
    two(m, d, x, x);
    two(m, d, y, y);
    two(m, d, product(m, y, x), product(m, y, y));
    sums_cancel(m, d, product(m, x, x), product(m, y, y), product(m, x, y));
}

} // verus!
