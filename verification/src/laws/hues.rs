//! Hue, saturation and lightness.
use vstd::prelude::*;

use crate::adjust::{hsl_of, recolored, rgb_of, FULL_TURN, SIXTH, THIRD, TWO_THIRDS};
use crate::arith::{difference, product, quotient, remainder, sum, whole_below, Arith};
use crate::exact::{
    adding_cancels, counting, differences_are_unique, exact, nothing_absorbs, products,
    products_cancel, quotients_are_unique, signed, spreads, sums, sums_cancel, sums_exchange, two,
};
use crate::float_bits::{
    absolute, clamped, larger, less, nan, negated, same, smaller, unit, zero, F_FOUR, F_HALF, F_ONE,
    F_SIGN, F_SIX, F_TWO, F_ZERO,
};
use crate::layer::AdjustmentKind;
use crate::ops::finger_ops::{hsl_degrees, rgb_of_degrees, sector_of, GRAY_RANGE, SECTOR_DEGREES};
use crate::pixel::Rgba32F;

verus! {

/// The largest channel of a color.
pub open spec fn top_of(r: u32, g: u32, b: u32) -> u32 {
    larger(larger(r, g), b)
}

/// The smallest channel of a color.
pub open spec fn low_of(r: u32, g: u32, b: u32) -> u32 {
    smaller(smaller(r, g), b)
}

/// Half is what makes one when doubled.
pub open spec fn halving<M: Arith>(m: &M, d: Set<u32>) -> bool {
    counting(m, d) && d.contains(F_HALF) && product(m, F_TWO, F_HALF) == F_ONE
}

/// The largest and the smallest channel are channels, and bound all of them.
pub proof fn top_and_low_bound_the_channels(r: u32, g: u32, b: u32)
    requires
        !nan(r) && !nan(g) && !nan(b),
    ensures
        ({
            let (top, low) = (top_of(r, g, b), low_of(r, g, b));
            &&& top == r || top == g || top == b
            &&& low == r || low == g || low == b
            &&& !less(top, r) && !less(top, g) && !less(top, b)
            &&& !less(r, low) && !less(g, low) && !less(b, low)
        }),
{
}

proof fn lemma_twice_the_half<M: Arith>(m: &M, d: Set<u32>, x: u32)
    requires
        exact(m, d),
        halving(m, d),
        d.contains(x),
    ensures
        ({
            let l = product(m, x, F_HALF);
            &&& d.contains(l)
            &&& sum(m, l, l) == x
            &&& product(m, F_TWO, l) == x
            &&& quotient(m, x, F_TWO) == l
        }),
{
    let l = product(m, x, F_HALF);
    two(m, d, x, F_HALF);
    two(m, d, l, F_TWO);
    two(m, d, F_TWO, F_HALF);
    two(m, d, x, x);
    products(m, d, x, F_HALF, F_TWO);
    spreads(m, d, l, F_ONE, F_ONE);
    two(m, d, l, F_ONE);
    quotients_are_unique(m, d, x, F_TWO, l);
}

/// What doubles to the same is the same.
proof fn lemma_halves<M: Arith>(m: &M, d: Set<u32>, x: u32, y: u32)
    requires
        exact(m, d),
        halving(m, d),
        d.contains(x) && d.contains(y),
        sum(m, x, x) == sum(m, y, y),
    ensures
        x == y,
{
    two(m, d, x, F_TWO);
    two(m, d, y, F_TWO);
    two(m, d, x, F_ONE);
    two(m, d, y, F_ONE);
    spreads(m, d, x, F_ONE, F_ONE);
    spreads(m, d, y, F_ONE, F_ONE);
    products_cancel(m, d, x, y, F_TWO);
}

/// Lightness is halfway between the largest and the smallest channel. A gray has no
/// saturation and is its lightness, and a color without saturation is gray.
pub proof fn lightness_is_halfway<M: Arith>(
    m: &M,
    d: Set<u32>,
    r: u32,
    g: u32,
    b: u32,
    h: u32,
    s: u32,
)
    requires
        exact(m, d),
        halving(m, d),
        d.contains(r) && d.contains(g) && d.contains(b),
    ensures
        ({
            let l = hsl_of(m, r, g, b).2;
            sum(m, l, l) == sum(m, top_of(r, g, b), low_of(r, g, b))
        }),
        !nan(r) ==> hsl_of(m, r, r, r) == (F_ZERO, F_ZERO, r),
        zero(s) ==> rgb_of(m, h, s, r) == (r, r, r),
{
    let (top, low) = (top_of(r, g, b), low_of(r, g, b));
    two(m, d, top, low);
    lemma_twice_the_half(m, d, sum(m, top, low));
    two(m, d, r, r);
    lemma_twice_the_half(m, d, sum(m, r, r));
    lemma_halves(m, d, product(m, sum(m, r, r), F_HALF), r);
}

/// The color of a hue has the largest and the smallest channel that its saturation and
/// lightness came from: a channel is the largest between a sixth and a half of the
/// turn, the smallest past two thirds, and in proportion between.
pub proof fn hues_run_between_top_and_low<M: Arith>(
    m: &M,
    d: Set<u32>,
    r: u32,
    g: u32,
    b: u32,
    t: u32,
)
    requires
        exact(m, d),
        halving(m, d),
        d.contains(r) && d.contains(g) && d.contains(b) && d.contains(t),
        d.contains(F_SIX) && d.contains(TWO_THIRDS),
        difference(m, F_ONE, F_HALF) == F_HALF,
        !same(top_of(r, g, b), low_of(r, g, b)),
        sum(m, top_of(r, g, b), low_of(r, g, b)) != F_ZERO,
        difference(m, difference(m, F_TWO, top_of(r, g, b)), low_of(r, g, b)) != F_ZERO,
        !nan(hsl_of(m, r, g, b).2),
        !zero(hsl_of(m, r, g, b).1),
        unit(t) == t,
    ensures
        ({
            let (top, low) = (top_of(r, g, b), low_of(r, g, b));
            let (_, s, l) = hsl_of(m, r, g, b);
            let c = rgb_of(m, t, s, l).1;
            let range = difference(m, top, low);
            &&& less(t, SIXTH) ==> difference(m, c, low) == product(
                m,
                product(m, range, F_SIX),
                t,
            )
            &&& !less(t, SIXTH) && less(t, F_HALF) ==> c == top
            &&& !less(t, F_HALF) && less(t, TWO_THIRDS) ==> difference(m, c, low) == product(
                m,
                product(m, range, F_SIX),
                difference(m, TWO_THIRDS, t),
            )
            &&& !less(t, TWO_THIRDS) ==> c == low
        }),
{
    let (top, low) = (top_of(r, g, b), low_of(r, g, b));
    let (_, s, l) = hsl_of(m, r, g, b);
    let range = difference(m, top, low);
    let all = sum(m, top, low);
    two(m, d, top, low);
    lemma_twice_the_half(m, d, all);
    lemma_range(m, d, top, low, l, s);
    let q = if less(l, F_HALF) {
        product(m, l, sum(m, F_ONE, s))
    } else {
        difference(m, sum(m, l, s), product(m, l, s))
    };
    assert(q == top);
    // 2 l - top = low
    adding_cancels(m, d, low, top);
    two(m, d, low, top);
    let p = difference(m, product(m, F_TWO, l), q);
    assert(p == low);
    let six = product(m, range, F_SIX);
    two(m, d, range, F_SIX);
    two(m, d, six, t);
    two(m, d, low, product(m, six, t));
    adding_cancels(m, d, product(m, six, t), low);
    let left = difference(m, TWO_THIRDS, t);
    two(m, d, TWO_THIRDS, t);
    products(m, d, range, left, F_SIX);
    two(m, d, six, left);
    two(m, d, low, product(m, six, left));
    adding_cancels(m, d, product(m, six, left), low);
}

/// The saturation and the lightness of a color give its largest channel back.
proof fn lemma_range<M: Arith>(m: &M, d: Set<u32>, top: u32, low: u32, l: u32, s: u32)
    requires
        exact(m, d),
        halving(m, d),
        d.contains(top) && d.contains(low) && d.contains(l),
        difference(m, F_ONE, F_HALF) == F_HALF,
        !nan(l),
        sum(m, l, l) == sum(m, top, low),
        sum(m, top, low) != F_ZERO,
        difference(m, difference(m, F_TWO, top), low) != F_ZERO,
        s == if less(F_HALF, l) {
            quotient(
                m,
                difference(m, top, low),
                difference(m, difference(m, F_TWO, top), low),
            )
        } else {
            quotient(m, difference(m, top, low), sum(m, top, low))
        },
    ensures
        d.contains(s),
        (if less(l, F_HALF) {
            product(m, l, sum(m, F_ONE, s))
        } else {
            difference(m, sum(m, l, s), product(m, l, s))
        }) == top,
{
    let range = difference(m, top, low);
    let all = sum(m, top, low);
    let rest = difference(m, difference(m, F_TWO, top), low);
    two(m, d, top, low);
    two(m, d, F_TWO, top);
    two(m, d, difference(m, F_TWO, top), low);
    two(m, d, range, all);
    two(m, d, range, rest);
    let n = difference(m, F_ONE, l);
    two(m, d, F_ONE, l);
    two(m, d, l, s);
    two(m, d, s, n);
    two(m, d, sum(m, l, s), product(m, l, s));
    // rest = n + n
    two(m, d, n, n);
    two(m, d, l, l);
    sums_exchange(m, d, n, n, l, l);
    sums(m, d, rest, low, top);
    two(m, d, low, top);
    two(m, d, sum(m, n, n), all);
    sums(m, d, rest, top, low);
    sums_cancel(m, d, rest, sum(m, n, n), all);
    // l + s - l s = l + s n
    let sn = product(m, s, n);
    spreads(m, d, s, n, l);
    two(m, d, s, F_ONE);
    two(m, d, s, l);
    sums(m, d, l, sn, product(m, s, l));
    two(m, d, l, sn);
    differences_are_unique(m, d, sum(m, l, s), product(m, l, s), sum(m, l, sn));
    // l (1 + s) = l + l s
    spreads(m, d, l, F_ONE, s);
    two(m, d, l, F_ONE);
    // With e the half of the range, l + e doubles to all + range = top + top.
    let e = if less(F_HALF, l) { sn } else { product(m, l, s) };
    spreads(m, d, s, n, n);
    spreads(m, d, s, l, l);
    two(m, d, s, all);
    two(m, d, s, rest);
    assert(sum(m, e, e) == range);
    two(m, d, l, e);
    sums_exchange(m, d, l, e, l, e);
    sums(m, d, top, low, range);
    two(m, d, low, range);
    two(m, d, top, top);
    two(m, d, all, range);
    lemma_halves(m, d, sum(m, l, e), top);
    if !less(F_HALF, l) && !less(l, F_HALF) {
        assert(l == F_HALF);
        assert(sn == product(m, s, l));
    }
}

/// Red is what green would be a third of a turn further on, blue what it would be a
/// third of a turn before.
pub proof fn channels_are_a_third_of_a_turn_apart<M: Arith>(m: &M, h: u32, s: u32, l: u32)
    ensures
        rgb_of(m, h, s, l).0 == rgb_of(m, sum(m, h, THIRD), s, l).1,
        rgb_of(m, h, s, l).2 == rgb_of(m, difference(m, h, THIRD), s, l).1,
{
}

/// A hue that is a turn off is the hue.
pub proof fn hues_turn_round<M: Arith>(m: &M, d: Set<u32>, h: u32, s: u32, l: u32)
    requires
        exact(m, d),
        d.contains(h) && unit(h) == h,
        less(F_ONE, sum(m, h, F_ONE)),
        less(difference(m, h, F_ONE), F_ZERO),
    ensures
        rgb_of(m, sum(m, h, F_ONE), s, l).1 == rgb_of(m, h, s, l).1,
        rgb_of(m, difference(m, h, F_ONE), s, l).1 == rgb_of(m, h, s, l).1,
{
    two(m, d, h, F_ONE);
    adding_cancels(m, d, h, F_ONE);
}

/// The hue of a color says where between the two other channels it lies, counted in
/// sixths of a turn from the largest one.
pub proof fn hues_count_sixths<M: Arith>(m: &M, d: Set<u32>, r: u32, g: u32, b: u32)
    requires
        exact(m, d),
        d.contains(r) && d.contains(g) && d.contains(b),
        d.contains(F_SIX) && d.contains(F_TWO) && d.contains(F_FOUR),
        !same(top_of(r, g, b), low_of(r, g, b)),
        top_of(r, g, b) != low_of(r, g, b),
    ensures
        ({
            let (top, low) = (top_of(r, g, b), low_of(r, g, b));
            let range = difference(m, top, low);
            let sixths = product(m, hsl_of(m, r, g, b).0, F_SIX);
            let past = |n: u32| product(m, difference(m, sixths, n), range);
            &&& same(top, r) && !less(g, b) ==> past(F_ZERO) == difference(m, g, b)
            &&& same(top, r) && less(g, b) ==> past(F_SIX) == difference(m, g, b)
            &&& !same(top, r) && same(top, g) ==> past(F_TWO) == difference(m, b, r)
            &&& !same(top, r) && !same(top, g) ==> past(F_FOUR) == difference(m, r, g)
        }),
{
    let (top, low) = (top_of(r, g, b), low_of(r, g, b));
    let range = difference(m, top, low);
    two(m, d, top, low);
    two(m, d, low, low);
    assert(range != F_ZERO);
    lemma_sixths(m, d, difference(m, g, b), range, F_ZERO);
    lemma_sixths(m, d, difference(m, g, b), range, F_SIX);
    lemma_sixths(m, d, difference(m, b, r), range, F_TWO);
    lemma_sixths(m, d, difference(m, r, g), range, F_FOUR);
    two(m, d, g, b);
    two(m, d, b, r);
    two(m, d, r, g);
}

proof fn lemma_sixths<M: Arith>(m: &M, d: Set<u32>, x: u32, range: u32, n: u32)
    requires
        exact(m, d),
        d.contains(range) && d.contains(n) && d.contains(F_SIX),
        range != F_ZERO,
    ensures
        ({
            let h = quotient(m, sum(m, quotient(m, x, range), n), F_SIX);
            d.contains(x) ==> product(m, difference(m, product(m, h, F_SIX), n), range) == x
        }),
{
    if d.contains(x) {
        let q = quotient(m, x, range);
        two(m, d, x, range);
        two(m, d, q, n);
        two(m, d, sum(m, q, n), F_SIX);
        adding_cancels(m, d, q, n);
    }
}

/// Measured in degrees and from clamped channels, hue, saturation and lightness are
/// what they are as shares of a turn.
pub proof fn both_color_models_agree<M: Arith>(m: &M, d: Set<u32>, p: Rgba32F)
    requires
        exact(m, d),
        signed(m, d),
        halving(m, d),
        d.contains(p.r) && d.contains(p.g) && d.contains(p.b),
        unit(p.r) == p.r && unit(p.g) == p.g && unit(p.b) == p.b,
        d.contains(F_SIX) && d.contains(F_FOUR) && d.contains(SECTOR_DEGREES),
        product(m, F_SIX, SECTOR_DEGREES) == FULL_TURN,
        ({
            let (top, low) = (top_of(p.r, p.g, p.b), low_of(p.r, p.g, p.b));
            let range = difference(m, top, low);
            let l = product(m, sum(m, top, low), F_HALF);
            let off = difference(m, product(m, F_TWO, l), F_ONE);
            let x = quotient(m, difference(m, p.g, p.b), range);
            &&& range != F_ZERO && !same(top, low) && !less(absolute(range), GRAY_RANGE)
            &&& sum(m, top, low) != F_ZERO
            &&& difference(m, difference(m, F_TWO, top), low) != F_ZERO
            // A lightness is more than half where twice of it is more than one, and a
            // hue counted round a turn is not negative.
            &&& if less(F_HALF, l) { off < F_SIGN } else { off == F_ZERO || off >= F_SIGN }
            &&& remainder(m, x, F_SIX) == sum(
                m,
                x,
                if less(p.g, p.b) { F_SIX } else { F_ZERO },
            )
        }),
    ensures
        ({
            let (h, s, l) = hsl_of(m, p.r, p.g, p.b);
            hsl_degrees(m, p) == (product(m, h, FULL_TURN), s, l)
        }),
{
    let (top, low) = (top_of(p.r, p.g, p.b), low_of(p.r, p.g, p.b));
    let range = difference(m, top, low);
    let all = sum(m, top, low);
    let l = product(m, all, F_HALF);
    two(m, d, top, low);
    lemma_twice_the_half(m, d, all);
    // The divisor of the saturation
    let off = difference(m, all, F_ONE);
    two(m, d, all, F_ONE);
    let rest = difference(m, difference(m, F_TWO, top), low);
    two(m, d, F_TWO, top);
    two(m, d, difference(m, F_TWO, top), low);
    sums(m, d, rest, low, top);
    two(m, d, low, top);
    two(m, d, rest, all);
    if off < F_SIGN {
        // rest + off = (rest + all) - 1 = 2 - 1 = 1
        assert(absolute(off) == off);
        two(m, d, rest, off);
        sums(m, d, rest, off, F_ONE);
        sums_cancel(m, d, sum(m, rest, off), F_ONE, F_ONE);
        differences_are_unique(m, d, F_ONE, off, rest);
        if off == F_ZERO {
            two(m, d, F_ZERO, F_ONE);
            adding_cancels(m, d, F_ONE, F_ONE);
            adding_cancels(m, d, F_ONE, F_ZERO);
            two(m, d, F_ONE, F_ONE);
        }
    } else {
        let back = negated(off);
        assert(absolute(off) == back);
        two(m, d, F_ZERO, off);
        two(m, d, all, back);
        sums(m, d, off, F_ONE, back);
        two(m, d, off, back);
        two(m, d, F_ONE, back);
        two(m, d, F_ONE, F_ZERO);
        differences_are_unique(m, d, F_ONE, back, all);
    }
    // The hue
    two(m, d, p.g, p.b);
    two(m, d, p.b, p.r);
    two(m, d, p.r, p.g);
    let x = quotient(m, difference(m, p.g, p.b), range);
    let y = quotient(m, difference(m, p.b, p.r), range);
    let z = quotient(m, difference(m, p.r, p.g), range);
    two(m, d, difference(m, p.g, p.b), range);
    two(m, d, difference(m, p.b, p.r), range);
    two(m, d, difference(m, p.r, p.g), range);
    let turn = if less(p.g, p.b) { F_SIX } else { F_ZERO };
    lemma_degrees(m, d, x, turn);
    lemma_degrees(m, d, y, F_TWO);
    lemma_degrees(m, d, z, F_FOUR);
}

proof fn lemma_degrees<M: Arith>(m: &M, d: Set<u32>, x: u32, n: u32)
    requires
        exact(m, d),
        d.contains(x) && d.contains(n) && d.contains(F_SIX) && d.contains(SECTOR_DEGREES),
        product(m, F_SIX, SECTOR_DEGREES) == FULL_TURN,
    ensures
        product(m, sum(m, x, n), SECTOR_DEGREES) == product(
            m,
            quotient(m, sum(m, x, n), F_SIX),
            FULL_TURN,
        ),
{
    let h = quotient(m, sum(m, x, n), F_SIX);
    two(m, d, x, n);
    two(m, d, sum(m, x, n), F_SIX);
    products(m, d, h, F_SIX, SECTOR_DEGREES);
}

/// The color of a hue in degrees has a largest channel, a smallest one and one in
/// between: their range is the saturation's share of what the lightness allows, the
/// lightness is halfway, and the sixth of the turn says which channel is which.
pub proof fn sectors_place_the_channels<M: Arith>(m: &M, d: Set<u32>, h_deg: u32, s: u32, l: u32)
    requires
        exact(m, d),
        halving(m, d),
        signed(m, d),
        d.contains(s) && d.contains(l),
        ({
            let sixths = product(
                m,
                quotient(m, remainder(m, h_deg, FULL_TURN), FULL_TURN),
                F_SIX,
            );
            d.contains(remainder(m, sixths, F_TWO))
        }),
    ensures
        ({
            let c = rgb_of_degrees(m, h_deg, s, l);
            let sixths = product(
                m,
                quotient(m, remainder(m, h_deg, FULL_TURN), FULL_TURN),
                F_SIX,
            );
            let k = sector_of(whole_below(m, sixths));
            let (hi, mid, low) = if k == 0 {
                (c.r, c.g, c.b)
            } else if k == 1 {
                (c.g, c.r, c.b)
            } else if k == 2 {
                (c.g, c.b, c.r)
            } else if k == 3 {
                (c.b, c.g, c.r)
            } else if k == 4 {
                (c.b, c.r, c.g)
            } else {
                (c.r, c.b, c.g)
            };
            let range = difference(m, hi, low);
            let from_middle = difference(m, remainder(m, sixths, F_TWO), F_ONE);
            &&& c.a == F_ONE
            &&& sum(m, hi, low) == sum(m, l, l)
            &&& range == product(
                m,
                s,
                difference(m, F_ONE, absolute(difference(m, sum(m, l, l), F_ONE))),
            )
            &&& difference(m, hi, mid) == product(m, range, absolute(from_middle))
        }),
{
    let sixths = product(m, quotient(m, remainder(m, h_deg, FULL_TURN), FULL_TURN), F_SIX);
    let all = sum(m, l, l);
    two(m, d, l, l);
    two(m, d, l, F_TWO);
    two(m, d, l, F_ONE);
    spreads(m, d, l, F_ONE, F_ONE);
    assert(product(m, F_TWO, l) == all);
    let off = difference(m, all, F_ONE);
    two(m, d, all, F_ONE);
    lemma_sizes(m, d, off);
    let room = difference(m, F_ONE, absolute(off));
    two(m, d, F_ONE, absolute(off));
    let c = product(m, room, s);
    two(m, d, room, s);
    let half = quotient(m, c, F_TWO);
    two(m, d, c, F_TWO);
    two(m, d, half, F_ONE);
    spreads(m, d, half, F_ONE, F_ONE);
    two(m, d, half, F_TWO);
    let low = difference(m, l, half);
    two(m, d, l, half);
    two(m, d, c, low);
    two(m, d, F_ZERO, low);
    two(m, d, low, low);
    let hi = sum(m, c, low);
    adding_cancels(m, d, c, low);
    // hi + low = (half + half) + low + low = l + l
    sums(m, d, c, low, low);
    sums_exchange(m, d, half, half, low, low);
    two(m, d, half, low);
    // hi - mid = c - c (1 - from) = c from
    let from = absolute(difference(m, remainder(m, sixths, F_TWO), F_ONE));
    two(m, d, remainder(m, sixths, F_TWO), F_ONE);
    lemma_sizes(m, d, difference(m, remainder(m, sixths, F_TWO), F_ONE));
    let x = product(m, c, difference(m, F_ONE, from));
    two(m, d, F_ONE, from);
    two(m, d, c, difference(m, F_ONE, from));
    two(m, d, x, low);
    spreads(m, d, c, difference(m, F_ONE, from), from);
    two(m, d, c, F_ONE);
    two(m, d, c, from);
    let y = product(m, c, from);
    two(m, d, y, x);
    sums(m, d, y, x, low);
    differences_are_unique(m, d, hi, sum(m, x, low), y);
}

proof fn lemma_sizes<M: Arith>(m: &M, d: Set<u32>, g: u32)
    requires
        exact(m, d),
        signed(m, d),
        d.contains(g),
    ensures
        d.contains(absolute(g)),
{
    if g >= F_SIGN {
        assert(absolute(g) == negated(g));
    }
}

/// Turning a gray, or making it more or less saturated, changes nothing; lightness
/// moves it. Without saturation every color becomes the gray of its lightness.
pub proof fn grays_have_no_hue<M: Arith>(
    m: &M,
    d: Set<u32>,
    t: u32,
    hue: u32,
    saturation: u32,
    lightness: u32,
    r: u32,
    g: u32,
    b: u32,
)
    requires
        exact(m, d),
        halving(m, d),
        d.contains(t) && d.contains(saturation) && d.contains(lightness) && !nan(t),
        d.contains(hsl_of(m, r, g, b).1),
    ensures
        ({
            let v = clamped(sum(m, t, lightness), F_ZERO, F_ONE);
            recolored(m, AdjustmentKind::HueSat { hue, saturation, lightness }, t, t, t) == (
                v,
                v,
                v,
            )
        }),
        ({
            let v = clamped(sum(m, hsl_of(m, r, g, b).2, lightness), F_ZERO, F_ONE);
            recolored(
                m,
                AdjustmentKind::HueSat { hue, saturation: F_ZERO, lightness },
                r,
                g,
                b,
            ) == (v, v, v)
        }),
{
    lightness_is_halfway(m, d, t, t, t, t, t);
    nothing_absorbs(m, d, saturation);
    nothing_absorbs(m, d, hsl_of(m, r, g, b).1);
}

/// Turning the hue by some degrees moves it by that share of a full turn, and changes
/// neither saturation nor lightness; those are scaled and moved by their own settings.
pub proof fn hues_turn_by_degrees<M: Arith>(
    m: &M,
    d: Set<u32>,
    r: u32,
    g: u32,
    b: u32,
    hue: u32,
    saturation: u32,
    lightness: u32,
    to: u32,
)
    requires
        exact(m, d),
        d.contains(hsl_of(m, r, g, b).0) && d.contains(hue) && d.contains(to),
        d.contains(FULL_TURN),
        product(m, difference(m, to, hsl_of(m, r, g, b).0), FULL_TURN) == hue,
        remainder(m, to, F_ONE) == to,
    ensures
        recolored(m, AdjustmentKind::HueSat { hue, saturation, lightness }, r, g, b) == rgb_of(
            m,
            to,
            clamped(product(m, hsl_of(m, r, g, b).1, saturation), F_ZERO, F_ONE),
            clamped(sum(m, hsl_of(m, r, g, b).2, lightness), F_ZERO, F_ONE),
        ),
{
    let h = hsl_of(m, r, g, b).0;
    let share = difference(m, to, h);
    two(m, d, to, h);
    quotients_are_unique(m, d, hue, FULL_TURN, share);
}

} // verus!
