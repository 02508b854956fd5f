//! The targets of the tools that work with a finger.
use vstd::prelude::*;

use crate::arith::{difference, product, quotient, sum, Arith};
use crate::exact::{
    adding_cancels, differences_are_unique, exact, made_of, nothing_absorbs, products,
    quotients_are_unique, signed, spreads, sums, sums_cancel, sums_exchange, two,
};
use crate::float_bits::{
    absolute, clamped, less, negated, same, unit, F_FOUR, F_HALF, F_ONE, F_SIGN, F_TINY, F_TWO,
    F_ZERO,
};
use crate::laws::adjusting::{luminance_is_linear, weighing};
use crate::laws::hues::halving;
use crate::ops::finger_ops::{
    burned, dodged, healed, hsl_degrees, luma_of, range_share, recolored_to, rgb_of_degrees,
    sharpened, smooth, sponged, srgb_decoded, Range, F_THREE, MOST_EXPOSURE,
};
use crate::pixel::{srgb_encoded, Rgba32F};

verus! {

/// Neither end of the range from zero to one was hit.
pub open spec fn unclipped(px: Rgba32F) -> bool {
    &&& px.r != F_ZERO && px.r != F_ONE
    &&& px.g != F_ZERO && px.g != F_ONE
    &&& px.b != F_ZERO && px.b != F_ONE
}

/// Sharpening moves a pixel away from its neighbourhood, in proportion to the amount
/// and to how far it is from it. It leaves a pixel like its neighbourhood alone, and
/// does nothing by no amount.
pub proof fn sharpening_moves_away<M: Arith>(
    m: &M,
    d: Set<u32>,
    orig: Rgba32F,
    blurred: Rgba32F,
    amount: u32,
)
    requires
        exact(m, d),
        made_of(d, orig) && made_of(d, blurred) && d.contains(amount),
        clamped(amount, F_ZERO, F_FOUR) == amount,
    ensures
        ({
            let out = sharpened(m, orig, blurred, amount);
            &&& out.a == orig.a
            &&& unclipped(out) ==> {
                &&& difference(m, out.r, orig.r) == product(
                    m,
                    amount,
                    difference(m, orig.r, blurred.r),
                )
                &&& difference(m, out.g, orig.g) == product(
                    m,
                    amount,
                    difference(m, orig.g, blurred.g),
                )
                &&& difference(m, out.b, orig.b) == product(
                    m,
                    amount,
                    difference(m, orig.b, blurred.b),
                )
            }
        }),
        unit(orig.r) == orig.r && unit(orig.g) == orig.g && unit(orig.b) == orig.b ==> sharpened(
            m,
            orig,
            orig,
            amount,
        ) == orig && sharpened(m, orig, blurred, F_ZERO) == orig,
{
    lemma_sharpened(m, d, orig.r, blurred.r, amount);
    lemma_sharpened(m, d, orig.g, blurred.g, amount);
    lemma_sharpened(m, d, orig.b, blurred.b, amount);
}

proof fn lemma_sharpened<M: Arith>(m: &M, d: Set<u32>, o: u32, b: u32, amount: u32)
    requires
        exact(m, d),
        d.contains(o) && d.contains(b) && d.contains(amount),
    ensures
        ({
            let x = sum(m, o, product(m, amount, difference(m, o, b)));
            difference(m, x, o) == product(m, amount, difference(m, o, b))
        }),
        sum(m, o, product(m, amount, difference(m, o, o))) == o,
        sum(m, o, product(m, F_ZERO, difference(m, o, b))) == o,
{
    let g = difference(m, o, b);
    two(m, d, o, b);
    two(m, d, amount, g);
    two(m, d, o, product(m, amount, g));
    adding_cancels(m, d, product(m, amount, g), o);
    adding_cancels(m, d, o, o);
    nothing_absorbs(m, d, amount);
    nothing_absorbs(m, d, g);
    two(m, d, o, o);
}

/// Three is one more than two.
pub open spec fn counting_on<M: Arith>(m: &M, d: Set<u32>) -> bool {
    halving(m, d) && d.contains(F_THREE) && sum(m, F_TWO, F_ONE) == F_THREE
}

/// A smooth rise is nothing at its start and before, one at its end and after, and
/// rises as it began: as far above nothing at a share of the way as it is below one at
/// that share from the end.
pub proof fn smooth_rises_are_symmetric<M: Arith>(
    m: &M,
    d: Set<u32>,
    e0: u32,
    e1: u32,
    t: u32,
)
    requires
        exact(m, d),
        counting_on(m, d),
        d.contains(e0) && d.contains(e1) && d.contains(t),
        !same(e0, e1) && e0 != e1,
        unit(t) == t,
        unit(difference(m, F_ONE, t)) == difference(m, F_ONE, t),
    ensures
        smooth(m, e0, e1, e0) == F_ZERO,
        smooth(m, e0, e1, e1) == F_ONE,
        ({
            let range = difference(m, e1, e0);
            let here = smooth(m, e0, e1, sum(m, e0, product(m, t, range)));
            let there = smooth(m, e0, e1, difference(m, e1, product(m, t, range)));
            &&& sum(m, here, there) == F_ONE
            &&& here == product(m, product(m, t, t), sum(m, F_ONE, product(
                m,
                F_TWO,
                difference(m, F_ONE, t),
            )))
        }),
{
    let range = difference(m, e1, e0);
    two(m, d, e1, e0);
    two(m, d, e0, e0);
    assert(range != F_ZERO);
    let tr = product(m, t, range);
    two(m, d, t, range);
    two(m, d, e0, tr);
    two(m, d, e1, tr);
    adding_cancels(m, d, tr, e0);
    adding_cancels(m, d, e0, e0);
    two(m, d, range, range);
    nothing_absorbs(m, d, range);
    quotients_are_unique(m, d, F_ZERO, range, F_ZERO);
    quotients_are_unique(m, d, range, range, F_ONE);
    quotients_are_unique(m, d, tr, range, t);
    // (e1 - t range) - e0 = (1 - t) range
    let n = difference(m, F_ONE, t);
    two(m, d, F_ONE, t);
    two(m, d, n, range);
    let nr = product(m, n, range);
    spreads(m, d, range, n, t);
    two(m, d, range, n);
    two(m, d, range, t);
    two(m, d, nr, e0);
    sums(m, d, nr, e0, tr);
    sums(m, d, nr, tr, e0);
    two(m, d, sum(m, nr, e0), tr);
    differences_are_unique(m, d, e1, tr, sum(m, nr, e0));
    adding_cancels(m, d, nr, e0);
    quotients_are_unique(m, d, nr, range, n);
    lemma_bend(m, d, t);
    lemma_bend(m, d, n);
    lemma_bend(m, d, F_ZERO);
    lemma_bend(m, d, F_ONE);
    lemma_bends_add_up(m, d, t);
    nothing_absorbs(m, d, F_ZERO);
    adding_cancels(m, d, F_ONE, F_ONE);
    two(m, d, F_ONE, F_ONE);
    nothing_absorbs(m, d, F_TWO);
    nothing_absorbs(m, d, sum(m, F_ONE, product(m, F_TWO, difference(m, F_ONE, F_ZERO))));
    two(m, d, F_ONE, F_ZERO);
}

/// 3 - 2 t = 1 + 2 (1 - t)
proof fn lemma_bend<M: Arith>(m: &M, d: Set<u32>, t: u32)
    requires
        exact(m, d),
        counting_on(m, d),
        d.contains(t),
    ensures
        ({
            let open = sum(m, F_ONE, product(m, F_TWO, difference(m, F_ONE, t)));
            &&& difference(m, F_THREE, product(m, F_TWO, t)) == open
            &&& d.contains(open)
        }),
{
    let n = difference(m, F_ONE, t);
    two(m, d, F_ONE, t);
    two(m, d, F_TWO, t);
    two(m, d, F_TWO, n);
    let (a, b) = (product(m, F_TWO, n), product(m, F_TWO, t));
    two(m, d, F_ONE, a);
    spreads(m, d, F_TWO, n, t);
    two(m, d, F_TWO, F_ONE);
    sums(m, d, F_ONE, a, b);
    two(m, d, F_ONE, F_TWO);
    differences_are_unique(m, d, F_THREE, b, sum(m, F_ONE, a));
}

/// t t (1 + 2 n) + n n (1 + 2 t) = (t + n) (t + n) where t + n = 1
proof fn lemma_bends_add_up<M: Arith>(m: &M, d: Set<u32>, t: u32)
    requires
        exact(m, d),
        counting_on(m, d),
        d.contains(t),
    ensures
        ({
            let n = difference(m, F_ONE, t);
            sum(
                m,
                product(m, product(m, t, t), sum(m, F_ONE, product(m, F_TWO, n))),
                product(
                    m,
                    product(m, n, n),
                    sum(m, F_ONE, product(m, F_TWO, difference(m, F_ONE, n))),
                ),
            ) == F_ONE
        }),
{
    let n = difference(m, F_ONE, t);
    two(m, d, F_ONE, t);
    two(m, d, F_ONE, n);
    differences_are_unique(m, d, F_ONE, n, t);
    let (tt, nn, tn) = (product(m, t, t), product(m, n, n), product(m, t, n));
    two(m, d, t, t);
    two(m, d, n, n);
    two(m, d, t, n);
    two(m, d, F_TWO, n);
    two(m, d, F_TWO, t);
    // tt (1 + 2 n) = tt + 2 t (t n)
    spreads(m, d, tt, F_ONE, product(m, F_TWO, n));
    spreads(m, d, nn, F_ONE, product(m, F_TWO, t));
    two(m, d, tt, F_ONE);
    two(m, d, nn, F_ONE);
    let (p, q) = (product(m, tt, product(m, F_TWO, n)), product(m, nn, product(m, F_TWO, t)));
    two(m, d, tt, product(m, F_TWO, n));
    two(m, d, nn, product(m, F_TWO, t));
    // p = t (2 tn), q = n (2 tn), p + q = 2 tn
    let w = product(m, F_TWO, tn);
    two(m, d, F_TWO, tn);
    products(m, d, t, t, product(m, F_TWO, n));
    products(m, d, F_TWO, t, n);
    products(m, d, t, F_TWO, n);
    products(m, d, n, n, product(m, F_TWO, t));
    products(m, d, n, F_TWO, t);
    products(m, d, F_TWO, n, t);
    two(m, d, t, w);
    two(m, d, n, w);
    spreads(m, d, w, t, n);
    two(m, d, w, t);
    two(m, d, w, n);
    two(m, d, w, w);
    two(m, d, t, product(m, F_TWO, n));
    two(m, d, n, product(m, F_TWO, t));
    sums_exchange(m, d, tt, p, nn, q);
    two(m, d, p, q);
    assert(sum(m, p, q) == w);
    // tt + nn + 2 tn = (t + n) (t + n)
    spreads(m, d, tn, F_ONE, F_ONE);
    two(m, d, tn, F_ONE);
    two(m, d, tn, F_TWO);
    spreads(m, d, t, t, n);
    spreads(m, d, n, t, n);
    two(m, d, n, t);
    two(m, d, t, F_ONE);
    two(m, d, n, F_ONE);
    two(m, d, tn, nn);
    two(m, d, tt, tn);
    sums_exchange(m, d, tt, tn, tn, nn);
    two(m, d, tt, nn);
    sums_exchange(m, d, tt, nn, tn, tn);
    sums(m, d, tt, nn, sum(m, tn, tn));
    two(m, d, tn, tn);
    sums_exchange(m, d, tt, tn, nn, tn);
    two(m, d, nn, tn);
    two(m, d, t, n);
}

/// What is a shadow at some tone is no highlight half the range brighter, midtones are
/// most at the middle and alike on both sides of it, and pure black and white lie
/// wholly in one range.
pub proof fn tonal_ranges_meet<M: Arith>(m: &M, d: Set<u32>, t: u32)
    requires
        exact(m, d),
        counting_on(m, d),
        signed(m, d),
        d.contains(t) && unit(t) == t,
        difference(m, F_ONE, F_HALF) == F_HALF,
        unit(difference(m, F_ONE, t)) == difference(m, F_ONE, t),
        ({
            let s = product(m, t, F_HALF);
            let up = sum(m, F_HALF, s);
            let h = smooth(m, F_HALF, F_ONE, up);
            &&& unit(s) == s && unit(up) == up
            &&& unit(h) == h
            &&& unit(difference(m, F_ONE, h)) == difference(m, F_ONE, h)
        }),
    ensures
        ({
            let s = product(m, t, F_HALF);
            let up = sum(m, F_HALF, s);
            sum(
                m,
                range_share(m, s, Range::Shadows),
                range_share(m, up, Range::Highlights),
            ) == F_ONE
        }),
        range_share(m, F_HALF, Range::Midtones) == F_ONE,
        range_share(m, t, Range::Midtones) == range_share(
            m,
            difference(m, F_ONE, t),
            Range::Midtones,
        ),
        range_share(m, F_ZERO, Range::Shadows) == F_ONE,
        range_share(m, F_ONE, Range::Highlights) == F_ONE,
{
    let s = product(m, t, F_HALF);
    let up = sum(m, F_HALF, s);
    two(m, d, t, F_HALF);
    two(m, d, F_HALF, s);
    two(m, d, F_ONE, F_HALF);
    adding_cancels(m, d, F_HALF, F_ZERO);
    adding_cancels(m, d, s, F_HALF);
    adding_cancels(m, d, s, F_ZERO);
    adding_cancels(m, d, F_HALF, F_HALF);
    assert(smooth(m, F_ZERO, F_HALF, s) == smooth(m, F_HALF, F_ONE, up));
    let h = smooth(m, F_HALF, F_ONE, up);
    two(m, d, F_HALF, F_HALF);
    two(m, d, F_HALF, F_TWO);
    quotients_are_unique(m, d, s, F_HALF, t);
    lemma_bend(m, d, t);
    two(m, d, t, t);
    two(m, d, product(m, t, t), difference(m, F_THREE, product(m, F_TWO, t)));
    two(m, d, F_ONE, h);
    // Midtones
    nothing_absorbs(m, d, F_TWO);
    two(m, d, F_ZERO, F_TWO);
    adding_cancels(m, d, F_ONE, F_ONE);
    assert(absolute(F_ZERO) == F_ZERO);
    let n = difference(m, F_ONE, t);
    two(m, d, F_ONE, t);
    two(m, d, t, F_HALF);
    two(m, d, n, F_HALF);
    let g = difference(m, t, F_HALF);
    let k = difference(m, n, F_HALF);
    // g + k = (t + n) - 1 = 0
    two(m, d, g, k);
    sums_exchange(m, d, g, F_HALF, k, F_HALF);
    two(m, d, n, t);
    adding_cancels(m, d, F_ONE, F_ONE);
    two(m, d, F_ONE, F_ONE);
    two(m, d, F_ZERO, F_ONE);
    two(m, d, sum(m, g, k), F_ONE);
    sums_cancel(m, d, sum(m, g, k), F_ZERO, F_ONE);
    lemma_opposite(m, d, g, k);
    // The ends
    nothing_absorbs(m, d, F_HALF);
    quotients_are_unique(m, d, F_ZERO, F_HALF, F_ZERO);
    quotients_are_unique(m, d, F_HALF, F_HALF, F_ONE);
    two(m, d, F_HALF, F_ONE);
    lemma_bend(m, d, F_ZERO);
    lemma_bend(m, d, F_ONE);
    adding_cancels(m, d, F_ZERO, F_ZERO);
    nothing_absorbs(m, d, F_ZERO);
    nothing_absorbs(m, d, difference(m, F_THREE, product(m, F_TWO, F_ZERO)));
    two(m, d, F_ONE, F_ZERO);
}

/// Midtones are nothing at both ends and grow in proportion towards the middle.
pub proof fn midtones_grow_towards_the_middle<M: Arith>(m: &M, d: Set<u32>, t: u32)
    requires
        exact(m, d),
        counting_on(m, d),
        signed(m, d),
        d.contains(t) && unit(t) == t,
        difference(m, t, F_HALF) >= F_SIGN,
        difference(m, F_ZERO, F_HALF) >= F_SIGN,
    ensures
        range_share(m, t, Range::Midtones) == clamped(sum(m, t, t), F_ZERO, F_ONE),
        range_share(m, F_ZERO, Range::Midtones) == F_ZERO,
{
    lemma_below_the_middle(m, d, t);
    lemma_below_the_middle(m, d, F_ZERO);
    two(m, d, F_ZERO, F_ZERO);
}

/// 1 - 2 |t - 1/2| = 2 t for a t below the middle.
proof fn lemma_below_the_middle<M: Arith>(m: &M, d: Set<u32>, t: u32)
    requires
        exact(m, d),
        counting_on(m, d),
        signed(m, d),
        d.contains(t),
        difference(m, t, F_HALF) >= F_SIGN,
    ensures
        difference(m, F_ONE, product(m, absolute(difference(m, t, F_HALF)), F_TWO)) == sum(m, t, t),
{
    let g = difference(m, t, F_HALF);
    let n = negated(g);
    two(m, d, t, F_HALF);
    two(m, d, F_ZERO, g);
    assert(absolute(g) == n);
    // n + t = (n + g) + 1/2 = 1/2
    sums(m, d, n, g, F_HALF);
    two(m, d, n, g);
    two(m, d, F_HALF, F_HALF);
    two(m, d, n, t);
    // (n + n) + (t + t) = 1
    two(m, d, n, n);
    two(m, d, t, t);
    sums_exchange(m, d, t, t, n, n);
    spreads(m, d, n, F_ONE, F_ONE);
    two(m, d, n, F_ONE);
    two(m, d, t, n);
    spreads(m, d, F_HALF, F_ONE, F_ONE);
    two(m, d, F_HALF, F_ONE);
    two(m, d, F_TWO, F_HALF);
    two(m, d, sum(m, t, t), sum(m, n, n));
    differences_are_unique(m, d, F_ONE, sum(m, n, n), sum(m, t, t));
}

/// Numbers that add up to nothing are alike without their sign.
proof fn lemma_opposite<M: Arith>(m: &M, d: Set<u32>, a: u32, b: u32)
    requires
        exact(m, d),
        signed(m, d),
        d.contains(a) && d.contains(b),
        sum(m, a, b) == F_ZERO,
    ensures
        absolute(a) == absolute(b),
{
    two(m, d, a, b);
    two(m, d, b, b);
    differences_are_unique(m, d, F_ZERO, a, b);
    if a == F_ZERO {
        adding_cancels(m, d, F_ZERO, F_ZERO);
    } else {
        assert(b == negated(a));
    }
}

/// Burning takes dodging back where nothing clips, both by the same exposure, and
/// neither changes anything by none.
pub proof fn burning_undoes_dodging<M: Arith>(m: &M, d: Set<u32>, bd: Rgba32F, exposure: u32)
    requires
        exact(m, d),
        made_of(d, bd) && d.contains(exposure),
        clamped(exposure, F_ZERO, MOST_EXPOSURE) == exposure,
        difference(m, F_ONE, exposure) != F_ZERO,
        unit(bd.r) == bd.r && unit(bd.g) == bd.g && unit(bd.b) == bd.b,
    ensures
        unclipped(dodged(m, bd, exposure)) ==> burned(m, dodged(m, bd, exposure), exposure) == bd,
        dodged(m, burned(m, bd, exposure), exposure) == bd,
        burned(m, bd, F_ZERO) == bd,
        dodged(m, bd, F_ZERO) == bd,
        ({
            let out = burned(m, bd, exposure);
            &&& difference(m, bd.r, out.r) == product(m, bd.r, exposure)
            &&& difference(m, bd.g, out.g) == product(m, bd.g, exposure)
            &&& difference(m, bd.b, out.b) == product(m, bd.b, exposure)
        }),
{
    let rest = difference(m, F_ONE, exposure);
    let scale = quotient(m, F_ONE, rest);
    two(m, d, F_ONE, exposure);
    two(m, d, F_ONE, rest);
    lemma_dodged(m, d, bd.r, rest, scale, exposure);
    lemma_dodged(m, d, bd.g, rest, scale, exposure);
    lemma_dodged(m, d, bd.b, rest, scale, exposure);
    adding_cancels(m, d, F_ONE, F_ONE);
    two(m, d, F_ONE, F_ONE);
    quotients_are_unique(m, d, F_ONE, F_ONE, F_ONE);
}

proof fn lemma_dodged<M: Arith>(m: &M, d: Set<u32>, c: u32, rest: u32, scale: u32, e: u32)
    requires
        exact(m, d),
        d.contains(c) && d.contains(rest) && d.contains(scale) && d.contains(e),
        product(m, scale, rest) == F_ONE,
        sum(m, rest, e) == F_ONE,
    ensures
        product(m, product(m, c, scale), rest) == c,
        product(m, product(m, c, rest), scale) == c,
        product(m, c, F_ONE) == c,
        difference(m, c, product(m, c, rest)) == product(m, c, e),
{
    products(m, d, c, scale, rest);
    products(m, d, c, rest, scale);
    two(m, d, scale, rest);
    two(m, d, c, F_ONE);
    spreads(m, d, c, rest, e);
    two(m, d, c, rest);
    two(m, d, c, e);
    two(m, d, product(m, c, rest), product(m, c, e));
    differences_are_unique(m, d, c, product(m, c, rest), product(m, c, e));
}

/// A healed pixel differs from the mean of its new patch as it did from that of its
/// old one, where nothing clips, and has the alpha that was there.
pub proof fn healing_keeps_differences<M: Arith>(
    m: &M,
    d: Set<u32>,
    src: Rgba32F,
    mu_src: Rgba32F,
    mu_dst: Rgba32F,
    dst: Rgba32F,
)
    requires
        exact(m, d),
        made_of(d, src) && made_of(d, mu_src) && made_of(d, mu_dst),
    ensures
        ({
            let out = healed(m, src, mu_src, mu_dst, dst);
            &&& out.a == dst.a
            &&& unclipped(out) ==> {
                &&& difference(m, out.r, mu_dst.r) == difference(m, src.r, mu_src.r)
                &&& difference(m, out.g, mu_dst.g) == difference(m, src.g, mu_src.g)
                &&& difference(m, out.b, mu_dst.b) == difference(m, src.b, mu_src.b)
            }
        }),
{
    two(m, d, src.r, mu_src.r);
    two(m, d, src.g, mu_src.g);
    two(m, d, src.b, mu_src.b);
    adding_cancels(m, d, difference(m, src.r, mu_src.r), mu_dst.r);
    adding_cancels(m, d, difference(m, src.g, mu_src.g), mu_dst.g);
    adding_cancels(m, d, difference(m, src.b, mu_src.b), mu_dst.b);
}

/// A recolored pixel keeps the luma of the backdrop, where nothing clips, and has the
/// color of the foreground's hue and saturation at the backdrop's lightness, scaled.
pub proof fn recoloring_keeps_luma<M: Arith>(m: &M, d: Set<u32>, bd: Rgba32F, fg: Rgba32F)
    requires
        exact(m, d),
        weighing(m, d),
        d.contains(bd.r) && d.contains(bd.g) && d.contains(bd.b),
        ({
            let c = rgb_of_degrees(
                m,
                hsl_degrees(m, fg).0,
                hsl_degrees(m, fg).1,
                hsl_degrees(m, bd).2,
            );
            d.contains(c.r) && d.contains(c.g) && d.contains(c.b)
        }),
    ensures
        ({
            let c = rgb_of_degrees(
                m,
                hsl_degrees(m, fg).0,
                hsl_degrees(m, fg).1,
                hsl_degrees(m, bd).2,
            );
            let out = recolored_to(m, bd, fg);
            &&& out.a == bd.a
            &&& less(F_TINY, luma_of(m, c)) && unclipped(out) ==> {
                &&& luma_of(m, out) == luma_of(m, bd)
                &&& product(m, out.r, luma_of(m, c)) == product(m, c.r, luma_of(m, bd))
                &&& product(m, out.g, luma_of(m, c)) == product(m, c.g, luma_of(m, bd))
                &&& product(m, out.b, luma_of(m, c)) == product(m, c.b, luma_of(m, bd))
            }
            &&& !less(F_TINY, luma_of(m, c)) ==> luma_of(m, out) == luma_of(m, bd) && out.r == out.g
                && out.g == out.b
        }),
{
    let c = rgb_of_degrees(m, hsl_degrees(m, fg).0, hsl_degrees(m, fg).1, hsl_degrees(m, bd).2);
    let (want, have) = (luma_of(m, bd), luma_of(m, c));
    let out = recolored_to(m, bd, fg);
    luminance_is_linear(m, d, bd, bd, F_ONE);
    luminance_is_linear(m, d, c, c, F_ONE);
    if less(F_TINY, have) {
        let scale = quotient(m, want, have);
        two(m, d, want, have);
        luminance_is_linear(m, d, c, c, scale);
        products(m, d, c.r, scale, have);
        products(m, d, c.g, scale, have);
        products(m, d, c.b, scale, have);
    } else {
        luminance_is_linear(m, d, bd, bd, want);
    }
}

/// A sponge leaves what has no saturation alone. Else it changes the saturation and
/// nothing else, in the encoded color: saturating multiplies it by one and the
/// exposure, the other way divides by that, so that the one takes the other back.
pub proof fn sponging_scales_saturation<M: Arith>(
    m: &M,
    d: Set<u32>,
    bd: Rgba32F,
    exposure: u32,
)
    requires
        exact(m, d),
        d.contains(exposure) && sum(m, F_ONE, exposure) != F_ZERO,
    ensures
        ({
            let seen = Rgba32F {
                r: srgb_encoded(m, bd.r),
                g: srgb_encoded(m, bd.g),
                b: srgb_encoded(m, bd.b),
                a: bd.a,
            };
            let (h, s, l) = hsl_degrees(m, seen);
            let up = sponged(m, bd, exposure, true);
            let down = sponged(m, bd, exposure, false);
            if less(s, F_TINY) {
                up == bd && down == bd
            } else {
                &&& up.a == bd.a && down.a == bd.a
                &&& exists|more: u32, fewer: u32|
                    {
                        &&& #[trigger] shows(m, up, h, more, l)
                        &&& #[trigger] shows(m, down, h, fewer, l)
                        &&& d.contains(s) ==> difference(m, more, s) == product(m, s, exposure)
                        &&& d.contains(s) ==> sum(m, fewer, product(m, fewer, exposure)) == s
                    }
            }
        }),
{
    let seen = Rgba32F {
        r: srgb_encoded(m, bd.r),
        g: srgb_encoded(m, bd.g),
        b: srgb_encoded(m, bd.b),
        a: bd.a,
    };
    let (h, s, l) = hsl_degrees(m, seen);
    if !less(s, F_TINY) {
        let f = sum(m, F_ONE, exposure);
        let i = quotient(m, F_ONE, f);
        let (more, fewer) = (product(m, s, f), product(m, s, i));
        if d.contains(s) {
            two(m, d, F_ONE, exposure);
            spreads(m, d, s, F_ONE, exposure);
            two(m, d, s, F_ONE);
            two(m, d, s, exposure);
            two(m, d, s, product(m, s, exposure));
            adding_cancels(m, d, product(m, s, exposure), s);
            two(m, d, F_ONE, f);
            two(m, d, s, i);
            spreads(m, d, fewer, F_ONE, exposure);
            two(m, d, fewer, F_ONE);
            products(m, d, s, i, f);
        }
        assert(shows(m, sponged(m, bd, exposure, true), h, more, l));
        assert(shows(m, sponged(m, bd, exposure, false), h, fewer, l));
    }
}

/// A pixel has a hue, a saturation, clamped, and a lightness in the display encoding.
pub open spec fn shows<M: Arith>(m: &M, px: Rgba32F, h: u32, s: u32, l: u32) -> bool {
    let c = rgb_of_degrees(m, h, clamped(s, F_ZERO, F_ONE), l);
    px.r == srgb_decoded(m, c.r) && px.g == srgb_decoded(m, c.g) && px.b == srgb_decoded(m, c.b)
}

} // verus!
