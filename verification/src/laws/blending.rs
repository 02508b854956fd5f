//! Blending.
use vstd::prelude::*;

use crate::arith::{difference, product, root, sum, Arith};
use crate::blend::{
    channel_blend, channel_out, pixel_blend, soft_bright, soft_lit, F_QUARTER, F_SIXTEEN, F_TWELVE,
};
use crate::exact::{
    adding_cancels, counting, differences_are_unique, differences_spread, exact, made_of,
    nothing_absorbs, products, products_cancel, quotients_are_unique, signed, spreads,
    squares_have_no_sign, sums, sums_cancel, sums_exchange, two,
};
use crate::float_bits::{
    absolute, at_most, clamped, less, nan, negated, unit, unit_is_idempotent, zero, F_FOUR, F_HALF,
    F_ONE, F_SIGN, F_TWO, F_ZERO,
};
use crate::layer::BlendMode;
use crate::pixel::Rgba32F;

verus! {

/// Both pixels show something: `sa` is what is seen of the source, `oa` what is seen
/// of both together, and all lie between zero and one.
pub open spec fn both_show<M: Arith>(
    m: &M,
    dst: Rgba32F,
    src: Rgba32F,
    opacity: u32,
    sa: u32,
    oa: u32,
) -> bool {
    &&& unit(dst.a) == dst.a
    &&& unit(opacity) == opacity
    &&& sa == product(m, src.a, opacity)
    &&& less(F_ZERO, src.a) && less(F_ZERO, opacity)
    &&& less(F_ZERO, sa) && at_most(sa, F_ONE)
    &&& oa == sum(m, dst.a, product(m, sa, difference(m, F_ONE, dst.a)))
    &&& less(F_ZERO, oa) && at_most(oa, F_ONE)
}

/// What is seen through two pixels is what is seen through the one of what is seen
/// through the other.
pub proof fn transparencies_multiply<M: Arith>(
    m: &M,
    d: Set<u32>,
    mode: BlendMode,
    dst: Rgba32F,
    src: Rgba32F,
    opacity: u32,
    sa: u32,
    oa: u32,
)
    requires
        exact(m, d),
        made_of(d, dst),
        made_of(d, src),
        d.contains(opacity),
        both_show(m, dst, src, opacity, sa, oa),
    ensures
        difference(m, F_ONE, pixel_blend(m, mode, dst, src, opacity).a) == product(
            m,
            difference(m, F_ONE, sa),
            difference(m, F_ONE, dst.a),
        ),
{
    let (na, ns) = (difference(m, F_ONE, dst.a), difference(m, F_ONE, sa));
    let (x, y) = (product(m, ns, na), product(m, sa, na));
    two(m, d, F_ONE, dst.a);
    two(m, d, src.a, opacity);
    two(m, d, F_ONE, sa);
    two(m, d, ns, na);
    two(m, d, sa, na);
    two(m, d, dst.a, y);
    // x + y = na (ns + sa) = na, and na + dst.a = 1.
    spreads(m, d, na, ns, sa);
    two(m, d, na, ns);
    two(m, d, x, y);
    sums(m, d, x, y, dst.a);
    differences_are_unique(m, d, F_ONE, oa, x);
    assert(pixel_blend(m, mode, dst, src, opacity).a == oa);
}

/// What an output channel is once its alpha is multiplied in: the destination where
/// only it shows, the source where only it shows, and the blend of both where both
/// show.
pub proof fn blending_weighs_by_what_shows<M: Arith>(
    m: &M,
    d: Set<u32>,
    mode: BlendMode,
    dst: Rgba32F,
    src: Rgba32F,
    opacity: u32,
    sa: u32,
    oa: u32,
)
    requires
        exact(m, d),
        made_of(d, dst),
        made_of(d, src),
        d.contains(opacity),
        both_show(m, dst, src, opacity, sa, oa),
        d.contains(channel_blend(m, mode, dst.r, src.r)),
        d.contains(channel_blend(m, mode, dst.g, src.g)),
        d.contains(channel_blend(m, mode, dst.b, src.b)),
    ensures
        ({
            let out = pixel_blend(m, mode, dst, src, opacity);
            &&& out.a == oa
            &&& shares(m, mode, dst.r, dst.a, src.r, sa, out.r, out.a)
            &&& shares(m, mode, dst.g, dst.a, src.g, sa, out.g, out.a)
            &&& shares(m, mode, dst.b, dst.a, src.b, sa, out.b, out.a)
        }),
{
    two(m, d, src.a, opacity);
    two(m, d, F_ONE, dst.a);
    two(m, d, sa, difference(m, F_ONE, dst.a));
    two(m, d, dst.a, product(m, sa, difference(m, F_ONE, dst.a)));
    lemma_shares(m, d, mode, dst.r, dst.a, src.r, sa, oa);
    lemma_shares(m, d, mode, dst.g, dst.a, src.g, sa, oa);
    lemma_shares(m, d, mode, dst.b, dst.a, src.b, sa, oa);
}

/// `c` with alpha `a` is made of three shares: `dc` where only it shows, `sc` where
/// only it shows, and the blend of them where both do.
pub open spec fn shares<M: Arith>(
    m: &M,
    mode: BlendMode,
    dc: u32,
    da: u32,
    sc: u32,
    sa: u32,
    c: u32,
    a: u32,
) -> bool {
    let only_dst = product(m, da, difference(m, F_ONE, sa));
    let only_src = product(m, sa, difference(m, F_ONE, da));
    let both = product(m, da, sa);
    product(m, c, a) == sum(
        m,
        sum(m, product(m, only_dst, dc), product(m, only_src, sc)),
        product(m, both, channel_blend(m, mode, dc, sc)),
    )
}

proof fn lemma_shares<M: Arith>(
    m: &M,
    d: Set<u32>,
    mode: BlendMode,
    dc: u32,
    da: u32,
    sc: u32,
    sa: u32,
    oa: u32,
)
    requires
        exact(m, d),
        d.contains(dc) && d.contains(da) && d.contains(sc) && d.contains(sa) && d.contains(oa),
        d.contains(channel_blend(m, mode, dc, sc)),
        oa != F_ZERO,
    ensures
        shares(m, mode, dc, da, sc, sa, channel_out(m, mode, dc, da, sc, sa, oa), oa),
{
    let (ns, na) = (difference(m, F_ONE, sa), difference(m, F_ONE, da));
    let mixed = channel_blend(m, mode, dc, sc);
    two(m, d, F_ONE, sa);
    two(m, d, F_ONE, da);
    two(m, d, da, sa);
    two(m, d, product(m, da, sa), mixed);
    products(m, d, dc, da, ns);
    products(m, d, sc, sa, na);
    let (p, q) = (product(m, product(m, dc, da), ns), product(m, product(m, sc, sa), na));
    let r = product(m, product(m, sa, da), mixed);
    two(m, d, p, q);
    two(m, d, sum(m, p, q), r);
    two(m, d, sum(m, sum(m, p, q), r), oa);
}

proof fn lemma_out_in<M: Arith>(
    m: &M,
    d: Set<u32>,
    mode: BlendMode,
    dc: u32,
    da: u32,
    sc: u32,
    sa: u32,
    oa: u32,
)
    requires
        exact(m, d),
        d.contains(dc) && d.contains(da) && d.contains(sc) && d.contains(sa) && d.contains(oa),
        d.contains(channel_blend(m, mode, dc, sc)),
        oa != F_ZERO,
    ensures
        d.contains(channel_out(m, mode, dc, da, sc, sa, oa)),
{
    let (ns, na) = (difference(m, F_ONE, sa), difference(m, F_ONE, da));
    let mixed = channel_blend(m, mode, dc, sc);
    two(m, d, F_ONE, sa);
    two(m, d, F_ONE, da);
    products(m, d, dc, da, ns);
    products(m, d, sc, sa, na);
    products(m, d, sa, da, mixed);
    let (p, q) = (product(m, product(m, dc, da), ns), product(m, product(m, sc, sa), na));
    let r = product(m, product(m, sa, da), mixed);
    sums(m, d, p, q, r);
    two(m, d, sum(m, sum(m, p, q), r), oa);
}

/// Normal blending lays the source over the destination: with the alphas multiplied
/// in, the result is the source and what is seen of the destination through it.
pub proof fn normal_lays_over<M: Arith>(
    m: &M,
    d: Set<u32>,
    dst: Rgba32F,
    src: Rgba32F,
    opacity: u32,
    sa: u32,
    oa: u32,
)
    requires
        exact(m, d),
        made_of(d, dst),
        made_of(d, src),
        d.contains(opacity),
        both_show(m, dst, src, opacity, sa, oa),
    ensures
        ({
            let out = pixel_blend(m, BlendMode::Normal, dst, src, opacity);
            &&& out.a == oa
            &&& laid(m, dst.r, dst.a, src.r, sa, out.r, out.a)
            &&& laid(m, dst.g, dst.a, src.g, sa, out.g, out.a)
            &&& laid(m, dst.b, dst.a, src.b, sa, out.b, out.a)
        }),
{
    two(m, d, src.a, opacity);
    two(m, d, F_ONE, dst.a);
    two(m, d, sa, difference(m, F_ONE, dst.a));
    two(m, d, dst.a, product(m, sa, difference(m, F_ONE, dst.a)));
    lemma_laid_over(m, d, dst.r, dst.a, src.r, sa, oa);
    lemma_laid_over(m, d, dst.g, dst.a, src.g, sa, oa);
    lemma_laid_over(m, d, dst.b, dst.a, src.b, sa, oa);
}

/// `c` with alpha `a` is `sc` with alpha `sa` and, through it, `dc` with alpha `da`.
pub open spec fn laid<M: Arith>(m: &M, dc: u32, da: u32, sc: u32, sa: u32, c: u32, a: u32) -> bool {
    product(m, c, a) == sum(
        m,
        product(m, sa, sc),
        product(m, difference(m, F_ONE, sa), product(m, da, dc)),
    )
}

proof fn lemma_laid_over<M: Arith>(
    m: &M,
    d: Set<u32>,
    dc: u32,
    da: u32,
    sc: u32,
    sa: u32,
    oa: u32,
)
    requires
        exact(m, d),
        d.contains(dc) && d.contains(da) && d.contains(sc) && d.contains(sa) && d.contains(oa),
        oa != F_ZERO,
    ensures
        laid(m, dc, da, sc, sa, channel_out(m, BlendMode::Normal, dc, da, sc, sa, oa), oa),
{
    lemma_shares(m, d, BlendMode::Normal, dc, da, sc, sa, oa);
    let (ns, na) = (difference(m, F_ONE, sa), difference(m, F_ONE, da));
    two(m, d, F_ONE, sa);
    two(m, d, F_ONE, da);
    let p = product(m, product(m, da, ns), dc);
    let q = product(m, product(m, sa, na), sc);
    let r = product(m, product(m, da, sa), sc);
    products(m, d, da, ns, dc);
    products(m, d, sa, na, sc);
    products(m, d, da, sa, sc);
    sums(m, d, p, q, r);
    // q + r = sa sc (na + da) = sa sc
    let k = product(m, sa, sc);
    two(m, d, sa, sc);
    two(m, d, k, na);
    spreads(m, d, k, na, da);
    products(m, d, sa, sc, na);
    products(m, d, sa, sc, da);
    products(m, d, sa, da, sc);
    two(m, d, da, sa);
    two(m, d, k, product(m, ns, product(m, da, dc)));
    two(m, d, p, k);
}

/// Two pixels of one color give that color, whatever their alphas.
pub proof fn one_color_stays<M: Arith>(
    m: &M,
    d: Set<u32>,
    dst: Rgba32F,
    src: Rgba32F,
    opacity: u32,
    sa: u32,
    oa: u32,
)
    requires
        exact(m, d),
        made_of(d, dst),
        made_of(d, src),
        d.contains(opacity),
        both_show(m, dst, src, opacity, sa, oa),
        dst.r == src.r && dst.g == src.g && dst.b == src.b,
    ensures
        pixel_blend(m, BlendMode::Normal, dst, src, opacity) == (Rgba32F { a: oa, ..src }),
{
    two(m, d, src.a, opacity);
    two(m, d, F_ONE, dst.a);
    two(m, d, sa, difference(m, F_ONE, dst.a));
    two(m, d, dst.a, product(m, sa, difference(m, F_ONE, dst.a)));
    lemma_same_color(m, d, src.r, dst.a, sa, oa);
    lemma_same_color(m, d, src.g, dst.a, sa, oa);
    lemma_same_color(m, d, src.b, dst.a, sa, oa);
}

proof fn lemma_same_color<M: Arith>(m: &M, d: Set<u32>, c: u32, da: u32, sa: u32, oa: u32)
    requires
        exact(m, d),
        d.contains(c) && d.contains(da) && d.contains(sa) && d.contains(oa),
        oa != F_ZERO,
        oa == sum(m, da, product(m, sa, difference(m, F_ONE, da))),
    ensures
        channel_out(m, BlendMode::Normal, c, da, c, sa, oa) == c,
{
    lemma_laid_over(m, d, c, da, c, sa, oa);
    let (ns, na) = (difference(m, F_ONE, sa), difference(m, F_ONE, da));
    let x = channel_out(m, BlendMode::Normal, c, da, c, sa, oa);
    two(m, d, F_ONE, sa);
    two(m, d, F_ONE, da);
    two(m, d, ns, da);
    two(m, d, sa, na);
    products(m, d, ns, da, c);
    two(m, d, sa, c);
    spreads(m, d, c, sa, product(m, ns, da));
    two(m, d, c, product(m, ns, da));
    // sa + (1 - sa) da = da + sa (1 - da), both short of sa + da by sa da
    let k = product(m, sa, da);
    two(m, d, sa, da);
    differences_spread(m, d, da, F_ONE, sa);
    differences_spread(m, d, sa, F_ONE, da);
    two(m, d, da, F_ONE);
    two(m, d, sa, F_ONE);
    two(m, d, da, k);
    two(m, d, sa, k);
    sums(m, d, sa, difference(m, da, k), k);
    sums(m, d, da, difference(m, sa, k), k);
    two(m, d, sa, difference(m, da, k));
    two(m, d, da, difference(m, sa, k));
    sums_cancel(m, d, sum(m, sa, difference(m, da, k)), sum(m, da, difference(m, sa, k)), k);
    lemma_out_in(m, d, BlendMode::Normal, c, da, c, sa, oa);
    products_cancel(m, d, x, c, oa);
}

/// Multiplying and screening are products: of the channels, and of what is missing of
/// them. White is neutral to the one, black to the other.
pub proof fn multiply_and_screen<M: Arith>(m: &M, d: Set<u32>, a: u32, b: u32, c: u32)
    requires
        exact(m, d),
        d.contains(a) && d.contains(b) && d.contains(c),
    ensures
        channel_blend(m, BlendMode::Multiply, a, b) == channel_blend(m, BlendMode::Multiply, b, a),
        channel_blend(m, BlendMode::Multiply, a, F_ONE) == a,
        channel_blend(m, BlendMode::Multiply, a, F_ZERO) == F_ZERO,
        channel_blend(m, BlendMode::Multiply, a, sum(m, b, c)) == sum(
            m,
            channel_blend(m, BlendMode::Multiply, a, b),
            channel_blend(m, BlendMode::Multiply, a, c),
        ),
        channel_blend(m, BlendMode::Screen, a, b) == channel_blend(m, BlendMode::Screen, b, a),
        channel_blend(m, BlendMode::Screen, a, F_ZERO) == a,
        channel_blend(m, BlendMode::Screen, a, F_ONE) == F_ONE,
        difference(m, F_ONE, channel_blend(m, BlendMode::Screen, a, b)) == channel_blend(
            m,
            BlendMode::Multiply,
            difference(m, F_ONE, a),
            difference(m, F_ONE, b),
        ),
{
    two(m, d, F_ONE, a);
    two(m, d, a, b);
    two(m, d, a, F_ZERO);
    two(m, d, a, F_ONE);
    spreads(m, d, a, b, c);
    nothing_absorbs(m, d, a);
    adding_cancels(m, d, a, a);
    adding_cancels(m, d, F_ONE, a);
    lemma_screen(m, d, a, b);
    two(m, d, b, a);
}

proof fn lemma_screen<M: Arith>(m: &M, d: Set<u32>, a: u32, b: u32)
    requires
        exact(m, d),
        d.contains(a) && d.contains(b),
    ensures
        difference(m, F_ONE, channel_blend(m, BlendMode::Screen, a, b)) == product(
            m,
            difference(m, F_ONE, a),
            difference(m, F_ONE, b),
        ),
{
    let (na, nb) = (difference(m, F_ONE, a), difference(m, F_ONE, b));
    let k = product(m, a, b);
    let s = difference(m, sum(m, a, b), k);
    let x = product(m, na, nb);
    two(m, d, F_ONE, a);
    two(m, d, F_ONE, b);
    two(m, d, a, b);
    two(m, d, sum(m, a, b), k);
    two(m, d, na, nb);
    // x + na b = na and na b + k = b
    let nab = product(m, na, b);
    spreads(m, d, na, nb, b);
    spreads(m, d, b, na, a);
    two(m, d, na, F_ONE);
    two(m, d, b, F_ONE);
    two(m, d, na, b);
    two(m, d, x, nab);
    two(m, d, nab, k);
    // (x + s) + k = x + (a + b) = (x + nab) + a + k = 1 + k
    sums(m, d, x, s, k);
    two(m, d, s, k);
    sums(m, d, a, nab, k);
    two(m, d, a, nab);
    sums(m, d, x, sum(m, a, nab), k);
    sums(m, d, x, a, nab);
    two(m, d, x, s);
    two(m, d, na, a);
    sums_cancel(m, d, sum(m, x, s), F_ONE, k);
    differences_are_unique(m, d, F_ONE, s, x);
}

/// Overlay is hard light with the layers exchanged. Hard light multiplies with the
/// doubled source where that is dark, and screens with the rest where it is bright.
pub proof fn hard_light_multiplies_or_screens<M: Arith>(m: &M, d: Set<u32>, dst: u32, src: u32)
    requires
        exact(m, d),
        counting(m, d),
        d.contains(dst) && d.contains(src),
    ensures
        channel_blend(m, BlendMode::Overlay, dst, src) == channel_blend(
            m,
            BlendMode::HardLight,
            src,
            dst,
        ),
        at_most(src, F_HALF) ==> channel_blend(m, BlendMode::HardLight, dst, src) == channel_blend(
            m,
            BlendMode::Multiply,
            dst,
            sum(m, src, src),
        ),
        !at_most(src, F_HALF) ==> channel_blend(m, BlendMode::HardLight, dst, src)
            == channel_blend(
            m,
            BlendMode::Screen,
            dst,
            difference(m, sum(m, src, src), F_ONE),
        ),
{
    let (ns, nd) = (difference(m, F_ONE, src), difference(m, F_ONE, dst));
    two(m, d, F_ONE, src);
    two(m, d, F_ONE, dst);
    lemma_twice(m, d, src);
    lemma_twice(m, d, ns);
    products(m, d, F_TWO, dst, src);
    products(m, d, F_TWO, src, dst);
    products(m, d, F_TWO, nd, ns);
    products(m, d, F_TWO, ns, nd);
    // 1 - (2 src - 1) = 2 (1 - src)
    let all = sum(m, src, src);
    let twice = difference(m, all, F_ONE);
    let rest = sum(m, ns, ns);
    two(m, d, src, src);
    two(m, d, ns, ns);
    two(m, d, all, F_ONE);
    two(m, d, rest, twice);
    sums(m, d, rest, twice, F_ONE);
    sums_exchange(m, d, ns, ns, src, src);
    sums_cancel(m, d, sum(m, rest, twice), F_ONE, F_ONE);
    differences_are_unique(m, d, F_ONE, twice, rest);
    lemma_screen(m, d, dst, twice);
    let s = channel_blend(m, BlendMode::Screen, dst, twice);
    let p = product(m, nd, rest);
    two(m, d, dst, twice);
    two(m, d, sum(m, dst, twice), product(m, dst, twice));
    two(m, d, F_ONE, s);
    two(m, d, nd, rest);
    differences_are_unique(m, d, F_ONE, p, s);
    two(m, d, dst, all);
}

proof fn lemma_twice<M: Arith>(m: &M, d: Set<u32>, a: u32)
    requires
        exact(m, d),
        counting(m, d),
        d.contains(a),
    ensures
        product(m, F_TWO, a) == sum(m, a, a),
        d.contains(product(m, F_TWO, a)),
{
    two(m, d, a, F_ONE);
    two(m, d, F_TWO, a);
    spreads(m, d, a, F_ONE, F_ONE);
}

/// Darken and lighten choose one of the two channels, the smaller or the larger one.
pub proof fn darken_and_lighten_choose<M: Arith>(m: &M, a: u32, b: u32)
    requires
        !nan(a),
        !nan(b),
    ensures
        ({
            let (x, y) = (
                channel_blend(m, BlendMode::Darken, a, b),
                channel_blend(m, BlendMode::Lighten, a, b),
            );
            &&& x == a || x == b
            &&& at_most(x, a) && at_most(x, b)
            &&& y == a || y == b
            &&& at_most(a, y) && at_most(b, y)
        }),
{
}

/// Color dodge solves `x (1 - src) = dst`, color burn `(1 - x) src = 1 - dst`, and both
/// clamp the solution. White dodges everything to white, black burns it to black.
pub proof fn dodge_and_burn_divide<M: Arith>(m: &M, d: Set<u32>, dst: u32, src: u32, x: u32)
    requires
        exact(m, d),
        d.contains(dst) && d.contains(src) && d.contains(x),
    ensures
        at_most(F_ONE, src) ==> channel_blend(m, BlendMode::ColorDodge, dst, src) == F_ONE,
        at_most(src, F_ZERO) ==> channel_blend(m, BlendMode::ColorBurn, dst, src) == F_ZERO,
        less(src, F_ONE) && product(m, x, difference(m, F_ONE, src)) == dst ==> channel_blend(
            m,
            BlendMode::ColorDodge,
            dst,
            src,
        ) == clamped(x, F_ZERO, F_ONE),
        less(F_ZERO, src) && product(m, difference(m, F_ONE, x), src) == difference(m, F_ONE, dst)
            ==> channel_blend(m, BlendMode::ColorBurn, dst, src) == clamped(x, F_ZERO, F_ONE),
{
    let ns = difference(m, F_ONE, src);
    two(m, d, F_ONE, src);
    two(m, d, F_ONE, dst);
    two(m, d, F_ONE, x);
    if less(src, F_ONE) && product(m, x, ns) == dst {
        two(m, d, src, src);
        assert(ns != F_ZERO);
        quotients_are_unique(m, d, dst, ns, x);
    }
    if less(F_ZERO, src) && product(m, difference(m, F_ONE, x), src) == difference(m, F_ONE, dst) {
        quotients_are_unique(m, d, difference(m, F_ONE, dst), src, difference(m, F_ONE, x));
        differences_are_unique(m, d, F_ONE, difference(m, F_ONE, x), x);
    }
}

/// The difference of a channel and itself is nothing, and squared the difference of
/// two is the square of what lies between them. Adding can be taken back. Exclusion
/// multiplies how far the channels are from the middle.
pub proof fn difference_add_and_exclusion<M: Arith>(m: &M, d: Set<u32>, a: u32, b: u32)
    requires
        exact(m, d),
        signed(m, d),
        counting(m, d),
        d.contains(a) && d.contains(b),
    ensures
        channel_blend(m, BlendMode::Difference, a, a) == F_ZERO,
        ({
            let x = channel_blend(m, BlendMode::Difference, a, b);
            x < F_SIGN && product(m, x, x) == product(m, difference(m, a, b), difference(m, a, b))
        }),
        difference(m, channel_blend(m, BlendMode::Add, a, b), b) == a,
        channel_blend(m, BlendMode::Add, a, b) == channel_blend(m, BlendMode::Add, b, a),
        ({
            let x = channel_blend(m, BlendMode::Exclusion, a, b);
            difference(m, F_ONE, sum(m, x, x)) == product(
                m,
                difference(m, F_ONE, sum(m, a, a)),
                difference(m, F_ONE, sum(m, b, b)),
            )
        }),
{
    two(m, d, a, b);
    adding_cancels(m, d, a, b);
    let g = difference(m, a, b);
    lemma_without_sign(m, d, g);
    lemma_exclusion(m, d, a, b);
}

proof fn lemma_without_sign<M: Arith>(m: &M, d: Set<u32>, g: u32)
    requires
        exact(m, d),
        signed(m, d),
        d.contains(g),
    ensures
        absolute(g) < F_SIGN,
        d.contains(absolute(g)),
        product(m, absolute(g), absolute(g)) == product(m, g, g),
{
    if g >= F_SIGN {
        two(m, d, F_ZERO, g);
        two(m, d, g, g);
        adding_cancels(m, d, g, g);
        squares_have_no_sign(m, d, F_ZERO, g);
        assert(absolute(g) == negated(g));
    }
}

proof fn lemma_exclusion<M: Arith>(m: &M, d: Set<u32>, a: u32, b: u32)
    requires
        exact(m, d),
        counting(m, d),
        d.contains(a) && d.contains(b),
    ensures
        ({
            let x = channel_blend(m, BlendMode::Exclusion, a, b);
            difference(m, F_ONE, sum(m, x, x)) == product(
                m,
                difference(m, F_ONE, sum(m, a, a)),
                difference(m, F_ONE, sum(m, b, b)),
            )
        }),
{
    // With A = 2 a and B = 2 b, twice the exclusion is A + B - A B, the screen.
    let (aa, bb) = (sum(m, a, a), sum(m, b, b));
    let k = product(m, product(m, F_TWO, a), b);
    let s = sum(m, a, b);
    let x = difference(m, s, k);
    lemma_twice(m, d, a);
    two(m, d, a, a);
    two(m, d, b, b);
    two(m, d, a, b);
    two(m, d, aa, b);
    spreads(m, d, aa, b, b);
    two(m, d, s, k);
    two(m, d, x, x);
    two(m, d, k, k);
    sums_exchange(m, d, a, b, a, b);
    sums_exchange(m, d, x, k, x, k);
    two(m, d, aa, bb);
    differences_are_unique(m, d, sum(m, aa, bb), product(m, aa, bb), sum(m, x, x));
    lemma_screen(m, d, aa, bb);
}

/// Soft light leaves a channel alone at half strength, squares it at none, and
/// changes it in proportion in between. At full strength it takes the root of what is
/// not dark, and brightens what is dark by a cubic.
pub proof fn soft_light_grows_from_the_middle<M: Arith>(m: &M, d: Set<u32>, dst: u32, src: u32)
    requires
        exact(m, d),
        counting(m, d),
        d.contains(dst) && d.contains(src),
        d.contains(F_HALF) && product(m, F_TWO, F_HALF) == F_ONE,
        d.contains(F_FOUR) && d.contains(F_TWELVE) && d.contains(F_SIXTEEN),
        d.contains(root(m, dst)) && product(m, root(m, dst), root(m, dst)) == dst,
        unit(dst) == dst,
    ensures
        channel_blend(m, BlendMode::SoftLight, dst, F_HALF) == dst,
        channel_blend(m, BlendMode::SoftLight, dst, F_ZERO) == product(m, dst, dst),
        at_most(src, F_HALF) ==> difference(
            m,
            dst,
            channel_blend(m, BlendMode::SoftLight, dst, src),
        ) == product(
            m,
            difference(m, F_ONE, sum(m, src, src)),
            difference(m, dst, channel_blend(m, BlendMode::SoftLight, dst, F_ZERO)),
        ),
        !at_most(src, F_HALF) ==> difference(
            m,
            channel_blend(m, BlendMode::SoftLight, dst, src),
            dst,
        ) == product(
            m,
            difference(m, sum(m, src, src), F_ONE),
            difference(m, channel_blend(m, BlendMode::SoftLight, dst, F_ONE), dst),
        ),
        ({
            let full = channel_blend(m, BlendMode::SoftLight, dst, F_ONE);
            if less(F_QUARTER, dst) {
                product(m, full, full) == dst
            } else {
                sum(m, full, product(m, F_TWELVE, product(m, dst, dst))) == sum(
                    m,
                    product(m, F_SIXTEEN, product(m, dst, product(m, dst, dst))),
                    product(m, F_FOUR, dst),
                )
            }
        }),
{
    let nd = difference(m, F_ONE, dst);
    let pull = product(m, dst, nd);
    let sq = product(m, dst, dst);
    two(m, d, F_ONE, dst);
    two(m, d, dst, nd);
    two(m, d, dst, dst);
    two(m, d, F_TWO, src);
    two(m, d, F_TWO, F_ONE);
    two(m, d, F_TWO, F_TWO);
    lemma_twice(m, d, src);
    nothing_absorbs(m, d, F_TWO);
    nothing_absorbs(m, d, dst);
    nothing_absorbs(m, d, nd);
    adding_cancels(m, d, F_ONE, F_ONE);
    adding_cancels(m, d, dst, dst);
    // dst - dst (1 - dst) = dst dst
    spreads(m, d, dst, nd, dst);
    two(m, d, dst, F_ONE);
    two(m, d, pull, sq);
    differences_are_unique(m, d, dst, pull, sq);
    differences_are_unique(m, d, dst, sq, pull);
    assert(soft_lit(m, dst, F_ZERO) == sq);
    assert(soft_lit(m, dst, F_HALF) == dst);
    let low = difference(m, F_ONE, product(m, F_TWO, src));
    two(m, d, F_ONE, product(m, F_TWO, src));
    let dark = product(m, product(m, low, dst), nd);
    products(m, d, low, dst, nd);
    let e = difference(m, dst, dark);
    two(m, d, dst, dark);
    differences_are_unique(m, d, dst, e, dark);
    lemma_bright(m, d, dst);
    let bright = soft_bright(m, dst);
    let rise = difference(m, bright, dst);
    let high = difference(m, product(m, F_TWO, src), F_ONE);
    two(m, d, bright, dst);
    two(m, d, rise, rise);
    two(m, d, dst, rise);
    two(m, d, product(m, F_TWO, src), F_ONE);
    two(m, d, high, rise);
    assert(soft_lit(m, dst, F_ONE) == bright);
    two(m, d, dst, product(m, high, rise));
    adding_cancels(m, d, product(m, high, rise), dst);
}

proof fn lemma_bright<M: Arith>(m: &M, d: Set<u32>, x: u32)
    requires
        exact(m, d),
        d.contains(x),
        d.contains(F_FOUR) && d.contains(F_TWELVE) && d.contains(F_SIXTEEN),
        d.contains(root(m, x)) && product(m, root(m, x), root(m, x)) == x,
    ensures
        d.contains(soft_bright(m, x)),
        at_most(x, F_QUARTER) ==> sum(
            m,
            soft_bright(m, x),
            product(m, F_TWELVE, product(m, x, x)),
        ) == sum(
            m,
            product(m, F_SIXTEEN, product(m, x, product(m, x, x))),
            product(m, F_FOUR, x),
        ),
{
    let sq = product(m, x, x);
    let deep = product(m, F_SIXTEEN, x);
    let inner = difference(m, deep, F_TWELVE);
    let mid = product(m, inner, x);
    two(m, d, x, x);
    two(m, d, F_SIXTEEN, x);
    two(m, d, deep, F_TWELVE);
    two(m, d, inner, x);
    two(m, d, mid, F_FOUR);
    two(m, d, sum(m, mid, F_FOUR), x);
    // (inner x + 4) x = inner x x + 4 x, and inner x x + 12 x x = 16 x x x
    spreads(m, d, x, mid, F_FOUR);
    products(m, d, inner, x, x);
    products(m, d, F_SIXTEEN, x, sq);
    spreads(m, d, sq, inner, F_TWELVE);
    let (p, q, r) = (product(m, inner, sq), product(m, F_FOUR, x), product(m, F_TWELVE, sq));
    two(m, d, sq, inner);
    two(m, d, inner, sq);
    two(m, d, sq, F_TWELVE);
    two(m, d, x, F_FOUR);
    two(m, d, deep, sq);
    two(m, d, x, sum(m, mid, F_FOUR));
    two(m, d, x, mid);
    sums(m, d, p, q, r);
}

/// Normal blending moves the color of the destination towards that of the source: by
/// what the source shows, of what both show.
pub proof fn normal_moves_towards_the_source<M: Arith>(
    m: &M,
    d: Set<u32>,
    dst: Rgba32F,
    src: Rgba32F,
    opacity: u32,
    sa: u32,
    oa: u32,
)
    requires
        exact(m, d),
        made_of(d, dst),
        made_of(d, src),
        d.contains(opacity),
        both_show(m, dst, src, opacity, sa, oa),
    ensures
        ({
            let out = pixel_blend(m, BlendMode::Normal, dst, src, opacity);
            &&& product(m, difference(m, out.r, dst.r), oa) == product(
                m,
                difference(m, src.r, dst.r),
                sa,
            )
            &&& product(m, difference(m, out.g, dst.g), oa) == product(
                m,
                difference(m, src.g, dst.g),
                sa,
            )
            &&& product(m, difference(m, out.b, dst.b), oa) == product(
                m,
                difference(m, src.b, dst.b),
                sa,
            )
        }),
{
    two(m, d, src.a, opacity);
    two(m, d, F_ONE, dst.a);
    two(m, d, sa, difference(m, F_ONE, dst.a));
    two(m, d, dst.a, product(m, sa, difference(m, F_ONE, dst.a)));
    lemma_moved_towards(m, d, dst.r, dst.a, src.r, sa, oa);
    lemma_moved_towards(m, d, dst.g, dst.a, src.g, sa, oa);
    lemma_moved_towards(m, d, dst.b, dst.a, src.b, sa, oa);
}

proof fn lemma_moved_towards<M: Arith>(
    m: &M,
    d: Set<u32>,
    dc: u32,
    da: u32,
    sc: u32,
    sa: u32,
    oa: u32,
)
    requires
        exact(m, d),
        d.contains(dc) && d.contains(da) && d.contains(sc) && d.contains(sa) && d.contains(oa),
        oa != F_ZERO,
        oa == sum(m, da, product(m, sa, difference(m, F_ONE, da))),
    ensures
        ({
            let x = channel_out(m, BlendMode::Normal, dc, da, sc, sa, oa);
            product(m, difference(m, x, dc), oa) == product(m, difference(m, sc, dc), sa)
        }),
{
    // With both colors that of the destination the result is that color, so the rest
    // of the result comes from the difference of the colors.
    let x = channel_out(m, BlendMode::Normal, dc, da, sc, sa, oa);
    lemma_laid_over(m, d, dc, da, sc, sa, oa);
    lemma_laid_over(m, d, dc, da, dc, sa, oa);
    lemma_same_color(m, d, dc, da, sa, oa);
    lemma_out_in(m, d, BlendMode::Normal, dc, da, sc, sa, oa);
    let ns = difference(m, F_ONE, sa);
    let under = product(m, ns, product(m, da, dc));
    two(m, d, F_ONE, sa);
    two(m, d, da, dc);
    two(m, d, ns, product(m, da, dc));
    differences_spread(m, d, oa, x, dc);
    differences_spread(m, d, sa, sc, dc);
    two(m, d, x, oa);
    two(m, d, dc, oa);
    two(m, d, sa, sc);
    two(m, d, sa, dc);
    two(m, d, sc, dc);
    two(m, d, x, dc);
    two(m, d, difference(m, x, dc), oa);
    two(m, d, difference(m, sc, dc), sa);
    // (sa sc + under) - (sa dc + under) = sa sc - sa dc
    let (p, q) = (product(m, sa, sc), product(m, sa, dc));
    let g = difference(m, p, q);
    two(m, d, p, q);
    sums(m, d, g, q, under);
    two(m, d, q, under);
    two(m, d, p, under);
    differences_are_unique(m, d, sum(m, p, under), sum(m, q, under), g);
}

/// An opaque source replaces what it is laid over.
pub proof fn opaque_sources_replace<M: Arith>(
    m: &M,
    d: Set<u32>,
    dst: Rgba32F,
    src: Rgba32F,
    opacity: u32,
)
    requires
        exact(m, d),
        made_of(d, dst),
        made_of(d, src),
        d.contains(opacity),
        both_show(m, dst, src, opacity, F_ONE, F_ONE),
    ensures
        pixel_blend(m, BlendMode::Normal, dst, src, opacity) == (Rgba32F { a: F_ONE, ..src }),
{
    normal_lays_over(m, d, dst, src, opacity, F_ONE, F_ONE);
    lemma_replaced(m, d, dst.r, dst.a, src.r);
    lemma_replaced(m, d, dst.g, dst.a, src.g);
    lemma_replaced(m, d, dst.b, dst.a, src.b);
}

proof fn lemma_replaced<M: Arith>(m: &M, d: Set<u32>, dc: u32, da: u32, sc: u32)
    requires
        exact(m, d),
        d.contains(dc) && d.contains(da) && d.contains(sc),
    ensures
        channel_out(m, BlendMode::Normal, dc, da, sc, F_ONE, F_ONE) == sc,
{
    let x = channel_out(m, BlendMode::Normal, dc, da, sc, F_ONE, F_ONE);
    lemma_laid_over(m, d, dc, da, sc, F_ONE, F_ONE);
    lemma_out_in(m, d, BlendMode::Normal, dc, da, sc, F_ONE, F_ONE);
    adding_cancels(m, d, F_ONE, F_ONE);
    two(m, d, da, dc);
    nothing_absorbs(m, d, product(m, da, dc));
    two(m, d, x, F_ONE);
    two(m, d, sc, sc);
}

/// An opacity outside zero and one counts as the nearer end, a destination alpha too
/// where something of the source shows, and a source that shows more than wholly as an
/// opaque one.
pub proof fn what_is_out_of_range_counts_as_its_end<M: Arith>(
    m: &M,
    mode: BlendMode,
    dst: Rgba32F,
    src: Rgba32F,
    opacity: u32,
)
    ensures
        pixel_blend(m, mode, dst, src, opacity) == pixel_blend(m, mode, dst, src, unit(opacity)),
        pixel_blend(m, mode, dst, src, opacity) != dst ==> pixel_blend(m, mode, dst, src, opacity)
            == pixel_blend(m, mode, Rgba32F { a: unit(dst.a), ..dst }, src, opacity),
        less(F_ONE, product(m, src.a, unit(opacity))) && !zero(src.a) && !nan(src.a) && !zero(
            unit(opacity),
        ) && product(m, F_ONE, F_ONE) == F_ONE ==> pixel_blend(m, mode, dst, src, opacity)
            == pixel_blend(m, mode, dst, Rgba32F { a: F_ONE, ..src }, F_ONE),
{
    unit_is_idempotent(opacity);
    unit_is_idempotent(dst.a);
}

} // verus!
