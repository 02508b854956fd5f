//! Adjustments.
use vstd::prelude::*;

use crate::adjust::{
    between_points, contrasted, curved, leveled, luminance_of, pixel_adjusted, recolored,
    two_or_more,
};
use crate::arith::{difference, power, product, quotient, rounded, sum, Arith};
use crate::exact::{
    adding_cancels, differences_are_unique, exact, nothing_absorbs, products, quotients_are_unique,
    spreads, sums_exchange, two,
};
use crate::float_bits::{
    at_most, clamped, larger, less, number_of_u32, unit, F_HALF, F_ONE, F_TINY, F_ZERO,
};
use crate::laws::colors::between_two_numbers;
use crate::layer::{AdjustmentKind, CurvePoint};
use crate::ops::finger_ops::luma_of;
use crate::pixel::{blend_of, Rgba32F, LUMA_BLUE, LUMA_GREEN, LUMA_RED};

verus! {

/// An inverted channel and the channel itself add up to one, and inverting twice gives
/// the color back.
pub proof fn inverting_is_its_own_inverse<M: Arith>(m: &M, d: Set<u32>, r: u32, g: u32, b: u32)
    requires
        exact(m, d),
        d.contains(r) && d.contains(g) && d.contains(b),
    ensures
        ({
            let out = recolored(m, AdjustmentKind::Invert, r, g, b);
            &&& sum(m, out.0, r) == F_ONE
            &&& sum(m, out.1, g) == F_ONE
            &&& sum(m, out.2, b) == F_ONE
            &&& recolored(m, AdjustmentKind::Invert, out.0, out.1, out.2) == (r, g, b)
        }),
{
    two(m, d, F_ONE, r);
    two(m, d, F_ONE, g);
    two(m, d, F_ONE, b);
    differences_are_unique(m, d, F_ONE, difference(m, F_ONE, r), r);
    differences_are_unique(m, d, F_ONE, difference(m, F_ONE, g), g);
    differences_are_unique(m, d, F_ONE, difference(m, F_ONE, b), b);
}

/// The weights of red, green and blue are numbers of `d` and make one together.
pub open spec fn weighing<M: Arith>(m: &M, d: Set<u32>) -> bool {
    &&& d.contains(LUMA_RED) && d.contains(LUMA_GREEN) && d.contains(LUMA_BLUE)
    &&& sum(m, sum(m, LUMA_RED, LUMA_GREEN), LUMA_BLUE) == F_ONE
}

/// Luminance adds up and scales with the color, is that of its weight for each pure
/// channel, and is the gray itself for a gray.
pub proof fn luminance_is_linear<M: Arith>(
    m: &M,
    d: Set<u32>,
    p: Rgba32F,
    q: Rgba32F,
    t: u32,
)
    requires
        exact(m, d),
        weighing(m, d),
        d.contains(p.r) && d.contains(p.g) && d.contains(p.b),
        d.contains(q.r) && d.contains(q.g) && d.contains(q.b),
        d.contains(t),
    ensures
        luminance_of(m, sum(m, p.r, q.r), sum(m, p.g, q.g), sum(m, p.b, q.b)) == sum(
            m,
            luminance_of(m, p.r, p.g, p.b),
            luminance_of(m, q.r, q.g, q.b),
        ),
        luminance_of(m, product(m, p.r, t), product(m, p.g, t), product(m, p.b, t)) == product(
            m,
            luminance_of(m, p.r, p.g, p.b),
            t,
        ),
        luminance_of(m, F_ONE, F_ZERO, F_ZERO) == LUMA_RED,
        luminance_of(m, F_ZERO, F_ONE, F_ZERO) == LUMA_GREEN,
        luminance_of(m, F_ZERO, F_ZERO, F_ONE) == LUMA_BLUE,
        luminance_of(m, t, t, t) == t,
        luma_of(m, p) == luminance_of(m, p.r, p.g, p.b),
        d.contains(luminance_of(m, p.r, p.g, p.b)),
{
    let (kr, kg, kb) = (LUMA_RED, LUMA_GREEN, LUMA_BLUE);
    spreads(m, d, kr, p.r, q.r);
    spreads(m, d, kg, p.g, q.g);
    spreads(m, d, kb, p.b, q.b);
    two(m, d, kr, p.r);
    two(m, d, kg, p.g);
    two(m, d, kb, p.b);
    two(m, d, kr, q.r);
    two(m, d, kg, q.g);
    two(m, d, kb, q.b);
    let (x, y, z) = (product(m, kr, p.r), product(m, kg, p.g), product(m, kb, p.b));
    let (u, v, w) = (product(m, kr, q.r), product(m, kg, q.g), product(m, kb, q.b));
    two(m, d, x, y);
    two(m, d, u, v);
    sums_exchange(m, d, x, y, u, v);
    sums_exchange(m, d, sum(m, x, y), z, sum(m, u, v), w);
    sums_exchange(m, d, x, u, y, v);
    sums_exchange(m, d, sum(m, x, u), sum(m, y, v), z, w);
    two(m, d, x, u);
    two(m, d, y, v);
    two(m, d, z, w);
    // Scaled
    products(m, d, kr, p.r, t);
    products(m, d, kg, p.g, t);
    products(m, d, kb, p.b, t);
    spreads(m, d, t, x, y);
    spreads(m, d, t, sum(m, x, y), z);
    two(m, d, sum(m, x, y), z);
    // Pure and gray
    two(m, d, kr, F_ONE);
    two(m, d, kg, F_ONE);
    two(m, d, kb, F_ONE);
    two(m, d, F_ZERO, F_ZERO);
    two(m, d, kr, F_ZERO);
    two(m, d, kg, F_ZERO);
    two(m, d, kb, F_ZERO);
    nothing_absorbs(m, d, kr);
    nothing_absorbs(m, d, kg);
    nothing_absorbs(m, d, kb);
    spreads(m, d, t, kr, kg);
    two(m, d, kr, kg);
    spreads(m, d, t, sum(m, kr, kg), kb);
    two(m, d, t, t);
}

/// Desaturating leaves a gray, of the luminance of the color, and leaves a gray alone.
pub proof fn desaturating_leaves_gray<M: Arith>(
    m: &M,
    d: Set<u32>,
    r: u32,
    g: u32,
    b: u32,
    t: u32,
)
    requires
        exact(m, d),
        weighing(m, d),
        d.contains(t) && unit(t) == t,
    ensures
        ({
            let out = recolored(m, AdjustmentKind::Desaturate, r, g, b);
            &&& out.0 == out.1 && out.1 == out.2
            &&& out.0 == unit(luminance_of(m, r, g, b))
        }),
        recolored(m, AdjustmentKind::Desaturate, t, t, t) == (t, t, t),
{
    let p = Rgba32F { r: t, g: t, b: t, a: t };
    luminance_is_linear(m, d, p, p, t);
}

/// A threshold makes black or white: white at its level and above, black below.
pub proof fn thresholds_divide<M: Arith>(m: &M, level: u32, r: u32, g: u32, b: u32)
    ensures
        ({
            let out = recolored(m, AdjustmentKind::Threshold { level }, r, g, b);
            let l = luminance_of(m, r, g, b);
            &&& out.0 == out.1 && out.1 == out.2
            &&& at_most(level, l) ==> out.0 == F_ONE
            &&& less(l, level) ==> out.0 == F_ZERO
        }),
{
}

/// A gradient map gives its first color to black, its second to white, and to what is
/// in between their mixture.
pub proof fn gradient_maps_go_from_black_to_white<M: Arith>(
    m: &M,
    d: Set<u32>,
    fg: Rgba32F,
    bg: Rgba32F,
    t: u32,
)
    requires
        exact(m, d),
        weighing(m, d),
        d.contains(fg.r) && d.contains(fg.g) && d.contains(fg.b),
        d.contains(bg.r) && d.contains(bg.g) && d.contains(bg.b),
        d.contains(t) && unit(t) == t,
    ensures
        recolored(m, AdjustmentKind::GradientMap { fg, bg }, F_ZERO, F_ZERO, F_ZERO) == (
            fg.r,
            fg.g,
            fg.b,
        ),
        recolored(m, AdjustmentKind::GradientMap { fg, bg }, F_ONE, F_ONE, F_ONE) == (
            bg.r,
            bg.g,
            bg.b,
        ),
        ({
            let out = recolored(m, AdjustmentKind::GradientMap { fg, bg }, t, t, t);
            &&& difference(m, out.0, fg.r) == product(m, t, difference(m, bg.r, fg.r))
            &&& difference(m, out.1, fg.g) == product(m, t, difference(m, bg.g, fg.g))
            &&& difference(m, out.2, fg.b) == product(m, t, difference(m, bg.b, fg.b))
        }),
{
    let p = Rgba32F { r: t, g: t, b: t, a: t };
    luminance_is_linear(m, d, p, p, t);
    let black = Rgba32F { r: F_ZERO, g: F_ZERO, b: F_ZERO, a: F_ZERO };
    luminance_is_linear(m, d, black, black, F_ZERO);
    let white = Rgba32F { r: F_ONE, g: F_ONE, b: F_ONE, a: F_ONE };
    luminance_is_linear(m, d, white, white, F_ONE);
    between_two_numbers(m, d, fg.r, bg.r, t);
    between_two_numbers(m, d, fg.g, bg.g, t);
    between_two_numbers(m, d, fg.b, bg.b, t);
}

/// Contrast moves a channel from the middle in proportion, brightness moves it on.
/// Neutral settings keep it.
pub proof fn contrast_turns_on_the_middle<M: Arith>(
    m: &M,
    d: Set<u32>,
    c: u32,
    brightness: u32,
    contrast: u32,
    x: u32,
)
    requires
        exact(m, d),
        d.contains(c) && d.contains(brightness) && d.contains(contrast) && d.contains(x),
        d.contains(F_HALF),
    ensures
        difference(m, difference(m, x, brightness), F_HALF) == product(
            m,
            contrast,
            difference(m, c, F_HALF),
        ) ==> contrasted(m, c, brightness, contrast) == unit(x),
        contrasted(m, c, F_ZERO, F_ONE) == unit(c),
        contrasted(m, F_HALF, F_ZERO, contrast) == unit(F_HALF),
{
    let g = difference(m, c, F_HALF);
    two(m, d, c, F_HALF);
    two(m, d, g, contrast);
    two(m, d, x, brightness);
    let y = difference(m, x, brightness);
    two(m, d, y, F_HALF);
    two(m, d, g, g);
    two(m, d, c, c);
    two(m, d, F_HALF, F_HALF);
    adding_cancels(m, d, F_HALF, F_HALF);
    nothing_absorbs(m, d, contrast);
}

/// Brightness and contrast treat the channels alike, and so do levels, curves and
/// posterizing: exchanging channels before or after makes no difference.
pub proof fn channels_are_adjusted_alike<M: Arith>(
    m: &M,
    kind: AdjustmentKind,
    r: u32,
    g: u32,
    b: u32,
)
    requires
        kind is BrightnessContrast || kind is Levels || kind is Curves || kind is Posterize || kind
            is Invert,
    ensures
        ({
            let out = recolored(m, kind, r, g, b);
            &&& recolored(m, kind, g, r, b) == (out.1, out.0, out.2)
            &&& recolored(m, kind, r, b, g) == (out.0, out.2, out.1)
            &&& out.0 == recolored(m, kind, r, r, r).0
        }),
{
}

/// Levels take the black and the white of the input to those of the output, where a
/// power keeps nothing and one. With a neutral curve they are in proportion between.
pub proof fn levels_map_their_ends<M: Arith>(
    m: &M,
    d: Set<u32>,
    input_black: u32,
    input_white: u32,
    output_black: u32,
    output_white: u32,
    gamma: u32,
    t: u32,
)
    requires
        exact(m, d),
        d.contains(input_black) && d.contains(input_white),
        d.contains(output_black) && d.contains(output_white) && d.contains(t),
        less(F_TINY, difference(m, input_white, input_black)),
        unit(t) == t,
        ({
            let e = quotient(m, F_ONE, larger(gamma, F_TINY));
            power(m, F_ZERO, e) == F_ZERO && power(m, F_ONE, e) == F_ONE
        }),
    ensures
        ({
            let kind = AdjustmentKind::Levels {
                input_black,
                input_white,
                output_black,
                output_white,
                gamma,
            };
            let c = blend_of(m, input_black, input_white, t);
            &&& recolored(m, kind, input_black, input_black, input_black).0 == clamped(
                output_black,
                F_ZERO,
                F_ONE,
            )
            &&& recolored(m, kind, input_white, input_white, input_white).0 == clamped(
                output_white,
                F_ZERO,
                F_ONE,
            )
            &&& less(F_TINY, gamma) && power(m, t, quotient(m, F_ONE, gamma)) == t ==> recolored(
                m,
                kind,
                c,
                c,
                c,
            ).0 == clamped(blend_of(m, output_black, output_white, t), F_ZERO, F_ONE)
        }),
{
    let range = difference(m, input_white, input_black);
    let to = difference(m, output_white, output_black);
    two(m, d, input_white, input_black);
    two(m, d, output_white, output_black);
    two(m, d, range, range);
    two(m, d, to, to);
    adding_cancels(m, d, input_black, input_black);
    nothing_absorbs(m, d, range);
    nothing_absorbs(m, d, to);
    quotients_are_unique(m, d, F_ZERO, range, F_ZERO);
    quotients_are_unique(m, d, range, range, F_ONE);
    two(m, d, output_black, output_black);
    between_two_numbers(m, d, input_black, input_white, t);
    two(m, d, t, range);
    quotients_are_unique(m, d, product(m, t, range), range, t);
    two(m, d, t, to);
}

/// Levels with the reciprocal curve take the curve back.
pub proof fn levels_curves_are_undone<M: Arith>(m: &M, d: Set<u32>, c: u32, gamma: u32)
    requires
        exact(m, d),
        d.contains(c) && unit(c) == c,
        d.contains(gamma) && gamma != F_ZERO,
        ({
            let e = power(m, c, quotient(m, F_ONE, gamma));
            &&& d.contains(e) && unit(e) == e
            &&& power(m, e, gamma) == c
        }),
    ensures
        leveled(
            m,
            leveled(m, c, F_ZERO, F_ONE, F_ZERO, F_ONE, gamma),
            F_ZERO,
            F_ONE,
            F_ZERO,
            F_ONE,
            quotient(m, F_ONE, gamma),
        ) == c,
{
    let i = quotient(m, F_ONE, gamma);
    let e = power(m, c, i);
    two(m, d, F_ONE, gamma);
    two(m, d, gamma, i);
    nothing_absorbs(m, d, gamma);
    assert(i != F_ZERO);
    quotients_are_unique(m, d, F_ONE, i, gamma);
    adding_cancels(m, d, c, c);
    adding_cancels(m, d, e, e);
    two(m, d, c, c);
    two(m, d, e, e);
    quotients_are_unique(m, d, c, F_ONE, c);
    quotients_are_unique(m, d, e, F_ONE, e);
}

/// The inputs of two neighbouring points of a curve are in order and not too close.
pub open spec fn rising<M: Arith>(m: &M, a: CurvePoint, b: CurvePoint) -> bool {
    less(a.input, b.input) && less(F_TINY, difference(m, b.input, a.input))
}

/// A point of a curve lies in `d`.
pub open spec fn drawn(d: Set<u32>, p: CurvePoint) -> bool {
    d.contains(p.input) && d.contains(p.output)
}

/// A curve goes through its points, is straight between them and flat outside.
pub proof fn curves_go_through_their_points<M: Arith>(
    m: &M,
    d: Set<u32>,
    points: [CurvePoint; 4],
    t: u32,
    v: u32,
)
    requires
        exact(m, d),
        drawn(d, points[0]) && drawn(d, points[1]) && drawn(d, points[2]) && drawn(d, points[3]),
        rising(m, points[0], points[1]),
        rising(m, points[1], points[2]),
        rising(m, points[2], points[3]),
        d.contains(t) && unit(t) == t,
    ensures
        curved(m, points[0].input, points) == points[0].output,
        curved(m, points[1].input, points) == points[1].output,
        curved(m, points[2].input, points) == points[2].output,
        curved(m, points[3].input, points) == points[3].output,
        at_most(v, points[0].input) ==> curved(m, v, points) == points[0].output,
        less(points[3].input, v) ==> curved(m, v, points) == points[3].output,
        forall|k: int|
            #![trigger points[k]]
            0 <= k < 3 ==> {
                let x = blend_of(m, points[k].input, points[k + 1].input, t);
                less(points[k].input, x) && at_most(x, points[k + 1].input) ==> curved(m, x, points)
                    == blend_of(m, points[k].output, points[k + 1].output, t)
            },
{
    lemma_on_curve(m, d, points[0], points[1], t);
    lemma_on_curve(m, d, points[1], points[2], t);
    lemma_on_curve(m, d, points[2], points[3], t);
    assert forall|k: int|
        #![trigger points[k]]
        0 <= k < 3 implies {
        let x = blend_of(m, points[k].input, points[k + 1].input, t);
        less(points[k].input, x) && at_most(x, points[k + 1].input) ==> curved(m, x, points)
            == blend_of(m, points[k].output, points[k + 1].output, t)
    } by {
        assert(k == 0 || k == 1 || k == 2);
    }
}

proof fn lemma_on_curve<M: Arith>(m: &M, d: Set<u32>, a: CurvePoint, b: CurvePoint, t: u32)
    requires
        exact(m, d),
        drawn(d, a) && drawn(d, b) && rising(m, a, b),
        d.contains(t) && unit(t) == t,
    ensures
        between_points(m, b.input, a, b) == b.output,
        between_points(m, blend_of(m, a.input, b.input, t), a, b) == blend_of(
            m,
            a.output,
            b.output,
            t,
        ),
{
    let (range, to) = (difference(m, b.input, a.input), difference(m, b.output, a.output));
    two(m, d, b.input, a.input);
    two(m, d, b.output, a.output);
    two(m, d, range, range);
    two(m, d, to, to);
    quotients_are_unique(m, d, range, range, F_ONE);
    between_two_numbers(m, d, a.input, b.input, t);
    two(m, d, t, range);
    quotients_are_unique(m, d, product(m, t, range), range, t);
}

/// A posterized channel has a whole number of steps, the one nearest to what it had,
/// of which there are one less than levels. Channels on a step stay.
pub proof fn posterizing_counts_steps<M: Arith>(m: &M, d: Set<u32>, levels: u32, c: u32)
    requires
        exact(m, d),
        d.contains(c),
        ({
            let n = difference(m, number_of_u32(two_or_more(levels)), F_ONE);
            &&& d.contains(number_of_u32(two_or_more(levels))) && n != F_ZERO
            &&& d.contains(rounded(m, product(m, c, n)))
        }),
    ensures
        ({
            let n = difference(m, number_of_u32(two_or_more(levels)), F_ONE);
            let out = recolored(m, AdjustmentKind::Posterize { levels }, c, c, c).0;
            &&& sum(m, n, F_ONE) == number_of_u32(if levels < 2 { 2 } else { levels })
            &&& product(m, out, n) == rounded(m, product(m, c, n))
            &&& rounded(m, product(m, c, n)) == product(m, c, n) ==> out == c
        }),
{
    let top = number_of_u32(two_or_more(levels));
    let n = difference(m, top, F_ONE);
    two(m, d, top, F_ONE);
    two(m, d, c, n);
    let w = rounded(m, product(m, c, n));
    two(m, d, w, n);
    if w == product(m, c, n) {
        quotients_are_unique(m, d, w, n, c);
    }
}

/// Where an adjusted channel lies between zero and one, an opacity takes the channel
/// that share of the way to it, and full opacity all the way.
pub proof fn opacity_goes_part_of_the_way<M: Arith>(
    m: &M,
    d: Set<u32>,
    kind: AdjustmentKind,
    opacity: u32,
    px: Rgba32F,
)
    requires
        exact(m, d),
        unit(px.r) == px.r && unit(px.g) == px.g && unit(px.b) == px.b,
        d.contains(px.r) && d.contains(px.g) && d.contains(px.b),
        d.contains(opacity) && unit(opacity) == opacity,
        less(F_ZERO, opacity) && less(F_ZERO, px.a),
        ({
            let c = recolored(m, kind, px.r, px.g, px.b);
            &&& unit(c.0) == c.0 && unit(c.1) == c.1 && unit(c.2) == c.2
            &&& d.contains(c.0) && d.contains(c.1) && d.contains(c.2)
        }),
    ensures
        ({
            let c = recolored(m, kind, px.r, px.g, px.b);
            let full = pixel_adjusted(m, kind, F_ONE, px);
            let part = pixel_adjusted(m, kind, opacity, px);
            &&& full.r == c.0 && full.g == c.1 && full.b == c.2
            &&& part.r == unit(blend_of(m, px.r, full.r, opacity))
            &&& part.g == unit(blend_of(m, px.g, full.g, opacity))
            &&& part.b == unit(blend_of(m, px.b, full.b, opacity))
        }),
{
    let c = recolored(m, kind, px.r, px.g, px.b);
    between_two_numbers(m, d, px.r, c.0, opacity);
    between_two_numbers(m, d, px.g, c.1, opacity);
    between_two_numbers(m, d, px.b, c.2, opacity);
}

} // verus!
