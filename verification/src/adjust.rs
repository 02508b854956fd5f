//! Adjusting the color of one pixel.
use vstd::prelude::*;

use crate::arith::{
    difference, minus, modulo, over, plus, power, product, quotient, raise, remainder, round, rounded,
    sum, times, Arith,
};
use crate::float_bits::{
    at_most, clamp, clamp01_nan0, clamped, from_u32, is_at_most, is_less, is_same, is_zero, larger,
    less, max, min, nan, number_of_u32, rank, same, smaller, unit, unit_is_idempotent, zero, F_FOUR, F_HALF, F_ONE, F_SIX,
    F_TINY, F_TWO, F_ZERO,
};
use crate::layer::{curve_points, sorted_points_are_ordered, AdjustmentKind, CurvePoint};
use crate::pixel::{blend_of, step, LUMA_BLUE, LUMA_GREEN, LUMA_RED, Rgba32F};

verus! {

/// The pattern of `360.0`.
pub const FULL_TURN: u32 = 0x43b40000;

/// The pattern of one third.
pub const THIRD: u32 = 0x3eaaaaab;

/// The pattern of one sixth.
pub const SIXTH: u32 = 0x3e2aaaab;

/// The pattern of two thirds.
pub const TWO_THIRDS: u32 = 0x3f2aaaab;

/// A number of levels, at least two.
pub open spec fn two_or_more(n: u32) -> u32 {
    if n < 2 { 2 } else { n }
}

fn at_least_two(n: u32) -> (r: u32)
    ensures
        r == two_or_more(n),
{
    if n < 2 { 2 } else { n }
}

/// Hue, saturation and lightness of a color; all between zero and one.
pub open spec fn hsl_of<M: Arith>(m: &M, r: u32, g: u32, b: u32) -> (u32, u32, u32) {
    let top: u32 = larger(larger(r, g), b);
    let low: u32 = smaller(smaller(r, g), b);
    let l: u32 = product(m, sum(m, top, low), F_HALF);
    if same(top, low) {
        (F_ZERO, F_ZERO, l)
    } else {
        let d: u32 = difference(m, top, low);
        let s: u32 = if less(F_HALF, l) {
            quotient(m, d, difference(m, difference(m, F_TWO, top), low))
        } else {
            quotient(m, d, sum(m, top, low))
        };
        if same(top, r) {
            let turn: u32 = if less(g, b) { F_SIX } else { F_ZERO };
            let h: u32 = quotient(m, sum(m, quotient(m, difference(m, g, b), d), turn), F_SIX);
            (h, s, l)
        } else if same(top, g) {
            let h: u32 = quotient(m, sum(m, quotient(m, difference(m, b, r), d), F_TWO), F_SIX);
            (h, s, l)
        } else {
            let h: u32 = quotient(m, sum(m, quotient(m, difference(m, r, g), d), F_FOUR), F_SIX);
            (h, s, l)
        }
    }
}

/// Hue, saturation and lightness of a color; all between zero and one.
fn rgb_to_hsl<M: Arith>(m: &M, r: u32, g: u32, b: u32) -> (out: (u32, u32, u32))
    requires
        m.wf(),
    ensures
        out == hsl_of(m, r, g, b),
{
    let top: u32 = max(max(r, g), b);
    let low: u32 = min(min(r, g), b);
    let l: u32 = times(m, plus(m, top, low), F_HALF);
    if is_same(top, low) {
        (F_ZERO, F_ZERO, l)
    } else {
        let d: u32 = minus(m, top, low);
        let s: u32 = if is_less(F_HALF, l) {
            over(m, d, minus(m, minus(m, F_TWO, top), low))
        } else {
            over(m, d, plus(m, top, low))
        };
        if is_same(top, r) {
            let turn: u32 = if is_less(g, b) { F_SIX } else { F_ZERO };
            let h: u32 = over(m, plus(m, over(m, minus(m, g, b), d), turn), F_SIX);
            (h, s, l)
        } else if is_same(top, g) {
            let h: u32 = over(m, plus(m, over(m, minus(m, b, r), d), F_TWO), F_SIX);
            (h, s, l)
        } else {
            let h: u32 = over(m, plus(m, over(m, minus(m, r, g), d), F_FOUR), F_SIX);
            (h, s, l)
        }
    }
}

/// One channel of a color between `p` and `q` at a hue, which may be a turn off.
pub open spec fn hue_channel<M: Arith>(m: &M, p: u32, q: u32, hue: u32) -> u32 {
    let up: u32 = if less(hue, F_ZERO) { sum(m, hue, F_ONE) } else { hue };
    let t: u32 = if less(F_ONE, up) { difference(m, up, F_ONE) } else { up };
    if less(t, SIXTH) {
        sum(m, p, product(m, product(m, difference(m, q, p), F_SIX), t))
    } else if less(t, F_HALF) {
        q
    } else if less(t, TWO_THIRDS) {
        sum(m, p, product(m, product(m, difference(m, q, p), difference(m, TWO_THIRDS, t)), F_SIX))
    } else {
        p
    }
}

/// One channel of a color between `p` and `q` at a hue, which may be a turn off.
fn hue_to_rgb<M: Arith>(m: &M, p: u32, q: u32, hue: u32) -> (out: u32)
    requires
        m.wf(),
    ensures
        out == hue_channel(m, p, q, hue),
{
    let up: u32 = if is_less(hue, F_ZERO) { plus(m, hue, F_ONE) } else { hue };
    let t: u32 = if is_less(F_ONE, up) { minus(m, up, F_ONE) } else { up };
    if is_less(t, SIXTH) {
        plus(m, p, times(m, times(m, minus(m, q, p), F_SIX), t))
    } else if is_less(t, F_HALF) {
        q
    } else if is_less(t, TWO_THIRDS) {
        plus(m, p, times(m, times(m, minus(m, q, p), minus(m, TWO_THIRDS, t)), F_SIX))
    } else {
        p
    }
}

/// The color of a hue, a saturation and a lightness.
pub open spec fn rgb_of<M: Arith>(m: &M, h: u32, s: u32, l: u32) -> (u32, u32, u32) {
    if zero(s) {
        (l, l, l)
    } else {
        let q: u32 = if less(l, F_HALF) {
            product(m, l, sum(m, F_ONE, s))
        } else {
            difference(m, sum(m, l, s), product(m, l, s))
        };
        let p: u32 = difference(m, product(m, F_TWO, l), q);
        let r: u32 = hue_channel(m, p, q, sum(m, h, THIRD));
        let g: u32 = hue_channel(m, p, q, h);
        let b: u32 = hue_channel(m, p, q, difference(m, h, THIRD));
        (r, g, b)
    }
}

/// The color of a hue, a saturation and a lightness.
fn hsl_to_rgb<M: Arith>(m: &M, h: u32, s: u32, l: u32) -> (out: (u32, u32, u32))
    requires
        m.wf(),
    ensures
        out == rgb_of(m, h, s, l),
{
    if is_zero(s) {
        (l, l, l)
    } else {
        let q: u32 = if is_less(l, F_HALF) {
            times(m, l, plus(m, F_ONE, s))
        } else {
            minus(m, plus(m, l, s), times(m, l, s))
        };
        let p: u32 = minus(m, times(m, F_TWO, l), q);
        let r: u32 = hue_to_rgb(m, p, q, plus(m, h, THIRD));
        let g: u32 = hue_to_rgb(m, p, q, h);
        let b: u32 = hue_to_rgb(m, p, q, minus(m, h, THIRD));
        (r, g, b)
    }
}

/// The Rec.709 luminance of a color.
pub open spec fn luminance_of<M: Arith>(m: &M, r: u32, g: u32, b: u32) -> u32 {
    sum(m, sum(m, product(m, LUMA_RED, r), product(m, LUMA_GREEN, g)), product(m, LUMA_BLUE, b))
}

/// The Rec.709 luminance of a color.
fn luminance<M: Arith>(m: &M, r: u32, g: u32, b: u32) -> (out: u32)
    requires
        m.wf(),
    ensures
        out == luminance_of(m, r, g, b),
{
    plus(m, plus(m, times(m, LUMA_RED, r), times(m, LUMA_GREEN, g)), times(m, LUMA_BLUE, b))
}

/// A channel scaled around the mid-tone and shifted, clamped.
pub open spec fn contrasted<M: Arith>(m: &M, c: u32, brightness: u32, contrast: u32) -> u32 {
    unit(sum(m, sum(m, product(m, difference(m, c, F_HALF), contrast), F_HALF), brightness))
}

/// A channel scaled around the mid-tone and shifted, clamped.
fn contrast_channel<M: Arith>(m: &M, c: u32, brightness: u32, contrast: u32) -> (out: u32)
    requires
        m.wf(),
    ensures
        out == contrasted(m, c, brightness, contrast),
{
    clamp01_nan0(plus(m, plus(m, times(m, minus(m, c, F_HALF), contrast), F_HALF), brightness))
}

/// A channel taken from one range to another through a gamma curve.
pub open spec fn leveled<M: Arith>(
    m: &M,
    c: u32,
    from_black: u32,
    from_range: u32,
    to_black: u32,
    to_range: u32,
    gamma: u32,
) -> u32 {
    let t: u32 = clamped(quotient(m, difference(m, c, from_black), from_range), F_ZERO, F_ONE);
    let curved: u32 = power(m, t, quotient(m, F_ONE, gamma));
    clamped(sum(m, to_black, product(m, curved, to_range)), F_ZERO, F_ONE)
}

/// A channel taken from one range to another through a gamma curve.
fn level_channel<M: Arith>(
    m: &M,
    c: u32,
    from_black: u32,
    from_range: u32,
    to_black: u32,
    to_range: u32,
    gamma: u32,
) -> (out: u32)
    requires
        m.wf(),
    ensures
        out == leveled(m, c, from_black, from_range, to_black, to_range, gamma),
{
    let t: u32 = clamp(over(m, minus(m, c, from_black), from_range), F_ZERO, F_ONE);
    let curved: u32 = raise(m, t, over(m, F_ONE, gamma));
    clamp(plus(m, to_black, times(m, curved, to_range)), F_ZERO, F_ONE)
}

/// The output between two neighbouring points of a curve.
pub open spec fn between_points<M: Arith>(m: &M, v: u32, a: CurvePoint, b: CurvePoint) -> u32 {
    let t: u32 = quotient(
        m,
        difference(m, v, a.input),
        larger(difference(m, b.input, a.input), F_TINY),
    );
    sum(m, a.output, product(m, difference(m, b.output, a.output), clamped(t, F_ZERO, F_ONE)))
}

/// The output between two neighbouring points of a curve.
fn curve_segment<M: Arith>(m: &M, v: u32, a: CurvePoint, b: CurvePoint) -> (out: u32)
    requires
        m.wf(),
    ensures
        out == between_points(m, v, a, b),
{
    let t: u32 = over(m, minus(m, v, a.input), max(minus(m, b.input, a.input), F_TINY));
    plus(m, a.output, times(m, minus(m, b.output, a.output), clamp(t, F_ZERO, F_ONE)))
}

/// A channel through a curve: flat before the first point and after the last.
pub open spec fn curved<M: Arith>(m: &M, v: u32, points: [CurvePoint; 4]) -> u32 {
    if at_most(v, points[0].input) {
        points[0].output
    } else if at_most(v, points[1].input) {
        between_points(m, v, points[0], points[1])
    } else if at_most(v, points[2].input) {
        between_points(m, v, points[1], points[2])
    } else if at_most(v, points[3].input) {
        between_points(m, v, points[2], points[3])
    } else {
        points[3].output
    }
}

/// A channel through a curve: flat before the first point and after the last.
fn curve_channel<M: Arith>(m: &M, v: u32, points: [CurvePoint; 4]) -> (out: u32)
    requires
        m.wf(),
    ensures
        out == curved(m, v, points),
{
    if is_at_most(v, points[0].input) {
        points[0].output
    } else if is_at_most(v, points[1].input) {
        curve_segment(m, v, points[0], points[1])
    } else if is_at_most(v, points[2].input) {
        curve_segment(m, v, points[1], points[2])
    } else if is_at_most(v, points[3].input) {
        curve_segment(m, v, points[2], points[3])
    } else {
        points[3].output
    }
}

/// The nearest of `n` equal steps from zero to one.
pub open spec fn stepped<M: Arith>(m: &M, c: u32, n: u32) -> u32 {
    quotient(m, rounded(m, product(m, c, n)), n)
}

/// The nearest of `n` equal steps from zero to one.
fn posterize_channel<M: Arith>(m: &M, c: u32, n: u32) -> (out: u32)
    requires
        m.wf(),
    ensures
        out == stepped(m, c, n),
{
    over(m, round(m, times(m, c, n)), n)
}

/// What an adjustment makes of a color with channels from zero to one.
pub open spec fn recolored<M: Arith>(
    m: &M,
    kind: AdjustmentKind,
    r: u32,
    g: u32,
    b: u32,
) -> (u32, u32, u32) {
    match kind {
        AdjustmentKind::Invert => (
            difference(m, F_ONE, r),
            difference(m, F_ONE, g),
            difference(m, F_ONE, b),
        ),
        AdjustmentKind::Desaturate => {
            let l: u32 = unit(luminance_of(m, r, g, b));
            (l, l, l)
        },
        AdjustmentKind::BrightnessContrast { brightness, contrast } => {
            let rr: u32 = contrasted(m, r, brightness, contrast);
            let gg: u32 = contrasted(m, g, brightness, contrast);
            let bb: u32 = contrasted(m, b, brightness, contrast);
            (rr, gg, bb)
        },
        AdjustmentKind::HueSat { hue, saturation, lightness } => {
            let (h, s, l): (u32, u32, u32) = hsl_of(m, r, g, b);
            let hh: u32 = remainder(m, sum(m, h, quotient(m, hue, FULL_TURN)), F_ONE);
            let ss: u32 = clamped(product(m, s, saturation), F_ZERO, F_ONE);
            let ll: u32 = clamped(sum(m, l, lightness), F_ZERO, F_ONE);
            rgb_of(m, hh, ss, ll)
        },
        AdjustmentKind::Levels { input_black, input_white, output_black, output_white, gamma } => {
            let from_range: u32 = larger(difference(m, input_white, input_black), F_TINY);
            let to_range: u32 = difference(m, output_white, output_black);
            let curve: u32 = larger(gamma, F_TINY);
            let rr: u32 = leveled(m, r, input_black, from_range, output_black, to_range, curve);
            let gg: u32 = leveled(m, g, input_black, from_range, output_black, to_range, curve);
            let bb: u32 = leveled(m, b, input_black, from_range, output_black, to_range, curve);
            (rr, gg, bb)
        },
        AdjustmentKind::Curves { points } => {
            let rr: u32 = curved(m, r, points);
            let gg: u32 = curved(m, g, points);
            let bb: u32 = curved(m, b, points);
            (rr, gg, bb)
        },
        AdjustmentKind::Posterize { levels } => {
            let n: u32 = difference(m, number_of_u32(two_or_more(levels)), F_ONE);
            let rr: u32 = stepped(m, r, n);
            let gg: u32 = stepped(m, g, n);
            let bb: u32 = stepped(m, b, n);
            (rr, gg, bb)
        },
        AdjustmentKind::Threshold { level } => {
            let v: u32 = if at_most(level, luminance_of(m, r, g, b)) { F_ONE } else { F_ZERO };
            (v, v, v)
        },
        AdjustmentKind::GradientMap { fg, bg } => {
            let l: u32 = unit(luminance_of(m, r, g, b));
            let mapped: Rgba32F = fg.mixed(m, bg, l);
            (mapped.r, mapped.g, mapped.b)
        },
    }
}

/// What an adjustment makes of a color with channels from zero to one.
fn adjusted_color<M: Arith>(
    m: &M,
    kind: AdjustmentKind,
    r: u32,
    g: u32,
    b: u32,
) -> (out: (u32, u32, u32))
    requires
        m.wf(),
    ensures
        out == recolored(m, kind, r, g, b),
{
    match kind {
        AdjustmentKind::Invert => (minus(m, F_ONE, r), minus(m, F_ONE, g), minus(m, F_ONE, b)),
        AdjustmentKind::Desaturate => {
            let l: u32 = clamp01_nan0(luminance(m, r, g, b));
            (l, l, l)
        },
        AdjustmentKind::BrightnessContrast { brightness, contrast } => {
            let rr: u32 = contrast_channel(m, r, brightness, contrast);
            let gg: u32 = contrast_channel(m, g, brightness, contrast);
            let bb: u32 = contrast_channel(m, b, brightness, contrast);
            (rr, gg, bb)
        },
        AdjustmentKind::HueSat { hue, saturation, lightness } => {
            let (h, s, l): (u32, u32, u32) = rgb_to_hsl(m, r, g, b);
            let hh: u32 = modulo(m, plus(m, h, over(m, hue, FULL_TURN)), F_ONE);
            let ss: u32 = clamp(times(m, s, saturation), F_ZERO, F_ONE);
            let ll: u32 = clamp(plus(m, l, lightness), F_ZERO, F_ONE);
            hsl_to_rgb(m, hh, ss, ll)
        },
        AdjustmentKind::Levels { input_black, input_white, output_black, output_white, gamma } => {
            let from_range: u32 = max(minus(m, input_white, input_black), F_TINY);
            let to_range: u32 = minus(m, output_white, output_black);
            let curve: u32 = max(gamma, F_TINY);
            let rr: u32 = level_channel(
                m,
                r,
                input_black,
                from_range,
                output_black,
                to_range,
                curve,
            );
            let gg: u32 = level_channel(
                m,
                g,
                input_black,
                from_range,
                output_black,
                to_range,
                curve,
            );
            let bb: u32 = level_channel(
                m,
                b,
                input_black,
                from_range,
                output_black,
                to_range,
                curve,
            );
            (rr, gg, bb)
        },
        AdjustmentKind::Curves { points } => {
            let rr: u32 = curve_channel(m, r, points);
            let gg: u32 = curve_channel(m, g, points);
            let bb: u32 = curve_channel(m, b, points);
            (rr, gg, bb)
        },
        AdjustmentKind::Posterize { levels } => {
            let n: u32 = minus(m, from_u32(at_least_two(levels)), F_ONE);
            let rr: u32 = posterize_channel(m, r, n);
            let gg: u32 = posterize_channel(m, g, n);
            let bb: u32 = posterize_channel(m, b, n);
            (rr, gg, bb)
        },
        AdjustmentKind::Threshold { level } => {
            let v: u32 = if is_at_most(level, luminance(m, r, g, b)) { F_ONE } else { F_ZERO };
            (v, v, v)
        },
        AdjustmentKind::GradientMap { fg, bg } => {
            let l: u32 = clamp01_nan0(luminance(m, r, g, b));
            let mapped: Rgba32F = fg.lerp(m, bg, l);
            (mapped.r, mapped.g, mapped.b)
        },
    }
}

/// A pixel after an adjustment whose parameters are finite.
///
/// The alpha is sanitized and otherwise kept. The color of a visible pixel goes to
/// the adjusted color as far as the opacity says, and is clamped to zero and one
/// before and after. A pixel that is not visible keeps its color.
pub open spec fn pixel_adjusted<M: Arith>(
    m: &M,
    kind: AdjustmentKind,
    opacity: u32,
    px: Rgba32F,
) -> Rgba32F {
    let o: u32 = unit(opacity);
    if zero(o) {
        px
    } else {
        let a: u32 = unit(px.a);
        if zero(a) {
            Rgba32F { r: px.r, g: px.g, b: px.b, a: F_ZERO }
        } else {
            let r: u32 = unit(px.r);
            let g: u32 = unit(px.g);
            let b: u32 = unit(px.b);
            let (rr, gg, bb): (u32, u32, u32) = recolored(m, kind, r, g, b);
            Rgba32F {
                r: unit(blend_of(m, r, rr, o)),
                g: unit(blend_of(m, g, gg, o)),
                b: unit(blend_of(m, b, bb, o)),
                a,
            }
        }
    }
}

/// A pixel after an adjustment whose parameters are finite.
///
/// The alpha is sanitized and otherwise kept. The color of a visible pixel goes to
/// the adjusted color as far as the opacity says, and is clamped to zero and one
/// before and after. A pixel that is not visible keeps its color.
pub fn apply_adjustment_pixel<M: Arith>(
    m: &M,
    kind: AdjustmentKind,
    opacity: u32,
    px: Rgba32F,
) -> (out: Rgba32F)
    requires
        m.wf(),
    ensures
        out == pixel_adjusted(m, kind, opacity, px),
{
    let o: u32 = clamp01_nan0(opacity);
    if is_zero(o) {
        px
    } else {
        let a: u32 = clamp01_nan0(px.a);
        if is_zero(a) {
            Rgba32F::new(px.r, px.g, px.b, F_ZERO)
        } else {
            let r: u32 = clamp01_nan0(px.r);
            let g: u32 = clamp01_nan0(px.g);
            let b: u32 = clamp01_nan0(px.b);
            let (rr, gg, bb): (u32, u32, u32) = adjusted_color(m, kind, r, g, b);
            Rgba32F::new(
                clamp01_nan0(step(m, r, rr, o)),
                clamp01_nan0(step(m, g, gg, o)),
                clamp01_nan0(step(m, b, bb, o)),
                a,
            )
        }
    }
}

/// An adjustment of no opacity changes nothing.
pub proof fn no_opacity_keeps_pixel<M: Arith>(
    m: &M,
    kind: AdjustmentKind,
    opacity: u32,
    px: Rgba32F,
)
    requires
        nan(opacity) || at_most(opacity, F_ZERO),
    ensures
        pixel_adjusted(m, kind, opacity, px) == px,
{
}

/// An adjustment keeps how visible a pixel is: its alpha stays, clamped to zero
/// and one.
pub proof fn adjusting_keeps_alpha<M: Arith>(m: &M, kind: AdjustmentKind, opacity: u32, px: Rgba32F)
    ensures
        ({
            let p = pixel_adjusted(m, kind, opacity, px);
            p == px || p.a == unit(px.a) || (zero(p.a) && zero(unit(px.a)))
        }),
{
}

/// An adjustment leaves every channel of a visible pixel between zero and one.
pub proof fn adjusting_stays_in_range<M: Arith>(
    m: &M,
    kind: AdjustmentKind,
    opacity: u32,
    px: Rgba32F,
)
    requires
        !zero(unit(opacity)),
        !zero(unit(px.a)),
    ensures
        ({
            let p = pixel_adjusted(m, kind, opacity, px);
            &&& !nan(p.r) && rank(F_ZERO) <= rank(p.r) <= rank(F_ONE)
            &&& !nan(p.g) && rank(F_ZERO) <= rank(p.g) <= rank(F_ONE)
            &&& !nan(p.b) && rank(F_ZERO) <= rank(p.b) <= rank(F_ONE)
            &&& !nan(p.a) && rank(F_ZERO) <= rank(p.a) <= rank(F_ONE)
        }),
{
    let o: u32 = unit(opacity);
    let (r, g, b) = (unit(px.r), unit(px.g), unit(px.b));
    let (rr, gg, bb) = recolored(m, kind, r, g, b);
    unit_is_idempotent(blend_of(m, r, rr, o));
    unit_is_idempotent(blend_of(m, g, gg, o));
    unit_is_idempotent(blend_of(m, b, bb, o));
    unit_is_idempotent(px.a);
}

/// The hidden color of a pixel that is not visible survives every adjustment.
pub proof fn adjusting_keeps_hidden_color<M: Arith>(
    m: &M,
    kind: AdjustmentKind,
    opacity: u32,
    px: Rgba32F,
)
    requires
        zero(unit(px.a)),
    ensures
        ({
            let p = pixel_adjusted(m, kind, opacity, px);
            p.r == px.r && p.g == px.g && p.b == px.b
        }),
{
}

/// A curve whose ends are anchored maps zero to zero.
pub proof fn anchored_curves_keep_black<M: Arith>(
    m: &M,
    given: Seq<(u32, u32)>,
    points: [CurvePoint; 4],
)
    requires
        given.len() == 4,
        points@ == curve_points(given),
    ensures
        curved(m, F_ZERO, points) == F_ZERO,
        points[3] == (CurvePoint { input: F_ONE, output: F_ONE }),
{
    let s = given.map_values(
        |p: (u32, u32)| (CurvePoint { input: unit(p.0), output: unit(p.1) }),
    );
    assert forall|i: int| 0 <= i < s.len() implies !nan((#[trigger] s[i]).input) by {
        assert(s[i].input == unit(given[i].0));
    }
    sorted_points_are_ordered(s);
    assert(points@[0] == (CurvePoint { input: F_ZERO, output: F_ZERO }));
}

} // verus!
