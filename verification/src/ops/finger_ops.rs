//! Pure pixel operations for the brush-engine "finger" tools.
//!
//! Each function computes the **target** value of one pixel from the frozen
//! backdrop and the settings. The tool that drives them accumulates stamp coverage
//! over the stroke and moves the layer pixel toward this target.
use vstd::prelude::*;

use crate::adjust::FULL_TURN;
use crate::arith::{
    difference, floor, minus, modulo, over, plus, power, product, quotient, raise, remainder, sum,
    times, whole_below, Arith,
};
use crate::float_bits::{
    abs, absolute, at_most, clamp, clamped, is_at_most, is_less, is_same, larger, less, max, min,
    same, smaller, F_FOUR, F_HALF, F_ONE, F_SIX, F_TINY, F_TWO, F_ZERO,
};
use crate::pixel::{
    srgb_encode, srgb_encoded, LUMA_BLUE, LUMA_GREEN, LUMA_RED, Rgba32F, SRGB_GAMMA, SRGB_SCALE,
    SRGB_SHIFT, SRGB_SLOPE,
};

verus! {

/// Tonal range for dodging and burning.
#[derive(Clone, Copy, Debug, PartialEq, Eq, Structural)]
pub enum Range {
    /// Affect dark tones.
    Shadows,
    /// Affect middle tones.
    Midtones,
    /// Affect bright tones.
    Highlights,
}

/// The pattern of `0.999`, the most that a dodge or a burn is exposed.
pub const MOST_EXPOSURE: u32 = 0x3f7fbe77;

/// The pattern of `60.0`, the degrees of a sixth of a turn.
pub const SECTOR_DEGREES: u32 = 0x42700000;

/// The pattern of `0.0000001`, a range of channels that counts as gray.
pub const GRAY_RANGE: u32 = 0x33d6bf95;

/// The pattern of `3.0`.
pub const F_THREE: u32 = 0x40400000;

/// The pattern of `0.04045`, where the encoded curve leaves its straight part.
pub const SRGB_FOOT: u32 = 0x3d25aee6;

/// The sixth of a turn that a count of sixths falls into.
pub open spec fn sector_of(k: i32) -> i32 {
    if k < 0 { 5 } else { (k % 6) as i32 }
}

fn sector(k: i32) -> (r: i32)
    ensures
        r == sector_of(k),
{
    if k < 0 { 5 } else { k % 6 }
}

/// Blur target: the average of the neighbourhood, which the tool has taken.
pub fn blur_target(neighbourhood_avg: Rgba32F) -> (r: Rgba32F)
    ensures
        r == neighbourhood_avg,
{
    neighbourhood_avg
}

/// Rec.709 luma of a linear pixel.
pub open spec fn luma_of<M: Arith>(m: &M, p: Rgba32F) -> u32 {
    sum(
        m,
        sum(m, product(m, LUMA_RED, p.r), product(m, LUMA_GREEN, p.g)),
        product(m, LUMA_BLUE, p.b),
    )
}

/// Rec.709 luma of a linear pixel.
pub fn luma<M: Arith>(m: &M, p: Rgba32F) -> (out: u32)
    requires
        m.wf(),
    ensures
        out == luma_of(m, p),
{
    plus(m, plus(m, times(m, LUMA_RED, p.r), times(m, LUMA_GREEN, p.g)), times(m, LUMA_BLUE, p.b))
}

/// A channel pushed away from its neighbourhood, clamped.
pub open spec fn sharpened_channel<M: Arith>(m: &M, orig: u32, blurred: u32, amount: u32) -> u32 {
    clamped(sum(m, orig, product(m, amount, difference(m, orig, blurred))), F_ZERO, F_ONE)
}

/// A channel pushed away from its neighbourhood, clamped.
fn sharpen_channel<M: Arith>(m: &M, orig: u32, blurred: u32, amount: u32) -> (out: u32)
    requires
        m.wf(),
    ensures
        out == sharpened_channel(m, orig, blurred, amount),
{
    clamp(plus(m, orig, times(m, amount, minus(m, orig, blurred))), F_ZERO, F_ONE)
}

/// Sharpen target: the pixel pushed away from its blurred neighbourhood by an
/// amount of at most four, clamped, with its own alpha.
pub open spec fn sharpened<M: Arith>(
    m: &M,
    orig: Rgba32F,
    blurred: Rgba32F,
    amount: u32,
) -> Rgba32F {
    let amt: u32 = clamped(amount, F_ZERO, F_FOUR);
    let r: u32 = sharpened_channel(m, orig.r, blurred.r, amt);
    let g: u32 = sharpened_channel(m, orig.g, blurred.g, amt);
    let b: u32 = sharpened_channel(m, orig.b, blurred.b, amt);
    Rgba32F { r, g, b, a: orig.a }
}

/// Sharpen target: the pixel pushed away from its blurred neighbourhood by an
/// amount of at most four, clamped, with its own alpha.
pub fn sharpen_target<M: Arith>(
    m: &M,
    orig: Rgba32F,
    blurred: Rgba32F,
    amount: u32,
) -> (out: Rgba32F)
    requires
        m.wf(),
    ensures
        out == sharpened(m, orig, blurred, amount),
{
    let amt: u32 = clamp(amount, F_ZERO, F_FOUR);
    let r: u32 = sharpen_channel(m, orig.r, blurred.r, amt);
    let g: u32 = sharpen_channel(m, orig.g, blurred.g, amt);
    let b: u32 = sharpen_channel(m, orig.b, blurred.b, amt);
    Rgba32F::new(r, g, b, orig.a)
}

/// A smooth rise from zero at `e0` to one at `e1`.
pub open spec fn smooth<M: Arith>(m: &M, e0: u32, e1: u32, x: u32) -> u32 {
    if same(e0, e1) {
        if less(x, e0) { F_ZERO } else { F_ONE }
    } else {
        let t: u32 = clamped(
            quotient(m, difference(m, x, e0), difference(m, e1, e0)),
            F_ZERO,
            F_ONE,
        );
        product(m, product(m, t, t), difference(m, F_THREE, product(m, F_TWO, t)))
    }
}

/// A smooth rise from zero at `e0` to one at `e1`.
fn smoothstep<M: Arith>(m: &M, e0: u32, e1: u32, x: u32) -> (out: u32)
    requires
        m.wf(),
    ensures
        out == smooth(m, e0, e1, x),
{
    if is_same(e0, e1) {
        if is_less(x, e0) { F_ZERO } else { F_ONE }
    } else {
        let t: u32 = clamp(over(m, minus(m, x, e0), minus(m, e1, e0)), F_ZERO, F_ONE);
        times(m, times(m, t, t), minus(m, F_THREE, times(m, F_TWO, t)))
    }
}

/// How much a tone belongs to a tonal range, between zero and one.
pub open spec fn range_share<M: Arith>(m: &M, luma: u32, range: Range) -> u32 {
    let l: u32 = clamped(luma, F_ZERO, F_ONE);
    match range {
        Range::Shadows => clamped(
            difference(m, F_ONE, smooth(m, F_ZERO, F_HALF, l)),
            F_ZERO,
            F_ONE,
        ),
        Range::Midtones => clamped(
            difference(m, F_ONE, product(m, absolute(difference(m, l, F_HALF)), F_TWO)),
            F_ZERO,
            F_ONE,
        ),
        Range::Highlights => clamped(smooth(m, F_HALF, F_ONE, l), F_ZERO, F_ONE),
    }
}

/// How much a tone belongs to a tonal range, between zero and one.
pub fn range_mask<M: Arith>(m: &M, luma: u32, range: Range) -> (out: u32)
    requires
        m.wf(),
    ensures
        out == range_share(m, luma, range),
{
    let l: u32 = clamp(luma, F_ZERO, F_ONE);
    match range {
        Range::Shadows => clamp(minus(m, F_ONE, smoothstep(m, F_ZERO, F_HALF, l)), F_ZERO, F_ONE),
        Range::Midtones => clamp(
            minus(m, F_ONE, times(m, abs(minus(m, l, F_HALF)), F_TWO)),
            F_ZERO,
            F_ONE,
        ),
        Range::Highlights => clamp(smoothstep(m, F_HALF, F_ONE, l), F_ZERO, F_ONE),
    }
}

/// Dodge target: the pixel lightened by a reciprocal, clamped, with its own alpha.
///
/// Reciprocal scaling makes burning the inverse of dodging where nothing clips.
pub open spec fn dodged<M: Arith>(m: &M, bd: Rgba32F, exposure: u32) -> Rgba32F {
    let e: u32 = clamped(exposure, F_ZERO, MOST_EXPOSURE);
    let scale: u32 = quotient(m, F_ONE, difference(m, F_ONE, e));
    let r: u32 = clamped(product(m, bd.r, scale), F_ZERO, F_ONE);
    let g: u32 = clamped(product(m, bd.g, scale), F_ZERO, F_ONE);
    let b: u32 = clamped(product(m, bd.b, scale), F_ZERO, F_ONE);
    Rgba32F { r, g, b, a: bd.a }
}

/// Dodge target: the pixel lightened by a reciprocal, clamped, with its own alpha.
///
/// Reciprocal scaling makes burning the inverse of dodging where nothing clips.
pub fn dodge_target<M: Arith>(m: &M, bd: Rgba32F, exposure: u32) -> (out: Rgba32F)
    requires
        m.wf(),
    ensures
        out == dodged(m, bd, exposure),
{
    let e: u32 = clamp(exposure, F_ZERO, MOST_EXPOSURE);
    let scale: u32 = over(m, F_ONE, minus(m, F_ONE, e));
    let r: u32 = clamp(times(m, bd.r, scale), F_ZERO, F_ONE);
    let g: u32 = clamp(times(m, bd.g, scale), F_ZERO, F_ONE);
    let b: u32 = clamp(times(m, bd.b, scale), F_ZERO, F_ONE);
    Rgba32F::new(r, g, b, bd.a)
}

/// Burn target: the pixel darkened, with its own alpha. The exposure is clamped as
/// in [`dodge_target`].
pub open spec fn burned<M: Arith>(m: &M, bd: Rgba32F, exposure: u32) -> Rgba32F {
    let e: u32 = clamped(exposure, F_ZERO, MOST_EXPOSURE);
    let rest: u32 = difference(m, F_ONE, e);
    Rgba32F {
        r: product(m, bd.r, rest),
        g: product(m, bd.g, rest),
        b: product(m, bd.b, rest),
        a: bd.a,
    }
}

/// Burn target: the pixel darkened, with its own alpha. The exposure is clamped as
/// in [`dodge_target`].
pub fn burn_target<M: Arith>(m: &M, bd: Rgba32F, exposure: u32) -> (out: Rgba32F)
    requires
        m.wf(),
    ensures
        out == burned(m, bd, exposure),
{
    let e: u32 = clamp(exposure, F_ZERO, MOST_EXPOSURE);
    let rest: u32 = minus(m, F_ONE, e);
    Rgba32F::new(times(m, bd.r, rest), times(m, bd.g, rest), times(m, bd.b, rest), bd.a)
}

/// Hue in degrees, saturation and lightness of a pixel, clamped to zero and one.
pub open spec fn hsl_degrees<M: Arith>(m: &M, p: Rgba32F) -> (u32, u32, u32) {
    let r: u32 = clamped(p.r, F_ZERO, F_ONE);
    let g: u32 = clamped(p.g, F_ZERO, F_ONE);
    let b: u32 = clamped(p.b, F_ZERO, F_ONE);
    let top: u32 = larger(larger(r, g), b);
    let low: u32 = smaller(smaller(r, g), b);
    let l: u32 = quotient(m, sum(m, top, low), F_TWO);
    if less(absolute(difference(m, top, low)), GRAY_RANGE) {
        (F_ZERO, F_ZERO, l)
    } else {
        let d: u32 = difference(m, top, low);
        let s: u32 = quotient(
            m,
            d,
            difference(m, F_ONE, absolute(difference(m, product(m, F_TWO, l), F_ONE))),
        );
        if same(top, r) {
            let h: u32 = remainder(m, quotient(m, difference(m, g, b), d), F_SIX);
            (product(m, h, SECTOR_DEGREES), s, l)
        } else if same(top, g) {
            let h: u32 = sum(m, quotient(m, difference(m, b, r), d), F_TWO);
            (product(m, h, SECTOR_DEGREES), s, l)
        } else {
            let h: u32 = sum(m, quotient(m, difference(m, r, g), d), F_FOUR);
            (product(m, h, SECTOR_DEGREES), s, l)
        }
    }
}

/// Hue in degrees, saturation and lightness of a pixel, clamped to zero and one.
fn rgb_to_hsl<M: Arith>(m: &M, p: Rgba32F) -> (out: (u32, u32, u32))
    requires
        m.wf(),
    ensures
        out == hsl_degrees(m, p),
{
    let r: u32 = clamp(p.r, F_ZERO, F_ONE);
    let g: u32 = clamp(p.g, F_ZERO, F_ONE);
    let b: u32 = clamp(p.b, F_ZERO, F_ONE);
    let top: u32 = max(max(r, g), b);
    let low: u32 = min(min(r, g), b);
    let l: u32 = over(m, plus(m, top, low), F_TWO);
    if is_less(abs(minus(m, top, low)), GRAY_RANGE) {
        (F_ZERO, F_ZERO, l)
    } else {
        let d: u32 = minus(m, top, low);
        let s: u32 = over(m, d, minus(m, F_ONE, abs(minus(m, times(m, F_TWO, l), F_ONE))));
        if is_same(top, r) {
            let h: u32 = modulo(m, over(m, minus(m, g, b), d), F_SIX);
            (times(m, h, SECTOR_DEGREES), s, l)
        } else if is_same(top, g) {
            let h: u32 = plus(m, over(m, minus(m, b, r), d), F_TWO);
            (times(m, h, SECTOR_DEGREES), s, l)
        } else {
            let h: u32 = plus(m, over(m, minus(m, r, g), d), F_FOUR);
            (times(m, h, SECTOR_DEGREES), s, l)
        }
    }
}

/// The opaque pixel of a hue in degrees, a saturation and a lightness.
pub open spec fn rgb_of_degrees<M: Arith>(m: &M, h_deg: u32, s: u32, l: u32) -> Rgba32F {
    let h: u32 = quotient(m, remainder(m, h_deg, FULL_TURN), FULL_TURN);
    let c: u32 = product(
        m,
        difference(m, F_ONE, absolute(difference(m, product(m, F_TWO, l), F_ONE))),
        s,
    );
    let x: u32 = product(
        m,
        c,
        difference(
            m,
            F_ONE,
            absolute(difference(m, remainder(m, product(m, h, F_SIX), F_TWO), F_ONE)),
        ),
    );
    let low: u32 = difference(m, l, quotient(m, c, F_TWO));
    let k: i32 = sector_of(whole_below(m, product(m, h, F_SIX)));
    let hi: u32 = sum(m, c, low);
    let mid: u32 = sum(m, x, low);
    let bot: u32 = sum(m, F_ZERO, low);
    if k == 0 {
        Rgba32F { r: hi, g: mid, b: bot, a: F_ONE }
    } else if k == 1 {
        Rgba32F { r: mid, g: hi, b: bot, a: F_ONE }
    } else if k == 2 {
        Rgba32F { r: bot, g: hi, b: mid, a: F_ONE }
    } else if k == 3 {
        Rgba32F { r: bot, g: mid, b: hi, a: F_ONE }
    } else if k == 4 {
        Rgba32F { r: mid, g: bot, b: hi, a: F_ONE }
    } else {
        Rgba32F { r: hi, g: bot, b: mid, a: F_ONE }
    }
}

/// The opaque pixel of a hue in degrees, a saturation and a lightness.
fn hsl_to_rgb<M: Arith>(m: &M, h_deg: u32, s: u32, l: u32) -> (out: Rgba32F)
    requires
        m.wf(),
    ensures
        out == rgb_of_degrees(m, h_deg, s, l),
{
    let h: u32 = over(m, modulo(m, h_deg, FULL_TURN), FULL_TURN);
    let c: u32 = times(m, minus(m, F_ONE, abs(minus(m, times(m, F_TWO, l), F_ONE))), s);
    let x: u32 = times(
        m,
        c,
        minus(m, F_ONE, abs(minus(m, modulo(m, times(m, h, F_SIX), F_TWO), F_ONE))),
    );
    let low: u32 = minus(m, l, over(m, c, F_TWO));
    let k: i32 = sector(floor(m, times(m, h, F_SIX)));
    let hi: u32 = plus(m, c, low);
    let mid: u32 = plus(m, x, low);
    let bot: u32 = plus(m, F_ZERO, low);
    if k == 0 {
        Rgba32F::new(hi, mid, bot, F_ONE)
    } else if k == 1 {
        Rgba32F::new(mid, hi, bot, F_ONE)
    } else if k == 2 {
        Rgba32F::new(bot, hi, mid, F_ONE)
    } else if k == 3 {
        Rgba32F::new(bot, mid, hi, F_ONE)
    } else if k == 4 {
        Rgba32F::new(mid, bot, hi, F_ONE)
    } else {
        Rgba32F::new(hi, bot, mid, F_ONE)
    }
}

/// Color-replacement target: the hue and saturation of the foreground at the
/// lightness of the backdrop, rescaled so that the luma stays that of the
/// backdrop. Where there is no luma to scale the result is gray. The alpha is that
/// of the backdrop.
pub open spec fn recolored_to<M: Arith>(m: &M, bd: Rgba32F, fg: Rgba32F) -> Rgba32F {
    let (_, _, bl): (u32, u32, u32) = hsl_degrees(m, bd);
    let (fh, fs, _): (u32, u32, u32) = hsl_degrees(m, fg);
    let c: Rgba32F = rgb_of_degrees(m, fh, fs, bl);
    let want: u32 = luma_of(m, bd);
    let have: u32 = luma_of(m, c);
    if less(F_TINY, have) {
        let scale: u32 = quotient(m, want, have);
        let r: u32 = clamped(product(m, c.r, scale), F_ZERO, F_ONE);
        let g: u32 = clamped(product(m, c.g, scale), F_ZERO, F_ONE);
        let b: u32 = clamped(product(m, c.b, scale), F_ZERO, F_ONE);
        Rgba32F { r, g, b, a: bd.a }
    } else {
        Rgba32F { r: want, g: want, b: want, a: bd.a }
    }
}

/// Color-replacement target: the hue and saturation of the foreground at the
/// lightness of the backdrop, rescaled so that the luma stays that of the
/// backdrop. Where there is no luma to scale the result is gray. The alpha is that
/// of the backdrop.
pub fn recolor_target<M: Arith>(m: &M, bd: Rgba32F, fg: Rgba32F) -> (out: Rgba32F)
    requires
        m.wf(),
    ensures
        out == recolored_to(m, bd, fg),
{
    let (_, _, bl): (u32, u32, u32) = rgb_to_hsl(m, bd);
    let (fh, fs, _): (u32, u32, u32) = rgb_to_hsl(m, fg);
    let c: Rgba32F = hsl_to_rgb(m, fh, fs, bl);
    let want: u32 = luma(m, bd);
    let have: u32 = luma(m, c);
    if is_less(F_TINY, have) {
        let scale: u32 = over(m, want, have);
        let r: u32 = clamp(times(m, c.r, scale), F_ZERO, F_ONE);
        let g: u32 = clamp(times(m, c.g, scale), F_ZERO, F_ONE);
        let b: u32 = clamp(times(m, c.b, scale), F_ZERO, F_ONE);
        Rgba32F::new(r, g, b, bd.a)
    } else {
        Rgba32F::new(want, want, want, bd.a)
    }
}

/// A channel moved from one mean to another, clamped.
pub open spec fn healed_channel<M: Arith>(m: &M, src: u32, mu_src: u32, mu_dst: u32) -> u32 {
    clamped(sum(m, difference(m, src, mu_src), mu_dst), F_ZERO, F_ONE)
}

/// A channel moved from one mean to another, clamped.
fn heal_channel<M: Arith>(m: &M, src: u32, mu_src: u32, mu_dst: u32) -> (out: u32)
    requires
        m.wf(),
    ensures
        out == healed_channel(m, src, mu_src, mu_dst),
{
    clamp(plus(m, minus(m, src, mu_src), mu_dst), F_ZERO, F_ONE)
}

/// Healing target: the source pixel moved from the mean of its patch to the mean of
/// the destination patch, with the alpha of the destination.
pub open spec fn healed<M: Arith>(
    m: &M,
    src: Rgba32F,
    mu_src: Rgba32F,
    mu_dst: Rgba32F,
    dst: Rgba32F,
) -> Rgba32F {
    let r: u32 = healed_channel(m, src.r, mu_src.r, mu_dst.r);
    let g: u32 = healed_channel(m, src.g, mu_src.g, mu_dst.g);
    let b: u32 = healed_channel(m, src.b, mu_src.b, mu_dst.b);
    Rgba32F { r, g, b, a: dst.a }
}

/// Healing target: the source pixel moved from the mean of its patch to the mean of
/// the destination patch, with the alpha of the destination.
pub fn heal_target<M: Arith>(
    m: &M,
    src: Rgba32F,
    mu_src: Rgba32F,
    mu_dst: Rgba32F,
    dst: Rgba32F,
) -> (out: Rgba32F)
    requires
        m.wf(),
    ensures
        out == healed(m, src, mu_src, mu_dst, dst),
{
    let r: u32 = heal_channel(m, src.r, mu_src.r, mu_dst.r);
    let g: u32 = heal_channel(m, src.g, mu_src.g, mu_dst.g);
    let b: u32 = heal_channel(m, src.b, mu_src.b, mu_dst.b);
    Rgba32F::new(r, g, b, dst.a)
}

/// A gamma-encoded display value as linear light, clamped first.
pub open spec fn srgb_decoded<M: Arith>(m: &M, c: u32) -> u32 {
    let v: u32 = clamped(c, F_ZERO, F_ONE);
    if at_most(v, SRGB_FOOT) {
        quotient(m, v, SRGB_SLOPE)
    } else {
        power(m, quotient(m, sum(m, v, SRGB_SHIFT), SRGB_SCALE), SRGB_GAMMA)
    }
}

/// A gamma-encoded display value as linear light, clamped first.
fn srgb_decode<M: Arith>(m: &M, c: u32) -> (out: u32)
    requires
        m.wf(),
    ensures
        out == srgb_decoded(m, c),
{
    let v: u32 = clamp(c, F_ZERO, F_ONE);
    if is_at_most(v, SRGB_FOOT) {
        over(m, v, SRGB_SLOPE)
    } else {
        raise(m, over(m, plus(m, v, SRGB_SHIFT), SRGB_SCALE), SRGB_GAMMA)
    }
}

/// Sponge target: the saturation multiplied by `1 + exposure`, or divided by it,
/// measured in gamma-encoded space. Gray pixels stay as they are, and so does the
/// alpha.
pub open spec fn sponged<M: Arith>(m: &M, bd: Rgba32F, exposure: u32, saturate: bool) -> Rgba32F {
    let r: u32 = srgb_encoded(m, bd.r);
    let g: u32 = srgb_encoded(m, bd.g);
    let b: u32 = srgb_encoded(m, bd.b);
    let (h, s, l): (u32, u32, u32) = hsl_degrees(m, Rgba32F { r, g, b, a: bd.a });
    if less(s, F_TINY) {
        bd
    } else {
        let more: u32 = sum(m, F_ONE, exposure);
        let factor: u32 = if saturate { more } else { quotient(m, F_ONE, more) };
        let c: Rgba32F = rgb_of_degrees(m, h, clamped(product(m, s, factor), F_ZERO, F_ONE), l);
        Rgba32F {
            r: srgb_decoded(m, c.r),
            g: srgb_decoded(m, c.g),
            b: srgb_decoded(m, c.b),
            a: bd.a,
        }
    }
}

/// Sponge target: the saturation multiplied by `1 + exposure`, or divided by it,
/// measured in gamma-encoded space. Gray pixels stay as they are, and so does the
/// alpha.
pub fn sponge_target<M: Arith>(m: &M, bd: Rgba32F, exposure: u32, saturate: bool) -> (out: Rgba32F)
    requires
        m.wf(),
    ensures
        out == sponged(m, bd, exposure, saturate),
{
    let r: u32 = srgb_encode(m, bd.r);
    let g: u32 = srgb_encode(m, bd.g);
    let b: u32 = srgb_encode(m, bd.b);
    let (h, s, l): (u32, u32, u32) = rgb_to_hsl(m, Rgba32F::new(r, g, b, bd.a));
    if is_less(s, F_TINY) {
        bd
    } else {
        let more: u32 = plus(m, F_ONE, exposure);
        let factor: u32 = if saturate { more } else { over(m, F_ONE, more) };
        let c: Rgba32F = hsl_to_rgb(m, h, clamp(times(m, s, factor), F_ZERO, F_ONE), l);
        Rgba32F::new(srgb_decode(m, c.r), srgb_decode(m, c.g), srgb_decode(m, c.b), bd.a)
    }
}

/// Every target keeps the alpha of the pixel that it is for.
pub proof fn targets_keep_alpha<M: Arith>(
    m: &M,
    p: Rgba32F,
    q: Rgba32F,
    u: Rgba32F,
    v: Rgba32F,
    n: u32,
    up: bool,
)
    ensures
        sharpened(m, p, q, n).a == p.a,
        dodged(m, p, n).a == p.a,
        burned(m, p, n).a == p.a,
        recolored_to(m, p, q).a == p.a,
        healed(m, q, u, v, p).a == p.a,
        sponged(m, p, n, up).a == p.a,
{
}

} // verus!
