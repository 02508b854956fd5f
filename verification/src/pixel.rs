//! RGBA pixel type used throughout the engine.
//!
//! Pixels are stored in straight (non-premultiplied) alpha, linear light, one
//! binary32 pattern per channel.
use vstd::prelude::*;

use crate::arith::{
    difference, minus, over, plus, power, product, quotient, raise, sum, times, Arith,
};
use crate::float_bits::{
    at_most, clamp, clamp01_nan0, clamped, is_at_most, is_less, is_nan, is_same, is_zero, less, nan,
    same, unit, zero, F_ONE, F_ZERO,
};

verus! {

/// A 32-bit-per-channel floating point RGBA pixel.
///
/// Colors are stored in **straight alpha** and **linear light**. Each channel is
/// the bit pattern of a binary32 number.
#[derive(Clone, Copy, Debug)]
pub struct Rgba32F {
    /// Red channel.
    pub r: u32,
    /// Green channel.
    pub g: u32,
    /// Blue channel.
    pub b: u32,
    /// Alpha channel.
    pub a: u32,
}

/// The fully transparent pixel.
pub open spec fn clear_px() -> Rgba32F {
    Rgba32F { r: 0, g: 0, b: 0, a: 0 }
}

impl Rgba32F {
    /// Construct a pixel from its four channels.
    pub fn new(r: u32, g: u32, b: u32, a: u32) -> (px: Self)
        ensures
            px == (Rgba32F { r, g, b, a }),
    {
        Self { r, g, b, a }
    }

    /// A fully transparent pixel.
    pub fn transparent() -> (px: Self)
        ensures
            px == clear_px(),
            px.is_clear(),
    {
        Self { r: F_ZERO, g: F_ZERO, b: F_ZERO, a: F_ZERO }
    }

    /// True if the pixel compares equal to the transparent pixel: all four
    /// channels are zero, of either sign.
    pub open spec fn is_clear(self) -> bool {
        zero(self.r) && zero(self.g) && zero(self.b) && zero(self.a)
    }

    /// True if the pixel compares equal to the transparent pixel.
    pub fn is_transparent(self) -> (r: bool)
        ensures
            r == self.is_clear(),
    {
        is_zero(self.r) && is_zero(self.g) && is_zero(self.b) && is_zero(self.a)
    }
}

/// `v`, or zero if it is no number.
pub open spec fn number_or_zero(v: u32) -> u32 {
    if nan(v) { F_ZERO } else { v }
}

/// A pixel with zero for what is no number.
pub open spec fn sanitized(px: Rgba32F) -> Rgba32F {
    Rgba32F {
        r: number_or_zero(px.r),
        g: number_or_zero(px.g),
        b: number_or_zero(px.b),
        a: number_or_zero(px.a),
    }
}

fn fix(v: u32) -> (r: u32)
    ensures
        r == number_or_zero(v),
{
    if is_nan(v) { F_ZERO } else { v }
}

/// Replace every channel that is no number by zero.
pub fn sanitize(px: Rgba32F) -> (r: Rgba32F)
    ensures
        r == sanitized(px),
{
    Rgba32F::new(fix(px.r), fix(px.g), fix(px.b), fix(px.a))
}

/// The pattern of `0.2126`, the share of red in the luminance (Rec.709).
pub const LUMA_RED: u32 = 0x3e59b3d0;

/// The pattern of `0.7152`, the share of green in the luminance.
pub const LUMA_GREEN: u32 = 0x3f371759;

/// The pattern of `0.0722`, the share of blue in the luminance.
pub const LUMA_BLUE: u32 = 0x3d93dd98;

/// The pattern of `12.92`, the slope of the sRGB curve near black.
pub const SRGB_SLOPE: u32 = 0x414eb852;

/// The pattern of `0.0031308`, where the sRGB curve leaves its straight part.
pub const SRGB_KNEE: u32 = 0x3b4d2e1c;

/// The pattern of `1.055`, the factor of the curved part.
pub const SRGB_SCALE: u32 = 0x3f870a3d;

/// The pattern of `0.055`, what the curved part is lowered by.
pub const SRGB_SHIFT: u32 = 0x3d6147ae;

/// The pattern of `2.4`, the exponent of the curve.
pub const SRGB_GAMMA: u32 = 0x4019999a;

impl Rgba32F {
    /// This pixel with premultiplied alpha.
    pub open spec fn weighted<M: Arith>(self, m: &M) -> Rgba32F {
        Rgba32F {
            r: product(m, self.r, self.a),
            g: product(m, self.g, self.a),
            b: product(m, self.b, self.a),
            a: self.a,
        }
    }

    /// This pixel with premultiplied alpha.
    pub fn premultiplied<M: Arith>(self, m: &M) -> (out: Rgba32F)
        requires
            m.wf(),
        ensures
            out == self.weighted(m),
    {
        Rgba32F::new(
            times(m, self.r, self.a),
            times(m, self.g, self.a),
            times(m, self.b, self.a),
            self.a,
        )
    }
}

impl Rgba32F {
    /// This premultiplied pixel with straight alpha. What is not visible becomes
    /// transparent.
    pub open spec fn unweighted<M: Arith>(self, m: &M) -> Rgba32F {
        if less(F_ZERO, self.a) {
            Rgba32F {
                r: quotient(m, self.r, self.a),
                g: quotient(m, self.g, self.a),
                b: quotient(m, self.b, self.a),
                a: self.a,
            }
        } else {
            Rgba32F { r: F_ZERO, g: F_ZERO, b: F_ZERO, a: F_ZERO }
        }
    }

    /// This premultiplied pixel with straight alpha. What is not visible becomes
    /// transparent.
    pub fn unpremultiplied<M: Arith>(self, m: &M) -> (out: Rgba32F)
        requires
            m.wf(),
        ensures
            out == self.unweighted(m),
    {
        if is_less(F_ZERO, self.a) {
            Rgba32F::new(
                over(m, self.r, self.a),
                over(m, self.g, self.a),
                over(m, self.b, self.a),
                self.a,
            )
        } else {
            Rgba32F::new(F_ZERO, F_ZERO, F_ZERO, F_ZERO)
        }
    }
}

/// The number at `t` of the way from `a` to `b`.
pub open spec fn blend_of<M: Arith>(m: &M, a: u32, b: u32, t: u32) -> u32 {
    sum(m, a, product(m, difference(m, b, a), t))
}

/// The number at `t` of the way from `a` to `b`.
pub fn step<M: Arith>(m: &M, a: u32, b: u32, t: u32) -> (out: u32)
    requires
        m.wf(),
    ensures
        out == blend_of(m, a, b, t),
{
    plus(m, a, times(m, minus(m, b, a), t))
}

impl Rgba32F {
    /// Linear interpolation between this pixel and `other` by factor `t`.
    pub open spec fn mixed<M: Arith>(self, m: &M, other: Rgba32F, t: u32) -> Rgba32F {
        let r: u32 = blend_of(m, self.r, other.r, t);
        let g: u32 = blend_of(m, self.g, other.g, t);
        let b: u32 = blend_of(m, self.b, other.b, t);
        let a: u32 = blend_of(m, self.a, other.a, t);
        Rgba32F { r, g, b, a }
    }

    /// Linear interpolation between this pixel and `other` by factor `t`.
    pub fn lerp<M: Arith>(self, m: &M, other: Rgba32F, t: u32) -> (out: Rgba32F)
        requires
            m.wf(),
        ensures
            out == self.mixed(m, other, t),
    {
        let r: u32 = step(m, self.r, other.r, t);
        let g: u32 = step(m, self.g, other.g, t);
        let b: u32 = step(m, self.b, other.b, t);
        let a: u32 = step(m, self.a, other.a, t);
        Rgba32F::new(r, g, b, a)
    }
}

/// Linear light as the gamma-encoded value of a display, clamped to zero and one
/// first.
///
/// Perceptual comparisons are measured in gamma-encoded space: linear light
/// over-grabs in shadows and under-grabs in highlights.
pub open spec fn srgb_encoded<M: Arith>(m: &M, c: u32) -> u32 {
    let v: u32 = clamped(c, F_ZERO, F_ONE);
    if at_most(v, SRGB_KNEE) {
        product(m, SRGB_SLOPE, v)
    } else {
        difference(
            m,
            product(m, SRGB_SCALE, power(m, v, quotient(m, F_ONE, SRGB_GAMMA))),
            SRGB_SHIFT,
        )
    }
}

/// Linear light as the gamma-encoded value of a display, clamped to zero and one
/// first.
///
/// Perceptual comparisons are measured in gamma-encoded space: linear light
/// over-grabs in shadows and under-grabs in highlights.
pub fn srgb_encode<M: Arith>(m: &M, c: u32) -> (out: u32)
    requires
        m.wf(),
    ensures
        out == srgb_encoded(m, c),
{
    let v: u32 = clamp(c, F_ZERO, F_ONE);
    if is_at_most(v, SRGB_KNEE) {
        times(m, SRGB_SLOPE, v)
    } else {
        minus(m, times(m, SRGB_SCALE, raise(m, v, over(m, F_ONE, SRGB_GAMMA))), SRGB_SHIFT)
    }
}

/// The squared difference of two numbers.
pub open spec fn gap_squared<M: Arith>(m: &M, a: u32, b: u32) -> u32 {
    let d: u32 = difference(m, a, b);
    product(m, d, d)
}

/// The squared difference of two numbers.
fn squared_gap<M: Arith>(m: &M, a: u32, b: u32) -> (out: u32)
    requires
        m.wf(),
    ensures
        out == gap_squared(m, a, b),
{
    let d: u32 = minus(m, a, b);
    times(m, d, d)
}

/// Squared perceptual distance between two pixels.
///
/// Red, green and blue are gamma-encoded, alpha is kept linear, and what is no
/// number counts as zero. This is the one notion of "looks the same" that the
/// selection tools share.
pub open spec fn perceived_distance<M: Arith>(m: &M, p: Rgba32F, q: Rgba32F) -> u32 {
    let dr: u32 = gap_squared(
        m,
        srgb_encoded(m, number_or_zero(p.r)),
        srgb_encoded(m, number_or_zero(q.r)),
    );
    let dg: u32 = gap_squared(
        m,
        srgb_encoded(m, number_or_zero(p.g)),
        srgb_encoded(m, number_or_zero(q.g)),
    );
    let db: u32 = gap_squared(
        m,
        srgb_encoded(m, number_or_zero(p.b)),
        srgb_encoded(m, number_or_zero(q.b)),
    );
    let da: u32 = gap_squared(m, unit(p.a), unit(q.a));
    sum(m, sum(m, sum(m, dr, dg), db), da)
}

/// Squared perceptual distance between two pixels.
///
/// Red, green and blue are gamma-encoded, alpha is kept linear, and what is no
/// number counts as zero. This is the one notion of "looks the same" that the
/// selection tools share.
pub fn perceptual_distance_sq<M: Arith>(m: &M, p: Rgba32F, q: Rgba32F) -> (out: u32)
    requires
        m.wf(),
    ensures
        out == perceived_distance(m, p, q),
{
    let dr: u32 = squared_gap(m, srgb_encode(m, fix(p.r)), srgb_encode(m, fix(q.r)));
    let dg: u32 = squared_gap(m, srgb_encode(m, fix(p.g)), srgb_encode(m, fix(q.g)));
    let db: u32 = squared_gap(m, srgb_encode(m, fix(p.b)), srgb_encode(m, fix(q.b)));
    let da: u32 = squared_gap(m, clamp01_nan0(p.a), clamp01_nan0(q.a));
    plus(m, plus(m, plus(m, dr, dg), db), da)
}

/// Two pixels are equal, channel by channel, as numbers.
pub open spec fn px_same(p: Rgba32F, q: Rgba32F) -> bool {
    same(p.r, q.r) && same(p.g, q.g) && same(p.b, q.b) && same(p.a, q.a)
}

impl PartialEq for Rgba32F {
    /// Channel by channel comparison as numbers.
    fn eq(&self, other: &Self) -> (r: bool) {
        is_same(self.r, other.r) && is_same(self.g, other.g) && is_same(self.b, other.b) && is_same(
            self.a,
            other.a,
        )
    }
}

impl vstd::std_specs::cmp::PartialEqSpecImpl for Rgba32F {
    open spec fn obeys_eq_spec() -> bool {
        true
    }

    open spec fn eq_spec(&self, other: &Self) -> bool {
        px_same(*self, *other)
    }
}

} // verus!
