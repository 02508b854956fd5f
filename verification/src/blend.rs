//! Blending one pixel over another.
use vstd::prelude::*;

use crate::arith::{difference, minus, over, plus, product, quotient, root, sqrt, sum, times, Arith};
use crate::float_bits::{
    abs, absolute, at_most, clamp, clamp01_nan0, clamped, is_at_most, is_nan, is_zero, larger,
    less, max, min, nan, smaller, unit, zero, F_FOUR, F_HALF, F_ONE, F_TWO, F_ZERO,
};
use crate::layer::BlendMode;
use crate::pixel::{clear_px, Rgba32F};

verus! {

/// The pattern of `0.25`.
pub const F_QUARTER: u32 = 0x3e800000;

/// The pattern of `12.0`.
pub const F_TWELVE: u32 = 0x41400000;

/// The pattern of `16.0`.
pub const F_SIXTEEN: u32 = 0x41800000;

/// How bright a soft light at full strength makes a channel: `((16d - 12)d + 4)d` up
/// to a quarter, the root above.
pub open spec fn soft_bright<M: Arith>(m: &M, d: u32) -> u32 {
    if at_most(d, F_QUARTER) {
        let inner: u32 = difference(m, product(m, F_SIXTEEN, d), F_TWELVE);
        product(m, sum(m, product(m, inner, d), F_FOUR), d)
    } else {
        root(m, d)
    }
}

/// How bright a soft light at full strength makes a channel.
fn soft_brighten<M: Arith>(m: &M, d: u32) -> (out: u32)
    requires
        m.wf(),
    ensures
        out == soft_bright(m, d),
{
    if is_at_most(d, F_QUARTER) {
        let inner: u32 = minus(m, times(m, F_SIXTEEN, d), F_TWELVE);
        times(m, plus(m, times(m, inner, d), F_FOUR), d)
    } else {
        sqrt(m, d)
    }
}

/// The soft-light blend of one channel, as the W3C defines it for SVG.
///
/// The destination is clamped to zero and one, so that its root is a number.
pub open spec fn soft_lit<M: Arith>(m: &M, dst: u32, src: u32) -> u32 {
    let d: u32 = clamped(dst, F_ZERO, F_ONE);
    if at_most(src, F_HALF) {
        difference(
            m,
            d,
            product(
                m,
                product(m, difference(m, F_ONE, product(m, F_TWO, src)), d),
                difference(m, F_ONE, d),
            ),
        )
    } else {
        sum(
            m,
            d,
            product(
                m,
                difference(m, product(m, F_TWO, src), F_ONE),
                difference(m, soft_bright(m, d), d),
            ),
        )
    }
}

/// The soft-light blend of one channel, as the W3C defines it for SVG.
fn soft_light<M: Arith>(m: &M, dst: u32, src: u32) -> (out: u32)
    requires
        m.wf(),
    ensures
        out == soft_lit(m, dst, src),
{
    let d: u32 = clamp(dst, F_ZERO, F_ONE);
    if is_at_most(src, F_HALF) {
        minus(
            m,
            d,
            times(m, times(m, minus(m, F_ONE, times(m, F_TWO, src)), d), minus(m, F_ONE, d)),
        )
    } else {
        let bright: u32 = soft_brighten(m, d);
        plus(m, d, times(m, minus(m, times(m, F_TWO, src), F_ONE), minus(m, bright, d)))
    }
}

/// The product of two channels, doubled, where `top` is dark; else their screen.
pub open spec fn hard_lit<M: Arith>(m: &M, top: u32, a: u32, b: u32) -> u32 {
    if at_most(top, F_HALF) {
        product(m, product(m, F_TWO, a), b)
    } else {
        difference(
            m,
            F_ONE,
            product(m, product(m, F_TWO, difference(m, F_ONE, a)), difference(m, F_ONE, b)),
        )
    }
}

/// The product of two channels, doubled, where `top` is dark; else their screen.
fn hard_light<M: Arith>(m: &M, top: u32, a: u32, b: u32) -> (out: u32)
    requires
        m.wf(),
    ensures
        out == hard_lit(m, top, a, b),
{
    if is_at_most(top, F_HALF) {
        times(m, times(m, F_TWO, a), b)
    } else {
        minus(m, F_ONE, times(m, times(m, F_TWO, minus(m, F_ONE, a)), minus(m, F_ONE, b)))
    }
}

/// The separable blend function of a mode for one channel.
pub open spec fn channel_blend<M: Arith>(m: &M, mode: BlendMode, dst: u32, src: u32) -> u32 {
    match mode {
        BlendMode::Normal => src,
        BlendMode::Multiply => product(m, dst, src),
        BlendMode::Screen => difference(m, sum(m, dst, src), product(m, dst, src)),
        BlendMode::Overlay => hard_lit(m, dst, dst, src),
        BlendMode::Darken => smaller(dst, src),
        BlendMode::Lighten => larger(dst, src),
        BlendMode::ColorDodge => {
            if at_most(F_ONE, src) {
                F_ONE
            } else {
                clamped(quotient(m, dst, difference(m, F_ONE, src)), F_ZERO, F_ONE)
            }
        },
        BlendMode::ColorBurn => {
            if at_most(src, F_ZERO) {
                F_ZERO
            } else {
                let t: u32 = quotient(m, difference(m, F_ONE, dst), src);
                clamped(difference(m, F_ONE, t), F_ZERO, F_ONE)
            }
        },
        BlendMode::HardLight => hard_lit(m, src, dst, src),
        BlendMode::SoftLight => soft_lit(m, dst, src),
        BlendMode::Difference => absolute(difference(m, dst, src)),
        BlendMode::Exclusion => difference(
            m,
            sum(m, dst, src),
            product(m, product(m, F_TWO, dst), src),
        ),
        BlendMode::Add => sum(m, dst, src),
    }
}

/// The separable blend function of a mode for one channel.
fn blend_channel<M: Arith>(m: &M, mode: BlendMode, dst: u32, src: u32) -> (out: u32)
    requires
        m.wf(),
    ensures
        out == channel_blend(m, mode, dst, src),
{
    match mode {
        BlendMode::Normal => src,
        BlendMode::Multiply => times(m, dst, src),
        BlendMode::Screen => minus(m, plus(m, dst, src), times(m, dst, src)),
        BlendMode::Overlay => hard_light(m, dst, dst, src),
        BlendMode::Darken => min(dst, src),
        BlendMode::Lighten => max(dst, src),
        BlendMode::ColorDodge => {
            if is_at_most(F_ONE, src) {
                F_ONE
            } else {
                clamp(over(m, dst, minus(m, F_ONE, src)), F_ZERO, F_ONE)
            }
        },
        BlendMode::ColorBurn => {
            if is_at_most(src, F_ZERO) {
                F_ZERO
            } else {
                let t: u32 = over(m, minus(m, F_ONE, dst), src);
                clamp(minus(m, F_ONE, t), F_ZERO, F_ONE)
            }
        },
        BlendMode::HardLight => hard_light(m, src, dst, src),
        BlendMode::SoftLight => soft_light(m, dst, src),
        BlendMode::Difference => abs(minus(m, dst, src)),
        BlendMode::Exclusion => minus(m, plus(m, dst, src), times(m, times(m, F_TWO, dst), src)),
        BlendMode::Add => plus(m, dst, src),
    }
}

/// One output channel: what is only destination, what is only source, and the
/// blend of what is both, weighted by the alphas.
pub open spec fn channel_out<M: Arith>(
    m: &M,
    mode: BlendMode,
    dst_c: u32,
    dst_a: u32,
    src_c: u32,
    src_a: u32,
    out_a: u32,
) -> u32 {
    let dst_term: u32 = product(m, product(m, dst_c, dst_a), difference(m, F_ONE, src_a));
    let src_term: u32 = product(m, product(m, src_c, src_a), difference(m, F_ONE, dst_a));
    let both_term: u32 = product(m, product(m, src_a, dst_a), channel_blend(m, mode, dst_c, src_c));
    quotient(m, sum(m, sum(m, dst_term, src_term), both_term), out_a)
}

/// One output channel: what is only destination, what is only source, and the
/// blend of what is both, weighted by the alphas.
fn blended_channel<M: Arith>(
    m: &M,
    mode: BlendMode,
    dst_c: u32,
    dst_a: u32,
    src_c: u32,
    src_a: u32,
    out_a: u32,
) -> (out: u32)
    requires
        m.wf(),
    ensures
        out == channel_out(m, mode, dst_c, dst_a, src_c, src_a, out_a),
{
    let dst_term: u32 = times(m, times(m, dst_c, dst_a), minus(m, F_ONE, src_a));
    let src_term: u32 = times(m, times(m, src_c, src_a), minus(m, F_ONE, dst_a));
    let both_term: u32 = times(m, times(m, src_a, dst_a), blend_channel(m, mode, dst_c, src_c));
    over(m, plus(m, plus(m, dst_term, src_term), both_term), out_a)
}

/// `src` over `dst` with a blend mode and an overall opacity.
///
/// Both pixels and the result are in straight alpha; this is the "over" operator
/// with a separable blend function. The opacity is clamped to zero and one, zero
/// if it is no number. Where nothing of the source is visible the destination
/// stays as it is. Where the result is not visible it is the transparent pixel.
pub open spec fn pixel_blend<M: Arith>(
    m: &M,
    mode: BlendMode,
    dst: Rgba32F,
    src: Rgba32F,
    opacity: u32,
) -> Rgba32F {
    let o: u32 = unit(opacity);
    if zero(o) || zero(src.a) || nan(src.a) {
        dst
    } else {
        let src_a: u32 = smaller(product(m, src.a, o), F_ONE);
        if at_most(src_a, F_ZERO) {
            dst
        } else {
            let dst_a: u32 = unit(dst.a);
            let out_a: u32 = smaller(
                sum(m, dst_a, product(m, src_a, difference(m, F_ONE, dst_a))),
                F_ONE,
            );
            if at_most(out_a, F_ZERO) || nan(out_a) {
                Rgba32F { r: F_ZERO, g: F_ZERO, b: F_ZERO, a: F_ZERO }
            } else {
                let r: u32 = channel_out(m, mode, dst.r, dst_a, src.r, src_a, out_a);
                let g: u32 = channel_out(m, mode, dst.g, dst_a, src.g, src_a, out_a);
                let b: u32 = channel_out(m, mode, dst.b, dst_a, src.b, src_a, out_a);
                Rgba32F { r, g, b, a: out_a }
            }
        }
    }
}

/// `src` over `dst` with a blend mode and an overall opacity.
///
/// Both pixels and the result are in straight alpha; this is the "over" operator
/// with a separable blend function. The opacity is clamped to zero and one, zero
/// if it is no number. Where nothing of the source is visible the destination
/// stays as it is. Where the result is not visible it is the transparent pixel.
pub fn blend_pixel<M: Arith>(
    m: &M,
    mode: BlendMode,
    dst: Rgba32F,
    src: Rgba32F,
    opacity: u32,
) -> (out: Rgba32F)
    requires
        m.wf(),
    ensures
        out == pixel_blend(m, mode, dst, src, opacity),
{
    let o: u32 = clamp01_nan0(opacity);
    if is_zero(o) || is_zero(src.a) || is_nan(src.a) {
        dst
    } else {
        let src_a: u32 = min(times(m, src.a, o), F_ONE);
        if is_at_most(src_a, F_ZERO) {
            dst
        } else {
            let dst_a: u32 = clamp01_nan0(dst.a);
            let out_a: u32 = min(plus(m, dst_a, times(m, src_a, minus(m, F_ONE, dst_a))), F_ONE);
            if is_at_most(out_a, F_ZERO) || is_nan(out_a) {
                Rgba32F::new(F_ZERO, F_ZERO, F_ZERO, F_ZERO)
            } else {
                let r: u32 = blended_channel(m, mode, dst.r, dst_a, src.r, src_a, out_a);
                let g: u32 = blended_channel(m, mode, dst.g, dst_a, src.g, src_a, out_a);
                let b: u32 = blended_channel(m, mode, dst.b, dst_a, src.b, src_a, out_a);
                Rgba32F::new(r, g, b, out_a)
            }
        }
    }
}

/// A source of no opacity changes nothing.
pub proof fn no_opacity_keeps<M: Arith>(
    m: &M,
    mode: BlendMode,
    dst: Rgba32F,
    src: Rgba32F,
    opacity: u32,
)
    requires
        nan(opacity) || at_most(opacity, F_ZERO),
    ensures
        pixel_blend(m, mode, dst, src, opacity) == dst,
{
}

/// A source that is not visible changes nothing.
pub proof fn unseen_source_keeps<M: Arith>(
    m: &M,
    mode: BlendMode,
    dst: Rgba32F,
    src: Rgba32F,
    opacity: u32,
)
    requires
        nan(src.a) || zero(src.a),
    ensures
        pixel_blend(m, mode, dst, src, opacity) == dst,
{
}

/// What blending returns is the destination, the transparent pixel, or a pixel
/// whose alpha is a number above zero and at most one.
pub proof fn blended_alpha_is_sound<M: Arith>(
    m: &M,
    mode: BlendMode,
    dst: Rgba32F,
    src: Rgba32F,
    opacity: u32,
)
    ensures
        ({
            let p = pixel_blend(m, mode, dst, src, opacity);
            p == dst || p == clear_px() || (less(F_ZERO, p.a) && at_most(p.a, F_ONE))
        }),
{
}

} // verus!
