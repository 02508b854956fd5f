//! Gradient fill operation.
//!
//! Builds a per-pixel write list that paints a foreground to background gradient
//! along a document-space line, composited over the existing layer pixels.
use vstd::prelude::*;

use crate::arith::{
    angle, difference, direction, minus, modulo, over, plus, product, quotient, remainder, root,
    sqrt, sum, times, Arith,
};
use crate::float_bits::{
    abs, absolute, at_most, clamp, clamped, from_i32, is_at_most, is_less, less, number_of_i32,
    F_HALF, F_ONE, F_TWO, F_ZERO,
};
use crate::pixel::Rgba32F;
use crate::buffer::{pixel_at, TiledBuffer};
use crate::coord::{local_coord, local_coord_spec, IVec2, Rect, Vec2};
use crate::kernel::Kernel;
use crate::layer::BlendMode;
use crate::ops::bucket::{
    clip_cov, clip_coverage, collect, lists_writes, row_by_row, valued, value_below,
};
use crate::selection::{Selection, SelectionView};

verus! {

/// The shape of a gradient.
#[derive(Clone, Copy, Debug, PartialEq, Eq, Structural)]
pub enum GradientKind {
    /// Axis-aligned linear blend along `p0` to `p1`.
    Linear,
    /// Radial blend from `p0` outward, reaching `p1` at the radius.
    Radial,
    /// Angular blend around `p0`, with `p0` to `p1` as the zero-angle direction.
    Conical,
    /// L1 (diamond) blend from `p0` reaching `p1` at the L1 radius.
    Diamond,
}

/// How the gradient parameter behaves outside zero to one. Only affects the
/// kinds other than [`GradientKind::Conical`], which always wraps.
#[derive(Clone, Copy, Debug, PartialEq, Eq, Structural)]
pub enum WrapMode {
    /// Clamp to zero and one.
    Clamp,
    /// Repeat from zero to one.
    Repeat,
    /// Mirror at integer boundaries.
    Reflect,
}

impl Default for WrapMode {
    fn default() -> (r: Self)
        ensures
            r == WrapMode::Clamp,
    {
        WrapMode::Clamp
    }
}

/// A gradient along a document-space line.
#[derive(Clone, Copy, Debug)]
pub struct Gradient {
    /// Where the line starts.
    pub p0: Vec2,
    /// Where the line ends.
    pub p1: Vec2,
    /// The shape.
    pub kind: GradientKind,
    /// The color at the start.
    pub fg: Rgba32F,
    /// The color at the end.
    pub bg: Rgba32F,
    /// Whether the colors change places.
    pub reverse: bool,
    /// What happens beyond the ends.
    pub wrap: WrapMode,
}

/// The pattern of a full turn in radians.
pub const TAU: u32 = 0x40c90fdb;

impl WrapMode {
    /// Apply the wrap to a raw parameter.
    pub open spec fn wrapped<M: Arith>(self, m: &M, t: u32) -> u32 {
        match self {
            WrapMode::Clamp => clamped(t, F_ZERO, F_ONE),
            WrapMode::Repeat => remainder(m, t, F_ONE),
            WrapMode::Reflect => difference(
                m,
                F_ONE,
                absolute(difference(m, remainder(m, t, F_TWO), F_ONE)),
            ),
        }
    }

    /// Apply the wrap to a raw parameter.
    pub fn wrap<M: Arith>(self, m: &M, t: u32) -> (out: u32)
        requires
            m.wf(),
        ensures
            out == self.wrapped(m, t),
    {
        match self {
            WrapMode::Clamp => clamp(t, F_ZERO, F_ONE),
            WrapMode::Repeat => modulo(m, t, F_ONE),
            WrapMode::Reflect => minus(m, F_ONE, abs(minus(m, modulo(m, t, F_TWO), F_ONE))),
        }
    }
}

/// The dot product of two vectors.
pub open spec fn dotted<M: Arith>(m: &M, ax: u32, ay: u32, bx: u32, by: u32) -> u32 {
    sum(m, product(m, ax, bx), product(m, ay, by))
}

/// The dot product of two vectors.
fn dot<M: Arith>(m: &M, ax: u32, ay: u32, bx: u32, by: u32) -> (out: u32)
    requires
        m.wf(),
    ensures
        out == dotted(m, ax, ay, bx, by),
{
    plus(m, times(m, ax, bx), times(m, ay, by))
}

/// The raw gradient parameter at point `p` for the line from `p0` to `p1`: zero at
/// the start, one at the end. A line without length gives zero, except that a
/// conical gradient then gives the parameter of the zero angle.
pub open spec fn parameter_at<M: Arith>(
    m: &M,
    p: Vec2,
    p0: Vec2,
    p1: Vec2,
    kind: GradientKind,
) -> u32 {
    let dx: u32 = difference(m, p1.x, p0.x);
    let dy: u32 = difference(m, p1.y, p0.y);
    let vx: u32 = difference(m, p.x, p0.x);
    let vy: u32 = difference(m, p.y, p0.y);
    match kind {
        GradientKind::Linear => {
            let dsq: u32 = sum(m, product(m, dx, dx), product(m, dy, dy));
            if at_most(dsq, F_ZERO) {
                F_ZERO
            } else {
                quotient(m, dotted(m, vx, vy, dx, dy), dsq)
            }
        },
        GradientKind::Radial => {
            let dl: u32 = root(m, dotted(m, dx, dy, dx, dy));
            if at_most(dl, F_ZERO) {
                F_ZERO
            } else {
                quotient(m, root(m, dotted(m, vx, vy, vx, vy)), dl)
            }
        },
        GradientKind::Conical => {
            let cross: u32 = difference(m, product(m, dx, vy), product(m, dy, vx));
            let along: u32 = sum(m, product(m, dx, vx), product(m, dy, vy));
            quotient(m, remainder(m, angle(m, cross, along), TAU), TAU)
        },
        GradientKind::Diamond => {
            let dl: u32 = sum(m, absolute(dx), absolute(dy));
            if at_most(dl, F_ZERO) {
                F_ZERO
            } else {
                quotient(m, sum(m, absolute(vx), absolute(vy)), dl)
            }
        },
    }
}

/// The raw gradient parameter at point `p` for the line from `p0` to `p1`: zero at
/// the start, one at the end. A line without length gives zero, except that a
/// conical gradient then gives the parameter of the zero angle.
pub fn gradient_t<M: Arith>(m: &M, p: Vec2, p0: Vec2, p1: Vec2, kind: GradientKind) -> (out: u32)
    requires
        m.wf(),
    ensures
        out == parameter_at(m, p, p0, p1, kind),
{
    let dx: u32 = minus(m, p1.x, p0.x);
    let dy: u32 = minus(m, p1.y, p0.y);
    let vx: u32 = minus(m, p.x, p0.x);
    let vy: u32 = minus(m, p.y, p0.y);
    match kind {
        GradientKind::Linear => {
            let dsq: u32 = plus(m, times(m, dx, dx), times(m, dy, dy));
            if is_at_most(dsq, F_ZERO) {
                F_ZERO
            } else {
                over(m, dot(m, vx, vy, dx, dy), dsq)
            }
        },
        GradientKind::Radial => {
            let dl: u32 = sqrt(m, dot(m, dx, dy, dx, dy));
            if is_at_most(dl, F_ZERO) {
                F_ZERO
            } else {
                over(m, sqrt(m, dot(m, vx, vy, vx, vy)), dl)
            }
        },
        GradientKind::Conical => {
            let cross: u32 = minus(m, times(m, dx, vy), times(m, dy, vx));
            let along: u32 = plus(m, times(m, dx, vx), times(m, dy, vy));
            over(m, modulo(m, direction(m, cross, along), TAU), TAU)
        },
        GradientKind::Diamond => {
            let dl: u32 = plus(m, abs(dx), abs(dy));
            if is_at_most(dl, F_ZERO) {
                F_ZERO
            } else {
                over(m, plus(m, abs(vx), abs(vy)), dl)
            }
        },
    }
}

/// The color at a parameter: the foreground at zero, the background at one, or the
/// other way round.
pub open spec fn color_of_parameter<M: Arith>(
    m: &M,
    t: u32,
    fg: Rgba32F,
    bg: Rgba32F,
    reverse: bool,
) -> Rgba32F {
    let tp: u32 = if reverse { difference(m, F_ONE, t) } else { t };
    fg.mixed(m, bg, tp)
}

/// The color at a parameter: the foreground at zero, the background at one, or the
/// other way round.
pub fn gradient_color<M: Arith>(
    m: &M,
    t: u32,
    fg: Rgba32F,
    bg: Rgba32F,
    reverse: bool,
) -> (out: Rgba32F)
    requires
        m.wf(),
    ensures
        out == color_of_parameter(m, t, fg, bg, reverse),
{
    let tp: u32 = if reverse { minus(m, F_ONE, t) } else { t };
    fg.lerp(m, bg, tp)
}
/// The middle of a pixel.
pub open spec fn middle_of<M: Arith>(m: &M, d: IVec2) -> Vec2 {
    Vec2 { x: sum(m, number_of_i32(d.x), F_HALF), y: sum(m, number_of_i32(d.y), F_HALF) }
}

/// The color of a gradient at document pixel `d`. A conical gradient is not wrapped.
pub open spec fn shade<M: Arith>(m: &M, g: Gradient, d: IVec2) -> Rgba32F {
    let raw = parameter_at(m, middle_of(m, d), g.p0, g.p1, g.kind);
    let t = if g.kind == GradientKind::Conical { raw } else { g.wrap.wrapped(m, raw) };
    color_of_parameter(m, t, g.fg, g.bg, g.reverse)
}

/// The color of a gradient at a document pixel.
pub fn color_at<M: Arith>(m: &M, g: &Gradient, d: IVec2) -> (r: Rgba32F)
    requires
        m.wf(),
    ensures
        r == shade(m, *g, d),
{
    let p: Vec2 = Vec2 { x: plus(m, from_i32(d.x), F_HALF), y: plus(m, from_i32(d.y), F_HALF) };
    let raw: u32 = gradient_t(m, p, g.p0, g.p1, g.kind);
    let t: u32 = if g.kind == GradientKind::Conical { raw } else { g.wrap.wrap(m, raw) };
    gradient_color(m, t, g.fg, g.bg, g.reverse)
}

/// What a gradient fill writes to document pixel `d`.
pub open spec fn gradient_fill<K: Kernel, M: Arith>(
    kern: &K,
    math: &M,
    m: Map<(i32, i32), Seq<Rgba32F>>,
    offset: IVec2,
    gradient: Gradient,
    opacity: u32,
    s: SelectionView,
) -> spec_fn(IVec2) -> Option<Rgba32F> {
    |d: IVec2|
        match local_coord_spec(d, offset) {
            Some(q) => if less(F_ZERO, clip_cov(s, d)) {
                Some(
                    kern.blended(
                        BlendMode::Normal,
                        pixel_at(m, q),
                        shade(math, gradient, d),
                        kern.scaled(opacity, clip_cov(s, d)),
                    ),
                )
            } else {
                None
            },
            None => None,
        }
}

/// Fill the layer with a gradient, returning `(layer-local pixel, new composited
/// value)` writes.
///
/// An **empty** selection means **no masking** (the whole canvas is filled); a
/// non-empty selection clips each pixel to its coverage. Each gradient pixel is
/// composited over the existing layer pixel with [`BlendMode::Normal`], weighted
/// by opacity and coverage.
pub fn fill_gradient<K: Kernel, M: Arith>(
    kern: &K,
    math: &M,
    buffer: &TiledBuffer,
    offset: IVec2,
    gradient: &Gradient,
    opacity: u32,
    selection: &Selection,
    canvas: Rect,
) -> (out: Vec<(IVec2, Rgba32F)>)
    requires
        kern.wf(),
        math.wf(),
        buffer.wf(),
        selection.wf(),
    ensures
        lists_writes(
            out@,
            valued(
                canvas,
                offset,
                gradient_fill(
                    kern,
                    math,
                    buffer@,
                    offset,
                    *gradient,
                    opacity,
                    selection@,
                ),
            ),
            value_below(
                offset,
                gradient_fill(
                    kern,
                    math,
                    buffer@,
                    offset,
                    *gradient,
                    opacity,
                    selection@,
                ),
            ),
        ),
        row_by_row(out@),
{
    let ghost value = gradient_fill(
        kern,
        math,
        buffer@,
        offset,
        *gradient,
        opacity,
        selection@,
    );
    let f = |d: IVec2| -> (o: Option<Rgba32F>)
        requires
            kern.wf() && math.wf() && buffer.wf() && selection.wf(),
        ensures
            o == (match local_coord_spec(d, offset) {
                Some(q) => if less(F_ZERO, clip_cov(selection@, d)) {
                    Some(
                        kern.blended(
                            BlendMode::Normal,
                            pixel_at(buffer@, q),
                            shade(math, *gradient, d),
                            kern.scaled(opacity, clip_cov(selection@, d)),
                        ),
                    )
                } else {
                    None
                },
                None => None,
            }),
        {
            match local_coord(d, offset) {
                Some(q) => {
                    let cov: u32 = clip_coverage(selection, d);
                    if is_less(F_ZERO, cov) {
                        let g: Rgba32F = color_at(math, gradient, d);
                        Some(
                            kern.blend(
                                BlendMode::Normal,
                                buffer.get_pixel(q),
                                g,
                                kern.scale(opacity, cov),
                            ),
                        )
                    } else {
                        None
                    }
                },
                None => None,
            }
        };
    collect(canvas, offset, &f, Ghost(value))
}

} // verus!
