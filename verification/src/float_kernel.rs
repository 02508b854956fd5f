//! The engine's arithmetic, built from elementary operations.
use vstd::prelude::*;

use crate::adjust::{apply_adjustment_pixel, pixel_adjusted};
use crate::arith::{
    ceil, difference, floor, minus, over, plus, power, product, quotient, raise, sum, times,
    whole_above, whole_below, Arith,
};
use crate::float_bits::{
    at_least_zero, at_most, clamp, clamped, from_i32, from_u64, is_at_most, is_less, is_zero,
    larger, less, max, max_zero, nearest_i32, nearest_u64, negate, negated, number_of, number_of_i32, rank,
    round_i32, round_u64, zero, F_HALF, F_ONE, F_TWO, F_ZERO,
};
use crate::pixel::{blend_of, sanitize, sanitized, step, Rgba32F};
use crate::blend::{blend_pixel, pixel_blend};
use crate::brush::{BrushKernel, BrushSettings, InputSample};
use crate::coord::{IVec2, Vec2};
use crate::kernel::Kernel;
use crate::layer::{AdjustmentKind, BlendMode};
use crate::ops::magnetic::{gap, gap_of, hypot, hypotenuse};
use crate::ops::matte_key::F_EPSILON;
use crate::ops::matte_math::MatteKernel;
use crate::scanline::{polygon_pixels, scanline_fill};

verus! {

/// The pattern of `0.001`, the least softness of a brush tip that is divided by.
pub const LEAST_SOFTNESS: u32 = 0x3a83126f;

/// A kernel built from elementary arithmetic.
pub struct FloatKernel<M> {
    /// The arithmetic.
    pub math: M,
}

/// The squared distance of two colors, alpha left out.
pub open spec fn color_gap<M: Arith>(m: &M, a: Rgba32F, b: Rgba32F) -> u32 {
    let dr: u32 = difference(m, a.r, b.r);
    let dg: u32 = difference(m, a.g, b.g);
    let db: u32 = difference(m, a.b, b.b);
    sum(m, sum(m, product(m, dr, dr), product(m, dg, dg)), product(m, db, db))
}

/// The squared distance of two colors, alpha left out.
fn dist_sq_rgb<M: Arith>(m: &M, a: Rgba32F, b: Rgba32F) -> (out: u32)
    requires
        m.wf(),
    ensures
        out == color_gap(m, a, b),
{
    let dr: u32 = minus(m, a.r, b.r);
    let dg: u32 = minus(m, a.g, b.g);
    let db: u32 = minus(m, a.b, b.b);
    plus(m, plus(m, times(m, dr, dr), times(m, dg, dg)), times(m, db, db))
}

/// The coverage that explains `pc` as something over the matte's `kc`; none where
/// nothing between zero and one could.
pub open spec fn channel_coverage<M: Arith>(m: &M, pc: u32, kc: u32) -> u32 {
    if less(pc, kc) && less(F_ZERO, kc) {
        quotient(m, difference(m, kc, pc), kc)
    } else if less(kc, pc) && less(kc, F_ONE) {
        quotient(m, difference(m, pc, kc), difference(m, F_ONE, kc))
    } else {
        F_ZERO
    }
}

/// The coverage that explains `pc` as something over the matte's `kc`; none where
/// nothing between zero and one could.
fn coverage<M: Arith>(m: &M, pc: u32, kc: u32) -> (out: u32)
    requires
        m.wf(),
    ensures
        out == channel_coverage(m, pc, kc),
{
    if is_less(pc, kc) && is_less(F_ZERO, kc) {
        over(m, minus(m, kc, pc), kc)
    } else if is_less(kc, pc) && is_less(kc, F_ONE) {
        over(m, minus(m, pc, kc), minus(m, F_ONE, kc))
    } else {
        F_ZERO
    }
}

/// The channel that covers `kc` by `a` and gives `pc`.
pub open spec fn recovered<M: Arith>(m: &M, pc: u32, kc: u32, a: u32) -> u32 {
    sum(m, quotient(m, difference(m, pc, kc), a), kc)
}

/// The channel that covers `kc` by `a` and gives `pc`.
fn recover<M: Arith>(m: &M, pc: u32, kc: u32, a: u32) -> (out: u32)
    requires
        m.wf(),
    ensures
        out == recovered(m, pc, kc, a),
{
    plus(m, over(m, minus(m, pc, kc), a), kc)
}

/// The straight-alpha pixel that, composited over the matte `k`, gives `px`.
///
/// The alpha is the least that explains every channel. Where none is needed the
/// pixel is the matte, and becomes transparent, or it is nothing that lies over
/// the matte, and stays.
pub open spec fn lifted_off<M: Arith>(m: &M, px: Rgba32F, k: Rgba32F) -> Rgba32F {
    let p: Rgba32F = sanitized(px);
    let most: u32 = larger(
        larger(channel_coverage(m, p.r, k.r), channel_coverage(m, p.g, k.g)),
        channel_coverage(m, p.b, k.b),
    );
    let a: u32 = clamped(most, F_ZERO, F_ONE);
    if at_most(a, F_ZERO) {
        if at_most(color_gap(m, p, k), F_EPSILON) {
            Rgba32F { r: F_ZERO, g: F_ZERO, b: F_ZERO, a: F_ZERO }
        } else {
            p
        }
    } else {
        let r: u32 = recovered(m, p.r, k.r, a);
        let g: u32 = recovered(m, p.g, k.g, a);
        let b: u32 = recovered(m, p.b, k.b, a);
        Rgba32F { r, g, b, a: product(m, p.a, a) }
    }
}

/// The straight-alpha pixel that, composited over the matte `k`, gives `px`.
///
/// The alpha is the least that explains every channel. Where none is needed the
/// pixel is the matte, and becomes transparent, or it is nothing that lies over
/// the matte, and stays.
pub fn unmix<M: Arith>(m: &M, px: Rgba32F, k: Rgba32F) -> (out: Rgba32F)
    requires
        m.wf(),
    ensures
        out == lifted_off(m, px, k),
{
    let p: Rgba32F = sanitize(px);
    let most: u32 = max(max(coverage(m, p.r, k.r), coverage(m, p.g, k.g)), coverage(m, p.b, k.b));
    let a: u32 = clamp(most, F_ZERO, F_ONE);
    if is_at_most(a, F_ZERO) {
        if is_at_most(dist_sq_rgb(m, p, k), F_EPSILON) {
            Rgba32F::new(F_ZERO, F_ZERO, F_ZERO, F_ZERO)
        } else {
            p
        }
    } else {
        let r: u32 = recover(m, p.r, k.r, a);
        let g: u32 = recover(m, p.g, k.g, a);
        let b: u32 = recover(m, p.b, k.b, a);
        Rgba32F::new(r, g, b, times(m, p.a, a))
    }
}

/// The alpha of a soft tip at `t` of the way to its edge.
pub open spec fn tip_curve<M: Arith>(m: &M, t: u32, hardness: u32) -> u32 {
    let shape: u32 = quotient(m, F_ONE, larger(difference(m, F_ONE, hardness), LEAST_SOFTNESS));
    clamped(difference(m, F_ONE, power(m, t, shape)), F_ZERO, F_ONE)
}

/// The alpha of a soft tip at `t` of the way to its edge.
fn curve_alpha<M: Arith>(m: &M, t: u32, hardness: u32) -> (out: u32)
    requires
        m.wf(),
    ensures
        out == tip_curve(m, t, hardness),
{
    let shape: u32 = over(m, F_ONE, max(minus(m, F_ONE, hardness), LEAST_SOFTNESS));
    clamp(minus(m, F_ONE, raise(m, t, shape)), F_ZERO, F_ONE)
}

/// The distance of two stamps, at least one pixel.
pub open spec fn step_of<M: Arith>(m: &M, size: u32, spacing: u32) -> u32 {
    larger(product(m, at_least_zero(size), clamped(spacing, F_ZERO, F_ONE)), F_ONE)
}

/// The distance of two stamps, at least one pixel.
fn step_length<M: Arith>(m: &M, size: u32, spacing: u32) -> (out: u32)
    requires
        m.wf(),
    ensures
        out == step_of(m, size, spacing),
{
    max(times(m, max_zero(size), clamp(spacing, F_ZERO, F_ONE)), F_ONE)
}

/// The stamp at distance `d` on the way from one sample to the next.
pub open spec fn stamp_on<M: Arith>(
    m: &M,
    s0: InputSample,
    s1: InputSample,
    dir: Vec2,
    len: u32,
    d: u32,
) -> InputSample {
    let x: u32 = sum(m, s0.pos.x, product(m, dir.x, d));
    let y: u32 = sum(m, s0.pos.y, product(m, dir.y, d));
    let pressure: u32 = blend_of(m, s0.pressure, s1.pressure, quotient(m, d, len));
    InputSample { pos: Vec2 { x, y }, pressure }
}

/// The stamp at distance `d` on the way from one sample to the next.
fn stamp_at<M: Arith>(
    m: &M,
    s0: InputSample,
    s1: InputSample,
    dir: Vec2,
    len: u32,
    d: u32,
) -> (out: InputSample)
    requires
        m.wf(),
    ensures
        out == stamp_on(m, s0, s1, dir, len, d),
{
    let x: u32 = plus(m, s0.pos.x, times(m, dir.x, d));
    let y: u32 = plus(m, s0.pos.y, times(m, dir.y, d));
    let pressure: u32 = step(m, s0.pressure, s1.pressure, over(m, d, len));
    InputSample { pos: Vec2 { x, y }, pressure }
}

/// The direction across a line, rounded to whole pixels.
#[verifier::opaque]
pub open spec fn across<M: Arith>(m: &M, a: IVec2, b: IVec2) -> IVec2 {
    let (dx, dy) = (gap_of(b.x, a.x), gap_of(b.y, a.y));
    let h = hypotenuse(m, dx, dy);
    let len = if less(F_ONE, h) { h } else { F_ONE };
    IVec2 {
        x: nearest_i32(quotient(m, negated(dy), len)) as i32,
        y: nearest_i32(quotient(m, dx, len)) as i32,
    }
}

fn normal_across<M: Arith>(m: &M, a: IVec2, b: IVec2) -> (r: IVec2)
    requires
        m.wf(),
    ensures
        r == across(m, a, b),
{
    proof {
        reveal(across);
    }
    let dx: u32 = gap(b.x, a.x);
    let dy: u32 = gap(b.y, a.y);
    let h: u32 = hypot(m, dx, dy);
    let len: u32 = if is_less(F_ONE, h) { h } else { F_ONE };
    IVec2::new(round_i32(over(m, negate(dy), len)), round_i32(over(m, dx, len)))
}

impl<M: Arith> Kernel for FloatKernel<M> {
    open spec fn wf(&self) -> bool {
        self.math.wf()
    }

    open spec fn blended(
        &self,
        mode: BlendMode,
        dst: Rgba32F,
        src: Rgba32F,
        opacity: u32,
    ) -> Rgba32F {
        pixel_blend(&self.math, mode, dst, src, opacity)
    }

    open spec fn scaled(&self, a: u32, b: u32) -> u32 {
        product(&self.math, a, b)
    }

    open spec fn adjusted(&self, kind: AdjustmentKind, opacity: u32, px: Rgba32F) -> Rgba32F {
        pixel_adjusted(&self.math, kind, opacity, px)
    }

    open spec fn filled(&self, polygon: Seq<IVec2>) -> Seq<IVec2> {
        polygon_pixels(&self.math, polygon)
    }

    open spec fn normal_of(&self, a: IVec2, b: IVec2) -> IVec2 {
        across(&self.math, a, b)
    }

    fn blend(&self, mode: BlendMode, dst: Rgba32F, src: Rgba32F, opacity: u32) -> (r: Rgba32F) {
        blend_pixel(&self.math, mode, dst, src, opacity)
    }

    fn scale(&self, a: u32, b: u32) -> (r: u32) {
        times(&self.math, a, b)
    }

    fn adjust(&self, kind: AdjustmentKind, opacity: u32, px: Rgba32F) -> (r: Rgba32F) {
        apply_adjustment_pixel(&self.math, kind, opacity, px)
    }

    fn fill(&self, polygon: &Vec<IVec2>) -> (r: Vec<IVec2>) {
        scanline_fill(&self.math, polygon)
    }

    fn normal(&self, a: IVec2, b: IVec2) -> (r: IVec2) {
        normal_across(&self.math, a, b)
    }
}

/// The mean of the colors, opaque; black for none.
pub open spec fn mean_color<M: Arith>(m: &M, colors: Seq<Rgba32F>) -> Rgba32F {
    if colors.len() == 0 {
        Rgba32F { r: F_ZERO, g: F_ZERO, b: F_ZERO, a: F_ONE }
    } else {
        Rgba32F {
            r: m.mean_of(colors.map_values(|c: Rgba32F| c.r)),
            g: m.mean_of(colors.map_values(|c: Rgba32F| c.g)),
            b: m.mean_of(colors.map_values(|c: Rgba32F| c.b)),
            a: F_ONE,
        }
    }
}

fn mean_of_colors<M: Arith>(m: &M, colors: &Vec<Rgba32F>) -> (out: Rgba32F)
    requires
        m.wf(),
    ensures
        out == mean_color(m, colors@),
{
    if colors.len() == 0 {
        return Rgba32F::new(F_ZERO, F_ZERO, F_ZERO, F_ONE);
    }
    let mut r: Vec<u32> = Vec::new();
    let mut g: Vec<u32> = Vec::new();
    let mut b: Vec<u32> = Vec::new();
    let mut i: usize = 0;
    while i < colors.len()
        invariant
            i <= colors@.len(),
            r@ == colors@.take(i as int).map_values(|c: Rgba32F| c.r),
            g@ == colors@.take(i as int).map_values(|c: Rgba32F| c.g),
            b@ == colors@.take(i as int).map_values(|c: Rgba32F| c.b),
        decreases colors@.len() - i,
    {
        let c: Rgba32F = colors[i];
        r.push(c.r);
        g.push(c.g);
        b.push(c.b);
        i = i + 1;
        proof {
            assert(r@ =~= colors@.take(i as int).map_values(|c: Rgba32F| c.r));
            assert(g@ =~= colors@.take(i as int).map_values(|c: Rgba32F| c.g));
            assert(b@ =~= colors@.take(i as int).map_values(|c: Rgba32F| c.b));
        }
    }
    assert(colors@.take(i as int) =~= colors@);
    Rgba32F::new(m.mean(&r), m.mean(&g), m.mean(&b), F_ONE)
}

impl<M: Arith> MatteKernel for FloatKernel<M> {
    open spec fn wf(&self) -> bool {
        self.math.wf()
    }

    open spec fn apart(&self, a: Rgba32F, b: Rgba32F) -> u32 {
        color_gap(&self.math, a, b)
    }

    open spec fn times(&self, a: u32, b: u32) -> u32 {
        product(&self.math, a, b)
    }

    open spec fn plus(&self, a: u32, b: u32) -> u32 {
        sum(&self.math, a, b)
    }

    open spec fn mean_of(&self, colors: Seq<Rgba32F>) -> Rgba32F {
        mean_color(&self.math, colors)
    }

    open spec fn brightness(&self, c: Rgba32F) -> u32 {
        sum(&self.math, sum(&self.math, c.r, c.g), c.b)
    }

    open spec fn unmixed(&self, p: Rgba32F, k: Rgba32F) -> Rgba32F {
        lifted_off(&self.math, p, k)
    }

    open spec fn is_share(&self, n: usize, of: usize, share: u32) -> bool {
        at_most(
            product(&self.math, number_of(of as nat) as u32, share),
            number_of(n as nat) as u32,
        )
    }

    open spec fn band_of(&self, softness: u32) -> usize {
        let n = nearest_u64(product(&self.math, at_least_zero(softness), F_TWO));
        (1 + if n < usize::MAX { n } else { usize::MAX - 1 }) as usize
    }

    fn distance(&self, a: Rgba32F, b: Rgba32F) -> (r: u32) {
        dist_sq_rgb(&self.math, a, b)
    }

    fn product(&self, a: u32, b: u32) -> (r: u32) {
        times(&self.math, a, b)
    }

    fn sum(&self, a: u32, b: u32) -> (r: u32) {
        plus(&self.math, a, b)
    }

    fn mean(&self, colors: &Vec<Rgba32F>) -> (r: Rgba32F) {
        mean_of_colors(&self.math, colors)
    }

    fn luma(&self, c: Rgba32F) -> (r: u32) {
        plus(&self.math, plus(&self.math, c.r, c.g), c.b)
    }

    fn unmix(&self, p: Rgba32F, k: Rgba32F) -> (r: Rgba32F) {
        unmix(&self.math, p, k)
    }

    fn reaches(&self, n: usize, of: usize, share: u32) -> (r: bool) {
        is_at_most(times(&self.math, from_u64(of as u64), share), from_u64(n as u64))
    }

    fn band(&self, softness: u32) -> (r: usize) {
        let n: u64 = round_u64(times(&self.math, max_zero(softness), F_TWO));
        1 + if n < usize::MAX as u64 { n as usize } else { usize::MAX - 1 }
    }
}

/// How many numbers there are from `d` up to `len`.
pub open spec fn way_left(len: u32, d: u32) -> int {
    if rank(d) < rank(len) { rank(len) - rank(d) } else { 0 }
}

/// The stamps on the way from one sample to the next, the first at distance `d`.
///
/// A step that is too small to move on ends the way.
pub open spec fn stamps_between<M: Arith>(
    m: &M,
    s0: InputSample,
    s1: InputSample,
    dir: Vec2,
    len: u32,
    step: u32,
    d: u32,
) -> Seq<InputSample>
    decreases way_left(len, d),
{
    if less(d, len) {
        let next = sum(m, d, step);
        seq![stamp_on(m, s0, s1, dir, len, d)] + if less(d, next) {
            stamps_between(m, s0, s1, dir, len, step, next)
        } else {
            Seq::empty()
        }
    } else {
        Seq::empty()
    }
}

/// Where the stamps on a way of length `len` end.
pub open spec fn way_end<M: Arith>(m: &M, len: u32, step: u32, d: u32) -> u32
    decreases way_left(len, d),
{
    if less(d, len) {
        let next = sum(m, d, step);
        if less(d, next) { way_end(m, len, step, next) } else { next }
    } else {
        d
    }
}

/// The direction and the length of the way between two points.
pub open spec fn way<M: Arith>(m: &M, a: Vec2, b: Vec2) -> (Vec2, u32) {
    let (x, y) = (difference(m, b.x, a.x), difference(m, b.y, a.y));
    let len = hypotenuse(m, x, y);
    (Vec2 { x: quotient(m, x, len), y: quotient(m, y, len) }, len)
}

/// The stamps along the samples from number `i` on, the first at distance `d`.
pub open spec fn stamps_from<M: Arith>(
    m: &M,
    samples: Seq<InputSample>,
    i: int,
    step: u32,
    d: u32,
) -> Seq<InputSample>
    decreases samples.len() - i,
{
    if i + 1 >= samples.len() {
        Seq::empty()
    } else {
        let (s0, s1) = (samples[i], samples[i + 1]);
        let (dir, len) = way(m, s0.pos, s1.pos);
        if zero(len) {
            stamps_from(m, samples, i + 1, step, d)
        } else {
            stamps_between(m, s0, s1, dir, len, step, d) + stamps_from(
                m,
                samples,
                i + 1,
                step,
                difference(m, way_end(m, len, step, d), len),
            )
        }
    }
}

fn push_stamps<M: Arith>(
    m: &M,
    s0: InputSample,
    s1: InputSample,
    dir: Vec2,
    len: u32,
    step: u32,
    first: u32,
    out: &mut Vec<InputSample>,
) -> (end: u32)
    requires
        m.wf(),
    ensures
        final(out)@ == old(out)@ + stamps_between(m, s0, s1, dir, len, step, first),
        end == way_end(m, len, step, first),
{
    let ghost goal = out@ + stamps_between(m, s0, s1, dir, len, step, first);
    let mut d: u32 = first;
    let mut stuck: bool = false;
    while !stuck && is_less(d, len)
        invariant
            m.wf(),
            !stuck ==> goal =~= out@ + stamps_between(m, s0, s1, dir, len, step, d),
            !stuck ==> way_end(m, len, step, first) == way_end(m, len, step, d),
            stuck ==> goal =~= out@,
            stuck ==> way_end(m, len, step, first) == d,
        decreases (if stuck { 0 } else { 1int }), way_left(len, d),
    {
        out.push(stamp_at(m, s0, s1, dir, len, d));
        let next: u32 = plus(m, d, step);
        stuck = !is_less(d, next);
        d = next;
    }
    assert(out@ + Seq::<InputSample>::empty() =~= out@);
    d
}

fn walk_samples<M: Arith>(m: &M, samples: &Vec<InputSample>, step: u32) -> (out: Vec<InputSample>)
    requires
        m.wf(),
    ensures
        out@ == stamps_from(m, samples@, 0, step, F_ZERO),
{
    let mut out: Vec<InputSample> = Vec::new();
    if samples.len() == 0 {
        return out;
    }
    let mut d: u32 = F_ZERO;
    let mut i: usize = 0;
    let ghost goal = stamps_from(m, samples@, 0, step, F_ZERO);
    assert(goal =~= out@ + goal);
    while i < samples.len() - 1
        invariant
            m.wf(),
            i + 1 <= samples@.len(),
            goal == stamps_from(m, samples@, 0, step, F_ZERO),
            goal =~= out@ + stamps_from(m, samples@, i as int, step, d),
        decreases samples@.len() - i,
    {
        let s0: InputSample = samples[i];
        let s1: InputSample = samples[i + 1];
        let x: u32 = minus(m, s1.pos.x, s0.pos.x);
        let y: u32 = minus(m, s1.pos.y, s0.pos.y);
        let len: u32 = hypot(m, x, y);
        if !is_zero(len) {
            let dir: Vec2 = Vec2 { x: over(m, x, len), y: over(m, y, len) };
            let end: u32 = push_stamps(m, s0, s1, dir, len, step, d, &mut out);
            d = minus(m, end, len);
        }
        i = i + 1;
    }
    assert(out@ + Seq::<InputSample>::empty() =~= out@);
    out
}

impl<M: Arith> BrushKernel for FloatKernel<M> {
    open spec fn wf(&self) -> bool {
        self.math.wf()
    }

    open spec fn corners_of(&self, center: Vec2, radius: u32) -> (IVec2, IVec2) {
        let m = &self.math;
        (
            IVec2 {
                x: whole_below(m, difference(m, center.x, radius)),
                y: whole_below(m, difference(m, center.y, radius)),
            },
            IVec2 {
                x: whole_above(m, sum(m, center.x, radius)),
                y: whole_above(m, sum(m, center.y, radius)),
            },
        )
    }

    open spec fn distance_of(&self, p: IVec2, center: Vec2) -> u32 {
        let m = &self.math;
        hypotenuse(
            m,
            difference(m, sum(m, number_of_i32(p.x), F_HALF), center.x),
            difference(m, sum(m, number_of_i32(p.y), F_HALF), center.y),
        )
    }

    open spec fn ratio_of(&self, a: u32, b: u32) -> u32 {
        quotient(&self.math, a, b)
    }

    open spec fn curve_of(&self, t: u32, hardness: u32) -> u32 {
        tip_curve(&self.math, t, hardness)
    }

    open spec fn faded(&self, a: u32, alpha: u32) -> u32 {
        product(&self.math, a, difference(&self.math, F_ONE, alpha))
    }

    open spec fn walked(
        &self,
        samples: Seq<InputSample>,
        settings: BrushSettings,
    ) -> Seq<InputSample> {
        let step = step_of(&self.math, settings.size, settings.spacing);
        stamps_from(&self.math, samples, 0, step, F_ZERO)
    }

    open spec fn localized(&self, pos: Vec2, offset: IVec2) -> Vec2 {
        Vec2 {
            x: difference(&self.math, pos.x, number_of_i32(offset.x)),
            y: difference(&self.math, pos.y, number_of_i32(offset.y)),
        }
    }

    fn corners(&self, center: Vec2, radius: u32) -> (r: (IVec2, IVec2)) {
        let m: &M = &self.math;
        (
            IVec2::new(floor(m, minus(m, center.x, radius)), floor(m, minus(m, center.y, radius))),
            IVec2::new(ceil(m, plus(m, center.x, radius)), ceil(m, plus(m, center.y, radius))),
        )
    }

    fn distance(&self, p: IVec2, center: Vec2) -> (r: u32) {
        let m: &M = &self.math;
        hypot(
            m,
            minus(m, plus(m, from_i32(p.x), F_HALF), center.x),
            minus(m, plus(m, from_i32(p.y), F_HALF), center.y),
        )
    }

    fn ratio(&self, a: u32, b: u32) -> (r: u32) {
        over(&self.math, a, b)
    }

    fn curve(&self, t: u32, hardness: u32) -> (r: u32) {
        curve_alpha(&self.math, t, hardness)
    }

    fn fade(&self, a: u32, alpha: u32) -> (r: u32) {
        times(&self.math, a, minus(&self.math, F_ONE, alpha))
    }

    fn walk(&self, samples: &Vec<InputSample>, settings: BrushSettings) -> (r: Vec<InputSample>) {
        walk_samples(&self.math, samples, step_length(&self.math, settings.size, settings.spacing))
    }

    fn localize(&self, pos: Vec2, offset: IVec2) -> (r: Vec2) {
        Vec2 {
            x: minus(&self.math, pos.x, from_i32(offset.x)),
            y: minus(&self.math, pos.y, from_i32(offset.y)),
        }
    }
}

} // verus!
