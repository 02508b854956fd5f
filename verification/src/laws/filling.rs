//! Filling, picking and painting.
use vstd::prelude::*;

use crate::arith::{difference, product, sum, Arith};
use crate::brush::{stops, BrushKernel, BrushSettings, Dab, InputSample, PaintMode};
use crate::buffer::pixel_at;
use crate::compositor::sum_offset;
use crate::coord::{local_coord_spec, IVec2, Rect};
use crate::exact::{exact, made_of, rounding, two};
use crate::float_bits::{at_least_zero, at_most, finite, less, nan, unit, F_ONE, F_ZERO};
use crate::float_kernel::{stamps_from, step_of, way, FloatKernel};
use crate::kernel::Kernel;
use crate::laws::blending::opaque_sources_replace;
use crate::laws::brushes::erasing_takes_a_share;
use crate::laws::colors::each_channel_is_perceived_on_its_own;
use crate::laws::edges::fills_stop_at_one_channel;
use crate::laws::strokes::{measured, stamps_keep_their_step, stamps_lie_on_the_way};
use crate::layer::BlendMode;
use crate::ops::bucket::{
    clip_cov, fill_chosen, fill_frame, fill_passes, half_width, on_border, selection_fill,
    selection_stroke, FILL_FEATHER,
};
use crate::ops::gradient::{gradient_fill, shade, Gradient};
use crate::ops::magic_wand::{alike_within, grown, in_disk, like};
use crate::ops::mask::revealed_px;
use crate::ops::region::{seeds_are_reached, within};
use crate::pixel::{clear_px, number_or_zero, sanitized, srgb_encoded, Rgba32F};
use crate::selection::SelectionView;

verus! {

/// Without a selection all of a pixel may be changed, with one as much as it covers.
pub proof fn selections_limit_changes(s: SelectionView, p: IVec2)
    ensures
        s.extent() is None ==> clip_cov(s, p) == F_ONE,
        s.extent() is Some ==> clip_cov(s, p) == s.cov(p),
{
}

proof fn lemma_covered<M: Arith>(k: &FloatKernel<M>, d: Set<u32>, was: Rgba32F, color: Rgba32F)
    requires
        exact(&k.math, d),
        made_of(d, was) && made_of(d, color),
        unit(was.a) == was.a && color.a == F_ONE,
    ensures
        k.blended(BlendMode::Normal, was, color, k.scaled(F_ONE, F_ONE)) == color,
        k.blended(BlendMode::Normal, was, color, F_ONE) == color,
{
    let m = &k.math;
    two(m, d, F_ONE, F_ONE);
    two(m, d, F_ONE, was.a);
    two(m, d, difference(m, F_ONE, was.a), F_ONE);
    opaque_sources_replace(m, d, was, color, F_ONE);
}

/// Filling a wholly selected pixel with an opaque color makes it that color, the
/// gradient's color for a gradient; what is not selected is not written.
pub proof fn fills_replace_what_is_selected<M: Arith>(
    k: &FloatKernel<M>,
    d: Set<u32>,
    m: Map<(i32, i32), Seq<Rgba32F>>,
    offset: IVec2,
    color: Rgba32F,
    g: Gradient,
    s: SelectionView,
    p: IVec2,
)
    requires
        exact(&k.math, d),
        local_coord_spec(p, offset) is Some,
        ({
            let was = pixel_at(m, local_coord_spec(p, offset)->0);
            made_of(d, was) && unit(was.a) == was.a
        }),
        made_of(d, color) && color.a == F_ONE,
        made_of(d, shade(&k.math, g, p)) && shade(&k.math, g, p).a == F_ONE,
    ensures
        clip_cov(s, p) == F_ONE ==> {
            &&& selection_fill(k, m, offset, color, F_ONE, s)(p) == Some(color)
            &&& gradient_fill(k, &k.math, m, offset, g, F_ONE, s)(p) == Some(
                shade(&k.math, g, p),
            )
        },
        !less(F_ZERO, clip_cov(s, p)) ==> {
            &&& selection_fill(k, m, offset, color, F_ONE, s)(p) is None
            &&& gradient_fill(k, &k.math, m, offset, g, F_ONE, s)(p) is None
        },
{
    let was = pixel_at(m, local_coord_spec(p, offset)->0);
    lemma_covered(k, d, was, color);
    lemma_covered(k, d, was, shade(&k.math, g, p));
}

/// A mask made from a selection reveals what is selected at all, and hides the rest.
pub proof fn masks_reveal_what_is_selected(s: SelectionView, offset: IVec2, p: IVec2, q: IVec2)
    requires
        sum_offset(p, offset) == Some(q),
    ensures
        less(F_ZERO, s.cov(q)) ==> revealed_px(s, offset, p).r == F_ONE && revealed_px(
            s,
            offset,
            p,
        ).a == F_ONE,
        !less(F_ZERO, s.cov(q)) ==> revealed_px(s, offset, p) == clear_px(),
{
}

/// A pixel looks like itself within any tolerance, so that a region grown from a seed
/// holds the seed.
pub proof fn regions_hold_their_seed<M: Arith>(
    m: &M,
    pixels: Map<(i32, i32), Seq<Rgba32F>>,
    seed: IVec2,
    t: u32,
    bounds: Rect,
    max_radius: Option<u32>,
)
    requires
        rounding(m),
        !nan(t),
        ({
            let px = pixel_at(pixels, seed);
            &&& finite(srgb_encoded(m, number_or_zero(px.r)))
            &&& finite(srgb_encoded(m, number_or_zero(px.g)))
            &&& finite(srgb_encoded(m, number_or_zero(px.b)))
        }),
        bounds.has(seed.x as int, seed.y as int),
    ensures
        alike_within(m, pixel_at(pixels, seed), pixel_at(pixels, seed), t),
        grown(m, pixels, seed, t, bounds, max_radius)(seed),
{
    let px = pixel_at(pixels, seed);
    let (r, g, b) = (
        srgb_encoded(m, number_or_zero(px.r)),
        srgb_encoded(m, number_or_zero(px.g)),
        srgb_encoded(m, number_or_zero(px.b)),
    );
    assert(difference(m, r, r) == F_ZERO && difference(m, g, g) == F_ZERO);
    assert(difference(m, b, b) == F_ZERO && difference(m, unit(px.a), unit(px.a)) == F_ZERO);
    each_channel_is_perceived_on_its_own(m, px, px);
    assert(!nan(product(m, t, t)) && product(m, t, t) < 0x8000_0000);
    let pass = |p: IVec2| in_disk(p, seed, max_radius) && like(m, pixels, px, t)(p);
    assert((seed.x - seed.x) * (seed.x - seed.x) == 0) by (nonlinear_arith);
    assert((seed.y - seed.y) * (seed.y - seed.y) == 0) by (nonlinear_arith);
    if let Some(radius) = max_radius {
        assert(radius * radius >= 0) by (nonlinear_arith);
    }
    assert(pass(seed));
    seeds_are_reached(|q: IVec2| q == seed, within(bounds, pass), false, seed);
}

/// A stroke sets its first stamp down at its first sample, where that is not also the
/// second, and the last one at its last sample.
pub proof fn strokes_start_at_their_first_sample<M: Arith>(
    k: &FloatKernel<M>,
    d: Set<u32>,
    samples: Seq<InputSample>,
    settings: BrushSettings,
)
    requires
        exact(&k.math, d),
        samples.len() >= 2,
        measured(&k.math, d, samples[0], samples[1]),
        less(F_ZERO, way(&k.math, samples[0].pos, samples[1].pos).1),
    ensures
        stops(k, samples, settings).len() >= 2,
        stops(k, samples, settings)[0] == samples[0],
        stops(k, samples, settings).last() == samples.last(),
{
    let m = &k.math;
    let step = step_of(m, settings.sane().size, settings.sane().spacing);
    let (dir, len) = way(m, samples[0].pos, samples[1].pos);
    stamps_lie_on_the_way(m, d, samples[0], samples[1], F_ZERO);
    let at = stamps_keep_their_step(m, samples[0], samples[1], dir, len, step, F_ZERO);
    assert(at[0] == F_ZERO);
    let walked = stamps_from(m, samples, 0, step, F_ZERO);
    assert(walked.len() >= 1 && walked[0] == samples[0]);
    assert(stops(k, samples, settings) == walked.push(samples.last()));
}

/// A stamp of whole alpha paints its color over what was, and as an eraser leaves
/// nothing of it.
pub proof fn whole_stamps_paint_or_clear<M: Arith>(
    k: &FloatKernel<M>,
    d: Set<u32>,
    dab: Dab,
    p: IVec2,
    was: Rgba32F,
)
    requires
        exact(&k.math, d),
        made_of(d, was) && made_of(d, dab.color) && unit(was.a) == was.a,
        dab.alpha_at(k, k, p) == Some(F_ONE),
    ensures
        dab.mode == PaintMode::Brush ==> dab.stamped(k, k, p, was) == (Rgba32F {
            a: F_ONE,
            ..dab.color
        }),
        dab.mode == PaintMode::Eraser ==> dab.stamped(k, k, p, was) == clear_px(),
{
    lemma_covered(k, d, was, Rgba32F { a: F_ONE, ..dab.color });
    erasing_takes_a_share(k, d, was.a, F_ONE);
}

/// An eraser changes the alpha of a pixel and not its color, as long as something is
/// left of it.
pub proof fn erasers_keep_the_color<M: Arith>(
    k: &FloatKernel<M>,
    d: Set<u32>,
    dab: Dab,
    p: IVec2,
    was: Rgba32F,
    alpha: u32,
)
    requires
        exact(&k.math, d),
        d.contains(was.a) && d.contains(alpha),
        dab.mode == PaintMode::Eraser,
        dab.alpha_at(k, k, p) == Some(alpha),
        less(F_ZERO, k.faded(was.a, alpha)),
    ensures
        ({
            let now = dab.stamped(k, k, p, was);
            &&& now.r == was.r && now.g == was.g && now.b == was.b
            &&& sum(&k.math, now.a, product(&k.math, was.a, alpha)) == was.a
        }),
{
    erasing_takes_a_share(k, d, was.a, alpha);
}

/// A paint bucket fills the pixel it is poured on, where that is selected at all.
pub proof fn buckets_fill_their_seed<M: Arith>(
    k: &FloatKernel<M>,
    m: Map<(i32, i32), Seq<Rgba32F>>,
    offset: IVec2,
    seed_doc: IVec2,
    seed: IVec2,
    tolerance: u32,
    s: SelectionView,
    canvas: Rect,
)
    requires
        rounding(&k.math),
        fill_frame(offset, seed_doc, canvas) matches Some(f) && f.1 == seed,
        ({
            let px = sanitized(pixel_at(m, seed));
            finite(px.r) && finite(px.g) && finite(px.b) && finite(px.a)
        }),
        !nan(tolerance),
        at_most(
            F_ZERO,
            product(
                &k.math,
                at_least_zero(tolerance),
                difference(&k.math, F_ONE, FILL_FEATHER),
            ),
        ),
        less(F_ZERO, clip_cov(s, seed_doc)),
        product(&k.math, F_ONE, clip_cov(s, seed_doc)) == clip_cov(s, seed_doc),
    ensures
        sum_offset(seed, offset) == Some(seed_doc),
        fill_chosen(k, &k.math, m, offset, seed_doc, tolerance, s, canvas)(seed),
{
    let math = &k.math;
    let t = at_least_zero(tolerance);
    let px = sanitized(pixel_at(m, seed));
    let bounds = (fill_frame(offset, seed_doc, canvas)->0).0;
    assert(difference(math, px.r, px.r) == F_ZERO && difference(math, px.g, px.g) == F_ZERO);
    assert(difference(math, px.b, px.b) == F_ZERO && difference(math, px.a, px.a) == F_ZERO);
    fills_stop_at_one_channel(math, px, px, t);
    let pass = fill_passes(math, m, offset, seed, t, s);
    assert(pass(seed));
    assert(within(bounds, pass)(seed));
    seeds_are_reached(|q: IVec2| q == seed, within(bounds, pass), false, seed);
}

/// Stroking a selected rectangle with an opaque color gives the pixels of its border
/// that color, and leaves the others alone.
pub proof fn strokes_follow_the_border<M: Arith>(
    k: &FloatKernel<M>,
    d: Set<u32>,
    m: Map<(i32, i32), Seq<Rgba32F>>,
    offset: IVec2,
    color: Rgba32F,
    width: u32,
    r: Rect,
    p: IVec2,
)
    requires
        exact(&k.math, d),
        local_coord_spec(p, offset) is Some,
        ({
            let was = pixel_at(m, local_coord_spec(p, offset)->0);
            made_of(d, was) && unit(was.a) == was.a
        }),
        made_of(d, color) && color.a == F_ONE,
    ensures
        on_border(r, half_width(width), p) ==> selection_stroke(
            k,
            m,
            offset,
            color,
            width,
            F_ONE,
            SelectionView::Rect(r),
        )(p) == Some(color),
        !on_border(r, half_width(width), p) ==> selection_stroke(
            k,
            m,
            offset,
            color,
            width,
            F_ONE,
            SelectionView::Rect(r),
        )(p) is None,
{
    lemma_covered(k, d, pixel_at(m, local_coord_spec(p, offset)->0), color);
}

} // verus!
