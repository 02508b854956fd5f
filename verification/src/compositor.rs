//! CPU reference compositor.
//!
//! This module composites a [`Document`] into a flat row-major buffer of
//! straight-alpha pixels.
//!
//! Groups are composited by first merging their children into a temporary
//! buffer and then blending that buffer over the accumulated result using the
//! group's own blend mode, opacity, and offset.
use vstd::prelude::*;

use crate::buffer::{
    alike, pixel_at, set_pixel_keeps_sparse, set_pixel_then_get, sparse, TiledBuffer,
};
use crate::coord::{fits_i32, local_coord, local_coord_spec, IVec2, Rect};
use crate::document::{paint_list, painted_layers_occur_once, DocView, Document};
use crate::error::OgreError;
use crate::float_bits::{
    clamp, clamp01_nan0, clamped, finite, is_finite, is_zero, unit, zero, F_HALF, F_ONE, F_ZERO,
};
use crate::kernel::Kernel;
use crate::layer::{
    AdjustmentKind, BlendMode, ContentView, CurvePoint, Layer, LayerContent, LayerId, LayerView,
};
use crate::pixel::{clear_px, Rgba32F};
use crate::vector_raster::{rasterize_vector_data, vector_pixels};

verus! {

/// A value, or `default` where it is not finite.
pub open spec fn finite_else(v: u32, default: u32) -> u32 {
    if finite(v) { v } else { default }
}

fn finite_or(v: u32, default: u32) -> (r: u32)
    ensures
        r == finite_else(v, default),
{
    if is_finite(v) { v } else { default }
}

/// A color with each channel between zero and one.
pub open spec fn sane_color(c: Rgba32F) -> Rgba32F {
    Rgba32F { r: unit(c.r), g: unit(c.g), b: unit(c.b), a: unit(c.a) }
}

/// Clamp each channel of a colour to `[0, 1]`, mapping what is no number to 0.
fn sanitize_color(c: Rgba32F) -> (r: Rgba32F)
    ensures
        r == sane_color(c),
{
    Rgba32F::new(clamp01_nan0(c.r), clamp01_nan0(c.g), clamp01_nan0(c.b), clamp01_nan0(c.a))
}

/// A point with finite coordinates.
pub open spec fn sane_point(p: CurvePoint) -> CurvePoint {
    CurvePoint { input: finite_else(p.input, F_ZERO), output: finite_else(p.output, F_ZERO) }
}

fn sanitize_point(p: CurvePoint) -> (r: CurvePoint)
    ensures
        r == sane_point(p),
{
    CurvePoint { input: finite_or(p.input, F_ZERO), output: finite_or(p.output, F_ZERO) }
}

/// `r` is the adjustment `k` with safe values for the parameters that are not
/// finite.
pub open spec fn is_sane(k: AdjustmentKind, r: AdjustmentKind) -> bool {
    match k {
        AdjustmentKind::BrightnessContrast { brightness, contrast } => r
            == (AdjustmentKind::BrightnessContrast {
            brightness: finite_else(brightness, F_ZERO),
            contrast: finite_else(contrast, F_ONE),
        }),
        AdjustmentKind::Levels { input_black, input_white, output_black, output_white, gamma } => r
            == (AdjustmentKind::Levels {
            input_black: finite_else(input_black, F_ZERO),
            input_white: finite_else(input_white, F_ONE),
            output_black: finite_else(output_black, F_ZERO),
            output_white: finite_else(output_white, F_ONE),
            gamma: finite_else(gamma, F_ONE),
        }),
        AdjustmentKind::HueSat { hue, saturation, lightness } => r == (AdjustmentKind::HueSat {
            hue: finite_else(hue, F_ZERO),
            saturation: finite_else(saturation, F_ONE),
            lightness: finite_else(lightness, F_ZERO),
        }),
        AdjustmentKind::Curves { points } => r matches AdjustmentKind::Curves { points: q } && q@
            == points@.map_values(|p: CurvePoint| sane_point(p)),
        AdjustmentKind::Posterize { levels } => r == (AdjustmentKind::Posterize {
            levels: if levels < 2 { 2 } else { levels },
        }),
        AdjustmentKind::Threshold { level } => r == (AdjustmentKind::Threshold {
            level: clamped(finite_else(level, F_HALF), F_ZERO, F_ONE),
        }),
        AdjustmentKind::GradientMap { fg, bg } => r == (AdjustmentKind::GradientMap {
            fg: sane_color(fg),
            bg: sane_color(bg),
        }),
        AdjustmentKind::Invert => r == k,
        AdjustmentKind::Desaturate => r == k,
    }
}

/// The adjustment with safe values for the parameters that are not finite.
pub open spec fn sane(k: AdjustmentKind) -> AdjustmentKind {
    choose|r: AdjustmentKind| is_sane(k, r)
}

/// There is one such adjustment.
pub proof fn sane_adjustment_is_unique(k: AdjustmentKind, r: AdjustmentKind)
    requires
        is_sane(k, r),
    ensures
        r == sane(k),
        is_sane(k, sane(k)),
{
    let s = sane(k);
    assert(is_sane(k, s));
    if let AdjustmentKind::Curves { points } = k {
        let a = r->points;
        let b = s->points;
        assert(a@ == b@);
        assert(a =~= b);
    }
}

/// Replace any non-finite adjustment parameters with safe defaults.
///
/// Adjustment parameters are read from files, so a corrupt value could
/// otherwise propagate into every composited pixel. Sanitizing once per
/// adjustment keeps the per-pixel loop branch-free.
pub fn sanitize_adjustment(kind: &AdjustmentKind) -> (r: AdjustmentKind)
    ensures
        r == sane(*kind),
        is_sane(*kind, r),
{
    let r = match *kind {
        AdjustmentKind::BrightnessContrast { brightness, contrast } =>
        AdjustmentKind::BrightnessContrast {
            brightness: finite_or(brightness, F_ZERO),
            contrast: finite_or(contrast, F_ONE),
        },
        AdjustmentKind::Levels { input_black, input_white, output_black, output_white, gamma } =>
        AdjustmentKind::Levels {
            input_black: finite_or(input_black, F_ZERO),
            input_white: finite_or(input_white, F_ONE),
            output_black: finite_or(output_black, F_ZERO),
            output_white: finite_or(output_white, F_ONE),
            gamma: finite_or(gamma, F_ONE),
        },
        AdjustmentKind::HueSat { hue, saturation, lightness } => AdjustmentKind::HueSat {
            hue: finite_or(hue, F_ZERO),
            saturation: finite_or(saturation, F_ONE),
            lightness: finite_or(lightness, F_ZERO),
        },
        AdjustmentKind::Curves { points } => {
            let q: [CurvePoint; 4] = [
                sanitize_point(points[0]),
                sanitize_point(points[1]),
                sanitize_point(points[2]),
                sanitize_point(points[3]),
            ];
            assert(q@ =~= points@.map_values(|p: CurvePoint| sane_point(p)));
            AdjustmentKind::Curves { points: q }
        },
        AdjustmentKind::Posterize { levels } => AdjustmentKind::Posterize {
            levels: if levels < 2 { 2 } else { levels },
        },
        AdjustmentKind::Threshold { level } => AdjustmentKind::Threshold {
            level: clamp(finite_or(level, F_HALF), F_ZERO, F_ONE),
        },
        AdjustmentKind::GradientMap { fg, bg } => AdjustmentKind::GradientMap {
            fg: sanitize_color(fg),
            bg: sanitize_color(bg),
        },
        AdjustmentKind::Invert => AdjustmentKind::Invert,
        AdjustmentKind::Desaturate => AdjustmentKind::Desaturate,
    };
    proof {
        sane_adjustment_is_unique(*kind, r);
    }
    r
}

/// What is known of a group while its children are composited.
#[derive(Clone, Copy)]
pub struct GroupState {
    /// The nesting depth of the group in the render order.
    pub depth: u8,
    /// Blend mode applied to the merged group result.
    pub blend: BlendMode,
    /// Opacity applied to the merged group result.
    pub opacity: u32,
    /// Cumulative offset of this group and all enclosing groups.
    pub offset: IVec2,
    /// `false` when the cumulative group offset overflowed `i32`; children are
    /// treated as transparent.
    pub valid: bool,
}

/// The sum of two offsets, if it has `i32` coordinates.
pub open spec fn sum_offset(a: IVec2, b: IVec2) -> Option<IVec2> {
    if fits_i32(a.x + b.x) && fits_i32(a.y + b.y) {
        Some(IVec2 { x: (a.x + b.x) as i32, y: (a.y + b.y) as i32 })
    } else {
        None
    }
}

fn add_offset(a: IVec2, b: IVec2) -> (r: Option<IVec2>)
    ensures
        r == sum_offset(a, b),
{
    match (a.x.checked_add(b.x), a.y.checked_add(b.y)) {
        (Some(x), Some(y)) => Some(IVec2::new(x, y)),
        _ => None,
    }
}

/// The state of a group that is entered at `depth`, inside groups with the given
/// cumulative offset.
pub open spec fn group_state(l: LayerView, depth: u8, offset: IVec2, valid: bool) -> GroupState {
    let sum = if valid { sum_offset(offset, l.offset) } else { None };
    GroupState {
        depth,
        blend: l.blend,
        opacity: unit(l.opacity),
        offset: match sum {
            Some(o) => o,
            None => IVec2 { x: 0, y: 0 },
        },
        valid: sum is Some,
    }
}

impl GroupState {
    fn from_layer(layer: &Layer, depth: u8, offset: IVec2, valid: bool) -> (r: Self)
        ensures
            r == group_state(layer@, depth, offset, valid),
    {
        let sum: Option<IVec2> = if valid { add_offset(offset, layer.offset) } else { None };
        let ok: bool = sum.is_some();
        GroupState {
            depth,
            blend: layer.blend,
            opacity: clamp01_nan0(layer.opacity),
            offset: match sum {
                Some(o) => o,
                None => IVec2::zero(),
            },
            valid: ok,
        }
    }
}

/// The pixel of a layer's tiles, with its alpha scaled by the mask.
pub open spec fn masked_px<K: Kernel>(
    kern: &K,
    m: Map<(i32, i32), Seq<Rgba32F>>,
    mask: Option<Map<(i32, i32), Seq<Rgba32F>>>,
    p: IVec2,
) -> Rgba32F {
    let px = pixel_at(m, p);
    match mask {
        Some(c) => Rgba32F { a: kern.scaled(px.a, unit(pixel_at(c, p).r)), ..px },
        None => px,
    }
}

/// `dst` once the tiles of layer `l`, seen at document position `pos`, lie over
/// it.
pub open spec fn over<K: Kernel>(
    kern: &K,
    l: LayerView,
    m: Map<(i32, i32), Seq<Rgba32F>>,
    mask: Option<Map<(i32, i32), Seq<Rgba32F>>>,
    group_offset: IVec2,
    pos: IVec2,
    dst: Rgba32F,
) -> Rgba32F {
    let opacity = unit(l.opacity);
    if !l.visible || zero(opacity) {
        dst
    } else {
        match sum_offset(l.offset, group_offset) {
            None => dst,
            Some(o) => match local_coord_spec(pos, o) {
                None => dst,
                Some(p) => {
                    let px = masked_px(kern, m, mask, p);
                    if zero(px.a) { dst } else { kern.blended(l.blend, dst, px, opacity) }
                },
            },
        }
    }
}

/// How far the composition of one pixel has come.
pub struct PixelState {
    /// The color of the innermost open group so far.
    pub accum: Rgba32F,
    /// For each open group, outermost first, the color below it and its state.
    pub stack: Seq<(Rgba32F, GroupState)>,
    /// The depth of an invisible group whose content is being skipped.
    pub skip: Option<u8>,
}

/// The state with every group closed that does not hold a layer at `depth`.
pub open spec fn closed_to<K: Kernel>(kern: &K, s: PixelState, depth: u8) -> PixelState
    decreases s.stack.len(),
{
    if s.stack.len() > 0 && depth <= s.stack.last().1.depth {
        closed_to(kern, closed_one(kern, s), depth)
    } else {
        s
    }
}

/// The state with the innermost group closed.
pub open spec fn closed_one<K: Kernel>(kern: &K, s: PixelState) -> PixelState {
    let top = s.stack.last();
    PixelState {
        accum: kern.blended(top.1.blend, top.0, s.accum, top.1.opacity),
        stack: s.stack.drop_last(),
        skip: s.skip,
    }
}

/// The state with every group closed.
pub open spec fn closed_all<K: Kernel>(kern: &K, s: PixelState) -> PixelState
    decreases s.stack.len(),
{
    if s.stack.len() > 0 { closed_all(kern, closed_one(kern, s)) } else { s }
}

/// The cumulative offset of the open groups, and whether there is one.
pub open spec fn group_place(stack: Seq<(Rgba32F, GroupState)>) -> (IVec2, bool) {
    if stack.len() > 0 {
        (stack.last().1.offset, stack.last().1.valid)
    } else {
        (IVec2 { x: 0, y: 0 }, true)
    }
}

/// The state after layer `l`, met at `depth`, with the groups that do not hold
/// it already closed.
pub open spec fn layer_step<K: Kernel>(
    kern: &K,
    pos: IVec2,
    l: LayerView,
    depth: u8,
    s: PixelState,
) -> PixelState {
    let (offset, valid) = group_place(s.stack);
    match l.content {
        ContentView::Group(c) => if !l.visible {
            PixelState { skip: Some(depth), ..s }
        } else {
            PixelState {
                accum: clear_px(),
                stack: s.stack.push((s.accum, group_state(l, depth, offset, valid))),
                skip: s.skip,
            }
        },
        ContentView::Adjustment(k) => if l.visible && !zero(unit(l.opacity)) && valid {
            PixelState { accum: kern.adjusted(sane(k), unit(l.opacity), s.accum), ..s }
        } else {
            s
        },
        ContentView::Vector(d) => if valid {
            PixelState {
                accum: over(kern, l, vector_pixels(kern, d), None, offset, pos, s.accum),
                ..s
            }
        } else {
            s
        },
        ContentView::Raster { buffer, mask } => if valid {
            PixelState { accum: over(kern, l, buffer, mask, offset, pos, s.accum), ..s }
        } else {
            s
        },
    }
}

/// The state after the layer that the render order names next.
pub open spec fn pixel_step<K: Kernel>(
    kern: &K,
    v: DocView,
    pos: IVec2,
    s: PixelState,
    item: (LayerId, u8),
) -> PixelState {
    if s.skip matches Some(d) && item.1 > d {
        s
    } else {
        let c = closed_to(kern, PixelState { skip: None, ..s }, item.1);
        layer_step(kern, pos, v.layers[item.0], item.1, c)
    }
}

/// The state after the layers of a render order.
pub open spec fn pixel_state<K: Kernel>(
    kern: &K,
    v: DocView,
    pos: IVec2,
    order: Seq<(LayerId, u8)>,
) -> PixelState
    decreases order.len(),
{
    if order.len() == 0 {
        PixelState { accum: clear_px(), stack: Seq::empty(), skip: None }
    } else {
        pixel_step(kern, v, pos, pixel_state(kern, v, pos, order.drop_last()), order.last())
    }
}

/// The color of a document at a position, for a given render order.
pub open spec fn composite_px<K: Kernel>(
    kern: &K,
    v: DocView,
    pos: IVec2,
    order: Seq<(LayerId, u8)>,
) -> Rgba32F {
    closed_all(kern, pixel_state(kern, v, pos, order)).accum
}

/// Lay a layer's pixel over `dst`.
fn sample_layer_pixel<K: Kernel>(
    kern: &K,
    layer: &Layer,
    buffer: &TiledBuffer,
    mask: Option<&TiledBuffer>,
    group_offset: IVec2,
    pos: IVec2,
    dst: Rgba32F,
) -> (r: Rgba32F)
    requires
        kern.wf(),
        buffer.wf(),
        mask matches Some(m) ==> m.wf(),
    ensures
        r == over(
            kern,
            layer@,
            buffer@,
            match mask {
                Some(m) => Some(m@),
                None => None,
            },
            group_offset,
            pos,
            dst,
        ),
{
    let opacity: u32 = clamp01_nan0(layer.opacity);
    if !layer.visible || is_zero(opacity) {
        return dst;
    }
    let offset: IVec2 = match add_offset(layer.offset, group_offset) {
        Some(o) => o,
        None => {
            return dst;
        },
    };
    let p: IVec2 = match local_coord(pos, offset) {
        Some(p) => p,
        None => {
            return dst;
        },
    };
    let mut px: Rgba32F = buffer.get_pixel(p);
    if let Some(m) = mask {
        let cov: u32 = clamp01_nan0(m.get_pixel(p).r);
        px.a = kern.scale(px.a, cov);
    }
    if is_zero(px.a) {
        return dst;
    }
    kern.blend(layer.blend, dst, px, opacity)
}

/// The executable form of [`PixelState`].
pub open spec fn state_of(
    accum: Rgba32F,
    stack: Seq<(Rgba32F, GroupState)>,
    skip: Option<u8>,
) -> PixelState {
    PixelState { accum, stack, skip }
}

fn close_group_pixel<K: Kernel>(
    kern: &K,
    accum: &mut Rgba32F,
    stack: &mut Vec<(Rgba32F, GroupState)>,
)
    requires
        kern.wf(),
        old(stack)@.len() > 0,
    ensures
        forall|skip: Option<u8>| #[trigger]
            state_of(*final(accum), final(stack)@, skip) == closed_one(
                kern,
                state_of(*old(accum), old(stack)@, skip),
            ),
{
    match stack.pop() {
        Some((saved, state)) => {
            *accum = kern.blend(state.blend, saved, *accum, state.opacity);
        },
        None => {},
    }
}

/// The color of a document at one position, for a given render order.
fn sample_order<K: Kernel>(
    kern: &K,
    doc: &Document,
    pos: IVec2,
    order: &Vec<(LayerId, u8)>,
) -> (r: Rgba32F)
    requires
        kern.wf(),
        doc.wf(),
        forall|i: int| 0 <= i < order@.len() ==> doc@.has((#[trigger] order@[i]).0),
    ensures
        r == composite_px(kern, doc@, pos, order@),
{
    let mut accum: Rgba32F = Rgba32F::transparent();
    let mut stack: Vec<(Rgba32F, GroupState)> = Vec::new();
    let mut skip: Option<u8> = None;
    let mut i: usize = 0;
    assert(order@.take(0) =~= Seq::empty());
    assert(stack@ =~= Seq::empty());
    while i < order.len()
        invariant
            kern.wf(),
            doc.wf(),
            forall|i: int| 0 <= i < order@.len() ==> doc@.has((#[trigger] order@[i]).0),
            i <= order@.len(),
            state_of(accum, stack@, skip) == pixel_state(kern, doc@, pos, order@.take(i as int)),
        decreases order@.len() - i,
    {
        let (id, depth) = order[i];
        let ghost s = state_of(accum, stack@, skip);
        proof {
            assert(order@.take(i + 1).drop_last() =~= order@.take(i as int));
            assert(order@.take(i + 1).last() == order@[i as int]);
            assert(doc@.has(order@[i as int].0));
        }
        let skipped: bool = match skip {
            Some(d) => depth > d,
            None => false,
        };
        if !skipped {
            skip = None;
            // Close any groups that have finished before the next layer.
            while stack.len() > 0 && depth <= stack[stack.len() - 1].1.depth
                invariant
                    kern.wf(),
                    skip is None,
                    closed_to(kern, state_of(accum, stack@, None), depth) == closed_to(
                        kern,
                        PixelState { skip: None, ..s },
                        depth,
                    ),
                decreases stack@.len(),
            {
                let ghost t = state_of(accum, stack@, None);
                close_group_pixel(kern, &mut accum, &mut stack);
                assert(state_of(accum, stack@, None) == closed_one(kern, t));
            }
            let ghost c = state_of(accum, stack@, None);
            let (offset, valid) = if stack.len() > 0 {
                (stack[stack.len() - 1].1.offset, stack[stack.len() - 1].1.valid)
            } else {
                (IVec2::zero(), true)
            };
            if let Ok(layer) = doc.layer(id) {
                match &layer.content {
                    LayerContent::Group { .. } => {
                        if !layer.visible {
                            skip = Some(depth);
                        } else {
                            stack.push((accum, GroupState::from_layer(layer, depth, offset, valid)));
                            accum = Rgba32F::transparent();
                        }
                    },
                    LayerContent::Adjustment(kind) => {
                        let opacity: u32 = clamp01_nan0(layer.opacity);
                        if layer.visible && !is_zero(opacity) && valid {
                            accum = kern.adjust(sanitize_adjustment(kind), opacity, accum);
                        }
                    },
                    LayerContent::Vector(data) => {
                        if valid {
                            let pixels: TiledBuffer = rasterize_vector_data(kern, data);
                            accum = sample_layer_pixel(kern, layer, &pixels, None, offset, pos, accum);
                        }
                    },
                    LayerContent::Raster { buffer, mask } => {
                        if valid {
                            accum =
                            sample_layer_pixel(
                                kern,
                                layer,
                                buffer,
                                mask.as_ref(),
                                offset,
                                pos,
                                accum,
                            );
                        }
                    },
                }
                assert(state_of(accum, stack@, skip) == layer_step(
                    kern,
                    pos,
                    doc@.layers[id],
                    depth,
                    c,
                ));
            }
        }
        i = i + 1;
    }
    assert(order@.take(i as int) =~= order@);
    let ghost s = state_of(accum, stack@, skip);
    while stack.len() > 0
        invariant
            kern.wf(),
            closed_all(kern, state_of(accum, stack@, skip)) == closed_all(kern, s),
        decreases stack@.len(),
    {
        let ghost t = state_of(accum, stack@, skip);
        close_group_pixel(kern, &mut accum, &mut stack);
        assert(state_of(accum, stack@, skip) == closed_one(kern, t));
    }
    accum
}

/// Sample the blended color at a single document pixel without allocating a
/// full output buffer.
///
/// Returns `None` when `pos` is outside the canvas or the layer tree contains a
/// cycle. The returned color matches [`composite_document`] for a 1×1 region at
/// the same position.
pub fn sample_document_pixel<K: Kernel>(kern: &K, doc: &Document, pos: IVec2) -> (r: Option<
    Rgba32F,
>)
    requires
        kern.wf(),
        doc.wf(),
    ensures
        r == (if !doc@.canvas.has(pos.x as int, pos.y as int) {
            None
        } else {
            match paint_list(doc@, doc@.order, 0, Set::empty()) {
                Err(e) => None,
                Ok(a) => Some(composite_px(kern, doc@, pos, a.0)),
            }
        }),
{
    if !doc.canvas_rect().contains(pos) {
        return None;
    }
    match doc.render_order() {
        Err(_) => None,
        Ok(order) => {
            proof {
                doc.lemma_ids();
                painted_layers_occur_once(doc@, doc@.order);
            }
            Some(sample_order(kern, doc, pos, &order))
        },
    }
}

/// The document position of pixel number `idx`, row by row, of a region.
pub open spec fn region_pos(region: Rect, idx: int) -> IVec2 {
    IVec2 {
        x: ((region.x + idx % (region.w as int)) as i64) as i32,
        y: ((region.y + idx / (region.w as int)) as i64) as i32,
    }
}

fn position_in(region: Rect, idx: usize) -> (p: IVec2)
    requires
        region.w > 0,
        idx < region.w * region.h,
    ensures
        p == region_pos(region, idx as int),
{
    let w: u64 = region.w as u64;
    let i: u64 = idx as u64;
    let ghost wi = region.w as int;
    assert(0 <= idx as int % wi < wi) by (nonlinear_arith)
        requires
            wi > 0,
    ;
    assert(0 <= idx as int / wi < region.h) by (nonlinear_arith)
        requires
            wi > 0,
            0 <= idx < wi * region.h,
            wi == region.w,
    ;
    let x: i64 = region.x as i64 + (i % w) as i64;
    let y: i64 = region.y as i64 + (i / w) as i64;
    IVec2::new(x as i32, y as i32)
}

/// How far the composition of pixel `idx` has come.
pub open spec fn column(
    accum: Seq<Rgba32F>,
    stack: Seq<(Vec<Rgba32F>, GroupState)>,
    skip: Option<u8>,
    idx: int,
) -> PixelState {
    PixelState {
        accum: accum[idx],
        stack: stack.map_values(|f: (Vec<Rgba32F>, GroupState)| (f.0@[idx], f.1)),
        skip,
    }
}

/// Every buffer has one pixel for each of the region.
spec fn frames_full(
    accum: Seq<Rgba32F>,
    stack: Seq<(Vec<Rgba32F>, GroupState)>,
    area: int,
) -> bool {
    accum.len() == area && forall|j: int| 0 <= j < stack.len() ==> (#[trigger] stack[j]).0@.len() == area
}

/// Blend the pixels of a finished group over those below it.
fn close_group<K: Kernel>(
    kern: &K,
    accum: &mut Vec<Rgba32F>,
    stack: &mut Vec<(Vec<Rgba32F>, GroupState)>,
)
    requires
        kern.wf(),
        old(stack)@.len() > 0,
        frames_full(old(accum)@, old(stack)@, old(accum)@.len() as int),
    ensures
        frames_full(final(accum)@, final(stack)@, old(accum)@.len() as int),
        final(stack)@ == old(stack)@.drop_last(),
        forall|skip: Option<u8>, idx: int|
            0 <= idx < old(accum)@.len() ==> #[trigger] column(
                final(accum)@,
                final(stack)@,
                skip,
                idx,
            ) == closed_one(kern, column(old(accum)@, old(stack)@, skip, idx)),
{
    let ghost acc0 = accum@;
    let ghost st0 = stack@;
    match stack.pop() {
        Some((saved, state)) => {
            let n: usize = accum.len();
            let mut i: usize = 0;
            assert(st0.last() == (saved, state));
            assert(saved@.len() == n) by {
                assert(st0[st0.len() - 1].0@.len() == n);
            }
            while i < n
                invariant
                    kern.wf(),
                    i <= n,
                    accum@.len() == n,
                    acc0.len() == n,
                    saved@.len() == n,
                    forall|k: int|
                        0 <= k < n ==> #[trigger] accum@[k] == (if k < i {
                            kern.blended(state.blend, saved@[k], acc0[k], state.opacity)
                        } else {
                            acc0[k]
                        }),
                decreases n - i,
            {
                let px: Rgba32F = kern.blend(state.blend, saved[i], accum[i], state.opacity);
                accum.set(i, px);
                i = i + 1;
            }
            proof {
                assert(stack@ =~= st0.drop_last());
                assert forall|skip: Option<u8>, idx: int| 0 <= idx < acc0.len() implies #[trigger] column(
                    accum@,
                    stack@,
                    skip,
                    idx,
                ) == closed_one(kern, column(acc0, st0, skip, idx)) by {
                    let a = column(acc0, st0, skip, idx);
                    assert(a.stack.last() == (saved@[idx], state));
                    assert(a.stack.drop_last() =~= column(accum@, stack@, skip, idx).stack);
                }
            }
        },
        None => {},
    }
}

/// Apply an adjustment to every pixel in the current accumulator.
fn apply_adjustment<K: Kernel>(
    kern: &K,
    accum: &mut Vec<Rgba32F>,
    kind: &AdjustmentKind,
    opacity: u32,
)
    requires
        kern.wf(),
    ensures
        final(accum)@.len() == old(accum)@.len(),
        forall|k: int|
            0 <= k < old(accum)@.len() ==> #[trigger] final(accum)@[k] == kern.adjusted(
                sane(*kind),
                opacity,
                old(accum)@[k],
            ),
{
    // Sanitize non-finite parameters once.
    let kind: AdjustmentKind = sanitize_adjustment(kind);
    let n: usize = accum.len();
    let mut i: usize = 0;
    while i < n
        invariant
            kern.wf(),
            i <= n,
            accum@.len() == n,
            old(accum)@.len() == n,
            forall|k: int|
                0 <= k < n ==> #[trigger] accum@[k] == (if k < i {
                    kern.adjusted(kind, opacity, old(accum)@[k])
                } else {
                    old(accum)@[k]
                }),
        decreases n - i,
    {
        let px: Rgba32F = kern.adjust(kind, opacity, accum[i]);
        accum.set(i, px);
        i = i + 1;
    }
}

/// Composite an explicit buffer (used for both raster layers and the on-the-fly
/// rasterized vector layers).
fn composite_explicit_buffer<K: Kernel>(
    kern: &K,
    layer: &Layer,
    buffer: &TiledBuffer,
    mask: Option<&TiledBuffer>,
    region: Rect,
    accum: &mut Vec<Rgba32F>,
    group_offset: IVec2,
)
    requires
        kern.wf(),
        buffer.wf(),
        mask matches Some(m) ==> m.wf(),
        region.w > 0,
        old(accum)@.len() == region.w * region.h,
    ensures
        final(accum)@.len() == old(accum)@.len(),
        forall|k: int|
            0 <= k < old(accum)@.len() ==> #[trigger] final(accum)@[k] == over(
                kern,
                layer@,
                buffer@,
                match mask {
                    Some(m) => Some(m@),
                    None => None,
                },
                group_offset,
                region_pos(region, k),
                old(accum)@[k],
            ),
{
    let n: usize = accum.len();
    let ghost gm = match mask {
        Some(m) => Some(m@),
        None => None,
    };
    let mut i: usize = 0;
    while i < n
        invariant
            kern.wf(),
            buffer.wf(),
            mask matches Some(m) ==> m.wf(),
            gm == (match mask {
                Some(m) => Some(m@),
                None => None,
            }),
            region.w > 0,
            n == region.w * region.h,
            i <= n,
            accum@.len() == n,
            old(accum)@.len() == n,
            forall|k: int|
                0 <= k < n ==> #[trigger] accum@[k] == (if k < i {
                    over(
                        kern,
                        layer@,
                        buffer@,
                        gm,
                        group_offset,
                        region_pos(region, k),
                        old(accum)@[k],
                    )
                } else {
                    old(accum)@[k]
                }),
        decreases n - i,
    {
        let pos: IVec2 = position_in(region, i);
        let px: Rgba32F = sample_layer_pixel(
            kern,
            layer,
            buffer,
            mask,
            group_offset,
            pos,
            accum[i],
        );
        accum.set(i, px);
        i = i + 1;
    }
}

/// After the layers of `order`, every pixel has come as far as its state says.
spec fn frames_agree<K: Kernel>(
    kern: &K,
    v: DocView,
    region: Rect,
    order: Seq<(LayerId, u8)>,
    accum: Seq<Rgba32F>,
    stack: Seq<(Vec<Rgba32F>, GroupState)>,
    skip: Option<u8>,
) -> bool {
    forall|idx: int|
        0 <= idx < accum.len() ==> #[trigger] column(accum, stack, skip, idx) == pixel_state(
            kern,
            v,
            region_pos(region, idx),
            order,
        )
}

/// Bring the buffers of a region from one layer of the render order to the next.
fn composite_step<K: Kernel>(
    kern: &K,
    doc: &Document,
    region: Rect,
    id: LayerId,
    depth: u8,
    accum: &mut Vec<Rgba32F>,
    stack: &mut Vec<(Vec<Rgba32F>, GroupState)>,
    skip: &mut Option<u8>,
)
    requires
        kern.wf(),
        doc.wf(),
        doc@.has(id),
        region.w > 0,
        old(accum)@.len() == region.w * region.h,
        frames_full(old(accum)@, old(stack)@, old(accum)@.len() as int),
    ensures
        frames_full(final(accum)@, final(stack)@, old(accum)@.len() as int),
        forall|idx: int|
            0 <= idx < old(accum)@.len() ==> #[trigger] column(
                final(accum)@,
                final(stack)@,
                *final(skip),
                idx,
            ) == pixel_step(
                kern,
                doc@,
                region_pos(region, idx),
                column(old(accum)@, old(stack)@, *old(skip), idx),
                (id, depth),
            ),
{
    let ghost acc0 = accum@;
    let ghost st0 = stack@;
    let ghost skip0 = *skip;
    let ghost area = accum@.len() as int;
    let skipped: bool = match *skip {
        Some(d) => depth > d,
        None => false,
    };
    if skipped {
        return;
    }
    *skip = None;
    // Close any groups that have finished rendering before the next layer.
    while stack.len() > 0 && depth <= stack[stack.len() - 1].1.depth
        invariant
            kern.wf(),
            area == accum@.len(),
            frames_full(accum@, stack@, area),
            forall|idx: int|
                0 <= idx < area ==> #[trigger] closed_to(
                    kern,
                    column(accum@, stack@, None, idx),
                    depth,
                ) == closed_to(kern, column(acc0, st0, None, idx), depth),
        decreases stack@.len(),
    {
        let ghost acc1 = accum@;
        let ghost st1 = stack@;
        close_group(kern, accum, stack);
        proof {
            assert forall|idx: int| 0 <= idx < area implies #[trigger] closed_to(
                kern,
                column(accum@, stack@, None, idx),
                depth,
            ) == closed_to(kern, column(acc0, st0, None, idx), depth) by {
                let a = column(acc1, st1, None, idx);
                assert(column(accum@, stack@, None, idx) == closed_one(kern, a));
                assert(a.stack.last().1 == st1.last().1);
                assert(closed_to(kern, a, depth) == closed_to(
                    kern,
                    column(acc0, st0, None, idx),
                    depth,
                ));
            }
        }
    }
    let ghost acc2 = accum@;
    let ghost st2 = stack@;
    proof {
        assert forall|idx: int| 0 <= idx < area implies #[trigger] column(acc2, st2, None, idx)
            == closed_to(kern, column(acc0, st0, None, idx), depth) by {
            let a = column(acc2, st2, None, idx);
            assert(closed_to(kern, a, depth) == closed_to(
                kern,
                column(acc0, st0, None, idx),
                depth,
            ));
            if a.stack.len() > 0 {
                assert(a.stack.last().1 == st2.last().1);
            }
        }
    }
    let (offset, valid) = if stack.len() > 0 {
        (stack[stack.len() - 1].1.offset, stack[stack.len() - 1].1.valid)
    } else {
        (IVec2::zero(), true)
    };
    proof {
        assert forall|idx: int| 0 <= idx < area implies group_place(
            (#[trigger] column(acc2, st2, None, idx)).stack,
        ) == (offset, valid) by {
            let a = column(acc2, st2, None, idx);
            if a.stack.len() > 0 {
                assert(a.stack.last().1 == st2.last().1);
            }
        }
    }
    if let Ok(layer) = doc.layer(id) {
        match &layer.content {
            LayerContent::Group { .. } => {
                if !layer.visible {
                    *skip = Some(depth);
                } else {
                    let n: usize = accum.len();
                    let mut fresh: Vec<Rgba32F> = vec![Rgba32F::transparent(); n];
                    std::mem::swap(accum, &mut fresh);
                    stack.push((fresh, GroupState::from_layer(layer, depth, offset, valid)));
                    proof {
                        assert forall|idx: int| 0 <= idx < area implies (#[trigger] column(
                            accum@,
                            stack@,
                            None,
                            idx,
                        )).stack =~= column(acc2, st2, None, idx).stack.push(
                            (acc2[idx], group_state(layer@, depth, offset, valid)),
                        ) by {}
                    }
                }
            },
            LayerContent::Adjustment(kind) => {
                let opacity: u32 = clamp01_nan0(layer.opacity);
                if layer.visible && !is_zero(opacity) && valid {
                    apply_adjustment(kern, accum, kind, opacity);
                }
            },
            LayerContent::Vector(data) => {
                if valid {
                    let pixels: TiledBuffer = rasterize_vector_data(kern, data);
                    composite_explicit_buffer(kern, layer, &pixels, None, region, accum, offset);
                }
            },
            LayerContent::Raster { buffer, mask } => {
                if valid {
                    composite_explicit_buffer(
                        kern,
                        layer,
                        buffer,
                        mask.as_ref(),
                        region,
                        accum,
                        offset,
                    );
                }
            },
        }
        proof {
            assert forall|idx: int| 0 <= idx < area implies #[trigger] column(
                accum@,
                stack@,
                *skip,
                idx,
            ) == pixel_step(
                kern,
                doc@,
                region_pos(region, idx),
                column(acc0, st0, skip0, idx),
                (id, depth),
            ) by {
                let c = column(acc2, st2, None, idx);
                assert(column(acc0, st0, None, idx) == (PixelState {
                    skip: None,
                    ..column(acc0, st0, skip0, idx)
                }));
                assert(c == closed_to(kern, column(acc0, st0, None, idx), depth));
                assert(group_place(c.stack) == (offset, valid));
                assert(column(accum@, stack@, *skip, idx) == layer_step(
                    kern,
                    region_pos(region, idx),
                    layer@,
                    depth,
                    c,
                ));
            }
        }
    }
}

/// Composite a region of `doc` into a row-major straight-alpha buffer.
///
/// The returned vector contains `region.w * region.h` pixels; the pixel at
/// document coordinate `(x, y)` is at index `(y - region.y) * region.w +
/// (x - region.x)`. Pixels outside the region are ignored. If `region` is
/// empty, an empty vector is returned.
///
/// Layers are walked in bottom-to-top [`Document::render_order`]. Groups are
/// flattened into temporary buffers before being blended with their own blend
/// mode and opacity.
///
/// Fails if the layer tree contains a cycle.
pub fn composite_document<K: Kernel>(kern: &K, doc: &Document, region: Rect) -> (r: Result<
    Vec<Rgba32F>,
    OgreError,
>)
    requires
        kern.wf(),
        doc.wf(),
    ensures
        region.empty() || region.w * region.h > usize::MAX ==> (r matches Ok(v) && v@.len() == 0),
        !region.empty() && region.w * region.h <= usize::MAX ==> match paint_list(
            doc@,
            doc@.order,
            0,
            Set::empty(),
        ) {
            Err(e) => r matches Err(x) && x == e,
            Ok(a) => r matches Ok(v) && v@.len() == region.w * region.h && forall|idx: int|
                0 <= idx < v@.len() ==> #[trigger] v@[idx] == composite_px(
                    kern,
                    doc@,
                    region_pos(region, idx),
                    a.0,
                ),
        },
{
    let area64: u64 = region.area();
    if area64 > usize::MAX as u64 {
        return Ok(Vec::new());
    }
    let area: usize = area64 as usize;
    if region.is_empty() {
        return Ok(Vec::new());
    }
    let order: Vec<(LayerId, u8)> = match doc.render_order() {
        Ok(o) => o,
        Err(e) => {
            return Err(e);
        },
    };
    proof {
        doc.lemma_ids();
        painted_layers_occur_once(doc@, doc@.order);
    }
    let mut accum: Vec<Rgba32F> = vec![Rgba32F::transparent(); area];
    let mut stack: Vec<(Vec<Rgba32F>, GroupState)> = Vec::new();
    let mut skip: Option<u8> = None;
    let mut i: usize = 0;
    proof {
        assert(order@.take(0) =~= Seq::empty());
        assert forall|idx: int| 0 <= idx < area implies #[trigger] column(accum@, stack@, skip, idx)
            == pixel_state(kern, doc@, region_pos(region, idx), order@.take(0)) by {
            assert(column(accum@, stack@, skip, idx).stack =~= Seq::empty());
        }
    }
    while i < order.len()
        invariant
            kern.wf(),
            doc.wf(),
            region.w > 0,
            area == region.w * region.h,
            forall|i: int| 0 <= i < order@.len() ==> doc@.has((#[trigger] order@[i]).0),
            i <= order@.len(),
            frames_full(accum@, stack@, area as int),
            frames_agree(kern, doc@, region, order@.take(i as int), accum@, stack@, skip),
        decreases order@.len() - i,
    {
        let (id, depth) = order[i];
        let ghost acc0 = accum@;
        let ghost st0 = stack@;
        let ghost skip0 = skip;
        proof {
            assert(order@.take(i + 1).drop_last() =~= order@.take(i as int));
            assert(order@.take(i + 1).last() == order@[i as int]);
            assert(doc@.has(order@[i as int].0));
        }
        composite_step(kern, doc, region, id, depth, &mut accum, &mut stack, &mut skip);
        proof {
            assert forall|idx: int| 0 <= idx < area implies #[trigger] column(
                accum@,
                stack@,
                skip,
                idx,
            ) == pixel_state(kern, doc@, region_pos(region, idx), order@.take(i + 1)) by {
                assert(column(acc0, st0, skip0, idx) == pixel_state(
                    kern,
                    doc@,
                    region_pos(region, idx),
                    order@.take(i as int),
                ));
            }
        }
        i = i + 1;
    }
    assert(order@.take(i as int) =~= order@);
    let ghost acc0 = accum@;
    let ghost st0 = stack@;
    while stack.len() > 0
        invariant
            kern.wf(),
            frames_full(accum@, stack@, area as int),
            forall|idx: int|
                0 <= idx < area ==> #[trigger] closed_all(
                    kern,
                    column(accum@, stack@, skip, idx),
                ) == closed_all(kern, column(acc0, st0, skip, idx)),
        decreases stack@.len(),
    {
        let ghost acc1 = accum@;
        let ghost st1 = stack@;
        close_group(kern, &mut accum, &mut stack);
        proof {
            assert forall|idx: int| 0 <= idx < area implies #[trigger] closed_all(
                kern,
                column(accum@, stack@, skip, idx),
            ) == closed_all(kern, column(acc0, st0, skip, idx)) by {
                let a = column(acc1, st1, skip, idx);
                assert(column(accum@, stack@, skip, idx) == closed_one(kern, a));
                assert(closed_all(kern, a) == closed_all(kern, column(acc0, st0, skip, idx)));
            }
        }
    }
    proof {
        assert forall|idx: int| 0 <= idx < area implies #[trigger] accum@[idx] == composite_px(
            kern,
            doc@,
            region_pos(region, idx),
            order@,
        ) by {
            let a = column(accum@, stack@, skip, idx);
            assert(closed_all(kern, a) == closed_all(kern, column(acc0, st0, skip, idx)));
            assert(column(acc0, st0, skip, idx) == pixel_state(
                kern,
                doc@,
                region_pos(region, idx),
                order@,
            ));
        }
    }
    Ok(accum)
}

/// A sampled pixel is the pixel of the composited document at that position, for
/// every region within the `i32` coordinates that holds it.
pub proof fn sampling_matches_compositing<K: Kernel>(
    kern: &K,
    v: DocView,
    region: Rect,
    order: Seq<(LayerId, u8)>,
    pixels: Seq<Rgba32F>,
    pos: IVec2,
)
    requires
        region.has(pos.x as int, pos.y as int),
        pixels.len() == region.w * region.h,
        forall|idx: int|
            0 <= idx < pixels.len() ==> #[trigger] pixels[idx] == composite_px(
                kern,
                v,
                region_pos(region, idx),
                order,
            ),
    ensures
        pixels[(pos.y - region.y) * region.w + (pos.x - region.x)] == composite_px(
            kern,
            v,
            pos,
            order,
        ),
{
    lemma_region_pos(region, pos);
    let idx = (pos.y - region.y) * region.w + (pos.x - region.x);
    assert(pixels[idx] == composite_px(kern, v, region_pos(region, idx), order));
}

/// The position of the pixel that stands for a position of the region.
pub proof fn lemma_region_pos(region: Rect, pos: IVec2)
    requires
        region.has(pos.x as int, pos.y as int),
    ensures
        ({
            let idx = (pos.y - region.y) * region.w + (pos.x - region.x);
            0 <= idx < region.w * region.h && region_pos(region, idx) == pos
        }),
{
    let w = region.w as int;
    let dx = pos.x - region.x;
    let dy = pos.y - region.y;
    let idx = dy * w + dx;
    assert(0 <= dy * w && dy * w + w <= region.h * w) by (nonlinear_arith)
        requires
            0 <= dy < region.h,
            w >= 0,
    ;
    assert(region.h * w == w * region.h) by (nonlinear_arith);
    vstd::arithmetic::div_mod::lemma_fundamental_div_mod_converse(idx, w, dy, dx);
}

/// What [`composite_region`] holds at `q`.
pub open spec fn region_px<K: Kernel>(
    kern: &K,
    v: DocView,
    clipped: Option<Rect>,
    order: Seq<(LayerId, u8)>,
    q: IVec2,
) -> Rgba32F {
    match clipped {
        Some(c) => if c.has(q.x as int, q.y as int) {
            composite_px(kern, v, q, order)
        } else {
            clear_px()
        },
        None => clear_px(),
    }
}

/// A pixel of a composited region is the pixel of the composited document at that
/// position, for the region clipped to the canvas.
pub proof fn regions_match_compositing<K: Kernel>(
    kern: &K,
    v: DocView,
    clipped: Rect,
    order: Seq<(LayerId, u8)>,
    pixels: Seq<Rgba32F>,
    m: Map<(i32, i32), Seq<Rgba32F>>,
    pos: IVec2,
)
    requires
        clipped.has(pos.x as int, pos.y as int),
        pixels.len() == clipped.w * clipped.h,
        forall|idx: int|
            0 <= idx < pixels.len() ==> #[trigger] pixels[idx] == composite_px(
                kern,
                v,
                region_pos(clipped, idx),
                order,
            ),
        forall|q: IVec2|
            alike(#[trigger] pixel_at(m, q), region_px(kern, v, Some(clipped), order, q)),
    ensures
        alike(
            pixel_at(m, pos),
            pixels[(pos.y - clipped.y) * clipped.w + (pos.x - clipped.x)],
        ),
{
    sampling_matches_compositing(kern, v, clipped, order, pixels, pos);
    assert(alike(pixel_at(m, pos), region_px(kern, v, Some(clipped), order, pos)));
}

/// Composite a region of `doc` into a sparse [`TiledBuffer`] in document space.
///
/// Unlike [`composite_document`] (which returns a flat row-major `Vec`), this
/// returns the result as a tiled buffer keyed by document coordinates, which is
/// what the brush-engine tools need for a "frozen backdrop" or
/// "sample-all-layers" snapshot.
///
/// The region is clipped to the canvas; an empty intersection (or zero-area
/// region) yields an empty buffer. Pixel `(x, y)` of the result equals
/// [`composite_document`] of the clipped region at the same coordinate.
pub fn composite_region<K: Kernel>(kern: &K, doc: &Document, region: Rect) -> (r: Result<
    TiledBuffer,
    OgreError,
>)
    requires
        kern.wf(),
        doc.wf(),
        region.intersect_spec(doc@.canvas) matches Some(c) ==> c.w * c.h <= usize::MAX,
    ensures
        match region.intersect_spec(doc@.canvas) {
            None => r matches Ok(b) && b.wf() && b@ == Map::<(i32, i32), Seq<Rgba32F>>::empty(),
            Some(c) => match paint_list(doc@, doc@.order, 0, Set::empty()) {
                Err(e) => r matches Err(x) && x == e,
                Ok(a) => r matches Ok(b) && b.wf() && sparse(b@) && forall|q: IVec2|
                    alike(#[trigger] b.at(q), region_px(kern, doc@, Some(c), a.0, q)),
            },
        },
{
    let region: Rect = match region.intersect(doc.canvas_rect()) {
        Some(c) => c,
        None => {
            return Ok(TiledBuffer::new());
        },
    };
    let pixels: Vec<Rgba32F> = match composite_document(kern, doc, region) {
        Ok(p) => p,
        Err(e) => {
            return Err(e);
        },
    };
    let ghost order = paint_list(doc@, doc@.order, 0, Set::empty())->Ok_0.0;
    let mut buffer: TiledBuffer = TiledBuffer::new();
    let n: usize = pixels.len();
    let mut i: usize = 0;
    while i < n
        invariant
            n == pixels@.len(),
            n == region.w * region.h,
            region.w > 0,
            i <= n,
            buffer.wf(),
            sparse(buffer@),
            forall|q: IVec2|
                alike(
                    #[trigger] pixel_at(buffer@, q),
                    if region.has(q.x as int, q.y as int) && (q.y - region.y) * region.w + (q.x
                        - region.x) < i {
                        pixels@[(q.y - region.y) * region.w + (q.x - region.x)]
                    } else {
                        clear_px()
                    },
                ),
        decreases n - i,
    {
        let w: u64 = region.w as u64;
        let k: u64 = i as u64;
        let ghost wi = region.w as int;
        proof {
            assert(0 <= i as int % wi < wi && 0 <= i as int / wi < region.h && i == (i as int / wi)
                * wi + i as int % wi) by (nonlinear_arith)
                requires
                    wi > 0,
                    0 <= i < wi * region.h,
                    wi == region.w,
            ;
        }
        let x: i64 = region.x as i64 + (k % w) as i64;
        let y: i64 = region.y as i64 + (k / w) as i64;
        let ghost before = buffer@;
        proof {
            buffer.lemma_full();
        }
        if x <= 0x7fff_ffff && y <= 0x7fff_ffff {
            let p: IVec2 = IVec2::new(x as i32, y as i32);
            buffer.set_pixel(p, pixels[i]);
            proof {
                set_pixel_keeps_sparse(before, p, pixels@[i as int]);
            }
        }
        proof {
            assert forall|q: IVec2|
                alike(
                    #[trigger] pixel_at(buffer@, q),
                    if region.has(q.x as int, q.y as int) && (q.y - region.y) * region.w + (q.x
                        - region.x) < i + 1 {
                        pixels@[(q.y - region.y) * region.w + (q.x - region.x)]
                    } else {
                        clear_px()
                    },
                ) by {
                let at = (q.y - region.y) * wi + (q.x - region.x);
                if x <= 0x7fff_ffff && y <= 0x7fff_ffff {
                    set_pixel_then_get(
                        before,
                        IVec2 { x: x as i32, y: y as i32 },
                        pixels@[i as int],
                        q,
                    );
                }
                assert(alike(
                    pixel_at(before, q),
                    if region.has(q.x as int, q.y as int) && at < i {
                        pixels@[at]
                    } else {
                        clear_px()
                    },
                ));
                if region.has(q.x as int, q.y as int) && at == i {
                    vstd::arithmetic::div_mod::lemma_fundamental_div_mod_converse(
                        at,
                        wi,
                        q.y - region.y,
                        q.x - region.x,
                    );
                    assert(q.x == x && q.y == y);
                }
                if q.x == x && q.y == y {
                    assert(at == i);
                }
            }
        }
        i = i + 1;
    }
    proof {
        assert forall|q: IVec2|
            alike(#[trigger] buffer.at(q), region_px(kern, doc@, Some(region), order, q)) by {
            assert(alike(
                pixel_at(buffer@, q),
                if region.has(q.x as int, q.y as int) && (q.y - region.y) * region.w + (q.x
                    - region.x) < i {
                    pixels@[(q.y - region.y) * region.w + (q.x - region.x)]
                } else {
                    clear_px()
                },
            ));
            if region.has(q.x as int, q.y as int) {
                lemma_region_pos(region, q);
            }
        }
    }
    Ok(buffer)
}

} // verus!
