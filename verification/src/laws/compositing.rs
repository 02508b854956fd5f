//! Compositing.
use vstd::prelude::*;

use crate::arith::{difference, Arith};
use crate::buffer::pixel_at;
use crate::compositor::{
    closed_all, closed_one, closed_to, composite_px, is_sane, layer_step, masked_px, over,
    pixel_state, pixel_step, sane, sane_adjustment_is_unique, sum_offset, PixelState,
};
use crate::coord::{fits_i32, local_coord_spec, IVec2};
use crate::document::DocView;
use crate::exact::{exact, made_of, nothing_absorbs, two};
use crate::float_bits::{finite, unit, zero, F_ONE, F_ZERO};
use crate::float_kernel::FloatKernel;
use crate::kernel::Kernel;
use crate::laws::blending::opaque_sources_replace;
use crate::layer::{AdjustmentKind, BlendMode, ContentView, LayerId, LayerView};
use crate::pixel::{clear_px, Rgba32F};

verus! {

/// Seeing a position from a layer and moving it by the layer's place undo each other.
pub proof fn places_lead_there_and_back(p: IVec2, offset: IVec2)
    ensures
        sum_offset(p, offset) matches Some(q) ==> local_coord_spec(q, offset) == Some(p),
        local_coord_spec(p, offset) matches Some(q) ==> sum_offset(q, offset) == Some(p),
        sum_offset(p, offset) == sum_offset(offset, p),
{
}

/// A layer with nothing taken from it: visible, whole and blended normally.
pub open spec fn plain(l: LayerView) -> bool {
    l.visible && l.opacity == F_ONE && l.blend == BlendMode::Normal
}

proof fn lemma_replaced<M: Arith>(k: &FloatKernel<M>, d: Set<u32>, dst: Rgba32F, px: Rgba32F)
    requires
        exact(&k.math, d),
        made_of(d, dst) && made_of(d, px),
        unit(dst.a) == dst.a,
        px.a == F_ONE,
    ensures
        k.blended(BlendMode::Normal, dst, px, F_ONE) == px,
{
    let m = &k.math;
    two(m, d, F_ONE, F_ONE);
    two(m, d, F_ONE, dst.a);
    two(m, d, difference(m, F_ONE, dst.a), F_ONE);
    opaque_sources_replace(m, d, dst, px, F_ONE);
}

/// An opaque pixel of a plain layer shows where the layer and its group are placed,
/// whatever is below.
pub proof fn opaque_pixels_show_in_their_place<M: Arith>(
    k: &FloatKernel<M>,
    d: Set<u32>,
    l: LayerView,
    m: Map<(i32, i32), Seq<Rgba32F>>,
    group: IVec2,
    p: IVec2,
    pos: IVec2,
    dst: Rgba32F,
)
    requires
        exact(&k.math, d),
        made_of(d, dst) && made_of(d, pixel_at(m, p)),
        unit(dst.a) == dst.a,
        pixel_at(m, p).a == F_ONE,
        plain(l),
        fits_i32(l.offset.x + group.x) && fits_i32(l.offset.y + group.y),
        pos.x == p.x + l.offset.x + group.x,
        pos.y == p.y + l.offset.y + group.y,
    ensures
        over(k, l, m, None, group, pos, dst) == pixel_at(m, p),
{
    lemma_replaced(k, d, dst, pixel_at(m, p));
}

/// A layer that is hidden, or has no opacity, or has nothing where one looks, leaves
/// what is below it alone, and so does one whose mask hides the pixel.
pub proof fn what_does_not_show_changes_nothing<M: Arith>(
    k: &FloatKernel<M>,
    d: Set<u32>,
    l: LayerView,
    m: Map<(i32, i32), Seq<Rgba32F>>,
    mask: Option<Map<(i32, i32), Seq<Rgba32F>>>,
    group: IVec2,
    p: IVec2,
    pos: IVec2,
    dst: Rgba32F,
)
    requires
        exact(&k.math, d),
        d.contains(pixel_at(m, p).a),
        fits_i32(l.offset.x + group.x) && fits_i32(l.offset.y + group.y),
        pos.x == p.x + l.offset.x + group.x,
        pos.y == p.y + l.offset.y + group.y,
    ensures
        !l.visible || zero(unit(l.opacity)) ==> over(k, l, m, mask, group, pos, dst) == dst,
        mask is None && zero(pixel_at(m, p).a) ==> over(k, l, m, mask, group, pos, dst) == dst,
        mask matches Some(c) ==> (unit(pixel_at(c, p).r) == F_ZERO ==> over(
            k,
            l,
            m,
            mask,
            group,
            pos,
            dst,
        ) == dst),
{
    nothing_absorbs(&k.math, d, pixel_at(m, p).a);
}

/// A mask that reveals all changes nothing, and any mask changes the alpha only.
pub proof fn masks_change_the_alpha_only<M: Arith>(
    k: &FloatKernel<M>,
    d: Set<u32>,
    m: Map<(i32, i32), Seq<Rgba32F>>,
    mask: Map<(i32, i32), Seq<Rgba32F>>,
    p: IVec2,
)
    requires
        exact(&k.math, d),
        d.contains(pixel_at(m, p).a),
    ensures
        ({
            let out = masked_px(k, m, Some(mask), p);
            let px = pixel_at(m, p);
            &&& out.r == px.r && out.g == px.g && out.b == px.b
            &&& unit(pixel_at(mask, p).r) == F_ONE ==> out == px
        }),
        masked_px(k, m, None, p) == pixel_at(m, p),
{
    two(&k.math, d, pixel_at(m, p).a, F_ONE);
}

/// Closing a group lays what it holds over what was below it: an opaque pixel of a
/// plain group replaces that, and where the group holds nothing it stays.
pub proof fn closed_groups_lie_over_what_was_below<M: Arith>(
    k: &FloatKernel<M>,
    d: Set<u32>,
    s: PixelState,
)
    requires
        exact(&k.math, d),
        s.stack.len() > 0,
        made_of(d, s.accum) && made_of(d, s.stack.last().0),
    ensures
        closed_one(k, s).stack == s.stack.drop_last(),
        zero(s.accum.a) ==> closed_one(k, s).accum == s.stack.last().0,
        ({
            let top = s.stack.last();
            s.accum.a == F_ONE && unit(top.0.a) == top.0.a && top.1.blend == BlendMode::Normal
                && top.1.opacity == F_ONE ==> closed_one(k, s).accum == s.accum
        }),
{
    let top = s.stack.last();
    if s.accum.a == F_ONE && unit(top.0.a) == top.0.a {
        lemma_replaced(k, d, top.0, s.accum);
    }
}

/// An opaque pixel of a plain layer in a plain group shows where the places of both
/// put it.
pub proof fn groups_show_their_layers<M: Arith>(
    k: &FloatKernel<M>,
    d: Set<u32>,
    v: DocView,
    gid: LayerId,
    lid: LayerId,
    p: IVec2,
    pos: IVec2,
)
    requires
        exact(&k.math, d),
        v.layers[gid].content is Group && plain(v.layers[gid]),
        v.layers[lid].content matches ContentView::Raster { buffer, mask } && mask is None
            && made_of(d, pixel_at(buffer, p)) && pixel_at(buffer, p).a == F_ONE,
        plain(v.layers[lid]),
        ({
            let (g, l) = (v.layers[gid].offset, v.layers[lid].offset);
            &&& fits_i32(g.x + l.x) && fits_i32(g.y + l.y)
            &&& pos.x == p.x + l.x + g.x && pos.y == p.y + l.y + g.y
        }),
    ensures
        composite_px(k, v, pos, seq![(gid, 0u8), (lid, 1u8)]) == pixel_at(
            v.layers[lid].content->buffer,
            p,
        ),
        composite_px(k, v, pos, Seq::empty()) == clear_px(),
{
    let order = seq![(gid, 0u8), (lid, 1u8)];
    let buffer = v.layers[lid].content->buffer;
    let px = pixel_at(buffer, p);
    assert(made_of(d, clear_px()));
    assert(unit(clear_px().a) == clear_px().a);
    let start = pixel_state(k, v, pos, Seq::empty());
    assert(order.drop_last() =~= seq![(gid, 0u8)]);
    assert(seq![(gid, 0u8)].drop_last() =~= Seq::empty());
    let opened = pixel_state(k, v, pos, seq![(gid, 0u8)]);
    assert(opened == pixel_step(k, v, pos, start, (gid, 0u8)));
    assert(start.stack.len() == 0);
    assert(opened.accum == clear_px() && opened.stack.len() == 1);
    assert(opened.stack.last().1.offset == v.layers[gid].offset);
    let painted = pixel_state(k, v, pos, order);
    assert(painted == pixel_step(k, v, pos, opened, (lid, 1u8)));
    opaque_pixels_show_in_their_place(
        k,
        d,
        v.layers[lid],
        buffer,
        v.layers[gid].offset,
        p,
        pos,
        clear_px(),
    );
    assert(painted.accum == px);
    lemma_replaced(k, d, clear_px(), px);
    reveal_with_fuel(closed_all, 3);
}

/// A hidden group hides all that is in it.
pub proof fn hidden_groups_hide_their_layers<K: Kernel>(
    kern: &K,
    v: DocView,
    pos: IVec2,
    s: PixelState,
    gid: LayerId,
    lid: LayerId,
    depth: u8,
)
    requires
        v.layers[gid].content is Group && !v.layers[gid].visible,
        s.skip is None && s.stack.len() == 0,
        depth > 0,
    ensures
        ({
            let after = pixel_step(
                kern,
                v,
                pos,
                pixel_step(kern, v, pos, s, (gid, 0u8)),
                (lid, depth),
            );
            after.accum == s.accum && after.stack == s.stack
        }),
{
}

/// An adjustment with sensible parameters is kept as it is.
pub proof fn sensible_adjustments_are_kept(k: AdjustmentKind)
    requires
        match k {
            AdjustmentKind::BrightnessContrast { brightness, contrast } => finite(brightness)
                && finite(contrast),
            AdjustmentKind::Levels { input_black, input_white, output_black, output_white, gamma } =>
            finite(input_black) && finite(input_white) && finite(output_black) && finite(
                output_white,
            ) && finite(gamma),
            AdjustmentKind::HueSat { hue, saturation, lightness } => finite(hue) && finite(
                saturation,
            ) && finite(lightness),
            AdjustmentKind::Curves { points } => forall|i: int|
                0 <= i < 4 ==> finite((#[trigger] points@[i]).input) && finite(points@[i].output),
            AdjustmentKind::Posterize { levels } => levels >= 2,
            AdjustmentKind::Threshold { level } => finite(level) && unit(level) == level,
            AdjustmentKind::GradientMap { fg, bg } => unit(fg.r) == fg.r && unit(fg.g) == fg.g
                && unit(fg.b) == fg.b && unit(fg.a) == fg.a && unit(bg.r) == bg.r && unit(bg.g)
                == bg.g && unit(bg.b) == bg.b && unit(bg.a) == bg.a,
            _ => true,
        },
    ensures
        sane(k) == k,
{
    if let AdjustmentKind::Curves { points } = k {
        assert(points@ =~= points@.map_values(
            |p: crate::layer::CurvePoint| crate::compositor::sane_point(p),
        ));
    }
    assert(is_sane(k, k));
    sane_adjustment_is_unique(k, k);
}

/// A raster layer on top of everything is laid over the composite of all that is below
/// it, whatever groups that is made of, and an adjustment layer adjusts that.
pub proof fn top_layers_lie_over_the_composite<K: Kernel>(
    kern: &K,
    v: DocView,
    pos: IVec2,
    order: Seq<(LayerId, u8)>,
    id: LayerId,
)
    ensures
        ({
            let l = v.layers[id];
            let below = composite_px(kern, v, pos, order);
            let all = composite_px(kern, v, pos, order.push((id, 0u8)));
            &&& l.content matches ContentView::Raster { buffer, mask } ==> all == over(
                kern,
                l,
                buffer,
                mask,
                IVec2 { x: 0, y: 0 },
                pos,
                below,
            )
            &&& l.content matches ContentView::Adjustment(k) ==> all == if l.visible && !zero(
                unit(l.opacity),
            ) {
                kern.adjusted(sane(k), unit(l.opacity), below)
            } else {
                below
            }
        }),
{
    let next = order.push((id, 0u8));
    assert(next.drop_last() =~= order);
    let s = pixel_state(kern, v, pos, order);
    let open = PixelState { skip: None, ..s };
    lemma_all_closed(kern, open);
    lemma_skipping_is_not_seen(kern, s, open);
    let c = closed_to(kern, open, 0u8);
    assert(pixel_state(kern, v, pos, next) == layer_step(kern, pos, v.layers[id], 0u8, c));
}

/// Every group is closed before what stands at the outermost depth.
proof fn lemma_all_closed<K: Kernel>(kern: &K, s: PixelState)
    ensures
        closed_to(kern, s, 0u8) == closed_all(kern, s),
        closed_all(kern, s).stack.len() == 0,
    decreases s.stack.len(),
{
    if s.stack.len() > 0 {
        lemma_all_closed(kern, closed_one(kern, s));
    }
}

/// Closing groups does not look at what is skipped.
proof fn lemma_skipping_is_not_seen<K: Kernel>(kern: &K, s: PixelState, t: PixelState)
    requires
        s.accum == t.accum && s.stack == t.stack,
    ensures
        closed_all(kern, s).accum == closed_all(kern, t).accum,
    decreases s.stack.len(),
{
    if s.stack.len() > 0 {
        lemma_skipping_is_not_seen(kern, closed_one(kern, s), closed_one(kern, t));
    }
}

} // verus!
