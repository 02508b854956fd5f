//! Doing a command again, as a redo does, gives a picture that looks the same.
//!
//! Most commands give the very same picture back ([`Command::steady`]), and a layer that
//! was added comes back. The commands here make new pixels or a new selection: what
//! they make of a picture looks the same each time, but a transparent pixel may come with
//! either sign of zero.
use vstd::prelude::*;

use crate::arith::Arith;
use crate::buffer::{alike, full_tiles, pixel_at, set_pixel_then_get};
use crate::buffer_region::{inked, tight, tight_box_is_unique};
use crate::commands::pixels::PaintBucketCmd;
use crate::commands::raster::{ApplyLayerMaskCmd, FlipLayerCmd, RemoveBackgroundCmd};
use crate::commands::select::{
    at_most_amount, longest_side, GrowSelectionCmd, InvertSelectionCmd, MagicWandCmd,
    SetSelectionCmd, ShrinkSelectionCmd,
};
use crate::commands::structure::{deleted_alike, merged_softly, MergeDownCmd};
use crate::commands::tiles::{buffer_of, painted, written};
use crate::coord::{IVec2, Rect};
use crate::document::{lemma_walk_leaf, placed_layers_sit_somewhere, subtree, unlisted, DocView};
use crate::error::OgreError;
use crate::float_bits::rank;
use crate::history::Command;
use crate::kernel::Kernel;
use crate::layer::{ContentView, LayerId, LayerView};
use crate::ops::bucket::{fill_chosen, fill_value, lists_writes};
use crate::ops::magic_wand::{marks, picked, selects, wand_pick};
use crate::ops::mask::full_coverage;
use crate::ops::matte::is_frame;
use crate::ops::matte_math::MatteKernel;
use crate::ops::merge::{below_error, merged_layer, upper_error};
use crate::picture::{
    one_layer_apart, one_layer_keeps_tidy, pictures_share_the_tree, same_picture, seen_alike,
    selection_apart, shown, spot, tidy, visible,
};
use crate::pixel::{clear_px, Rgba32F};
use crate::placing::{one_seat, taken_out};
use crate::selection::{
    coverage_lies_between_zero_and_one, is_combination, is_window_max, is_window_min, margin, near,
    SelectionView,
};

verus! {

/// Two buffers show the same pixels, up to the sign of zeros in transparent ones.
pub open spec fn pixels_alike(
    m: Map<(i32, i32), Seq<Rgba32F>>,
    n: Map<(i32, i32), Seq<Rgba32F>>,
) -> bool {
    forall|p: IVec2|
        #![trigger pixel_at(m, p)]
        #![trigger pixel_at(n, p)]
        alike(pixel_at(m, p), pixel_at(n, p))
}

/// Two layers are the same but for the sign of zeros in transparent pixels.
pub open spec fn layers_alike(a: LayerView, b: LayerView) -> bool {
    match (a.content, b.content) {
        (
            ContentView::Raster { buffer: m, mask: c },
            ContentView::Raster { buffer: n, mask: d },
        ) => {
            &&& a == LayerView { content: a.content, ..b }
            &&& pixels_alike(m, n)
            &&& match (c, d) {
                (Some(x), Some(y)) => pixels_alike(x, y),
                (None, None) => true,
                _ => false,
            }
        },
        _ => a == b,
    }
}

/// Two selections cover each pixel alike, within the same rectangle.
pub open spec fn selections_alike(s: SelectionView, t: SelectionView) -> bool {
    &&& s.extent() == t.extent()
    &&& forall|p: IVec2| #[trigger] s.cov(p) == t.cov(p)
}

/// What is to be seen of a layer in two states is alike.
pub open spec fn shown_alike(x: Option<(LayerView, bool)>, y: Option<(LayerView, bool)>) -> bool {
    match (x, y) {
        (Some(l), Some(k)) => layers_alike(l.0, k.0) && l.1 == k.1,
        (None, None) => true,
        _ => false,
    }
}

/// Two states show pictures that look alike: the layers are the same but for the sign
/// of zeros in transparent pixels, and the selections cover the same.
pub open spec fn look_alike(a: DocView, b: DocView, keep: Set<LayerId>) -> bool {
    &&& a.canvas == b.canvas
    &&& a.order == b.order
    &&& a.active == b.active
    &&& a.color_space == b.color_space
    &&& a.icc_profile == b.icc_profile
    &&& a.slices == b.slices
    &&& selections_alike(a.selection, b.selection)
    &&& forall|id: LayerId| #[trigger] shown_alike(shown(a, keep, id), shown(b, keep, id))
}

/// Pictures that are the same look alike.
pub proof fn same_pictures_look_alike(a: DocView, b: DocView, keep: Set<LayerId>)
    requires
        same_picture(a, b, keep),
    ensures
        look_alike(a, b, keep),
{
    assert forall|id: LayerId| #[trigger] shown_alike(shown(a, keep, id), shown(b, keep, id)) by {
        assert(shown(a, keep, id) == shown(b, keep, id));
    }
}

/// Changing one layer of the tree alike in two states that show the same picture gives
/// two that look alike.
proof fn lemma_one_layer(
    a: DocView,
    b: DocView,
    x: DocView,
    y: DocView,
    id: LayerId,
    keep: Set<LayerId>,
)
    requires
        same_picture(a, b, keep),
        visible(a, id),
        one_layer_apart(a, x, id),
        one_layer_apart(b, y, id),
        x.active == y.active,
        layers_alike(x.layers[id], y.layers[id]),
    ensures
        look_alike(x, y, keep),
{
    assert forall|i: LayerId| #[trigger] shown_alike(shown(x, keep, i), shown(y, keep, i)) by {
        assert(shown(a, keep, i) == shown(b, keep, i));
    }
}

/// Selecting alike in two states that show the same picture gives two that look alike.
proof fn lemma_selected(a: DocView, b: DocView, x: DocView, y: DocView, keep: Set<LayerId>)
    requires
        same_picture(a, b, keep),
        selection_apart(a, x),
        selection_apart(b, y),
        selections_alike(x.selection, y.selection),
    ensures
        look_alike(x, y, keep),
{
    assert forall|i: LayerId| #[trigger] shown_alike(shown(x, keep, i), shown(y, keep, i)) by {
        assert(shown(a, keep, i) == shown(b, keep, i));
        assert(shown(x, keep, i) == shown(a, keep, i));
        assert(shown(y, keep, i) == shown(b, keep, i));
    }
}

proof fn lemma_written_pixel(
    m: Map<(i32, i32), Seq<Rgba32F>>,
    w: Seq<(IVec2, Rgba32F)>,
    p: IVec2,
)
    requires
        full_tiles(m),
        forall|i: int, j: int|
            0 <= i < j < w.len() ==> (#[trigger] w[i]).0 != (#[trigger] w[j]).0,
    ensures
        full_tiles(written(m, w)),
        forall|i: int|
            0 <= i < w.len() && (#[trigger] w[i]).0 == p ==> alike(
                pixel_at(written(m, w), p),
                w[i].1,
            ),
        (forall|i: int| 0 <= i < w.len() ==> (#[trigger] w[i]).0 != p) ==> alike(
            pixel_at(written(m, w), p),
            pixel_at(m, p),
        ),
    decreases w.len(),
{
    if w.len() > 0 {
        let less = w.drop_last();
        lemma_written_pixel(m, less, p);
        set_pixel_then_get(written(m, less), w.last().0, w.last().1, p);
        let n = w.len() - 1;
        assert forall|i: int| 0 <= i < w.len() && (#[trigger] w[i]).0 == p implies alike(
            pixel_at(written(m, w), p),
            w[i].1,
        ) by {
            if i < n {
                assert(less[i].0 == p);
                assert(w[i].0 != w[n].0);
            }
        }
        if forall|i: int| 0 <= i < w.len() ==> (#[trigger] w[i]).0 != p {
            assert forall|i: int| 0 <= i < less.len() implies (#[trigger] less[i]).0 != p by {
                assert(w[i].0 != p);
            }
            assert(w[n].0 != p);
        }
    }
}

/// However the same writes are listed, they give buffers that look alike.
pub proof fn listed_writes_look_alike(
    m: Map<(i32, i32), Seq<Rgba32F>>,
    v: Seq<(IVec2, Rgba32F)>,
    w: Seq<(IVec2, Rgba32F)>,
    chosen: spec_fn(IVec2) -> bool,
    value: spec_fn(IVec2) -> Rgba32F,
)
    requires
        full_tiles(m),
        lists_writes(v, chosen, value),
        lists_writes(w, chosen, value),
    ensures
        pixels_alike(written(m, v), written(m, w)),
{
    assert forall|p: IVec2| alike(
        #[trigger] pixel_at(written(m, v), p),
        pixel_at(written(m, w), p),
    ) by {
        lemma_written_pixel(m, v, p);
        lemma_written_pixel(m, w, p);
        if chosen(p) {
            let i = choose|i: int| 0 <= i < v.len() && (#[trigger] v[i]).0 == p;
            let j = choose|j: int| 0 <= j < w.len() && (#[trigger] w[j]).0 == p;
            assert(v[i].1 == w[j].1);
        } else {
            assert forall|i: int| 0 <= i < v.len() implies (#[trigger] v[i]).0 != p by {
                assert(chosen(v[i].0));
            }
            assert forall|i: int| 0 <= i < w.len() implies (#[trigger] w[i]).0 != p by {
                assert(chosen(w[i].0));
            }
        }
    }
}

/// Emptying the bucket again looks the same.
pub proof fn buckets_repeat<K: Kernel + Send, M: Arith + Send>(
    cmd: PaintBucketCmd<K, M>,
    a: DocView,
    x: DocView,
    b: DocView,
    r: Result<(), OgreError>,
    y: DocView,
    keep: Set<LayerId>,
)
    requires
        cmd.does(a, Ok(()), x),
        cmd.does(b, r, y),
        same_picture(a, b, keep),
        a.active matches Some(id) && visible(a, id) && full_tiles(buffer_of(a.layers[id])),
    ensures
        r is Ok,
        look_alike(x, y, keep),
{
    let id = a.active->0;
    seen_alike(b, id);
    let l = a.layers[id];
    let m = buffer_of(l);
    let chosen = fill_chosen(
        &cmd.kern,
        &cmd.math,
        m,
        l.offset,
        cmd.seed_doc,
        cmd.tolerance,
        a.selection,
        a.canvas,
    );
    let value = fill_value(
        &cmd.kern,
        &cmd.math,
        m,
        l.offset,
        cmd.seed_doc,
        cmd.color,
        cmd.tolerance,
        a.selection,
        a.canvas,
    );
    let v = choose|v: Seq<(IVec2, Rgba32F)>|
        lists_writes(v, chosen, value) && x == #[trigger] painted(a, id, v);
    let w = choose|w: Seq<(IVec2, Rgba32F)>|
        lists_writes(w, chosen, value) && y == #[trigger] painted(b, id, w);
    listed_writes_look_alike(m, v, w, chosen, value);
    lemma_one_layer(a, b, x, y, id, keep);
}

/// Flipping again looks the same.
pub proof fn flips_repeat(
    cmd: FlipLayerCmd,
    a: DocView,
    x: DocView,
    b: DocView,
    r: Result<(), OgreError>,
    y: DocView,
    keep: Set<LayerId>,
)
    requires
        cmd.does(a, Ok(()), x),
        cmd.does(b, r, y),
        same_picture(a, b, keep),
        visible(a, cmd.layer),
    ensures
        r is Ok,
        look_alike(x, y, keep),
{
    seen_alike(b, cmd.layer);
    lemma_one_layer(a, b, x, y, cmd.layer, keep);
}

/// Baking a mask in again looks the same.
pub proof fn baking_repeats<K: Kernel + Send>(
    cmd: ApplyLayerMaskCmd<K>,
    a: DocView,
    x: DocView,
    b: DocView,
    r: Result<(), OgreError>,
    y: DocView,
    keep: Set<LayerId>,
)
    requires
        cmd.does(a, Ok(()), x),
        cmd.does(b, r, y),
        same_picture(a, b, keep),
        visible(a, cmd.layer),
    ensures
        r is Ok,
        look_alike(x, y, keep),
{
    seen_alike(b, cmd.layer);
    lemma_one_layer(a, b, x, y, cmd.layer, keep);
}

/// Combining a selection with the same selection again selects the same.
pub proof fn selecting_repeats(
    cmd: SetSelectionCmd,
    a: DocView,
    x: DocView,
    b: DocView,
    r: Result<(), OgreError>,
    y: DocView,
    keep: Set<LayerId>,
)
    requires
        cmd.does(a, Ok(()), x),
        cmd.does(b, r, y),
        same_picture(a, b, keep),
    ensures
        r is Ok,
        look_alike(x, y, keep),
{
    assert forall|p: IVec2| #[trigger] x.selection.cov(p) == y.selection.cov(p) by {
        assert(y.selection.cov(p) == y.selection.cov(p));
    }
    lemma_selected(a, b, x, y, keep);
}

/// Inverting the selection again selects the same.
pub proof fn inverting_repeats(
    cmd: InvertSelectionCmd,
    a: DocView,
    x: DocView,
    b: DocView,
    r: Result<(), OgreError>,
    y: DocView,
    keep: Set<LayerId>,
)
    requires
        cmd.does(a, Ok(()), x),
        cmd.does(b, r, y),
        same_picture(a, b, keep),
    ensures
        r is Ok,
        look_alike(x, y, keep),
{
    lemma_selected(a, b, x, y, keep);
}

proof fn lemma_coverage_order(s: SelectionView, p: IVec2, t: SelectionView, q: IVec2)
    requires
        rank(s.cov(p)) == rank(t.cov(q)),
    ensures
        s.cov(p) == t.cov(q),
{
    coverage_lies_between_zero_and_one(s, p);
    coverage_lies_between_zero_and_one(t, q);
}

/// Growing the selection again selects the same.
pub proof fn growing_repeats(
    cmd: GrowSelectionCmd,
    a: DocView,
    x: DocView,
    b: DocView,
    r: Result<(), OgreError>,
    y: DocView,
    keep: Set<LayerId>,
)
    requires
        cmd.does(a, Ok(()), x),
        cmd.does(b, r, y),
        same_picture(a, b, keep),
    ensures
        r is Ok,
        look_alike(x, y, keep),
{
    let s = a.selection;
    let n = margin(at_most_amount(cmd.amount, longest_side(a.canvas)));
    if let SelectionView::Mask(m, rect) = s {
        assert forall|p: IVec2| #[trigger] x.selection.cov(p) == y.selection.cov(p) by {
            let c = x.selection.cov(p);
            let d = y.selection.cov(p);
            if rect.outset(n).has(p.x as int, p.y as int) {
                assert(is_window_max(s, p, n, c));
                assert(is_window_max(s, p, n, d));
                let g = choose|g: IVec2| near(p, g, n) && #[trigger] s.cov(g) == c;
                let h = choose|h: IVec2| near(p, h, n) && #[trigger] s.cov(h) == d;
                assert(rank(s.cov(g)) <= rank(d));
                assert(rank(s.cov(h)) <= rank(c));
                lemma_coverage_order(x.selection, p, y.selection, p);
            }
        }
    }
    lemma_selected(a, b, x, y, keep);
}

/// Shrinking the selection again selects the same.
pub proof fn shrinking_repeats(
    cmd: ShrinkSelectionCmd,
    a: DocView,
    x: DocView,
    b: DocView,
    r: Result<(), OgreError>,
    y: DocView,
    keep: Set<LayerId>,
)
    requires
        cmd.does(a, Ok(()), x),
        cmd.does(b, r, y),
        same_picture(a, b, keep),
    ensures
        r is Ok,
        look_alike(x, y, keep),
{
    let s = a.selection;
    let n = margin(at_most_amount(cmd.amount, longest_side(a.canvas)));
    if let SelectionView::Mask(m, rect) = s {
        assert forall|p: IVec2| #[trigger] x.selection.cov(p) == y.selection.cov(p) by {
            let c = x.selection.cov(p);
            let d = y.selection.cov(p);
            if rect.outset(-n).has(p.x as int, p.y as int) {
                assert(is_window_min(s, p, n, c));
                assert(is_window_min(s, p, n, d));
                let g = choose|g: IVec2| near(p, g, n) && #[trigger] s.cov(g) == c;
                let h = choose|h: IVec2| near(p, h, n) && #[trigger] s.cov(h) == d;
                assert(rank(s.cov(g)) >= rank(d));
                assert(rank(s.cov(h)) >= rank(c));
                lemma_coverage_order(x.selection, p, y.selection, p);
            }
        }
    }
    lemma_selected(a, b, x, y, keep);
}

/// The same pixels are selected alike.
proof fn lemma_selects_alike(
    s: SelectionView,
    t: SelectionView,
    pick: spec_fn(IVec2) -> bool,
    offset: IVec2,
)
    requires
        selects(s, pick, offset),
        selects(t, pick, offset),
    ensures
        selections_alike(s, t),
{
    if exists|p: IVec2| #[trigger] picked(pick, offset, p) {
        let (m, lo, hi) = choose|m: Map<(i32, i32), Seq<Rgba32F>>, lo: IVec2, hi: IVec2|
            #![trigger marks(m, pick, offset), tight(inked(m), lo, hi)]
            marks(m, pick, offset) && tight(inked(m), lo, hi) && s == SelectionView::Mask(
                m,
                Rect::from_corners_spec(lo, hi),
            );
        let (n, lo2, hi2) = choose|m: Map<(i32, i32), Seq<Rgba32F>>, lo: IVec2, hi: IVec2|
            #![trigger marks(m, pick, offset), tight(inked(m), lo, hi)]
            marks(m, pick, offset) && tight(inked(m), lo, hi) && t == SelectionView::Mask(
                m,
                Rect::from_corners_spec(lo, hi),
            );
        assert forall|p: IVec2| alike(#[trigger] pixel_at(m, p), pixel_at(n, p)) by {
            assert(alike(
                pixel_at(n, p),
                if picked(pick, offset, p) { full_coverage() } else { clear_px() },
            ));
        }
        assert(inked(m) =~= inked(n)) by {
            assert forall|p: IVec2| inked(m).contains(p) == inked(n).contains(p) by {
                assert(alike(pixel_at(m, p), pixel_at(n, p)));
            }
        }
        tight_box_is_unique(inked(m), lo, hi, lo2, hi2);
        assert forall|p: IVec2| #[trigger] s.cov(p) == t.cov(p) by {
            assert(alike(pixel_at(m, p), pixel_at(n, p)));
        }
    }
}

/// Using the magic wand again selects the same.
pub proof fn wands_repeat<M: Arith + Send>(
    cmd: MagicWandCmd<M>,
    a: DocView,
    x: DocView,
    b: DocView,
    r: Result<(), OgreError>,
    y: DocView,
    keep: Set<LayerId>,
)
    requires
        cmd.does(a, Ok(()), x),
        cmd.does(b, r, y),
        same_picture(a, b, keep),
        a.active matches Some(id) && visible(a, id),
    ensures
        r is Ok,
        look_alike(x, y, keep),
{
    let id = a.active->0;
    seen_alike(b, id);
    let l = a.layers[id];
    let pick = wand_pick(
        &cmd.math,
        l.content->buffer,
        l.offset,
        cmd.seed_doc,
        cmd.tolerance,
        cmd.contiguous,
    );
    let s = choose|s: SelectionView| #[trigger]
        is_combination(a.selection, s, cmd.mode, x.selection) && selects(s, pick, l.offset);
    let t = choose|t: SelectionView| #[trigger]
        is_combination(b.selection, t, cmd.mode, y.selection) && selects(t, pick, l.offset);
    lemma_selects_alike(s, t, pick, l.offset);
    assert(x.selection.extent() == y.selection.extent());
    assert forall|p: IVec2| #[trigger] x.selection.cov(p) == y.selection.cov(p) by {
        assert(s.cov(p) == t.cov(p));
        assert(y.selection.cov(p) == y.selection.cov(p));
    }
    lemma_selected(a, b, x, y, keep);
}

/// Removing the background again looks the same.
pub proof fn removals_repeat<M: MatteKernel + Send>(
    cmd: RemoveBackgroundCmd<M>,
    a: DocView,
    x: DocView,
    b: DocView,
    r: Result<(), OgreError>,
    y: DocView,
    keep: Set<LayerId>,
)
    requires
        cmd.does(a, Ok(()), x),
        cmd.does(b, r, y),
        same_picture(a, b, keep),
        a.active matches Some(id) && visible(a, id),
    ensures
        r is Ok,
        look_alike(x, y, keep),
{
    let id = a.active->0;
    seen_alike(b, id);
    let m = buffer_of(a.layers[id]);
    assert forall|f: Rect, g: Rect| #[trigger] is_frame(m, f) && #[trigger] is_frame(
        m,
        g,
    ) implies f == g by {
        let (lo, hi) = choose|lo: IVec2, hi: IVec2| #[trigger]
            tight(inked(m), lo, hi) && f == Rect::from_corners_spec(lo, hi);
        let (lo2, hi2) = choose|lo: IVec2, hi: IVec2| #[trigger]
            tight(inked(m), lo, hi) && g == Rect::from_corners_spec(lo, hi);
        tight_box_is_unique(inked(m), lo, hi, lo2, hi2);
    }
    assert(r is Ok);
    let n = buffer_of(x.layers[id]);
    let o = buffer_of(y.layers[id]);
    assert forall|p: IVec2| alike(#[trigger] pixel_at(n, p), pixel_at(o, p)) by {
        assert(alike(pixel_at(o, p), pixel_at(o, p)));
    }
    lemma_one_layer(a, b, x, y, id, keep);
}

/// Putting other pixels into a layer beside the one that is taken out changes nothing
/// else of what is left.
proof fn lemma_taken_out_beside(
    v: DocView,
    w: DocView,
    z: DocView,
    upper: LayerId,
    lower: LayerId,
)
    requires
        v.layers.dom().finite(),
        w.layers.dom().finite(),
        v.has(lower),
        v.has(upper),
        v.layers[upper].content is Raster,
        v.layers[lower].content is Raster,
        w.layers[lower].content is Raster,
        w == v.with_layer(lower, w.layers[lower]),
        upper != lower,
        v.placed(upper),
        taken_out(v, upper, z),
    ensures
        taken_out(w, upper, z.with_layer(lower, w.layers[lower])),
        z.has(lower),
        z.layers[lower] == v.layers[lower],
{
    let n = choose|n: DocView| #[trigger]
        unlisted(v, upper, n) && z == (DocView {
            active: z.active,
            removed: n.removed.union(subtree(v, upper).to_set()),
            ..n
        });
    let (p, i) = choose|p: Option<LayerId>, i: int| #[trigger]
        v.sits_at(upper, p, i) && n == v.with_list(p, v.list(p).remove(i));
    assert forall|g: LayerId| #[trigger] v.is_parent(g, upper) == w.is_parent(g, upper) by {}
    if let Some(g) = p {
        assert(v.is_parent(g, upper));
        assert(g != lower);
    }
    assert(w.sits_at(upper, p, i)) by {
        if p is None {
            assert forall|g: LayerId| !(#[trigger] w.is_parent(g, upper)) by {
                assert(v.is_parent(g, upper) == w.is_parent(g, upper));
            }
        }
    }
    placed_layers_sit_somewhere(w, upper);
    let k = w.with_list(p, w.list(p).remove(i));
    assert(unlisted(w, upper, k));
    lemma_walk_leaf(v, upper);
    lemma_walk_leaf(w, upper);
    let fin = z.with_layer(lower, w.layers[lower]);
    assert(fin.layers =~= k.layers);
    assert(fin == (DocView {
        active: fin.active,
        removed: k.removed.union(subtree(w, upper).to_set()),
        ..k
    }));
}

/// Merging down again looks the same.
pub proof fn merging_repeats<K: Kernel + Send>(
    cmd: MergeDownCmd<K>,
    a: DocView,
    x: DocView,
    b: DocView,
    r: Result<(), OgreError>,
    y: DocView,
    keep: Set<LayerId>,
)
    requires
        cmd.does(a, Ok(()), x),
        cmd.does(b, r, y),
        same_picture(a, b, keep),
        tidy(a),
        a.layers.dom().finite(),
        b.layers.dom().finite(),
    ensures
        r is Ok,
        look_alike(x, y, keep),
{
    let upper = cmd.upper;
    pictures_share_the_tree(a, b, keep);
    assert(upper_error(a, upper) is None);
    let (p, i) = choose|p: Option<LayerId>, i: int| #[trigger]
        a.sits_at(upper, p, i) && match below_error(a, upper, p, i) {
            Some(e) => false,
            None => exists|m: Map<(i32, i32), Seq<Rgba32F>>| #[trigger]
                merged_softly(&cmd.kern, a, upper, a.list(p)[i - 1], m, x),
        };
    assert(visible(a, upper));
    assert(b.sits_at(upper, p, i));
    placed_layers_sit_somewhere(b, upper);
    assert(upper_error(b, upper) is None);
    assert(spot(a, p, i));
    assert(spot(a, p, i - 1));
    let lower = a.list(p)[i - 1];
    assert(a.list(p) == b.list(p));
    assert(visible(a, lower));
    assert(a.list(p)[i] == upper);
    assert(lower != upper);
    assert forall|q: Option<LayerId>, j: int| #[trigger] b.sits_at(upper, q, j) implies q == p && j
        == i by {
        one_seat(b, upper, p, i, q, j);
    }
    assert(below_error(b, upper, p, i) is None);
    assert(r is Ok);
    let m = choose|m: Map<(i32, i32), Seq<Rgba32F>>| #[trigger]
        merged_softly(&cmd.kern, a, upper, lower, m, x);
    let n = choose|n: Map<(i32, i32), Seq<Rgba32F>>| #[trigger]
        merged_softly(&cmd.kern, b, upper, lower, n, y);
    assert forall|q: IVec2| alike(#[trigger] pixel_at(m, q), pixel_at(n, q)) by {
        assert(pixel_at(m, q) == pixel_at(n, q));
    }
    let first = merged_layer(a, lower, m);
    let second = merged_layer(b, lower, n);
    let a1 = a.with_layer(lower, first);
    let b1 = b.with_layer(lower, first);
    let b2 = b.with_layer(lower, second);
    assert(b1.layers =~= b2.layers.insert(lower, first));
    assert forall|g: LayerId| #[trigger] b2.is_parent(g, upper) == b.is_parent(g, upper) by {}
    assert(b2.sits_at(upper, p, i)) by {
        if p is None {
            assert forall|g: LayerId| !(#[trigger] b2.is_parent(g, upper)) by {
                assert(b2.is_parent(g, upper) == b.is_parent(g, upper));
            }
        }
    }
    placed_layers_sit_somewhere(b2, upper);
    lemma_taken_out_beside(b2, b1, y, upper, lower);
    let z = y.with_layer(lower, first);
    assert(same_picture(a1, b1, keep)) by {
        assert forall|g: LayerId| #[trigger] shown(a1, keep, g) == shown(b1, keep, g) by {
            assert(shown(a, keep, g) == shown(b, keep, g));
        }
    }
    one_layer_keeps_tidy(a, a1, lower);
    assert forall|g: LayerId| #[trigger] a1.is_parent(g, upper) == a.is_parent(g, upper) by {}
    assert(a1.sits_at(upper, p, i)) by {
        if p is None {
            assert forall|g: LayerId| !(#[trigger] a1.is_parent(g, upper)) by {
                assert(a1.is_parent(g, upper) == a.is_parent(g, upper));
            }
        }
    }
    placed_layers_sit_somewhere(a1, upper);
    lemma_walk_leaf(a1, upper);
    lemma_walk_leaf(b1, upper);
    deleted_alike(upper, a1, x, b1, z, keep);
    assert forall|g: LayerId| #[trigger] shown_alike(shown(x, keep, g), shown(y, keep, g)) by {
        assert(shown(x, keep, g) == shown(z, keep, g));
    }
}

} // verus!
