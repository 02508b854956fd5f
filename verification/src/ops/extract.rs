//! Extract selections and copy/cut them to new layers.
//!
//! Copying or cutting a selection to a new layer retains the exact document
//! position of the selected pixels. The extracted pixels live in a zero-offset
//! raster layer, so their document coordinates are preserved unchanged.
use vstd::prelude::*;

use crate::buffer::{alike, key, pixel_at, pruned, sparse, TiledBuffer};
use crate::buffer_region::{cleared, pruning_keeps_pixels, same_tile};
use crate::compositor::sum_offset;
use crate::coord::{fits_i32, local_coord, local_coord_spec, tile_of, IVec2, Rect, TileCoord};
use crate::document::{put_above, stored, DocView, Document};
use crate::error::OgreError;
use crate::float_bits::{complement, complement_spec, is_nan, is_zero, nan, zero, F_ONE, F_ZERO};
use crate::kernel::Kernel;
use crate::layer::{fresh_layer, ContentView, Layer, LayerContent, LayerId, LayerView};
use crate::ops::layer_ops::{copy_name, name_of_copy};
use crate::paint::{in_area, paint, writes};
use crate::pixel::{clear_px, Rgba32F};
use crate::selection::{
    coverage_lies_in_extent, extents_meet, selected_tile, smaller, Selection, SelectionKind, SelectionView,
};

verus! {

/// An alpha; zero for what is no number.
pub open spec fn plain_alpha(a: u32) -> u32 {
    if nan(a) { F_ZERO } else { a }
}

/// A pixel with its alpha scaled; the transparent pixel if nothing is left.
pub open spec fn scaled_px<K: Kernel>(kern: &K, px: Rgba32F, by: u32) -> Rgba32F {
    let a = kern.scaled(plain_alpha(px.a), by);
    if zero(a) { clear_px() } else { Rgba32F { a, ..px } }
}

fn scale_pixel<K: Kernel>(kern: &K, px: Rgba32F, by: u32) -> (r: Rgba32F)
    requires
        kern.wf(),
    ensures
        r == scaled_px(kern, px, by),
{
    let a: u32 = kern.scale(if is_nan(px.a) { F_ZERO } else { px.a }, by);
    if is_zero(a) { Rgba32F::transparent() } else { Rgba32F::new(px.r, px.g, px.b, a) }
}

/// What is extracted at document position `q` of a layer placed at `offset`.
pub open spec fn extracted_px<K: Kernel>(
    kern: &K,
    m: Map<(i32, i32), Seq<Rgba32F>>,
    offset: IVec2,
    cov: u32,
    q: IVec2,
) -> Rgba32F {
    match local_coord_spec(q, offset) {
        Some(p) => if cov == F_ZERO { clear_px() } else { scaled_px(kern, pixel_at(m, p), cov) },
        None => clear_px(),
    }
}

/// Read `source` (in layer-local space, shifted by `src_offset`) over the
/// selection and return a buffer keyed in **document** coordinates.
///
/// Each extracted pixel has its alpha multiplied by the selection coverage at
/// that document pixel. RGB channels are left untouched. Pixels whose local
/// coordinate overflows `i32`, or whose scaled alpha is exactly zero, become
/// transparent. Pixels outside the selection are left transparent, and no tile
/// is kept without ink.
pub fn extract_selection<K: Kernel>(
    kern: &K,
    source: &TiledBuffer,
    src_offset: IVec2,
    sel: &Selection,
) -> (out: TiledBuffer)
    requires
        kern.wf(),
        source.wf(),
        sel.wf(),
    ensures
        out.wf(),
        sparse(out@),
        forall|q: IVec2|
            alike(
                #[trigger] out.at(q),
                extracted_px(kern, source@, src_offset, sel@.cov(q), q),
            ),
{
    let mut out: TiledBuffer = TiledBuffer::new();
    let b: Rect = match sel.bounds() {
        Some(b) => b,
        None => {
            proof {
                assert forall|q: IVec2|
                    alike(
                        #[trigger] out.at(q),
                        extracted_px(kern, source@, src_offset, sel@.cov(q), q),
                    ) by {
                    coverage_lies_in_extent(sel@, q);
                }
            }
            return out;
        },
    };
    let f = |q: IVec2| -> (o: Option<Rgba32F>)
        requires
            kern.wf() && source.wf() && sel.wf(),
        ensures
            match o {
                Some(px) => px == extracted_px(kern, source@, src_offset, sel@.cov(q), q),
                None => extracted_px(kern, source@, src_offset, sel@.cov(q), q) == clear_px(),
            },
        {
            match local_coord(q, src_offset) {
                Some(p) => {
                    let cov: u32 = sel.coverage_at(q);
                    if cov == F_ZERO {
                        None
                    } else {
                        Some(scale_pixel(kern, source.get_pixel(p), cov))
                    }
                },
                None => None,
            }
        };
    let x1: i64 = b.right();
    let y1: i64 = b.bottom();
    paint(&mut out, b.x as i64, b.y as i64, x1, y1, f);
    proof {
        let area = (b.x as int, b.y as int, x1 as int, y1 as int);
        assert forall|q: IVec2|
            alike(
                #[trigger] out.at(q),
                extracted_px(kern, source@, src_offset, sel@.cov(q), q),
            ) by {
            if in_area(area, q) {
                assert(writes(f, q, clear_px(), out.at(q)));
            } else {
                coverage_lies_in_extent(sel@, q);
            }
        }
    }
    out
}

/// What is left at local position `p` of a layer placed at `offset` once a
/// selection was erased from it.
pub open spec fn erased_px<K: Kernel>(
    kern: &K,
    m: Map<(i32, i32), Seq<Rgba32F>>,
    offset: IVec2,
    s: SelectionView,
    p: IVec2,
) -> Rgba32F {
    match sum_offset(p, offset) {
        Some(q) => if s.cov(q) == F_ZERO {
            pixel_at(m, p)
        } else {
            scaled_px(kern, pixel_at(m, p), complement_spec(s.cov(q)))
        },
        None => pixel_at(m, p),
    }
}

fn doc_position(p: IVec2, offset: IVec2) -> (r: Option<IVec2>)
    ensures
        r == sum_offset(p, offset),
{
    match (p.x.checked_add(offset.x), p.y.checked_add(offset.y)) {
        (Some(x), Some(y)) => Some(IVec2::new(x, y)),
        _ => None,
    }
}

/// Return a copy of `source` with the selected pixels erased.
///
/// Full coverage removes the pixel, partial coverage reduces alpha as
/// `alpha * (1 - coverage)`, the same rule [`cut_selection_to_new_layer`]
/// applies to the source layer. This is the buffer-level building block for
/// "cut to clipboard" (clear in place) without creating a new layer.
pub fn erase_selection_from_buffer<K: Kernel>(
    kern: &K,
    source: &TiledBuffer,
    src_offset: IVec2,
    sel: &Selection,
) -> (out: TiledBuffer)
    requires
        kern.wf(),
        source.wf(),
        sel.wf(),
    ensures
        out.wf(),
        sparse(out@),
        others_pruned(source@, out@, sel@, src_offset),
        forall|p: IVec2|
            alike(#[trigger] out.at(p), erased_px(kern, source@, src_offset, sel@, p)),
{
    let mut out: TiledBuffer = source.clone();
    let b: Rect = match sel.bounds() {
        Some(b) => b,
        None => {
            let ghost m = out@;
            proof {
                out.lemma_full();
            }
            out.prune_empty_tiles();
            proof {
                assert forall|p: IVec2|
                    alike(#[trigger] out.at(p), erased_px(kern, source@, src_offset, sel@, p)) by {
                    pruning_keeps_pixels(m, p);
                    if let Some(q) = sum_offset(p, src_offset) {
                        coverage_lies_in_extent(sel@, q);
                    }
                }
            }
            return out;
        },
    };
    let f = |p: IVec2| -> (o: Option<Rgba32F>)
        requires
            kern.wf() && source.wf() && sel.wf(),
        ensures
            match o {
                Some(px) => px == erased_px(kern, source@, src_offset, sel@, p),
                None => erased_px(kern, source@, src_offset, sel@, p) == pixel_at(source@, p),
            },
        {
            match doc_position(p, src_offset) {
                Some(q) => {
                    let cov: u32 = sel.coverage_at(q);
                    if cov == F_ZERO {
                        None
                    } else {
                        Some(scale_pixel(kern, source.get_pixel(p), complement(cov)))
                    }
                },
                None => None,
            }
        };
    let x0: i64 = b.x as i64 - src_offset.x as i64;
    let y0: i64 = b.y as i64 - src_offset.y as i64;
    let x1: i64 = b.right() - src_offset.x as i64;
    let y1: i64 = b.bottom() - src_offset.y as i64;
    paint(&mut out, x0, y0, x1, y1, f);
    let ghost painted = out;
    let ghost m = out@;
    proof {
        out.lemma_full();
    }
    out.prune_empty_tiles();
    proof {
        let area = (x0 as int, y0 as int, x1 as int, y1 as int);
        assert forall|t: TileCoord| !selected_tile(sel@, src_offset, t) implies #[trigger] same_tile(
            pruned(source@),
            out@,
            key(t),
        ) by {
            assert forall|p: IVec2| #[trigger] in_area(area, p) implies key(tile_of(p)) != key(
                t,
            ) by {}
            assert(same_tile(source@, m, key(t)));
        }
        assert forall|p: IVec2|
            alike(#[trigger] out.at(p), erased_px(kern, source@, src_offset, sel@, p)) by {
            pruning_keeps_pixels(m, p);
            assert(painted.at(p) == pixel_at(m, p));
            if in_area(area, p) {
                assert(writes(f, p, pixel_at(source@, p), pixel_at(m, p)));
            } else if let Some(q) = sum_offset(p, src_offset) {
                coverage_lies_in_extent(sel@, q);
            }
        }
    }
    out
}

/// Where both the canvas and a selection select.
pub open spec fn on_canvas(canvas: Rect, s: SelectionView, q: IVec2) -> u32 {
    smaller(SelectionView::Rect(canvas).cov(q), s.cov(q))
}

/// Nothing of a selection lies on the canvas.
pub open spec fn off_canvas(canvas: Rect, s: SelectionView) -> bool {
    extents_meet(SelectionView::Rect(canvas).extent(), s.extent()) is None
}

/// `b` holds what a selection extracts from layer `l`, and no tile without ink.
pub open spec fn is_extract<K: Kernel>(
    kern: &K,
    canvas: Rect,
    l: LayerView,
    s: SelectionView,
    b: Map<(i32, i32), Seq<Rgba32F>>,
) -> bool {
    &&& sparse(b)
    &&& forall|q: IVec2|
        alike(
            #[trigger] pixel_at(b, q),
            extracted_px(kern, l.content->buffer, l.offset, on_canvas(canvas, s, q), q),
        )
}

/// Why a selection of layer `source` cannot be copied.
pub open spec fn copy_error(v: DocView, source: LayerId, s: SelectionView) -> Option<OgreError> {
    if off_canvas(v.canvas, s) {
        Some(OgreError::EmptySelection)
    } else if !v.has(source) {
        Some(OgreError::LayerNotFound(source))
    } else if !v.is_raster(source) {
        Some(OgreError::NotRaster)
    } else {
        None
    }
}

/// The layer that extracted pixels make.
pub open spec fn copy_layer(l: LayerView, b: Map<(i32, i32), Seq<Rgba32F>>) -> LayerView {
    fresh_layer(copy_name(l.name), ContentView::Raster { buffer: b, mask: None })
}

/// `z` is the document with what a selection extracts from `source` in the new
/// layer `id` directly above it, made active.
pub open spec fn copied_above<K: Kernel>(
    kern: &K,
    v: DocView,
    source: LayerId,
    s: SelectionView,
    id: LayerId,
    b: Map<(i32, i32), Seq<Rgba32F>>,
    z: DocView,
) -> bool {
    &&& is_extract(kern, v.canvas, v.layers[source], s, b)
    &&& !v.has(id)
    &&& id != LayerId::null_spec()
    &&& exists|parent: Option<LayerId>, i: int| #[trigger]
        v.sits_at(source, parent, i) && z == (DocView {
            active: Some(id),
            ..put_above(v, copy_layer(v.layers[source], b), id, parent, i)
        })
}

/// `z` is the document with what a selection extracts from `source` in the new
/// layer `id`, which is kept without a place in the tree.
pub open spec fn copy_stored<K: Kernel>(
    kern: &K,
    v: DocView,
    source: LayerId,
    s: SelectionView,
    id: LayerId,
    b: Map<(i32, i32), Seq<Rgba32F>>,
    z: DocView,
) -> bool {
    &&& is_extract(kern, v.canvas, v.layers[source], s, b)
    &&& !v.has(id)
    &&& z == stored(v, copy_layer(v.layers[source], b), id)
}

/// Copy the selected pixels from `source` to a new raster layer inserted
/// directly above `source`.
///
/// The new layer has zero offset, so the copied pixels keep their exact
/// document coordinates. It also becomes the active layer.
///
/// Fails if the selection is empty or does not intersect the canvas, if `source`
/// does not exist or does not stand in the tree, and if it holds no pixels. A copy
/// of a layer that does not stand in the tree is kept without a place.
pub fn copy_selection_to_new_layer<K: Kernel>(
    kern: &K,
    doc: &mut Document,
    source: LayerId,
    sel: &Selection,
) -> (r: Result<LayerId, OgreError>)
    requires
        kern.wf(),
        old(doc).wf(),
        old(doc).room(1),
        sel.wf(),
    ensures
        final(doc).wf(),
        final(doc).used() <= old(doc).used() + 1,
        match copy_error(old(doc)@, source, sel@) {
            Some(e) => r matches Err(x) && x == e && final(doc)@ == old(doc)@,
            None => if old(doc)@.placed(source) {
                r matches Ok(id) && exists|b: Map<(i32, i32), Seq<Rgba32F>>| #[trigger]
                    copied_above(kern, old(doc)@, source, sel@, id, b, final(doc)@)
            } else {
                r matches Err(x) && x == OgreError::LayerNotFound(source) && exists|
                    id: LayerId,
                    b: Map<(i32, i32), Seq<Rgba32F>>,
                | #[trigger]
                    copy_stored(kern, old(doc)@, source, sel@, id, b, final(doc)@)
            },
        },
{
    let ghost v = doc@;
    let canvas_sel: Selection = Selection::rect(doc.canvas_rect()).intersect(sel);
    if canvas_sel.is_empty() {
        return Err(OgreError::EmptySelection);
    }
    let (extracted, name) = match doc.layer(source) {
        Ok(l) => match l.buffer() {
            Some(buffer) => (
                extract_selection(kern, buffer, l.offset, &canvas_sel),
                name_of_copy(&l.name),
            ),
            None => {
                return Err(OgreError::NotRaster);
            },
        },
        Err(e) => {
            return Err(e);
        },
    };
    let ghost b = extracted@;
    let mut layer: Layer = Layer::new_raster(name.as_str());
    proof {
        assert forall|q: IVec2|
            alike(
                #[trigger] pixel_at(b, q),
                extracted_px(
                    kern,
                    v.layers[source].content->buffer,
                    v.layers[source].offset,
                    on_canvas(v.canvas, sel@, q),
                    q,
                ),
            ) by {
            assert(alike(
                extracted.at(q),
                extracted_px(
                    kern,
                    v.layers[source].content->buffer,
                    v.layers[source].offset,
                    canvas_sel@.cov(q),
                    q,
                ),
            ));
        }
    }
    layer.content = LayerContent::Raster { buffer: extracted, mask: None };
    assert(layer@ == copy_layer(v.layers[source], b));
    match doc.insert_plain_above(layer, source) {
        Ok(id) => {
            let ghost w = doc@;
            doc.set_active(Some(id));
            proof {
                let (parent, i) = choose|parent: Option<LayerId>, i: int| #[trigger]
                    v.sits_at(source, parent, i) && w == put_above(
                        v,
                        copy_layer(v.layers[source], b),
                        id,
                        parent,
                        i,
                    );
                assert(v.sits_at(source, parent, i));
                assert(copied_above(kern, v, source, sel@, id, b, doc@));
            }
            Ok(id)
        },
        Err(e) => {
            proof {
                let id = choose|id: LayerId|
                    !v.has(id) && doc@ == #[trigger] stored(
                        v,
                        copy_layer(v.layers[source], b),
                        id,
                    );
                assert(copy_stored(kern, v, source, sel@, id, b, doc@));
            }
            Err(e)
        },
    }
}

/// What is left at local position `p` of layer `l` once a selection `c` on the
/// canvas was cut from it.
///
/// A fully selected rectangle is cleared; otherwise each pixel keeps what the
/// selection leaves of it.
pub open spec fn cut_px<K: Kernel>(
    kern: &K,
    l: LayerView,
    c: SelectionView,
    p: IVec2,
) -> Rgba32F {
    let m = l.content->buffer;
    match c {
        SelectionView::Rect(r) => if fits_i32(r.x - l.offset.x) && fits_i32(r.y - l.offset.y) {
            cleared(
                m,
                Rect { x: (r.x - l.offset.x) as i32, y: (r.y - l.offset.y) as i32, w: r.w, h: r.h },
                p,
            )
        } else {
            erased_px(kern, m, l.offset, c, p)
        },
        _ => erased_px(kern, m, l.offset, c, p),
    }
}

/// `c` is the part of selection `s` on the canvas.
pub open spec fn is_clipped(canvas: Rect, s: SelectionView, c: SelectionView) -> bool {
    &&& forall|q: IVec2| #[trigger] c.cov(q) == on_canvas(canvas, s, q)
    &&& c.extent() == extents_meet(SelectionView::Rect(canvas).extent(), s.extent())
    &&& s is Rect && c.extent() is Some ==> c is Rect
}

/// The tiles that a selection does not touch, seen from a layer placed at
/// `offset`, are those of `m` with any ink.
pub open spec fn others_pruned(
    m: Map<(i32, i32), Seq<Rgba32F>>,
    n: Map<(i32, i32), Seq<Rgba32F>>,
    s: SelectionView,
    offset: IVec2,
) -> bool {
    forall|t: TileCoord|
        !selected_tile(s, offset, t) ==> #[trigger] same_tile(pruned(m), n, key(t))
}

/// `b` holds what is left of layer `l` once `c` was cut from it, and no tile
/// without ink.
pub open spec fn is_cut<K: Kernel>(
    kern: &K,
    l: LayerView,
    c: SelectionView,
    b: Map<(i32, i32), Seq<Rgba32F>>,
) -> bool {
    &&& sparse(b)
    &&& others_pruned(l.content->buffer, b, c, l.offset)
    &&& forall|p: IVec2| alike(#[trigger] pixel_at(b, p), cut_px(kern, l, c, p))
}

/// A raster layer with other pixels.
pub open spec fn with_pixels(l: LayerView, b: Map<(i32, i32), Seq<Rgba32F>>) -> LayerView {
    LayerView {
        content: ContentView::Raster { buffer: b, mask: l.content->mask },
        ..l
    }
}

/// Erase the selected pixels from `source` without creating a new layer.
///
/// Full coverage removes the pixel, partial coverage reduces alpha as
/// `alpha * (1 - coverage)`. Empty tiles are pruned.
pub fn erase_selection<K: Kernel>(
    kern: &K,
    doc: &mut Document,
    source: LayerId,
    sel: &Selection,
) -> (r: Result<(), OgreError>)
    requires
        kern.wf(),
        old(doc).wf(),
        sel.wf(),
        old(doc)@.has(source) ==> old(doc)@.is_raster(source),
    ensures
        final(doc).wf(),
        final(doc).used() == old(doc).used(),
        if off_canvas(old(doc)@.canvas, sel@) {
            r is Ok && final(doc)@ == old(doc)@
        } else if !old(doc)@.has(source) {
            r == Err::<(), OgreError>(OgreError::LayerNotFound(source)) && final(doc)@ == old(doc)@
        } else {
            r is Ok && exists|c: SelectionView, b: Map<(i32, i32), Seq<Rgba32F>>| #[trigger]
                is_clipped(old(doc)@.canvas, sel@, c) && #[trigger] is_cut(
                    kern,
                    old(doc)@.layers[source],
                    c,
                    b,
                ) && final(doc)@ == old(doc)@.with_layer(
                    source,
                    with_pixels(old(doc)@.layers[source], b),
                )
        },
{
    let ghost v = doc@;
    let canvas_sel: Selection = Selection::rect(doc.canvas_rect()).intersect(sel);
    if canvas_sel.is_empty() {
        return Ok(());
    }
    let ghost c = canvas_sel@;
    assert(is_clipped(v.canvas, sel@, c));
    match doc.layer_mut(source) {
        Ok(layer) => {
            let offset: IVec2 = layer.offset;
            let ghost l = layer@;
            match layer.buffer_mut() {
                Some(buffer) => {
                    let ghost m = buffer@;
                    let mut done: bool = false;
                    // Fast path: a full-coverage rectangular selection clears a
                    // rectangle in a single pass.
                    if let SelectionKind::Rect(r) = &canvas_sel.kind {
                        if let (Some(x), Some(y)) = (
                            r.x.checked_sub(offset.x),
                            r.y.checked_sub(offset.y),
                        ) {
                            buffer.clear_rect(Rect::new(x, y, r.w, r.h));
                            done = true;
                            proof {
                                assert forall|p: IVec2|
                                    alike(
                                        #[trigger] pixel_at(buffer@, p),
                                        cut_px(kern, l, c, p),
                                    ) by {
                                    assert(buffer.at(p) == pixel_at(buffer@, p));
                                }
                            }
                        }
                    }
                    if !done {
                        let erased: TiledBuffer = erase_selection_from_buffer(
                            kern,
                            &*buffer,
                            offset,
                            &canvas_sel,
                        );
                        *buffer = erased;
                        proof {
                            assert forall|p: IVec2|
                                alike(#[trigger] pixel_at(buffer@, p), cut_px(kern, l, c, p)) by {
                                assert(erased.at(p) == pixel_at(buffer@, p));
                            }
                        }
                    }
                    assert(is_cut(kern, l, c, buffer@));
                },
                None => {},
            }
            Ok(())
        },
        Err(e) => Err(e),
    }
}

/// Clipping a selection to the canvas twice is clipping it once.
proof fn lemma_clip_twice(canvas: Rect, s: SelectionView, c: SelectionView)
    requires
        is_clipped(canvas, s, c),
    ensures
        forall|q: IVec2| #[trigger] on_canvas(canvas, c, q) == on_canvas(canvas, s, q),
        extents_meet(SelectionView::Rect(canvas).extent(), c.extent()) == extents_meet(
            SelectionView::Rect(canvas).extent(),
            s.extent(),
        ),
{
    assert forall|q: IVec2| #[trigger] on_canvas(canvas, c, q) == on_canvas(canvas, s, q) by {
        assert(c.cov(q) == on_canvas(canvas, s, q));
    }
}

/// What the part of a selection on the canvas extracts is what the selection does.
proof fn lemma_extract_clipped<K: Kernel>(
    kern: &K,
    canvas: Rect,
    l: LayerView,
    s: SelectionView,
    c: SelectionView,
    b: Map<(i32, i32), Seq<Rgba32F>>,
)
    requires
        is_clipped(canvas, s, c),
        is_extract(kern, canvas, l, c, b),
    ensures
        is_extract(kern, canvas, l, s, b),
{
    lemma_clip_twice(canvas, s, c);
    assert forall|q: IVec2|
        alike(
            #[trigger] pixel_at(b, q),
            extracted_px(kern, l.content->buffer, l.offset, on_canvas(canvas, s, q), q),
        ) by {
        assert(on_canvas(canvas, c, q) == on_canvas(canvas, s, q));
    }
}

/// Why a selection of layer `source` cannot be cut.
pub open spec fn cut_error(v: DocView, source: LayerId, s: SelectionView) -> Option<OgreError> {
    if off_canvas(v.canvas, s) {
        Some(OgreError::EmptySelection)
    } else if !v.has(source) {
        Some(OgreError::LayerNotFound(source))
    } else if v.layers[source].locked {
        Some(OgreError::LayerLocked(source))
    } else if !v.is_raster(source) {
        Some(OgreError::NotRaster)
    } else {
        None
    }
}

/// `z` is the document with what a selection extracts from `source` in the new
/// layer `id` directly above it, and the selection cut from `source`.
pub open spec fn cut_above<K: Kernel>(
    kern: &K,
    v: DocView,
    source: LayerId,
    s: SelectionView,
    id: LayerId,
    w: DocView,
    c: SelectionView,
    b: Map<(i32, i32), Seq<Rgba32F>>,
    z: DocView,
) -> bool {
    &&& exists|e: Map<(i32, i32), Seq<Rgba32F>>| #[trigger]
        copied_above(kern, v, source, s, id, e, w)
    &&& is_clipped(v.canvas, s, c)
    &&& is_cut(kern, v.layers[source], c, b)
    &&& z == w.with_layer(source, with_pixels(v.layers[source], b))
}

/// Cut the selected pixels from `source` to a new raster layer inserted
/// directly above `source`.
///
/// After copying the selection to a new layer, the source layer has the
/// selected region cleared: full coverage removes the pixel, partial coverage
/// reduces alpha as `alpha * (1 - coverage)`. Empty tiles are pruned.
///
/// Fails as [`copy_selection_to_new_layer`] does, and if `source` is locked.
pub fn cut_selection_to_new_layer<K: Kernel>(
    kern: &K,
    doc: &mut Document,
    source: LayerId,
    sel: &Selection,
) -> (r: Result<LayerId, OgreError>)
    requires
        kern.wf(),
        old(doc).wf(),
        old(doc).room(1),
        sel.wf(),
    ensures
        final(doc).wf(),
        final(doc).used() <= old(doc).used() + 1,
        match cut_error(old(doc)@, source, sel@) {
            Some(e) => r matches Err(x) && x == e && final(doc)@ == old(doc)@,
            None => if old(doc)@.placed(source) {
                r matches Ok(id) && exists|
                    w: DocView,
                    c: SelectionView,
                    b: Map<(i32, i32), Seq<Rgba32F>>,
                | #[trigger]
                    cut_above(kern, old(doc)@, source, sel@, id, w, c, b, final(doc)@)
            } else {
                r matches Err(x) && x == OgreError::LayerNotFound(source) && exists|
                    id: LayerId,
                    b: Map<(i32, i32), Seq<Rgba32F>>,
                | #[trigger]
                    copy_stored(kern, old(doc)@, source, sel@, id, b, final(doc)@)
            },
        },
{
    let ghost v = doc@;
    let canvas_sel: Selection = Selection::rect(doc.canvas_rect()).intersect(sel);
    if canvas_sel.is_empty() {
        return Err(OgreError::EmptySelection);
    }
    match doc.layer(source) {
        Ok(l) => {
            if l.locked {
                return Err(OgreError::LayerLocked(source));
            }
            if !l.is_raster() {
                return Err(OgreError::NotRaster);
            }
        },
        Err(e) => {
            return Err(e);
        },
    }
    let ghost c = canvas_sel@;
    proof {
        assert(is_clipped(v.canvas, sel@, c));
        lemma_clip_twice(v.canvas, sel@, c);
    }
    let id: LayerId = match copy_selection_to_new_layer(kern, doc, source, &canvas_sel) {
        Ok(id) => id,
        Err(e) => {
            proof {
                let (id, b) = choose|id: LayerId, b: Map<(i32, i32), Seq<Rgba32F>>| #[trigger]
                    copy_stored(kern, v, source, c, id, b, doc@);
                lemma_extract_clipped(kern, v.canvas, v.layers[source], sel@, c, b);
                assert(copy_stored(kern, v, source, sel@, id, b, doc@));
            }
            return Err(e);
        },
    };
    let ghost w = doc@;
    let ghost e = choose|e: Map<(i32, i32), Seq<Rgba32F>>| #[trigger]
        copied_above(kern, v, source, c, id, e, w);
    proof {
        lemma_extract_clipped(kern, v.canvas, v.layers[source], sel@, c, e);
        assert(copied_above(kern, v, source, sel@, id, e, w));
        let (parent, i) = choose|parent: Option<LayerId>, i: int| #[trigger]
            v.sits_at(source, parent, i) && w == (DocView {
                active: Some(id),
                ..put_above(v, copy_layer(v.layers[source], e), id, parent, i)
            });
        assert(w.has(source) && w.layers[source] == v.layers[source] && w.canvas == v.canvas);
    }
    match erase_selection(kern, doc, source, &canvas_sel) {
        Ok(_) => {
            proof {
                let (d, b) = choose|d: SelectionView, b: Map<(i32, i32), Seq<Rgba32F>>| #[trigger]
                    is_clipped(v.canvas, c, d) && #[trigger] is_cut(kern, w.layers[source], d, b)
                        && doc@ == w.with_layer(source, with_pixels(w.layers[source], b));
                lemma_clip_twice(v.canvas, sel@, c);
                assert forall|q: IVec2| #[trigger] d.cov(q) == on_canvas(v.canvas, sel@, q) by {
                    assert(on_canvas(v.canvas, c, q) == on_canvas(v.canvas, sel@, q));
                }
                assert(is_clipped(v.canvas, sel@, d));
                assert(cut_above(kern, v, source, sel@, id, w, d, b, doc@));
            }
            Ok(id)
        },
        Err(e) => {
            assert(false);
            Err(e)
        },
    }
}

/// What a fully selected pixel becomes, where one is neutral and zero absorbs:
/// the copy keeps it exactly, at the same document position, and nothing of it
/// is left.
pub proof fn full_selection_moves_pixels_exactly<K: Kernel>(
    kern: &K,
    m: Map<(i32, i32), Seq<Rgba32F>>,
    offset: IVec2,
    q: IVec2,
    p: IVec2,
)
    requires
        local_coord_spec(q, offset) == Some(p),
        kern.scaled(pixel_at(m, p).a, F_ONE) == pixel_at(m, p).a,
        kern.scaled(pixel_at(m, p).a, F_ZERO) == F_ZERO,
        !nan(pixel_at(m, p).a),
        !zero(pixel_at(m, p).a),
    ensures
        extracted_px(kern, m, offset, F_ONE, q) == pixel_at(m, p),
        scaled_px(kern, pixel_at(m, p), complement_spec(F_ONE)) == clear_px(),
{
    crate::float_bits::complement_of_ends();
}

} // verus!
