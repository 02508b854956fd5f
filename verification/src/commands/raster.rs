//! Commands that replace the pixels or the mask of a raster layer.
use vstd::prelude::*;

use crate::buffer::{alike, pixel_at, sparse, TiledBuffer};
use crate::buffer_region::ink_box;
use crate::commands::props::{just, maybe, maybe_seq, maybe_set};
use crate::commands::tiles::{
    active_edit_error, active_editable, buffer_of, check_editable, edit_error, with_buffer,
};
use crate::coord::{IVec2, Rect};
use crate::document::{DocView, Document};
use crate::error::OgreError;
use crate::float_bits::unit;
use crate::history::Command;
use crate::kernel::Kernel;
use crate::layer::{ContentView, LayerContent, LayerId, LayerView};
use crate::ops::flip::{flip_buffer, flipped_px, FlipAxis};
use crate::ops::mask::{apply_mask_to_buffer, baked_px, MaskInit};
use crate::ops::matte::{is_removal, remove_matte, MatteOptions, DEFAULT_EDGE_SOFTNESS};
use crate::ops::matte_math::MatteKernel;
use crate::picture::{
    changed_alike, one_layer_apart, one_layer_keeps_tidy, one_layer_put_back, owned,
    same_picture, seen_alike, tidy, visible,
};
use crate::pixel::Rgba32F;

verus! {

/// A layer with another mask.
pub open spec fn with_mask(l: LayerView, m: Option<Map<(i32, i32), Seq<Rgba32F>>>) -> LayerView {
    LayerView {
        content: ContentView::Raster { buffer: l.content->Raster_buffer, mask: m },
        ..l
    }
}

/// The mask of a raster layer.
pub open spec fn mask_of(l: LayerView) -> Option<Map<(i32, i32), Seq<Rgba32F>>> {
    l.content->Raster_mask
}

/// What an optional buffer holds.
pub open spec fn held(b: Option<TiledBuffer>) -> Option<Map<(i32, i32), Seq<Rgba32F>>> {
    match b {
        Some(m) => Some(m@),
        None => None,
    }
}

/// An optional buffer is well formed.
pub open spec fn held_wf(b: Option<TiledBuffer>) -> bool {
    b matches Some(m) ==> m.wf()
}

/// A copy of an optional buffer.
pub(crate) fn copy_held(b: &Option<TiledBuffer>) -> (r: Option<TiledBuffer>)
    requires
        held_wf(*b),
    ensures
        held(r) == held(*b),
        held_wf(r),
        r is Some == b is Some,
{
    match b {
        Some(m) => Some(m.clone()),
        None => None,
    }
}

/// A copy of the pixels and the mask of a raster layer.
pub(crate) fn copy_raster(doc: &Document, id: LayerId) -> (r: (TiledBuffer, Option<TiledBuffer>))
    requires
        doc.wf(),
        doc@.is_raster(id),
    ensures
        r.0.wf(),
        r.0@ == buffer_of(doc@.layers[id]),
        held_wf(r.1),
        held(r.1) == mask_of(doc@.layers[id]),
{
    if let Ok(layer) = doc.layer(id) {
        if let LayerContent::Raster { buffer, mask } = &layer.content {
            return (buffer.clone(), copy_held(mask));
        }
    }
    (TiledBuffer::new(), None)
}

/// A document with other pixels in a layer, if that is a raster layer.
pub open spec fn with_pixels(
    v: DocView,
    id: LayerId,
    m: Map<(i32, i32), Seq<Rgba32F>>,
) -> DocView {
    if v.is_raster(id) { v.with_layer(id, with_buffer(v.layers[id], m)) } else { v }
}

/// A document with another mask on a layer, if that is a raster layer.
pub open spec fn with_cover(
    v: DocView,
    id: LayerId,
    m: Option<Map<(i32, i32), Seq<Rgba32F>>>,
) -> DocView {
    if v.is_raster(id) { v.with_layer(id, with_mask(v.layers[id], m)) } else { v }
}

/// Replace the pixels of a layer, if it is a raster layer.
pub(crate) fn put_buffer(doc: &mut Document, id: LayerId, b: TiledBuffer)
    requires
        old(doc).wf(),
        b.wf(),
    ensures
        final(doc).wf(),
        final(doc).used() <= old(doc).used(),
        final(doc)@ == with_pixels(old(doc)@, id, b@),
        owned(old(doc)@) ==> owned(final(doc)@),
        tidy(old(doc)@) ==> tidy(final(doc)@),
{
    proof {
        crate::document::lemma_same_layer(doc@, id);
    }
    if let Ok(layer) = doc.layer_mut(id) {
        if let Some(buffer) = layer.buffer_mut() {
            *buffer = b;
        }
    }
    proof {
        if old(doc)@.has(id) {
            one_layer_keeps_tidy(old(doc)@, doc@, id);
        }
    }
}

/// Replace the mask of a layer, if it is a raster layer.
pub(crate) fn put_mask(doc: &mut Document, id: LayerId, b: Option<TiledBuffer>)
    requires
        old(doc).wf(),
        held_wf(b),
    ensures
        final(doc).wf(),
        final(doc).used() <= old(doc).used(),
        final(doc)@ == with_cover(old(doc)@, id, held(b)),
        owned(old(doc)@) ==> owned(final(doc)@),
        tidy(old(doc)@) ==> tidy(final(doc)@),
{
    proof {
        crate::document::lemma_same_layer(doc@, id);
    }
    if let Ok(layer) = doc.layer_mut(id) {
        layer.set_mask(b);
    }
    proof {
        if old(doc)@.has(id) {
            one_layer_keeps_tidy(old(doc)@, doc@, id);
        }
    }
}

/// `after` is `then` with another layer `id`, which is a raster layer, and the
/// active layer was `prior`.
pub open spec fn raster_apart(
    id: LayerId,
    prior: Option<LayerId>,
    then: DocView,
    after: DocView,
) -> bool {
    &&& one_layer_apart(then, after, id)
    &&& prior == then.active
    &&& after.is_raster(id)
}

/// Replace a raster layer's entire pixel buffer with a computed one.
///
/// This is the apply step for edits whose expensive computation runs elsewhere
/// (such as background removal): the command swaps the new buffer in undoably. The
/// label lets the caller name the history entry.
pub struct SetLayerBufferCmd {
    /// The layer.
    pub layer: LayerId,
    /// The pixels it is to have.
    pub new_buffer: TiledBuffer,
    /// The label of the history entry.
    pub label: &'static str,
    /// The pixels that were, once the command was applied.
    pub old_buffer: Option<TiledBuffer>,
    /// The active layer that was, once the command was applied.
    pub prior_active: Option<LayerId>,
}

impl SetLayerBufferCmd {
    /// Create a command that replaces `layer`'s buffer with `new_buffer`, recording the
    /// history entry under `label`.
    pub fn new(layer: LayerId, new_buffer: TiledBuffer, label: &'static str) -> (r: Self)
        ensures
            r.layer == layer,
            r.new_buffer == new_buffer,
            r.label == label,
            r.old_buffer is None,
            r.prior_active is None,
    {
        SetLayerBufferCmd { layer, new_buffer, label, old_buffer: None, prior_active: None }
    }
}

impl Command for SetLayerBufferCmd {
    open spec fn wf(&self) -> bool {
        &&& self.new_buffer.wf()
        &&& held_wf(self.old_buffer)
    }

    open spec fn name(&self) -> Seq<char> {
        self.label@
    }

    open spec fn adds(&self) -> nat {
        0
    }

    open spec fn refs(&self) -> Set<LayerId> {
        Set::empty().insert(self.layer)
    }

    open spec fn reverts(&self, then: DocView, after: DocView) -> bool {
        &&& raster_apart(self.layer, self.prior_active, then, after)
        &&& self.old_buffer matches Some(b) && then.layers[self.layer] == with_buffer(
            after.layers[self.layer],
            b@,
        )
    }

    open spec fn learns(&self) -> bool {
        false
    }

    open spec fn undoes(&self, now: DocView, fin: DocView) -> bool {
        fin == (DocView {
            active: self.prior_active,
            ..(match self.old_buffer {
                Some(b) => with_pixels(now, self.layer, b@),
                None => now,
            })
        })
    }

    open spec fn does(&self, then: DocView, r: Result<(), OgreError>, after: DocView) -> bool {
        &&& r is Err ==> after == then
        &&& match edit_error(then, self.layer) {
            Some(e) => r == Err::<(), OgreError>(e),
            None => {
                r is Ok && after == (DocView {
                    active: Some(self.layer),
                    ..with_pixels(then, self.layer, self.new_buffer@)
                })
            },
        }
    }

    open spec fn steady(&self, then: DocView) -> bool {
        visible(then, self.layer)
    }

    fn label(&self) -> (r: &'static str) {
        self.label
    }

    fn apply(&mut self, doc: &mut Document) -> (r: Result<(), OgreError>) {
        proof {
            seen_alike(doc@, self.layer);
        }
        if let Err(e) = check_editable(doc, self.layer) {
            return Err(e);
        }
        let kept: (TiledBuffer, Option<TiledBuffer>) = copy_raster(doc, self.layer);
        let prior: Option<LayerId> = doc.active_layer();
        put_buffer(doc, self.layer, self.new_buffer.clone());
        doc.set_active(Some(self.layer));
        self.old_buffer = Some(kept.0);
        self.prior_active = prior;
        proof {
            one_layer_keeps_tidy(old(doc)@, doc@, self.layer);
            changed_alike(old(doc)@, doc@, self.layer);
        }
        Ok(())
    }

    fn undo(&mut self, doc: &mut Document)
        ensures
            final(self).old_buffer is None,
    {
        if let Some(b) = self.old_buffer.take() {
            put_buffer(doc, self.layer, b);
        }
        doc.set_active(self.prior_active);
        proof {
            assert forall|then: DocView, after: DocView, keep: Set<LayerId>|
                #![trigger old(self).reverts(then, after), same_picture(then, doc@, keep)]
                old(self).reverts(then, after) && keep.subset_of(then.layers.dom()) && same_picture(
                    after,
                    old(doc)@,
                    keep.union(old(self).refs()),
                ) implies same_picture(then, doc@, keep) by {
                assert(keep.union(old(self).refs()) =~= keep.insert(self.layer));
                one_layer_put_back(then, after, old(doc)@, self.layer, keep);
                assert(doc@.layers =~= old(doc)@.layers.insert(self.layer, then.layers[self.layer]));
            }
        }
    }

    fn cleanup(&self, doc: &mut Document) {
    }

    fn referenced_layers(&self) -> (r: Vec<LayerId>)
        ensures
            r@ == seq![self.layer],
    {
        just(self.layer)
    }
}

/// What a removal of the background makes of a buffer.
pub open spec fn lifts<M: MatteKernel>(
    math: &M,
    tolerance: u32,
    m: Map<(i32, i32), Seq<Rgba32F>>,
    out: Option<Map<(i32, i32), Seq<Rgba32F>>>,
) -> bool {
    is_removal(
        math,
        m,
        MatteOptions { tolerance, edge_softness: DEFAULT_EDGE_SOFTNESS, remove_enclosed: false },
        out,
    )
}

/// Remove the background matte of the active raster layer.
///
/// The command keeps the layer's buffer so undo restores the original pixels
/// exactly. It fails when no matte is detected, so nothing is pushed onto history.
pub struct RemoveBackgroundCmd<M> {
    /// The matte arithmetic.
    pub math: M,
    /// The color tolerance.
    pub tolerance: u32,
    /// The layer, once the command was applied.
    pub layer: Option<LayerId>,
    /// The pixels that were, once the command was applied.
    pub old_buffer: Option<TiledBuffer>,
    /// The active layer that was, once the command was applied.
    pub prior_active: Option<LayerId>,
}

impl<M: MatteKernel> RemoveBackgroundCmd<M> {
    /// Create a remove-background command with the given color tolerance.
    pub fn new(math: M, tolerance: u32) -> (r: Self)
        ensures
            r.math == math,
            r.tolerance == tolerance,
            r.layer is None,
            r.old_buffer is None,
            r.prior_active is None,
    {
        RemoveBackgroundCmd { math, tolerance, layer: None, old_buffer: None, prior_active: None }
    }
}

impl<M: MatteKernel + Send> Command for RemoveBackgroundCmd<M> {
    open spec fn wf(&self) -> bool {
        &&& self.math.wf()
        &&& held_wf(self.old_buffer)
    }

    open spec fn name(&self) -> Seq<char> {
        "Remove background"@
    }

    open spec fn adds(&self) -> nat {
        0
    }

    open spec fn refs(&self) -> Set<LayerId> {
        maybe_set(self.layer)
    }

    open spec fn reverts(&self, then: DocView, after: DocView) -> bool {
        &&& self.layer matches Some(id)
        &&& raster_apart(id, self.prior_active, then, after)
        &&& self.old_buffer matches Some(b)
        &&& then.layers[id] == with_buffer(after.layers[id], b@)
    }

    open spec fn learns(&self) -> bool {
        false
    }

    open spec fn undoes(&self, now: DocView, fin: DocView) -> bool {
        fin == (DocView {
            active: self.prior_active,
            ..(match (self.layer, self.old_buffer) {
                (Some(id), Some(b)) => with_pixels(now, id, b@),
                _ => now,
            })
        })
    }

    open spec fn does(&self, then: DocView, r: Result<(), OgreError>, after: DocView) -> bool {
        &&& r is Err ==> after == then
        &&& match active_edit_error(then) {
            Some(e) => r == Err::<(), OgreError>(e),
            None => {
                let id = then.active->0;
                let m = buffer_of(then.layers[id]);
                match r {
                    Ok(_) => {
                        let n = buffer_of(after.layers[id]);
                        &&& lifts(&self.math, self.tolerance, m, Some(n))
                        &&& after == with_pixels(then, id, n)
                    },
                    Err(e) => lifts(&self.math, self.tolerance, m, None) && e
                        == OgreError::InvalidOperation("no removable background detected"),
                }
            },
        }
    }

    fn label(&self) -> (r: &'static str) {
        "Remove background"
    }

    fn apply(&mut self, doc: &mut Document) -> (r: Result<(), OgreError>) {
        let id: LayerId = match active_editable(doc) {
            Ok(id) => id,
            Err(e) => {
                return Err(e);
            },
        };
        let kept: (TiledBuffer, Option<TiledBuffer>) = copy_raster(doc, id);
        let b: TiledBuffer = match remove_matte(&self.math, &kept.0, self.tolerance) {
            Some(b) => b,
            None => {
                return Err(OgreError::InvalidOperation("no removable background detected"));
            },
        };
        let prior: Option<LayerId> = doc.active_layer();
        put_buffer(doc, id, b);
        doc.set_active(Some(id));
        self.old_buffer = Some(kept.0);
        self.layer = Some(id);
        self.prior_active = prior;
        proof {
            one_layer_keeps_tidy(old(doc)@, doc@, id);
        }
        Ok(())
    }

    fn undo(&mut self, doc: &mut Document)
        ensures
            final(self).old_buffer is None,
    {
        let kept: Option<TiledBuffer> = self.old_buffer.take();
        if let Some(id) = self.layer {
            if let Some(b) = kept {
                put_buffer(doc, id, b);
            }
        }
        doc.set_active(self.prior_active);
        proof {
            assert forall|then: DocView, after: DocView, keep: Set<LayerId>|
                #![trigger old(self).reverts(then, after), same_picture(then, doc@, keep)]
                old(self).reverts(then, after) && keep.subset_of(then.layers.dom()) && same_picture(
                    after,
                    old(doc)@,
                    keep.union(old(self).refs()),
                ) implies same_picture(then, doc@, keep) by {
                assert(keep.union(old(self).refs()) =~= keep.insert(self.layer->0));
                one_layer_put_back(then, after, old(doc)@, self.layer->0, keep);
                assert(doc@.layers =~= old(doc)@.layers.insert(self.layer->0, then.layers[self.layer->0]));
            }
        }
    }

    fn cleanup(&self, doc: &mut Document) {
    }

    fn referenced_layers(&self) -> (r: Vec<LayerId>)
        ensures
            r@ == maybe_seq(self.layer),
    {
        maybe(self.layer)
    }
}

/// `n` is the buffer `m` mirrored within `bounds`.
pub open spec fn is_mirror(
    m: Map<(i32, i32), Seq<Rgba32F>>,
    axis: FlipAxis,
    bounds: Rect,
    n: Map<(i32, i32), Seq<Rgba32F>>,
) -> bool {
    &&& sparse(n)
    &&& forall|p: IVec2| #[trigger] pixel_at(n, p) == flipped_px(m, axis, bounds, p)
}

fn mirror(b: &TiledBuffer, axis: FlipAxis, bounds: Rect) -> (n: TiledBuffer)
    requires
        b.wf(),
    ensures
        n.wf(),
        is_mirror(b@, axis, bounds, n@),
{
    let n: TiledBuffer = flip_buffer(b, axis, bounds);
    proof {
        assert forall|p: IVec2| #[trigger] pixel_at(n@, p) == flipped_px(b@, axis, bounds, p) by {
            assert(n.at(p) == pixel_at(n@, p));
        }
    }
    n
}

/// Flip (mirror) a raster layer exactly, buffer and mask, across its content
/// centre.
///
/// Each pixel goes to its exact mirrored coordinate. The layer's offset is
/// unchanged (the document-space bounding box is preserved). Fails if the layer is
/// not raster or is locked.
pub struct FlipLayerCmd {
    /// The layer.
    pub layer: LayerId,
    /// The axis to mirror across.
    pub axis: FlipAxis,
    /// The pixels that were, if the command changed them.
    pub old_buffer: Option<TiledBuffer>,
    /// The mask that was, if the command changed it.
    pub old_mask: Option<TiledBuffer>,
    /// The active layer that was, once the command was applied.
    pub prior_active: Option<LayerId>,
}

impl FlipLayerCmd {
    /// Create a flip command for `layer` across `axis`.
    pub fn new(layer: LayerId, axis: FlipAxis) -> (r: Self)
        ensures
            r.layer == layer,
            r.axis == axis,
            r.old_buffer is None,
            r.old_mask is None,
            r.prior_active is None,
    {
        FlipLayerCmd { layer, axis, old_buffer: None, old_mask: None, prior_active: None }
    }
}

impl Command for FlipLayerCmd {
    open spec fn wf(&self) -> bool {
        &&& held_wf(self.old_buffer)
        &&& held_wf(self.old_mask)
    }

    open spec fn name(&self) -> Seq<char> {
        match self.axis {
            FlipAxis::Horizontal => "Flip layer horizontal"@,
            FlipAxis::Vertical => "Flip layer vertical"@,
        }
    }

    open spec fn adds(&self) -> nat {
        0
    }

    open spec fn refs(&self) -> Set<LayerId> {
        Set::empty().insert(self.layer)
    }

    open spec fn reverts(&self, then: DocView, after: DocView) -> bool {
        &&& raster_apart(self.layer, self.prior_active, then, after)
        &&& then.layers[self.layer] == (match self.old_buffer {
            Some(b) => with_mask(with_buffer(after.layers[self.layer], b@), held(self.old_mask)),
            None => after.layers[self.layer],
        })
    }

    open spec fn learns(&self) -> bool {
        false
    }

    open spec fn undoes(&self, now: DocView, fin: DocView) -> bool {
        fin == (DocView {
            active: self.prior_active,
            ..(match self.old_buffer {
                Some(b) => with_cover(
                    with_pixels(now, self.layer, b@),
                    self.layer,
                    held(self.old_mask),
                ),
                None => now,
            })
        })
    }

    open spec fn does(&self, then: DocView, r: Result<(), OgreError>, after: DocView) -> bool {
        &&& r is Err ==> after == then
        &&& match edit_error(then, self.layer) {
            Some(e) => r == Err::<(), OgreError>(e),
            None => {
                let id = self.layer;
                let l = then.layers[id];
                let k = after.layers[id];
                &&& r is Ok
                &&& after == (DocView {
                    active: Some(id),
                    ..then.with_layer(id, with_mask(with_buffer(l, buffer_of(k)), mask_of(k)))
                })
                &&& match ink_box(buffer_of(l)) {
                    None => k == l,
                    Some(bounds) => {
                        &&& is_mirror(buffer_of(l), self.axis, bounds, buffer_of(k))
                        &&& match mask_of(l) {
                            None => mask_of(k) is None,
                            Some(m) => mask_of(k) matches Some(n) && is_mirror(
                                m,
                                self.axis,
                                bounds,
                                n,
                            ),
                        }
                    },
                }
            },
        }
    }

    fn label(&self) -> (r: &'static str) {
        match self.axis {
            FlipAxis::Horizontal => "Flip layer horizontal",
            FlipAxis::Vertical => "Flip layer vertical",
        }
    }

    fn apply(&mut self, doc: &mut Document) -> (r: Result<(), OgreError>) {
        if let Err(e) = check_editable(doc, self.layer) {
            return Err(e);
        }
        let kept: (TiledBuffer, Option<TiledBuffer>) = copy_raster(doc, self.layer);
        let prior: Option<LayerId> = doc.active_layer();
        match kept.0.exact_bounds() {
            None => {
                self.old_buffer = None;
                self.old_mask = None;
                proof {
                    crate::document::lemma_same_layer(doc@, self.layer);
                }
            },
            Some(bounds) => {
                let flipped: TiledBuffer = mirror(&kept.0, self.axis, bounds);
                let mask: Option<TiledBuffer> = match &kept.1 {
                    Some(m) => Some(mirror(m, self.axis, bounds)),
                    None => None,
                };
                put_buffer(doc, self.layer, flipped);
                put_mask(doc, self.layer, mask);
                self.old_buffer = Some(kept.0);
                self.old_mask = kept.1;
                assert(doc@.layers =~= old(doc)@.layers.insert(self.layer, doc@.layers[self.layer]));
            },
        }
        doc.set_active(Some(self.layer));
        self.prior_active = prior;
        proof {
            one_layer_keeps_tidy(old(doc)@, doc@, self.layer);
        }
        Ok(())
    }

    fn undo(&mut self, doc: &mut Document) {
        if let Some(b) = &self.old_buffer {
            put_buffer(doc, self.layer, b.clone());
            put_mask(doc, self.layer, copy_held(&self.old_mask));
        }
        doc.set_active(self.prior_active);
        proof {
            assert forall|then: DocView, after: DocView, keep: Set<LayerId>|
                #![trigger old(self).reverts(then, after), same_picture(then, doc@, keep)]
                old(self).reverts(then, after) && keep.subset_of(then.layers.dom()) && same_picture(
                    after,
                    old(doc)@,
                    keep.union(old(self).refs()),
                ) implies same_picture(then, doc@, keep) by {
                assert(keep.union(old(self).refs()) =~= keep.insert(self.layer));
                one_layer_put_back(then, after, old(doc)@, self.layer, keep);
                assert(doc@.layers =~= old(doc)@.layers.insert(self.layer, then.layers[self.layer]));
            }
        }
    }

    fn cleanup(&self, doc: &mut Document) {
    }

    fn referenced_layers(&self) -> (r: Vec<LayerId>)
        ensures
            r@ == seq![self.layer],
    {
        just(self.layer)
    }
}

/// Why the mask of a layer cannot be added.
pub open spec fn add_mask_error(v: DocView, id: LayerId) -> Option<OgreError> {
    match edit_error(v, id) {
        Some(e) => Some(e),
        None => if mask_of(v.layers[id]) is Some {
            Some(OgreError::InvalidOperation("layer already has a mask"))
        } else {
            None
        },
    }
}

/// Add a layer mask to a raster layer.
///
/// The mask is built from a [`MaskInit`] and stored on the layer. Undo removes it;
/// redo restores the same mask. Fails if the layer is not raster, is locked, or
/// already has a mask.
pub struct AddLayerMaskCmd {
    /// The layer.
    pub layer: LayerId,
    /// What the mask starts as.
    pub init: MaskInit,
    /// Built on first apply; reused on redo so the mask is stable across undo and
    /// redo even if the layer buffer later changes.
    pub built: Option<TiledBuffer>,
    /// The active layer that was, once the command was applied.
    pub prior_active: Option<LayerId>,
}

impl AddLayerMaskCmd {
    /// Create a command that adds a mask initialised from `init` to `layer`.
    pub fn new(layer: LayerId, init: MaskInit) -> (r: Self)
        ensures
            r.layer == layer,
            r.init == init,
            r.built is None,
            r.prior_active is None,
    {
        AddLayerMaskCmd { layer, init, built: None, prior_active: None }
    }
}

impl Command for AddLayerMaskCmd {
    open spec fn wf(&self) -> bool {
        &&& self.init.wf()
        &&& held_wf(self.built)
    }

    open spec fn name(&self) -> Seq<char> {
        "Add layer mask"@
    }

    open spec fn adds(&self) -> nat {
        0
    }

    open spec fn refs(&self) -> Set<LayerId> {
        Set::empty().insert(self.layer)
    }

    open spec fn reverts(&self, then: DocView, after: DocView) -> bool {
        &&& raster_apart(self.layer, self.prior_active, then, after)
        &&& then.layers[self.layer] == with_mask(after.layers[self.layer], None)
    }

    open spec fn undoes(&self, now: DocView, fin: DocView) -> bool {
        fin == (DocView {
            active: self.prior_active,
            ..with_cover(now, self.layer, None)
        })
    }

    open spec fn fickle(&self) -> bool {
        false
    }

    open spec fn does(&self, then: DocView, r: Result<(), OgreError>, after: DocView) -> bool {
        &&& r is Err ==> after == then
        &&& match add_mask_error(then, self.layer) {
            Some(e) => r == Err::<(), OgreError>(e),
            None => {
                let id = self.layer;
                let l = then.layers[id];
                &&& r is Ok
                &&& mask_of(after.layers[id]) matches Some(m) && after == (DocView {
                    active: Some(id),
                    ..with_cover(then, id, Some(m))
                }) && match self.built {
                    Some(b) => m == b@,
                    None => self.init.implies_mask(buffer_of(l), l.offset, m),
                }
            },
        }
    }

    fn label(&self) -> (r: &'static str) {
        "Add layer mask"
    }

    fn apply(&mut self, doc: &mut Document) -> (r: Result<(), OgreError>)
        ensures
            r is Ok ==> held(final(self).built) is Some && held(final(self).built) == mask_of(
                final(doc)@.layers[old(self).layer],
            ),
    {
        if let Err(e) = check_editable(doc, self.layer) {
            return Err(e);
        }
        let kept: (TiledBuffer, Option<TiledBuffer>) = copy_raster(doc, self.layer);
        if kept.1.is_some() {
            return Err(OgreError::InvalidOperation("layer already has a mask"));
        }
        let mask: TiledBuffer = match &self.built {
            Some(m) => m.clone(),
            None => {
                let mut offset: IVec2 = IVec2 { x: 0, y: 0 };
                if let Ok(layer) = doc.layer(self.layer) {
                    offset = layer.offset;
                }
                self.init.build(&kept.0, offset)
            },
        };
        let prior: Option<LayerId> = doc.active_layer();
        self.built = Some(mask.clone());
        put_mask(doc, self.layer, Some(mask));
        doc.set_active(Some(self.layer));
        self.prior_active = prior;
        proof {
            one_layer_keeps_tidy(old(doc)@, doc@, self.layer);
        }
        Ok(())
    }

    fn undo(&mut self, doc: &mut Document) {
        put_mask(doc, self.layer, None);
        doc.set_active(self.prior_active);
        proof {
            assert forall|then: DocView, after: DocView, keep: Set<LayerId>|
                #![trigger old(self).reverts(then, after), same_picture(then, doc@, keep)]
                old(self).reverts(then, after) && keep.subset_of(then.layers.dom()) && same_picture(
                    after,
                    old(doc)@,
                    keep.union(old(self).refs()),
                ) implies same_picture(then, doc@, keep) by {
                assert(keep.union(old(self).refs()) =~= keep.insert(self.layer));
                one_layer_put_back(then, after, old(doc)@, self.layer, keep);
                assert(doc@.layers =~= old(doc)@.layers.insert(self.layer, then.layers[self.layer]));
            }
        }
    }

    fn cleanup(&self, doc: &mut Document) {
    }

    fn referenced_layers(&self) -> (r: Vec<LayerId>)
        ensures
            r@ == seq![self.layer],
    {
        just(self.layer)
    }
}

/// Why the mask of a layer cannot be deleted.
pub open spec fn delete_mask_error(v: DocView, id: LayerId) -> Option<OgreError> {
    match edit_error(v, id) {
        Some(e) => Some(e),
        None => if mask_of(v.layers[id]) is None {
            Some(OgreError::InvalidOperation("layer has no mask to delete"))
        } else {
            None
        },
    }
}

/// Delete (detach) a layer mask, discarding its effect.
///
/// Keeps the removed mask so undo restores it exactly. Fails if the layer is not
/// raster, is locked, or has no mask.
pub struct DeleteLayerMaskCmd {
    /// The layer.
    pub layer: LayerId,
    /// The mask that was, once the command was applied.
    pub removed_mask: Option<TiledBuffer>,
    /// The active layer that was, once the command was applied.
    pub prior_active: Option<LayerId>,
}

impl DeleteLayerMaskCmd {
    /// Create a command that removes the mask from `layer`.
    pub fn new(layer: LayerId) -> (r: Self)
        ensures
            r.layer == layer,
            r.removed_mask is None,
            r.prior_active is None,
    {
        DeleteLayerMaskCmd { layer, removed_mask: None, prior_active: None }
    }
}

impl Command for DeleteLayerMaskCmd {
    open spec fn wf(&self) -> bool {
        &&& held_wf(self.removed_mask)
    }

    open spec fn name(&self) -> Seq<char> {
        "Delete layer mask"@
    }

    open spec fn adds(&self) -> nat {
        0
    }

    open spec fn refs(&self) -> Set<LayerId> {
        Set::empty().insert(self.layer)
    }

    open spec fn reverts(&self, then: DocView, after: DocView) -> bool {
        &&& raster_apart(self.layer, self.prior_active, then, after)
        &&& self.removed_mask is Some
        &&& then.layers[self.layer] == with_mask(after.layers[self.layer], held(self.removed_mask))
    }

    open spec fn learns(&self) -> bool {
        false
    }

    open spec fn undoes(&self, now: DocView, fin: DocView) -> bool {
        fin == (DocView {
            active: self.prior_active,
            ..(match self.removed_mask {
                Some(m) => with_cover(now, self.layer, Some(m@)),
                None => now,
            })
        })
    }

    open spec fn does(&self, then: DocView, r: Result<(), OgreError>, after: DocView) -> bool {
        &&& r is Err ==> after == then
        &&& match delete_mask_error(then, self.layer) {
            Some(e) => r == Err::<(), OgreError>(e),
            None => {
                r is Ok && after == (DocView {
                    active: Some(self.layer),
                    ..with_cover(then, self.layer, None)
                })
            },
        }
    }

    open spec fn steady(&self, then: DocView) -> bool {
        visible(then, self.layer)
    }

    fn label(&self) -> (r: &'static str) {
        "Delete layer mask"
    }

    fn apply(&mut self, doc: &mut Document) -> (r: Result<(), OgreError>) {
        proof {
            seen_alike(doc@, self.layer);
        }
        if let Err(e) = check_editable(doc, self.layer) {
            return Err(e);
        }
        let kept: (TiledBuffer, Option<TiledBuffer>) = copy_raster(doc, self.layer);
        if kept.1.is_none() {
            return Err(OgreError::InvalidOperation("layer has no mask to delete"));
        }
        let prior: Option<LayerId> = doc.active_layer();
        put_mask(doc, self.layer, None);
        doc.set_active(Some(self.layer));
        self.removed_mask = kept.1;
        self.prior_active = prior;
        proof {
            one_layer_keeps_tidy(old(doc)@, doc@, self.layer);
            changed_alike(old(doc)@, doc@, self.layer);
        }
        Ok(())
    }

    fn undo(&mut self, doc: &mut Document) {
        if let Some(m) = &self.removed_mask {
            put_mask(doc, self.layer, Some(m.clone()));
        }
        doc.set_active(self.prior_active);
        proof {
            assert forall|then: DocView, after: DocView, keep: Set<LayerId>|
                #![trigger old(self).reverts(then, after), same_picture(then, doc@, keep)]
                old(self).reverts(then, after) && keep.subset_of(then.layers.dom()) && same_picture(
                    after,
                    old(doc)@,
                    keep.union(old(self).refs()),
                ) implies same_picture(then, doc@, keep) by {
                assert(keep.union(old(self).refs()) =~= keep.insert(self.layer));
                one_layer_put_back(then, after, old(doc)@, self.layer, keep);
                assert(doc@.layers =~= old(doc)@.layers.insert(self.layer, then.layers[self.layer]));
            }
        }
    }

    fn cleanup(&self, doc: &mut Document) {
    }

    fn referenced_layers(&self) -> (r: Vec<LayerId>)
        ensures
            r@ == seq![self.layer],
    {
        just(self.layer)
    }
}

/// Why the mask of a layer cannot be applied.
pub open spec fn apply_mask_error(v: DocView, id: LayerId) -> Option<OgreError> {
    match edit_error(v, id) {
        Some(e) => Some(e),
        None => if mask_of(v.layers[id]) is None {
            Some(OgreError::InvalidOperation("layer has no mask to apply"))
        } else {
            None
        },
    }
}

/// `n` is the buffer `m` with the mask `c` baked in, up to the sign of zeros in
/// transparent pixels.
pub open spec fn is_baked<K: Kernel>(
    kern: &K,
    m: Map<(i32, i32), Seq<Rgba32F>>,
    c: Map<(i32, i32), Seq<Rgba32F>>,
    n: Map<(i32, i32), Seq<Rgba32F>>,
) -> bool {
    &&& sparse(n)
    &&& forall|p: IVec2|
        alike(
            #[trigger] pixel_at(n, p),
            baked_px(
                kern,
                pixel_at(m, p),
                unit(pixel_at(c, p).r),
            ),
        )
}

/// Apply (bake) the layer mask into the raster buffer, then discard the mask.
///
/// Each pixel's alpha is multiplied by the mask coverage at its layer-local
/// position; the mask is then removed. Fails if the layer is not raster, is locked,
/// or has no mask.
pub struct ApplyLayerMaskCmd<K> {
    /// The pixel arithmetic.
    pub kern: K,
    /// The layer.
    pub layer: LayerId,
    /// The pixels that were, once the command was applied.
    pub old_buffer: Option<TiledBuffer>,
    /// The mask that was, once the command was applied.
    pub old_mask: Option<TiledBuffer>,
    /// The active layer that was, once the command was applied.
    pub prior_active: Option<LayerId>,
}

impl<K: Kernel> ApplyLayerMaskCmd<K> {
    /// Create a command that bakes `layer`'s mask into its buffer.
    pub fn new(kern: K, layer: LayerId) -> (r: Self)
        ensures
            r.kern == kern,
            r.layer == layer,
            r.old_buffer is None,
            r.old_mask is None,
            r.prior_active is None,
    {
        ApplyLayerMaskCmd { kern, layer, old_buffer: None, old_mask: None, prior_active: None }
    }
}

impl<K: Kernel + Send> Command for ApplyLayerMaskCmd<K> {
    open spec fn wf(&self) -> bool {
        &&& self.kern.wf()
        &&& held_wf(self.old_buffer)
        &&& held_wf(self.old_mask)
    }

    open spec fn name(&self) -> Seq<char> {
        "Apply layer mask"@
    }

    open spec fn adds(&self) -> nat {
        0
    }

    open spec fn refs(&self) -> Set<LayerId> {
        Set::empty().insert(self.layer)
    }

    open spec fn reverts(&self, then: DocView, after: DocView) -> bool {
        &&& raster_apart(self.layer, self.prior_active, then, after)
        &&& self.old_mask is Some
        &&& self.old_buffer matches Some(b) && then.layers[self.layer] == with_mask(
            with_buffer(after.layers[self.layer], b@),
            held(self.old_mask),
        )
    }

    open spec fn learns(&self) -> bool {
        false
    }

    open spec fn undoes(&self, now: DocView, fin: DocView) -> bool {
        fin == (DocView {
            active: self.prior_active,
            ..(match (self.old_buffer, self.old_mask) {
                (Some(b), Some(m)) => with_cover(
                    with_pixels(now, self.layer, b@),
                    self.layer,
                    Some(m@),
                ),
                _ => now,
            })
        })
    }

    open spec fn does(&self, then: DocView, r: Result<(), OgreError>, after: DocView) -> bool {
        &&& r is Err ==> after == then
        &&& match apply_mask_error(then, self.layer) {
            Some(e) => r == Err::<(), OgreError>(e),
            None => {
                let id = self.layer;
                let l = then.layers[id];
                let n = buffer_of(after.layers[id]);
                &&& r is Ok
                &&& after == (DocView {
                    active: Some(id),
                    ..then.with_layer(id, with_mask(with_buffer(l, n), None))
                })
                &&& is_baked(&self.kern, buffer_of(l), mask_of(l)->0, n)
            },
        }
    }

    fn label(&self) -> (r: &'static str) {
        "Apply layer mask"
    }

    fn apply(&mut self, doc: &mut Document) -> (r: Result<(), OgreError>) {
        if let Err(e) = check_editable(doc, self.layer) {
            return Err(e);
        }
        let kept: (TiledBuffer, Option<TiledBuffer>) = copy_raster(doc, self.layer);
        let mut baked: TiledBuffer = kept.0.clone();
        match &kept.1 {
            Some(m) => {
                apply_mask_to_buffer(&self.kern, &mut baked, m);
                assert(is_baked(&self.kern, kept.0@, m@, baked@)) by {
                    assert forall|p: IVec2|
                        alike(
                            #[trigger] pixel_at(baked@, p),
                            baked_px(
                                &self.kern,
                                pixel_at(kept.0@, p),
                                unit(pixel_at(m@, p).r),
                            ),
                        ) by {
                        assert(baked.at(p) == pixel_at(baked@, p));
                    }
                }
            },
            None => {
                return Err(OgreError::InvalidOperation("layer has no mask to apply"));
            },
        }
        let prior: Option<LayerId> = doc.active_layer();
        put_buffer(doc, self.layer, baked);
        put_mask(doc, self.layer, None);
        assert(doc@.layers =~= old(doc)@.layers.insert(self.layer, doc@.layers[self.layer]));
        doc.set_active(Some(self.layer));
        self.old_buffer = Some(kept.0);
        self.old_mask = kept.1;
        self.prior_active = prior;
        proof {
            one_layer_keeps_tidy(old(doc)@, doc@, self.layer);
        }
        Ok(())
    }

    fn undo(&mut self, doc: &mut Document) {
        if let Some(b) = &self.old_buffer {
            if let Some(m) = &self.old_mask {
                put_buffer(doc, self.layer, b.clone());
                put_mask(doc, self.layer, Some(m.clone()));
            }
        }
        doc.set_active(self.prior_active);
        proof {
            assert forall|then: DocView, after: DocView, keep: Set<LayerId>|
                #![trigger old(self).reverts(then, after), same_picture(then, doc@, keep)]
                old(self).reverts(then, after) && keep.subset_of(then.layers.dom()) && same_picture(
                    after,
                    old(doc)@,
                    keep.union(old(self).refs()),
                ) implies same_picture(then, doc@, keep) by {
                assert(keep.union(old(self).refs()) =~= keep.insert(self.layer));
                one_layer_put_back(then, after, old(doc)@, self.layer, keep);
                assert(doc@.layers =~= old(doc)@.layers.insert(self.layer, then.layers[self.layer]));
            }
        }
    }

    fn cleanup(&self, doc: &mut Document) {
    }

    fn referenced_layers(&self) -> (r: Vec<LayerId>)
        ensures
            r@ == seq![self.layer],
    {
        just(self.layer)
    }
}

/// Swap a layer's entire mask buffer.
///
/// This is the low-level edit for mask painting: a caller builds the new mask
/// buffer and this command installs it undoably. Replaces whatever mask exists, if
/// any. Fails if the layer is not raster or is locked.
pub struct SetLayerMaskCmd {
    /// The layer.
    pub layer: LayerId,
    /// The mask it is to have.
    pub new_mask: Option<TiledBuffer>,
    /// The mask that was, once the command was applied.
    pub old_mask: Option<TiledBuffer>,
    /// The active layer that was, once the command was applied.
    pub prior_active: Option<LayerId>,
}

impl SetLayerMaskCmd {
    /// Create a command that replaces `layer`'s mask with `new_mask`.
    pub fn new(layer: LayerId, new_mask: Option<TiledBuffer>) -> (r: Self)
        ensures
            r.layer == layer,
            r.new_mask == new_mask,
            r.old_mask is None,
            r.prior_active is None,
    {
        SetLayerMaskCmd { layer, new_mask, old_mask: None, prior_active: None }
    }
}

impl Command for SetLayerMaskCmd {
    open spec fn wf(&self) -> bool {
        &&& held_wf(self.new_mask)
        &&& held_wf(self.old_mask)
    }

    open spec fn name(&self) -> Seq<char> {
        "Set layer mask"@
    }

    open spec fn adds(&self) -> nat {
        0
    }

    open spec fn refs(&self) -> Set<LayerId> {
        Set::empty().insert(self.layer)
    }

    open spec fn reverts(&self, then: DocView, after: DocView) -> bool {
        &&& raster_apart(self.layer, self.prior_active, then, after)
        &&& then.layers[self.layer] == with_mask(after.layers[self.layer], held(self.old_mask))
    }

    open spec fn learns(&self) -> bool {
        false
    }

    open spec fn undoes(&self, now: DocView, fin: DocView) -> bool {
        fin == (DocView {
            active: self.prior_active,
            ..with_cover(now, self.layer, held(self.old_mask))
        })
    }

    open spec fn does(&self, then: DocView, r: Result<(), OgreError>, after: DocView) -> bool {
        &&& r is Err ==> after == then
        &&& match edit_error(then, self.layer) {
            Some(e) => r == Err::<(), OgreError>(e),
            None => {
                r is Ok && after == (DocView {
                    active: Some(self.layer),
                    ..with_cover(then, self.layer, held(self.new_mask))
                })
            },
        }
    }

    open spec fn steady(&self, then: DocView) -> bool {
        visible(then, self.layer)
    }

    fn label(&self) -> (r: &'static str) {
        "Set layer mask"
    }

    fn apply(&mut self, doc: &mut Document) -> (r: Result<(), OgreError>) {
        proof {
            seen_alike(doc@, self.layer);
        }
        if let Err(e) = check_editable(doc, self.layer) {
            return Err(e);
        }
        let kept: (TiledBuffer, Option<TiledBuffer>) = copy_raster(doc, self.layer);
        let prior: Option<LayerId> = doc.active_layer();
        put_mask(doc, self.layer, copy_held(&self.new_mask));
        doc.set_active(Some(self.layer));
        self.old_mask = kept.1;
        self.prior_active = prior;
        proof {
            one_layer_keeps_tidy(old(doc)@, doc@, self.layer);
            changed_alike(old(doc)@, doc@, self.layer);
        }
        Ok(())
    }

    fn undo(&mut self, doc: &mut Document) {
        put_mask(doc, self.layer, copy_held(&self.old_mask));
        doc.set_active(self.prior_active);
        proof {
            assert forall|then: DocView, after: DocView, keep: Set<LayerId>|
                #![trigger old(self).reverts(then, after), same_picture(then, doc@, keep)]
                old(self).reverts(then, after) && keep.subset_of(then.layers.dom()) && same_picture(
                    after,
                    old(doc)@,
                    keep.union(old(self).refs()),
                ) implies same_picture(then, doc@, keep) by {
                assert(keep.union(old(self).refs()) =~= keep.insert(self.layer));
                one_layer_put_back(then, after, old(doc)@, self.layer, keep);
                assert(doc@.layers =~= old(doc)@.layers.insert(self.layer, then.layers[self.layer]));
            }
        }
    }

    fn cleanup(&self, doc: &mut Document) {
    }

    fn referenced_layers(&self) -> (r: Vec<LayerId>)
        ensures
            r@ == seq![self.layer],
    {
        just(self.layer)
    }
}

/// Adding a mask and deleting it again leaves the layer as it was: the pixels are
/// never touched.
pub proof fn deleting_an_added_mask_restores(
    v: DocView,
    id: LayerId,
    m: Map<(i32, i32), Seq<Rgba32F>>,
)
    requires
        add_mask_error(v, id) is None,
    ensures
        buffer_of(with_cover(v, id, Some(m)).layers[id]) == buffer_of(v.layers[id]),
        with_cover(with_cover(v, id, Some(m)), id, None) == v,
{
    assert(with_cover(with_cover(v, id, Some(m)), id, None).layers =~= v.layers);
}

} // verus!
