//! Commands that write pixels to a raster layer.
//!
//! Each snapshots only the tiles it touches, so undoing costs no more than the
//! edit.
use vstd::prelude::*;

use std::sync::Arc;

use crate::brush::{
    is_stroke, lay_stops, list_stops, stamped_tile, stop_dab, stops, strokes_have_one_outcome,
    BrushKernel, BrushSettings, InputSample, PaintMode,
};
use crate::arith::Arith;
use crate::buffer::key;
use crate::buffer_region::same_tile;
use crate::commands::props::{just, maybe, maybe_seq, maybe_set};
use crate::commands::tiles::{
    active_edit_error, active_editable, buffer_of, check_editable, edit_error, painted, paint_layer,
    putting_back_restores, repaintable, snapped, snapshot_tiles, snapshot_wf, unpaint_layer,
    unpainted, with_buffer,
};
use crate::coord::{tile_of, IVec2, Rect, TileCoord, Vec2};
use crate::document::{DocView, Document};
use crate::error::OgreError;
use crate::float_bits::F_HALF;
use crate::history::Command;
use crate::kernel::Kernel;
use crate::layer::{LayerContent, LayerId};
use crate::ops::bucket::{
    fill_chosen, fill_region, fill_selection, fill_value, lists_writes, row_by_row,
    rows_list_writes_one_way, selection_fill, selection_stroke, stroke_selection, value_below,
    valued,
};
use crate::ops::gradient::{
    fill_gradient, gradient_fill, Gradient, GradientKind, WrapMode,
};
use crate::paint::in_area;
use crate::picture::{
    changed_alike, one_layer_keeps_tidy, one_layer_put_back, same_picture, seen_alike, visible,
};
use crate::pixel::Rgba32F;
use crate::selection::{Selection, SelectionView};
use crate::tile::Tile;

verus! {

/// Paint individual pixels onto a raster layer.
///
/// The command snapshots every tile touched by the paint operation before any
/// pixel is written. Undo restores the exact tiles that were there, so a
/// one-pixel paint costs one tile snapshot.
pub struct PaintCmd {
    /// The layer.
    pub layer: LayerId,
    /// The pixels to write, in layer-local coordinates.
    pub points: Vec<(IVec2, Rgba32F)>,
    /// The tiles that were, once the command was applied.
    pub snapshots: Vec<(TileCoord, Option<Arc<Tile>>)>,
    /// The active layer that was, once the command was applied.
    pub prior_active: Option<LayerId>,
}

impl PaintCmd {
    /// Create a paint command. `points` are in layer-local coordinates.
    pub fn new(
        layer: LayerId,
        points: Vec<(IVec2, Rgba32F)>,
    ) -> (r: Self)
        ensures
            r.points == points,
            r.layer == layer,
            r.snapshots@.len() == 0,
            r.prior_active is None,
    {
        PaintCmd {
            layer,
            points,
            snapshots: Vec::new(),
            prior_active: None,
        }
    }
}

impl Command for PaintCmd {
    open spec fn wf(&self) -> bool {
        &&& snapshot_wf(self.snapshots@)
    }

    open spec fn name(&self) -> Seq<char> {
        "Paint"@
    }

    open spec fn adds(&self) -> nat {
        0
    }

    open spec fn refs(&self) -> Set<LayerId> {
        Set::empty().insert(self.layer)
    }

    open spec fn reverts(&self, then: DocView, after: DocView) -> bool {
        repaintable(self.layer, self.snapshots@, self.prior_active, then, after)
    }

    open spec fn learns(&self) -> bool {
        false
    }

    open spec fn undoes(&self, now: DocView, fin: DocView) -> bool {
        fin == (if now.has(self.layer) {
            DocView {
                active: self.prior_active,
                ..unpainted(now, self.layer, self.snapshots@)
            }
        } else {
            now
        })
    }

    open spec fn does(&self, then: DocView, r: Result<(), OgreError>, after: DocView) -> bool {
        &&& r is Err ==> after == then
        &&& match edit_error(then, self.layer) {
            Some(e) => r == Err::<(), OgreError>(e),
            None => r is Ok && after == painted(then, self.layer, self.points@),
        }
    }

    open spec fn steady(&self, then: DocView) -> bool {
        visible(then, self.layer)
    }

    fn label(&self) -> (r: &'static str) {
        "Paint"
    }

    fn apply(&mut self, doc: &mut Document) -> (r: Result<(), OgreError>) {
        proof {
            seen_alike(doc@, self.layer);
        }
        if let Err(e) = check_editable(doc, self.layer) {
            return Err(e);
        }
        let prior: Option<LayerId> = doc.active_layer();
        self.snapshots = paint_layer(doc, self.layer, &self.points);
        self.prior_active = prior;
        proof {
            changed_alike(old(doc)@, doc@, self.layer);
        }
        Ok(())
    }

    fn undo(&mut self, doc: &mut Document) {
        if doc.layer(self.layer).is_ok() {
            unpaint_layer(doc, self.layer, &self.snapshots);
            doc.set_active(self.prior_active);
        }
        proof {
            assert forall|then: DocView, after: DocView, keep: Set<LayerId>|
                #![trigger old(self).reverts(then, after), same_picture(then, doc@, keep)]
                old(self).reverts(then, after) && keep.subset_of(then.layers.dom()) && same_picture(
                    after,
                    old(doc)@,
                    keep.union(old(self).refs()),
                ) implies same_picture(then, doc@, keep) by {
                assert(keep.union(old(self).refs()) =~= keep.insert(self.layer));
                one_layer_put_back(then, after, old(doc)@, self.layer, keep);
                assert(unpainted(old(doc)@, self.layer, self.snapshots@).layers
                    =~= old(doc)@.layers.insert(self.layer, then.layers[self.layer]));
            }
        }
    }

    fn cleanup(&self, doc: &mut Document) {
    }

    fn referenced_layers(&self) -> (r: Vec<LayerId>)
        ensures
            r@ == seq![self.layer],
    {
        just(self.layer)
    }
}

/// Apply a set of computed per-pixel writes to a raster layer.
///
/// This is the commit path of tools that compute the final value of each touched
/// pixel themselves: the command writes the values as they are and snapshots only
/// the tiles it touches.
pub struct BrushStrokeCmd {
    /// The layer.
    pub layer: LayerId,
    /// The pixels to write, in layer-local coordinates, with their final values.
    pub edits: Vec<(IVec2, Rgba32F)>,
    /// The tiles that were, once the command was applied.
    pub snapshots: Vec<(TileCoord, Option<Arc<Tile>>)>,
    /// The active layer that was, once the command was applied.
    pub prior_active: Option<LayerId>,
}

impl BrushStrokeCmd {
    /// Create a brush-stroke command.
    pub fn new(
        layer: LayerId,
        edits: Vec<(IVec2, Rgba32F)>,
    ) -> (r: Self)
        ensures
            r.edits == edits,
            r.layer == layer,
            r.snapshots@.len() == 0,
            r.prior_active is None,
    {
        BrushStrokeCmd {
            layer,
            edits,
            snapshots: Vec::new(),
            prior_active: None,
        }
    }
}

impl Command for BrushStrokeCmd {
    open spec fn wf(&self) -> bool {
        &&& snapshot_wf(self.snapshots@)
    }

    open spec fn name(&self) -> Seq<char> {
        "Brush stroke"@
    }

    open spec fn adds(&self) -> nat {
        0
    }

    open spec fn refs(&self) -> Set<LayerId> {
        Set::empty().insert(self.layer)
    }

    open spec fn reverts(&self, then: DocView, after: DocView) -> bool {
        repaintable(self.layer, self.snapshots@, self.prior_active, then, after)
    }

    open spec fn learns(&self) -> bool {
        false
    }

    open spec fn undoes(&self, now: DocView, fin: DocView) -> bool {
        fin == (DocView {
            active: self.prior_active,
            ..unpainted(now, self.layer, self.snapshots@)
        })
    }

    open spec fn does(&self, then: DocView, r: Result<(), OgreError>, after: DocView) -> bool {
        &&& r is Err ==> after == then
        &&& match edit_error(then, self.layer) {
            Some(e) => r == Err::<(), OgreError>(e),
            None => r is Ok && after == painted(then, self.layer, self.edits@),
        }
    }

    open spec fn steady(&self, then: DocView) -> bool {
        visible(then, self.layer)
    }

    fn label(&self) -> (r: &'static str) {
        "Brush stroke"
    }

    fn apply(&mut self, doc: &mut Document) -> (r: Result<(), OgreError>) {
        proof {
            seen_alike(doc@, self.layer);
        }
        if let Err(e) = check_editable(doc, self.layer) {
            return Err(e);
        }
        let prior: Option<LayerId> = doc.active_layer();
        self.snapshots = paint_layer(doc, self.layer, &self.edits);
        self.prior_active = prior;
        proof {
            changed_alike(old(doc)@, doc@, self.layer);
        }
        Ok(())
    }

    fn undo(&mut self, doc: &mut Document) {
        unpaint_layer(doc, self.layer, &self.snapshots);
        doc.set_active(self.prior_active);
        proof {
            assert forall|then: DocView, after: DocView, keep: Set<LayerId>|
                #![trigger old(self).reverts(then, after), same_picture(then, doc@, keep)]
                old(self).reverts(then, after) && keep.subset_of(then.layers.dom()) && same_picture(
                    after,
                    old(doc)@,
                    keep.union(old(self).refs()),
                ) implies same_picture(then, doc@, keep) by {
                assert(keep.union(old(self).refs()) =~= keep.insert(self.layer));
                one_layer_put_back(then, after, old(doc)@, self.layer, keep);
                assert(unpainted(old(doc)@, self.layer, self.snapshots@).layers
                    =~= old(doc)@.layers.insert(self.layer, then.layers[self.layer]));
            }
        }
    }

    fn cleanup(&self, doc: &mut Document) {
    }

    fn referenced_layers(&self) -> (r: Vec<LayerId>)
        ensures
            r@ == seq![self.layer],
    {
        just(self.layer)
    }
}

/// Flood-fill (paint bucket) the active raster layer with a color.
///
/// Fills the connected region of similar-colored pixels around `seed_doc` with
/// `color`, anti-aliased and clipped to the current selection (see
/// [`fill_region`]).
pub struct PaintBucketCmd<K, M> {
    /// The pixel arithmetic.
    pub kern: K,
    /// The color arithmetic.
    pub math: M,
    /// Where the bucket is emptied, in document space.
    pub seed_doc: IVec2,
    /// The color.
    pub color: Rgba32F,
    /// The largest color distance.
    pub tolerance: u32,
    /// The layer, once the command was applied.
    pub layer: Option<LayerId>,
    /// The tiles that were, once the command was applied.
    pub snapshots: Vec<(TileCoord, Option<Arc<Tile>>)>,
    /// The active layer that was, once the command was applied.
    pub prior_active: Option<LayerId>,
}

impl<K: Kernel, M: Arith> PaintBucketCmd<K, M> {
    /// Create a paint-bucket command seeded at document point `seed_doc`.
    pub fn new(
        kern: K,
        math: M,
        seed_doc: IVec2,
        color: Rgba32F,
        tolerance: u32,
    ) -> (r: Self)
        ensures
            r.kern == kern,
            r.math == math,
            r.seed_doc == seed_doc,
            r.color == color,
            r.tolerance == tolerance,
            r.layer is None,
            r.snapshots@.len() == 0,
            r.prior_active is None,
    {
        PaintBucketCmd {
            kern,
            math,
            seed_doc,
            color,
            tolerance,
            layer: None,
            snapshots: Vec::new(),
            prior_active: None,
        }
    }
}

impl<K: Kernel + Send, M: Arith + Send> Command for PaintBucketCmd<K, M> {
    open spec fn wf(&self) -> bool {
        &&& self.kern.wf()
        &&& self.math.wf()
        &&& snapshot_wf(self.snapshots@)
    }

    open spec fn name(&self) -> Seq<char> {
        "Paint bucket"@
    }

    open spec fn adds(&self) -> nat {
        0
    }

    open spec fn refs(&self) -> Set<LayerId> {
        maybe_set(self.layer)
    }

    open spec fn reverts(&self, then: DocView, after: DocView) -> bool {
        self.layer matches Some(id) && repaintable(
            id,
            self.snapshots@,
            self.prior_active,
            then,
            after,
        )
    }

    open spec fn learns(&self) -> bool {
        false
    }

    open spec fn undoes(&self, now: DocView, fin: DocView) -> bool {
        fin == (DocView {
            active: self.prior_active,
            ..(match self.layer {
                Some(id) => unpainted(now, id, self.snapshots@),
                None => now,
            })
        })
    }

    open spec fn does(&self, then: DocView, r: Result<(), OgreError>, after: DocView) -> bool {
        &&& r is Err ==> after == then
        &&& match active_edit_error(then) {
            Some(e) => r == Err::<(), OgreError>(e),
            None => r is Ok && exists|w: Seq<(IVec2, Rgba32F)>|
                lists_writes(
                    w,
                    fill_chosen(
                        &self.kern,
                        &self.math,
                        buffer_of(then.layers[then.active->0]),
                        then.layers[then.active->0].offset,
                        self.seed_doc,
                        self.tolerance,
                        then.selection,
                        then.canvas,
                    ),
                    fill_value(
                        &self.kern,
                        &self.math,
                        buffer_of(then.layers[then.active->0]),
                        then.layers[then.active->0].offset,
                        self.seed_doc,
                        self.color,
                        self.tolerance,
                        then.selection,
                        then.canvas,
                    ),
                ) && after == #[trigger] painted(
                    then,
                    then.active->0,
                    w,
                ),
        }
    }

    fn label(&self) -> (r: &'static str) {
        "Paint bucket"
    }

    fn apply(&mut self, doc: &mut Document) -> (r: Result<(), OgreError>) {
        let id: LayerId = match active_editable(doc) {
            Ok(id) => id,
            Err(e) => {
                return Err(e);
            },
        };
        let mut w: Vec<(IVec2, Rgba32F)> = Vec::new();
        if let Ok(layer) = doc.layer(id) {
            if let LayerContent::Raster { buffer, .. } = &layer.content {
                w = fill_region(
                    &self.kern,
                    &self.math,
                    buffer,
                    layer.offset,
                    self.seed_doc,
                    self.color,
                    self.tolerance,
                    doc.current_selection(),
                    doc.canvas_rect(),
                );
            }
        }
        let prior: Option<LayerId> = doc.active_layer();
        self.snapshots = paint_layer(doc, id, &w);
        self.layer = Some(id);
        self.prior_active = prior;
        Ok(())
    }

    fn undo(&mut self, doc: &mut Document) {
        if let Some(id) = self.layer {
            unpaint_layer(doc, id, &self.snapshots);
        }
        doc.set_active(self.prior_active);
        proof {
            assert forall|then: DocView, after: DocView, keep: Set<LayerId>|
                #![trigger old(self).reverts(then, after), same_picture(then, doc@, keep)]
                old(self).reverts(then, after) && keep.subset_of(then.layers.dom()) && same_picture(
                    after,
                    old(doc)@,
                    keep.union(old(self).refs()),
                ) implies same_picture(then, doc@, keep) by {
                assert(keep.union(old(self).refs()) =~= keep.insert(self.layer->0));
                one_layer_put_back(then, after, old(doc)@, self.layer->0, keep);
                assert(unpainted(old(doc)@, self.layer->0, self.snapshots@).layers
                    =~= old(doc)@.layers.insert(self.layer->0, then.layers[self.layer->0]));
            }
        }
    }

    fn cleanup(&self, doc: &mut Document) {
    }

    fn referenced_layers(&self) -> (r: Vec<LayerId>)
        ensures
            r@ == maybe_seq(self.layer),
    {
        maybe(self.layer)
    }
}

/// Why the active layer cannot be filled within a selection.
pub open spec fn fill_error(v: DocView, s: SelectionView) -> Option<OgreError> {
    match active_edit_error(v) {
        Some(e) => Some(e),
        None => if s.extent() is None && v.canvas.empty() {
            Some(OgreError::EmptySelection)
        } else {
            None
        },
    }
}

/// Writing the values of the canvas pixels to layer `id`, row by row, makes `after` of
/// `then`.
pub open spec fn fills(
    then: DocView,
    id: LayerId,
    value: spec_fn(IVec2) -> Option<Rgba32F>,
    after: DocView,
) -> bool {
    let offset = then.layers[id].offset;
    exists|w: Seq<(IVec2, Rgba32F)>|
        lists_writes(w, valued(then.canvas, offset, value), value_below(offset, value))
            && row_by_row(w) && after == #[trigger] painted(then, id, w)
}

/// The same values make the same picture of the same picture.
proof fn lemma_filled_alike(
    now: DocView,
    fin: DocView,
    id: LayerId,
    value: spec_fn(IVec2) -> Option<Rgba32F>,
)
    requires
        now.has(id),
        fills(now, id, value, fin),
    ensures
        forall|then: DocView, after: DocView, keep: Set<LayerId>|
            #![trigger same_picture(then, now, keep), same_picture(after, fin, keep)]
            same_picture(then, now, keep) && visible(then, id) && fills(then, id, value, after)
                ==> same_picture(after, fin, keep),
{
    let offset = now.layers[id].offset;
    let chosen = valued(now.canvas, offset, value);
    let w = choose|w: Seq<(IVec2, Rgba32F)>|
        lists_writes(w, chosen, value_below(offset, value)) && row_by_row(w) && fin
            == #[trigger] painted(now, id, w);
    seen_alike(now, id);
    changed_alike(now, fin, id);
    assert forall|then: DocView, after: DocView, keep: Set<LayerId>|
        #![trigger same_picture(then, now, keep), same_picture(after, fin, keep)]
        same_picture(then, now, keep) && visible(then, id) && fills(
            then,
            id,
            value,
            after,
        ) implies same_picture(after, fin, keep) by {
        let u = choose|u: Seq<(IVec2, Rgba32F)>|
            lists_writes(u, chosen, value_below(offset, value)) && row_by_row(u) && after
                == #[trigger] painted(then, id, u);
        rows_list_writes_one_way(u, w, chosen, value_below(offset, value));
    }
}

/// Fill a selection (or the whole canvas when none) with a solid color,
/// composited over each pixel with the selection's coverage modulating the blend
/// at edges. Fails if the active layer is not raster or is locked, or if the
/// selection is empty and so is the canvas.
pub struct FillSelectionCmd<K> {
    /// The pixel arithmetic.
    pub kern: K,
    /// The color.
    pub color: Rgba32F,
    /// The opacity of the fill.
    pub opacity: u32,
    /// The selection to fill.
    pub selection: Selection,
    /// The layer, once the command was applied.
    pub layer: Option<LayerId>,
    /// The tiles that were, once the command was applied.
    pub snapshots: Vec<(TileCoord, Option<Arc<Tile>>)>,
    /// The active layer that was, once the command was applied.
    pub prior_active: Option<LayerId>,
}

impl<K: Kernel> FillSelectionCmd<K> {
    /// Create a fill-selection command. The selection is taken at construction, so
    /// that the command stays the same when the current selection changes.
    pub fn new(
        kern: K,
        color: Rgba32F,
        opacity: u32,
        selection: Selection,
    ) -> (r: Self)
        ensures
            r.kern == kern,
            r.color == color,
            r.opacity == opacity,
            r.selection == selection,
            r.layer is None,
            r.snapshots@.len() == 0,
            r.prior_active is None,
    {
        FillSelectionCmd {
            kern,
            color,
            opacity,
            selection,
            layer: None,
            snapshots: Vec::new(),
            prior_active: None,
        }
    }
}

impl<K: Kernel + Send> Command for FillSelectionCmd<K> {
    open spec fn wf(&self) -> bool {
        &&& self.kern.wf()
        &&& self.selection.wf()
        &&& snapshot_wf(self.snapshots@)
    }

    open spec fn name(&self) -> Seq<char> {
        "Fill"@
    }

    open spec fn adds(&self) -> nat {
        0
    }

    open spec fn refs(&self) -> Set<LayerId> {
        maybe_set(self.layer)
    }

    open spec fn reverts(&self, then: DocView, after: DocView) -> bool {
        self.layer matches Some(id) && repaintable(
            id,
            self.snapshots@,
            self.prior_active,
            then,
            after,
        )
    }

    open spec fn learns(&self) -> bool {
        false
    }

    open spec fn undoes(&self, now: DocView, fin: DocView) -> bool {
        fin == (DocView {
            active: self.prior_active,
            ..(match self.layer {
                Some(id) => unpainted(now, id, self.snapshots@),
                None => now,
            })
        })
    }

    open spec fn does(&self, then: DocView, r: Result<(), OgreError>, after: DocView) -> bool {
        &&& r is Err ==> after == then
        &&& match fill_error(then, self.selection@) {
            Some(e) => r == Err::<(), OgreError>(e),
            None => {
                let id = then.active->0;
                let l = then.layers[id];
                let value = selection_fill(
                    &self.kern,
                    buffer_of(l),
                    l.offset,
                    self.color,
                    self.opacity,
                    self.selection@,
                );
                r is Ok && fills(then, id, value, after)
            },
        }
    }

    open spec fn steady(&self, then: DocView) -> bool {
        then.active matches Some(id) && visible(then, id)
    }

    fn label(&self) -> (r: &'static str) {
        "Fill"
    }

    fn apply(&mut self, doc: &mut Document) -> (r: Result<(), OgreError>) {
        proof {
            if let Some(a) = doc@.active {
                seen_alike(doc@, a);
            }
        }
        let id: LayerId = match active_editable(doc) {
            Ok(id) => id,
            Err(e) => {
                return Err(e);
            },
        };
        if self.selection.is_empty() && doc.canvas_rect().is_empty() {
            return Err(OgreError::EmptySelection);
        }
        let mut w: Vec<(IVec2, Rgba32F)> = Vec::new();
        if let Ok(layer) = doc.layer(id) {
            if let LayerContent::Raster { buffer, .. } = &layer.content {
                w = fill_selection(
                    &self.kern,
                    buffer,
                    layer.offset,
                    self.color,
                    self.opacity,
                    &self.selection,
                    doc.canvas_rect(),
                );
            }
        }
        let prior: Option<LayerId> = doc.active_layer();
        self.snapshots = paint_layer(doc, id, &w);
        self.layer = Some(id);
        self.prior_active = prior;
        proof {
            let l = old(doc)@.layers[id];
            let value = selection_fill(
                &self.kern,
                buffer_of(l),
                l.offset,
                self.color,
                self.opacity,
                self.selection@,
            );
            assert(fills(old(doc)@, id, value, doc@));
            lemma_filled_alike(old(doc)@, doc@, id, value);
        }
        Ok(())
    }

    fn undo(&mut self, doc: &mut Document) {
        if let Some(id) = self.layer {
            unpaint_layer(doc, id, &self.snapshots);
        }
        doc.set_active(self.prior_active);
        proof {
            assert forall|then: DocView, after: DocView, keep: Set<LayerId>|
                #![trigger old(self).reverts(then, after), same_picture(then, doc@, keep)]
                old(self).reverts(then, after) && keep.subset_of(then.layers.dom()) && same_picture(
                    after,
                    old(doc)@,
                    keep.union(old(self).refs()),
                ) implies same_picture(then, doc@, keep) by {
                assert(keep.union(old(self).refs()) =~= keep.insert(self.layer->0));
                one_layer_put_back(then, after, old(doc)@, self.layer->0, keep);
                assert(unpainted(old(doc)@, self.layer->0, self.snapshots@).layers
                    =~= old(doc)@.layers.insert(self.layer->0, then.layers[self.layer->0]));
            }
        }
    }

    fn cleanup(&self, doc: &mut Document) {
    }

    fn referenced_layers(&self) -> (r: Vec<LayerId>)
        ensures
            r@ == maybe_seq(self.layer),
    {
        maybe(self.layer)
    }
}

/// Stroke the outline of a rectangular selection with a color.
///
/// Fails if the active layer is not raster or is locked. Other selections are
/// left without a stroke.
pub struct StrokeSelectionCmd<K> {
    /// The pixel arithmetic.
    pub kern: K,
    /// The color.
    pub color: Rgba32F,
    /// The stroke diameter in pixels.
    pub width: u32,
    /// The opacity of the stroke.
    pub opacity: u32,
    /// The selection to outline.
    pub selection: Selection,
    /// The layer, once the command was applied.
    pub layer: Option<LayerId>,
    /// The tiles that were, once the command was applied.
    pub snapshots: Vec<(TileCoord, Option<Arc<Tile>>)>,
    /// The active layer that was, once the command was applied.
    pub prior_active: Option<LayerId>,
}

impl<K: Kernel> StrokeSelectionCmd<K> {
    /// Create a stroke-selection command.
    pub fn new(
        kern: K,
        color: Rgba32F,
        width: u32,
        opacity: u32,
        selection: Selection,
    ) -> (r: Self)
        ensures
            r.kern == kern,
            r.color == color,
            r.width == width,
            r.opacity == opacity,
            r.selection == selection,
            r.layer is None,
            r.snapshots@.len() == 0,
            r.prior_active is None,
    {
        StrokeSelectionCmd {
            kern,
            color,
            width,
            opacity,
            selection,
            layer: None,
            snapshots: Vec::new(),
            prior_active: None,
        }
    }
}

impl<K: Kernel + Send> Command for StrokeSelectionCmd<K> {
    open spec fn wf(&self) -> bool {
        &&& self.kern.wf()
        &&& self.selection.wf()
        &&& snapshot_wf(self.snapshots@)
    }

    open spec fn name(&self) -> Seq<char> {
        "Stroke"@
    }

    open spec fn adds(&self) -> nat {
        0
    }

    open spec fn refs(&self) -> Set<LayerId> {
        maybe_set(self.layer)
    }

    open spec fn reverts(&self, then: DocView, after: DocView) -> bool {
        self.layer matches Some(id) && repaintable(
            id,
            self.snapshots@,
            self.prior_active,
            then,
            after,
        )
    }

    open spec fn learns(&self) -> bool {
        false
    }

    open spec fn undoes(&self, now: DocView, fin: DocView) -> bool {
        fin == (DocView {
            active: self.prior_active,
            ..(match self.layer {
                Some(id) => unpainted(now, id, self.snapshots@),
                None => now,
            })
        })
    }

    open spec fn does(&self, then: DocView, r: Result<(), OgreError>, after: DocView) -> bool {
        &&& r is Err ==> after == then
        &&& match active_edit_error(then) {
            Some(e) => r == Err::<(), OgreError>(e),
            None => {
                let id = then.active->0;
                let l = then.layers[id];
                let value = selection_stroke(
                    &self.kern,
                    buffer_of(l),
                    l.offset,
                    self.color,
                    self.width,
                    self.opacity,
                    self.selection@,
                );
                r is Ok && fills(then, id, value, after)
            },
        }
    }

    open spec fn steady(&self, then: DocView) -> bool {
        then.active matches Some(id) && visible(then, id)
    }

    fn label(&self) -> (r: &'static str) {
        "Stroke"
    }

    fn apply(&mut self, doc: &mut Document) -> (r: Result<(), OgreError>) {
        proof {
            if let Some(a) = doc@.active {
                seen_alike(doc@, a);
            }
        }
        let id: LayerId = match active_editable(doc) {
            Ok(id) => id,
            Err(e) => {
                return Err(e);
            },
        };
        let mut w: Vec<(IVec2, Rgba32F)> = Vec::new();
        if let Ok(layer) = doc.layer(id) {
            if let LayerContent::Raster { buffer, .. } = &layer.content {
                w = stroke_selection(
                    &self.kern,
                    buffer,
                    layer.offset,
                    self.color,
                    self.width,
                    self.opacity,
                    &self.selection,
                    doc.canvas_rect(),
                );
            }
        }
        let prior: Option<LayerId> = doc.active_layer();
        self.snapshots = paint_layer(doc, id, &w);
        self.layer = Some(id);
        self.prior_active = prior;
        proof {
            let l = old(doc)@.layers[id];
            let value = selection_stroke(
                &self.kern,
                buffer_of(l),
                l.offset,
                self.color,
                self.width,
                self.opacity,
                self.selection@,
            );
            assert(fills(old(doc)@, id, value, doc@));
            lemma_filled_alike(old(doc)@, doc@, id, value);
        }
        Ok(())
    }

    fn undo(&mut self, doc: &mut Document) {
        if let Some(id) = self.layer {
            unpaint_layer(doc, id, &self.snapshots);
        }
        doc.set_active(self.prior_active);
        proof {
            assert forall|then: DocView, after: DocView, keep: Set<LayerId>|
                #![trigger old(self).reverts(then, after), same_picture(then, doc@, keep)]
                old(self).reverts(then, after) && keep.subset_of(then.layers.dom()) && same_picture(
                    after,
                    old(doc)@,
                    keep.union(old(self).refs()),
                ) implies same_picture(then, doc@, keep) by {
                assert(keep.union(old(self).refs()) =~= keep.insert(self.layer->0));
                one_layer_put_back(then, after, old(doc)@, self.layer->0, keep);
                assert(unpainted(old(doc)@, self.layer->0, self.snapshots@).layers
                    =~= old(doc)@.layers.insert(self.layer->0, then.layers[self.layer->0]));
            }
        }
    }

    fn cleanup(&self, doc: &mut Document) {
    }

    fn referenced_layers(&self) -> (r: Vec<LayerId>)
        ensures
            r@ == maybe_seq(self.layer),
    {
        maybe(self.layer)
    }
}

/// Fill a selection of a raster layer with a gradient.
///
/// The selection is taken at construction, so that the command stays the same
/// when the current selection changes.
pub struct GradientFillCmd<K, M> {
    /// The layer.
    pub layer: LayerId,
    /// The pixel arithmetic.
    pub kern: K,
    /// The gradient arithmetic.
    pub math: M,
    /// The gradient, in document space.
    pub gradient: Gradient,
    /// The opacity of the fill.
    pub opacity: u32,
    /// The selection to clip against.
    pub selection: Selection,
    /// The tiles that were, once the command was applied.
    pub snapshots: Vec<(TileCoord, Option<Arc<Tile>>)>,
    /// The active layer that was, once the command was applied.
    pub prior_active: Option<LayerId>,
}

impl<K: Kernel, M: Arith> GradientFillCmd<K, M> {
    /// Create a gradient-fill command. `p0_doc` and `p1_doc` are the ends of the line
    /// in document space.
    pub fn new(
        kern: K,
        math: M,
        layer: LayerId,
        p0_doc: Vec2,
        p1_doc: Vec2,
        kind: GradientKind,
        fg: Rgba32F,
        bg: Rgba32F,
        reverse: bool,
        opacity: u32,
        wrap: WrapMode,
        selection: Selection,
    ) -> (r: Self)
        ensures
            r.kern == kern,
            r.math == math,
            r.gradient == (Gradient { p0: p0_doc, p1: p1_doc, kind, fg, bg, reverse, wrap }),
            r.opacity == opacity,
            r.selection == selection,
            r.layer == layer,
            r.snapshots@.len() == 0,
            r.prior_active is None,
    {
        GradientFillCmd {
            layer,
            kern,
            math,
            gradient: (Gradient { p0: p0_doc, p1: p1_doc, kind, fg, bg, reverse, wrap }),
            opacity,
            selection,
            snapshots: Vec::new(),
            prior_active: None,
        }
    }
}

impl<K: Kernel + Send, M: Arith + Send> Command for GradientFillCmd<K, M> {
    open spec fn wf(&self) -> bool {
        &&& self.kern.wf()
        &&& self.math.wf()
        &&& self.selection.wf()
        &&& snapshot_wf(self.snapshots@)
    }

    open spec fn name(&self) -> Seq<char> {
        "Gradient fill"@
    }

    open spec fn adds(&self) -> nat {
        0
    }

    open spec fn refs(&self) -> Set<LayerId> {
        Set::empty().insert(self.layer)
    }

    open spec fn reverts(&self, then: DocView, after: DocView) -> bool {
        repaintable(self.layer, self.snapshots@, self.prior_active, then, after)
    }

    open spec fn learns(&self) -> bool {
        false
    }

    open spec fn undoes(&self, now: DocView, fin: DocView) -> bool {
        fin == (DocView {
            active: self.prior_active,
            ..unpainted(now, self.layer, self.snapshots@)
        })
    }

    open spec fn does(&self, then: DocView, r: Result<(), OgreError>, after: DocView) -> bool {
        &&& r is Err ==> after == then
        &&& match edit_error(then, self.layer) {
            Some(e) => r == Err::<(), OgreError>(e),
            None => {
                let id = self.layer;
                let l = then.layers[id];
                let value = gradient_fill(
                    &self.kern,
                    &self.math,
                    buffer_of(l),
                    l.offset,
                    self.gradient,
                    self.opacity,
                    self.selection@,
                );
                r is Ok && fills(then, id, value, after)
            },
        }
    }

    open spec fn steady(&self, then: DocView) -> bool {
        visible(then, self.layer)
    }

    fn label(&self) -> (r: &'static str) {
        "Gradient fill"
    }

    fn apply(&mut self, doc: &mut Document) -> (r: Result<(), OgreError>) {
        proof {
            seen_alike(doc@, self.layer);
        }
        if let Err(e) = check_editable(doc, self.layer) {
            return Err(e);
        }
        let mut w: Vec<(IVec2, Rgba32F)> = Vec::new();
        if let Ok(layer) = doc.layer(self.layer) {
            if let LayerContent::Raster { buffer, .. } = &layer.content {
                w = fill_gradient(
                    &self.kern,
                    &self.math,
                    buffer,
                    layer.offset,
                    &self.gradient,
                    self.opacity,
                    &self.selection,
                    doc.canvas_rect(),
                );
            }
        }
        let prior: Option<LayerId> = doc.active_layer();
        self.snapshots = paint_layer(doc, self.layer, &w);
        self.prior_active = prior;
        proof {
            let l = old(doc)@.layers[self.layer];
            let value = gradient_fill(
                &self.kern,
                &self.math,
                buffer_of(l),
                l.offset,
                self.gradient,
                self.opacity,
                self.selection@,
            );
            assert(fills(old(doc)@, self.layer, value, doc@));
            lemma_filled_alike(old(doc)@, doc@, self.layer, value);
        }
        Ok(())
    }

    fn undo(&mut self, doc: &mut Document) {
        unpaint_layer(doc, self.layer, &self.snapshots);
        doc.set_active(self.prior_active);
        proof {
            assert forall|then: DocView, after: DocView, keep: Set<LayerId>|
                #![trigger old(self).reverts(then, after), same_picture(then, doc@, keep)]
                old(self).reverts(then, after) && keep.subset_of(then.layers.dom()) && same_picture(
                    after,
                    old(doc)@,
                    keep.union(old(self).refs()),
                ) implies same_picture(then, doc@, keep) by {
                assert(keep.union(old(self).refs()) =~= keep.insert(self.layer));
                one_layer_put_back(then, after, old(doc)@, self.layer, keep);
                assert(unpainted(old(doc)@, self.layer, self.snapshots@).layers
                    =~= old(doc)@.layers.insert(self.layer, then.layers[self.layer]));
            }
        }
    }

    fn cleanup(&self, doc: &mut Document) {
    }

    fn referenced_layers(&self) -> (r: Vec<LayerId>)
        ensures
            r@ == seq![self.layer],
    {
        just(self.layer)
    }
}

/// The samples seen from a layer placed at `offset`.
pub open spec fn local_samples<B: BrushKernel>(
    brush: &B,
    samples: Seq<InputSample>,
    offset: IVec2,
) -> Seq<InputSample> {
    samples.map_values(
        |s: InputSample|
            InputSample { pos: brush.localized(s.pos, offset), pressure: s.pressure },
    )
}

/// The corners of the box around the stamp at a sample.
pub open spec fn stamp_corners<K: Kernel, B: BrushKernel>(
    kern: &K,
    brush: &B,
    settings: BrushSettings,
    s: InputSample,
) -> (IVec2, IVec2) {
    brush.corners_of(s.pos, kern.scaled(settings.width_for(kern, s.pressure), F_HALF))
}

/// The corners of the box around stamps at some samples.
pub open spec fn stroke_corners<K: Kernel, B: BrushKernel>(
    kern: &K,
    brush: &B,
    settings: BrushSettings,
    samples: Seq<InputSample>,
) -> (IVec2, IVec2)
    decreases samples.len(),
{
    let last = stamp_corners(kern, brush, settings, samples.last());
    if samples.len() <= 1 {
        last
    } else {
        let c = stroke_corners(kern, brush, settings, samples.drop_last());
        (
            IVec2 {
                x: if last.0.x < c.0.x { last.0.x } else { c.0.x },
                y: if last.0.y < c.0.y { last.0.y } else { c.0.y },
            },
            IVec2 {
                x: if last.1.x > c.1.x { last.1.x } else { c.1.x },
                y: if last.1.y > c.1.y { last.1.y } else { c.1.y },
            },
        )
    }
}

/// The box around all stamps of a stroke, and around stamps at all its samples.
pub open spec fn stroke_box<K: Kernel, B: BrushKernel>(
    kern: &K,
    brush: &B,
    settings: BrushSettings,
    samples: Seq<InputSample>,
) -> Rect {
    let c = stroke_corners(
        kern,
        brush,
        settings.sane(),
        samples + stops(brush, samples, settings),
    );
    Rect::from_corners_spec(c.0, c.1)
}

proof fn lemma_stroke_corners<K: Kernel, B: BrushKernel>(
    kern: &K,
    brush: &B,
    settings: BrushSettings,
    samples: Seq<InputSample>,
    i: int,
)
    requires
        0 <= i < samples.len(),
    ensures
        ({
            let b = stamp_corners(kern, brush, settings, samples[i]);
            let c = stroke_corners(kern, brush, settings, samples);
            c.0.x <= b.0.x && c.0.y <= b.0.y && b.1.x <= c.1.x && b.1.y <= c.1.y
        }),
    decreases samples.len(),
{
    if i < samples.len() - 1 {
        lemma_stroke_corners(kern, brush, settings, samples.drop_last(), i);
    }
}

/// A tile that holds a pixel between two corners is touched by their rectangle.
proof fn lemma_corners_touch(a: IVec2, b: IVec2, p: IVec2)
    requires
        a.x <= p.x <= b.x,
        a.y <= p.y <= b.y,
    ensures
        Rect::from_corners_spec(a, b).touches(tile_of(p)),
{
    let r = Rect::from_corners_spec(a, b);
    let q = IVec2 {
        x: if p.x < r.right_edge() { p.x } else { (p.x - 1) as i32 },
        y: if p.y < r.bottom_edge() { p.y } else { (p.y - 1) as i32 },
    };
    assert(r.has(q.x as int, q.y as int));
    assert(tile_of(q) == tile_of(p));
    crate::coord::pixels_lie_in_touched_tiles(r, q);
}

/// The tiles that the stamps of a stroke meet are touched by its box.
proof fn lemma_stamps_in_box<K: Kernel, B: BrushKernel>(
    kern: &K,
    brush: &B,
    settings: BrushSettings,
    samples: Seq<InputSample>,
    color: Rgba32F,
    mode: PaintMode,
    c: TileCoord,
)
    requires
        stamped_tile(
            kern,
            brush,
            stops(brush, samples, settings),
            settings,
            color,
            mode,
            key(c),
        ),
    ensures
        stroke_box(kern, brush, settings, samples).touches(c),
{
    let list = stops(brush, samples, settings);
    let all = samples + list;
    let i = choose|i: int|
        0 <= i < list.len() && stop_dab(#[trigger] list[i], settings, color, mode).meets(
            kern,
            brush,
            key(c),
        );
    let dab = stop_dab(list[i], settings, color, mode);
    let p = choose|p: IVec2| #[trigger]
        in_area(dab.area(kern, brush), p) && key(tile_of(p)) == key(c);
    assert(all[samples.len() + i] == list[i]);
    lemma_stroke_corners(kern, brush, settings.sane(), all, samples.len() + i);
    let k = stroke_corners(kern, brush, settings.sane(), all);
    lemma_corners_touch(k.0, k.1, p);
}

/// The samples of two lists.
fn joined(a: &Vec<InputSample>, b: &Vec<InputSample>) -> (r: Vec<InputSample>)
    ensures
        r@ == a@ + b@,
{
    let mut r: Vec<InputSample> = Vec::new();
    let mut i: usize = 0;
    while i < a.len()
        invariant
            i <= a@.len(),
            r@ == a@.take(i as int),
        decreases a@.len() - i,
    {
        r.push(a[i]);
        assert(r@ =~= a@.take(i + 1));
        i = i + 1;
    }
    assert(r@ =~= a@ + b@.take(0));
    i = 0;
    while i < b.len()
        invariant
            i <= b@.len(),
            r@ == a@ + b@.take(i as int),
        decreases b@.len() - i,
    {
        r.push(b[i]);
        assert(r@ =~= a@ + b@.take(i + 1));
        i = i + 1;
    }
    assert(b@.take(i as int) =~= b@);
    r
}

/// The box around stamps at some samples.
fn box_around<K: Kernel, B: BrushKernel>(
    kern: &K,
    brush: &B,
    settings: BrushSettings,
    samples: &Vec<InputSample>,
) -> (r: Rect)
    requires
        kern.wf(),
        brush.wf(),
        samples@.len() > 0,
    ensures
        ({
            let c = stroke_corners(kern, brush, settings, samples@);
            r == Rect::from_corners_spec(c.0, c.1)
        }),
{
    let width: u32 = settings.width_at_pressure(kern, samples[0].pressure);
    let first: (IVec2, IVec2) = brush.corners(samples[0].pos, kern.scale(width, F_HALF));
    let mut min: IVec2 = first.0;
    let mut max: IVec2 = first.1;
    let mut i: usize = 1;
    assert(samples@.take(1).last() == samples@[0]);
    while i < samples.len()
        invariant
            kern.wf(),
            brush.wf(),
            1 <= i <= samples@.len(),
            (min, max) == stroke_corners(kern, brush, settings, samples@.take(i as int)),
        decreases samples@.len() - i,
    {
        proof {
            assert(samples@.take(i + 1).drop_last() =~= samples@.take(i as int));
            assert(samples@.take(i + 1).last() == samples@[i as int]);
        }
        let width: u32 = settings.width_at_pressure(kern, samples[i].pressure);
        let next: (IVec2, IVec2) = brush.corners(samples[i].pos, kern.scale(width, F_HALF));
        min = IVec2 {
            x: if next.0.x < min.x { next.0.x } else { min.x },
            y: if next.0.y < min.y { next.0.y } else { min.y },
        };
        max = IVec2 {
            x: if next.1.x > max.x { next.1.x } else { max.x },
            y: if next.1.y > max.y { next.1.y } else { max.y },
        };
        i = i + 1;
    }
    assert(samples@.take(i as int) =~= samples@);
    Rect::from_corners(min, max)
}

/// Paint a brush stroke onto a raster layer.
///
/// The command snapshots every tile touched by the stroke's bounding box, converts
/// the input samples from document to layer-local coordinates, and rasterizes the
/// stroke into the target layer. Undo restores the exact tiles that existed before
/// the edit.
pub struct PaintStrokeCmd<K, B> {
    /// The pixel arithmetic.
    pub kern: K,
    /// The brush arithmetic.
    pub brush: B,
    /// The layer.
    pub layer: LayerId,
    /// The samples, in document coordinates.
    pub samples: Vec<InputSample>,
    /// The settings of the brush.
    pub settings: BrushSettings,
    /// The color.
    pub color: Rgba32F,
    /// Whether the stroke paints or erases.
    pub mode: PaintMode,
    /// The tiles that were, once the command was applied.
    pub snapshots: Vec<(TileCoord, Option<Arc<Tile>>)>,
    /// The active layer that was, once the command was applied.
    pub prior_active: Option<LayerId>,
}

impl<K: Kernel, B: BrushKernel> PaintStrokeCmd<K, B> {
    /// Create a stroke paint command.
    ///
    /// `samples` are in document coordinates. They are converted to the target
    /// layer's local coordinate space when the command is applied.
    pub fn new(
        kern: K,
        brush: B,
        layer: LayerId,
        samples: Vec<InputSample>,
        settings: BrushSettings,
        color: Rgba32F,
        mode: PaintMode,
    ) -> (r: Self)
        ensures
            r.kern == kern,
            r.brush == brush,
            r.layer == layer,
            r.samples == samples,
            r.settings == settings,
            r.color == color,
            r.mode == mode,
            r.snapshots@.len() == 0,
            r.prior_active is None,
    {
        PaintStrokeCmd {
            kern,
            brush,
            layer,
            samples,
            settings,
            color,
            mode,
            snapshots: Vec::new(),
            prior_active: None,
        }
    }

    /// The stroke that the command lays makes `n` of the buffer `m` of a layer at
    /// `offset`.
    pub open spec fn strokes(
        &self,
        offset: IVec2,
        m: Map<(i32, i32), Seq<Rgba32F>>,
        n: Map<(i32, i32), Seq<Rgba32F>>,
    ) -> bool {
        let local = local_samples(&self.brush, self.samples@, offset);
        is_stroke(
            &self.kern,
            &self.brush,
            stops(&self.brush, local, self.settings),
            self.settings,
            self.color,
            self.mode,
            m,
            n,
        )
    }

    fn localized(&self, offset: IVec2) -> (r: Vec<InputSample>)
        requires
            self.brush.wf(),
        ensures
            r@ == local_samples(&self.brush, self.samples@, offset),
    {
        let mut out: Vec<InputSample> = Vec::new();
        let mut i: usize = 0;
        while i < self.samples.len()
            invariant
                self.brush.wf(),
                i <= self.samples@.len(),
                out@.len() == i,
                forall|j: int|
                    0 <= j < i ==> #[trigger] out@[j] == local_samples(
                        &self.brush,
                        self.samples@,
                        offset,
                    )[j],
            decreases self.samples@.len() - i,
        {
            let s: InputSample = self.samples[i];
            out.push(
                InputSample { pos: self.brush.localize(s.pos, offset), pressure: s.pressure },
            );
            i = i + 1;
        }
        out
    }
}

impl<K: Kernel + Send, B: BrushKernel + Send> Command for PaintStrokeCmd<K, B> {
    open spec fn wf(&self) -> bool {
        &&& self.kern.wf()
        &&& self.brush.wf()
        &&& snapshot_wf(self.snapshots@)
    }

    open spec fn name(&self) -> Seq<char> {
        match self.mode {
            PaintMode::Brush => "Paint stroke"@,
            PaintMode::Eraser => "Erase stroke"@,
        }
    }

    open spec fn adds(&self) -> nat {
        0
    }

    open spec fn refs(&self) -> Set<LayerId> {
        Set::empty().insert(self.layer)
    }

    open spec fn reverts(&self, then: DocView, after: DocView) -> bool {
        repaintable(self.layer, self.snapshots@, self.prior_active, then, after)
    }

    open spec fn learns(&self) -> bool {
        false
    }

    open spec fn undoes(&self, now: DocView, fin: DocView) -> bool {
        fin == (if now.has(self.layer) {
            DocView {
                active: self.prior_active,
                ..unpainted(now, self.layer, self.snapshots@)
            }
        } else {
            now
        })
    }

    open spec fn does(&self, then: DocView, r: Result<(), OgreError>, after: DocView) -> bool {
        &&& r is Err ==> after == then
        &&& match edit_error(then, self.layer) {
            Some(e) => r == Err::<(), OgreError>(e),
            None => {
                let id = self.layer;
                let l = then.layers[id];
                let n = buffer_of(after.layers[id]);
                &&& r is Ok
                &&& after == (DocView {
                    active: Some(id),
                    ..then.with_layer(id, with_buffer(l, n))
                })
                &&& if self.samples@.len() == 0 {
                    n == buffer_of(l)
                } else {
                    self.strokes(l.offset, buffer_of(l), n)
                }
            },
        }
    }

    open spec fn steady(&self, then: DocView) -> bool {
        visible(then, self.layer)
    }

    fn label(&self) -> (r: &'static str) {
        match self.mode {
            PaintMode::Brush => "Paint stroke",
            PaintMode::Eraser => "Erase stroke",
        }
    }

    fn apply(&mut self, doc: &mut Document) -> (r: Result<(), OgreError>)
        ensures
            r is Ok ==> final(self).prior_active == old(doc)@.active,
            r is Ok && old(self).samples@.len() > 0 ==> forall|c: TileCoord| #[trigger]
                snapped(final(self).snapshots@, key(c)) <==> stroke_box(
                    &old(self).kern,
                    &old(self).brush,
                    old(self).settings,
                    local_samples(
                        &old(self).brush,
                        old(self).samples@,
                        old(doc)@.layers[old(self).layer].offset,
                    ),
                ).touches(c),
            r is Ok && old(self).samples@.len() == 0 ==> final(self).snapshots@.len() == 0,
    {
        proof {
            seen_alike(doc@, self.layer);
        }
        if let Err(e) = check_editable(doc, self.layer) {
            return Err(e);
        }
        let prior: Option<LayerId> = doc.active_layer();
        let mut snapshots: Vec<(TileCoord, Option<Arc<Tile>>)> = Vec::new();
        proof {
            crate::document::lemma_same_layer(doc@, self.layer);
        }
        if let Ok(layer) = doc.layer_mut(self.layer) {
            let local: Vec<InputSample> = self.localized(layer.offset);
            if local.len() > 0 {
                let list: Vec<InputSample> = list_stops(&self.brush, &local, &self.settings);
                let all: Vec<InputSample> = joined(&local, &list);
                let around: Rect = box_around(
                    &self.kern,
                    &self.brush,
                    self.settings.sanitised(),
                    &all,
                );
                let tiles: Vec<TileCoord> = around.tiles_covered();
                if let Some(buffer) = layer.buffer_mut() {
                    snapshots = snapshot_tiles(buffer, &tiles);
                    let ghost m = buffer@;
                    lay_stops(
                        &self.kern,
                        &self.brush,
                        buffer,
                        &list,
                        &self.settings,
                        self.color,
                        self.mode,
                    );
                    proof {
                        assert forall|k: (i32, i32)| !snapped(
                            snapshots@,
                            k,
                        ) implies #[trigger] same_tile(m, buffer@, k) by {
                            let c = TileCoord { x: k.0, y: k.1 };
                            assert(key(c) == k);
                            if stamped_tile(
                                &self.kern,
                                &self.brush,
                                list@,
                                self.settings,
                                self.color,
                                self.mode,
                                k,
                            ) {
                                lemma_stamps_in_box(
                                    &self.kern,
                                    &self.brush,
                                    self.settings,
                                    local@,
                                    self.color,
                                    self.mode,
                                    c,
                                );
                                assert(tiles@.contains(c));
                            }
                        }
                        putting_back_restores(m, buffer@, snapshots@);
                        assert forall|c: TileCoord| #[trigger]
                            snapped(snapshots@, key(c)) <==> around.touches(c) by {
                            if snapped(snapshots@, key(c)) {
                                let d = choose|d: TileCoord| #[trigger]
                                    tiles@.contains(d) && key(d) == key(c);
                                assert(d == c);
                            }
                            if around.touches(c) {
                                assert(tiles@.contains(c));
                            }
                        }
                    }
                }
            }
        }
        doc.set_active(Some(self.layer));
        self.snapshots = snapshots;
        self.prior_active = prior;
        proof {
            one_layer_keeps_tidy(old(doc)@, doc@, self.layer);
            changed_alike(old(doc)@, doc@, self.layer);
            let l = old(doc)@.layers[self.layer];
            let n = buffer_of(doc@.layers[self.layer]);
            assert forall|o: Map<(i32, i32), Seq<Rgba32F>>|
                self.samples@.len() > 0 && #[trigger] old(self).strokes(
                    l.offset,
                    buffer_of(l),
                    o,
                ) implies o == n by {
                let local = local_samples(&self.brush, self.samples@, l.offset);
                strokes_have_one_outcome(
                    &self.kern,
                    &self.brush,
                    stops(&self.brush, local, self.settings),
                    self.settings,
                    self.color,
                    self.mode,
                    buffer_of(l),
                    n,
                    o,
                );
            }
        }
        Ok(())
    }

    fn undo(&mut self, doc: &mut Document) {
        if doc.layer(self.layer).is_ok() {
            unpaint_layer(doc, self.layer, &self.snapshots);
            doc.set_active(self.prior_active);
        }
        proof {
            assert forall|then: DocView, after: DocView, keep: Set<LayerId>|
                #![trigger old(self).reverts(then, after), same_picture(then, doc@, keep)]
                old(self).reverts(then, after) && keep.subset_of(then.layers.dom()) && same_picture(
                    after,
                    old(doc)@,
                    keep.union(old(self).refs()),
                ) implies same_picture(then, doc@, keep) by {
                assert(keep.union(old(self).refs()) =~= keep.insert(self.layer));
                one_layer_put_back(then, after, old(doc)@, self.layer, keep);
                assert(unpainted(old(doc)@, self.layer, self.snapshots@).layers
                    =~= old(doc)@.layers.insert(self.layer, then.layers[self.layer]));
            }
        }
    }

    fn cleanup(&self, doc: &mut Document) {
    }

    fn referenced_layers(&self) -> (r: Vec<LayerId>)
        ensures
            r@ == seq![self.layer],
    {
        just(self.layer)
    }
}

} // verus!
