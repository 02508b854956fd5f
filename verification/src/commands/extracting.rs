//! Commands that move a selection to a new layer.
use vstd::prelude::*;

use std::sync::Arc;

use crate::buffer::{key, pruned, TiledBuffer};
use crate::buffer_region::same_tile;
use crate::commands::scraps::{
    added, adding_keeps_layers, adding_taken_back, all_scrapped, are_scraps, can_return,
    drop_scraps, softly_removed, take_out,
};
use crate::commands::tiles::{
    buffer_of, check_editable, edit_error, put_back, putting_back_restores, snapped,
    snapshot_tiles, snapshot_wf, unpaint_layer, unpainted, with_buffer,
};
use crate::coord::{IVec2, TileCoord};
use crate::document::{
    active_outside, dropped, lemma_unlisted_dom, put_above, restored, subtree, subtree_error,
    unlisted, DocView, Document,
};
use crate::error::OgreError;
use crate::history::Command;
use crate::kernel::Kernel;
use crate::layer::{LayerId, LayerView};
use crate::ops::extract::{
    copied_above, copy_error, copy_layer, copy_selection_to_new_layer, cut_above,
    cut_selection_to_new_layer, erase_selection, is_clipped, is_cut, off_canvas,
};
use crate::picture::{
    one_layer_keeps_tidy, one_layer_put_back, pictures_chain, pictures_shrink, same_picture, shown,
    tidy,
};
use crate::pixel::Rgba32F;
use crate::placing::{leaf_is_newly_placed, taken_out};
use crate::selection::{selected_tile, Selection, SelectionView};
use crate::tile::Tile;

verus! {

/// The list of an identifier and an optional one.
pub(crate) fn with_maybe(id: LayerId, more: Option<LayerId>) -> (r: Vec<LayerId>)
    ensures
        r@ == with_maybe_seq(id, more),
        forall|x: LayerId| #[trigger] r@.contains(x) <==> x == id || more == Some(x),
{
    let mut r: Vec<LayerId> = vec![id];
    assert(r@[0] == id);
    if let Some(m) = more {
        r.push(m);
        assert(r@[1] == m);
        assert forall|x: LayerId| #[trigger] r@.contains(x) <==> x == id || more == Some(x) by {
            if x == id {
                assert(r@[0] == id);
            }
        }
    }
    r
}

/// An identifier and then an optional one.
pub open spec fn with_maybe_seq(id: LayerId, more: Option<LayerId>) -> Seq<LayerId> {
    match more {
        Some(m) => seq![id, m],
        None => seq![id],
    }
}

/// The set of an identifier and an optional one.
pub open spec fn with_maybe_set(id: LayerId, more: Option<LayerId>) -> Set<LayerId> {
    match more {
        Some(m) => Set::empty().insert(id).insert(m),
        None => Set::empty().insert(id),
    }
}

/// Copy the selected pixels from one layer to a new raster layer.
///
/// Undo removes the inserted layer. The command keeps the id assigned to the new
/// layer so it can be removed precisely on undo.
pub struct CopyToNewLayerCmd<K> {
    /// The pixel arithmetic.
    pub kern: K,
    /// The layer to copy from.
    pub source: LayerId,
    /// The selection to copy.
    pub selection: Selection,
    /// The layer that was added, once the command was applied.
    pub new_id: Option<LayerId>,
    /// The active layer that was, once the command was applied.
    pub prior_active: Option<LayerId>,
}

impl<K: Kernel> CopyToNewLayerCmd<K> {
    /// Create a copy-to-new-layer command.
    pub fn new(kern: K, source: LayerId, selection: Selection) -> (r: Self)
        ensures
            r == (CopyToNewLayerCmd {
                kern,
                source,
                selection,
                new_id: None,
                prior_active: None,
            }),
    {
        CopyToNewLayerCmd { kern, source, selection, new_id: None, prior_active: None }
    }
}

/// Why a selection of a layer that is not in the tree cannot be copied.
fn refusal(doc: &Document, source: LayerId, selection: &Selection) -> (e: OgreError)
    requires
        doc.wf(),
        selection.wf(),
    ensures
        e == (match copy_error(doc@, source, selection@) {
            Some(e) => e,
            None => OgreError::LayerNotFound(source),
        }),
{
    let canvas_sel: Selection = Selection::rect(doc.canvas_rect()).intersect(selection);
    if canvas_sel.is_empty() {
        return OgreError::EmptySelection;
    }
    match doc.layer(source) {
        Ok(layer) => if layer.is_raster() {
            OgreError::LayerNotFound(source)
        } else {
            OgreError::NotRaster
        },
        Err(e) => e,
    }
}

/// Removing a newly added layer for good gives the picture back.
proof fn lemma_addition_dropped(
    then: DocView,
    after: DocView,
    now: DocView,
    fin: DocView,
    id: LayerId,
    prior: Option<LayerId>,
    keep: Set<LayerId>,
)
    requires
        added(id, prior, then, after),
        !then.has(id),
        now.layers.dom().finite(),
        keep.subset_of(then.layers.dom()),
        same_picture(after, now, keep.insert(id)),
        subtree_error(now, id) is None ==> exists|w: DocView| #[trigger]
            unlisted(now, id, w) && fin == (DocView {
                active: prior,
                ..dropped(w, subtree(now, id), active_outside(now, subtree(now, id)))
            }),
        subtree_error(now, id) is Some ==> fin == (DocView { active: prior, ..now }),
    ensures
        same_picture(then, fin, keep),
{
    if subtree_error(now, id) is None {
        let w = choose|w: DocView| #[trigger]
            unlisted(now, id, w) && fin == (DocView {
                active: prior,
                ..dropped(w, subtree(now, id), active_outside(now, subtree(now, id)))
            });
        let soft = DocView {
            active: prior,
            removed: w.removed.union(subtree(now, id).to_set()),
            ..w
        };
        assert(taken_out(now, id, soft)) by {
            assert(unlisted(now, id, w));
        }
        adding_taken_back(then, after, now, soft, id, prior, keep);
        assert(seq![id].to_set() =~= Set::empty().insert(id)) by {
            assert(seq![id][0] == id);
        }
        assert forall|x: LayerId| #[trigger] shown(soft, keep, x) == shown(fin, keep, x) by {
            if keep.contains(x) {
                assert(then.has(x));
            }
        }
        pictures_chain(then, soft, fin, keep);
    } else {
        adding_taken_back(then, after, now, fin, id, prior, keep);
    }
}

impl<K: Kernel + Send> Command for CopyToNewLayerCmd<K> {
    open spec fn wf(&self) -> bool {
        &&& self.kern.wf()
        &&& self.selection.wf()
        &&& self.new_id != Some(self.source)
    }

    open spec fn name(&self) -> Seq<char> {
        "Copy to new layer"@
    }

    open spec fn adds(&self) -> nat {
        1
    }

    open spec fn refs(&self) -> Set<LayerId> {
        with_maybe_set(self.source, self.new_id)
    }

    open spec fn reverts(&self, then: DocView, after: DocView) -> bool {
        self.new_id matches Some(id) && added(id, self.prior_active, then, after) && !then.has(id)
            && then.has(self.source)
    }

    open spec fn undoes(&self, now: DocView, fin: DocView) -> bool {
        match self.new_id {
            Some(id) => if subtree_error(now, id) is None {
                exists|w: DocView| #[trigger]
                    unlisted(now, id, w) && fin == (DocView {
                        active: self.prior_active,
                        ..dropped(
                            w,
                            subtree(now, id),
                            active_outside(now, subtree(now, id)),
                        )
                    })
            } else {
                fin == (DocView { active: self.prior_active, ..now })
            },
            None => fin == (DocView { active: self.prior_active, ..now }),
        }
    }

    open spec fn fickle(&self) -> bool {
        false
    }

    open spec fn does(&self, then: DocView, r: Result<(), OgreError>, after: DocView) -> bool {
        &&& r is Err ==> after == then
        &&& match copy_error(then, self.source, self.selection@) {
            Some(e) => r == Err::<(), OgreError>(e),
            None => if then.placed(self.source) {
                &&& r is Ok
                &&& exists|id: LayerId, b: Map<(i32, i32), Seq<Rgba32F>>| #[trigger]
                    copied_above(
                        &self.kern,
                        then,
                        self.source,
                        self.selection@,
                        id,
                        b,
                        after,
                    )
            } else {
                r == Err::<(), OgreError>(OgreError::LayerNotFound(self.source))
            },
        }
    }

    fn label(&self) -> (r: &'static str) {
        "Copy to new layer"
    }

    fn apply(&mut self, doc: &mut Document) -> (r: Result<(), OgreError>)
        ensures
            r is Ok ==> final(self).new_id is Some && final(self).new_id == final(doc)@.active,
    {
        let prior: Option<LayerId> = doc.active_layer();
        if doc.sibling_index(self.source).is_none() {
            return Err(refusal(doc, self.source, &self.selection));
        }
        let id: LayerId = match copy_selection_to_new_layer(
            &self.kern,
            doc,
            self.source,
            &self.selection,
        ) {
            Ok(id) => id,
            Err(e) => {
                return Err(e);
            },
        };
        let ghost v = old(doc)@;
        let ghost b = choose|b: Map<(i32, i32), Seq<Rgba32F>>| #[trigger]
            copied_above(&self.kern, v, self.source, self.selection@, id, b, doc@);
        self.new_id = Some(id);
        self.prior_active = prior;
        proof {
            doc.lemma_ids();
            assert(copied_above(
                &old(self).kern,
                v,
                self.source,
                old(self).selection@,
                self.new_id->0,
                b,
                doc@,
            ));
            if tidy(v) {
                lemma_copied(v, doc@, copy_layer(v.layers[self.source], b), id, self.source);
                adding_keeps_layers(id, prior, v, doc@);
            }
        }
        Ok(())
    }

    fn undo(&mut self, doc: &mut Document)
        ensures
            final(self).new_id is None,
    {
        proof {
            doc.lemma_ids();
        }
        if let Some(id) = self.new_id.take() {
            let gone = doc.remove_layer(id);
        }
        doc.set_active(self.prior_active);
        proof {
            if let Some(id) = old(self).new_id {
                if subtree_error(old(doc)@, id) is None {
                    let w = choose|w: DocView| #[trigger]
                        unlisted(old(doc)@, id, w) && doc@ == (DocView {
                            active: self.prior_active,
                            ..dropped(
                                w,
                                subtree(old(doc)@, id),
                                active_outside(old(doc)@, subtree(old(doc)@, id)),
                            )
                        });
                    lemma_unlisted_dom(old(doc)@, id, w);
                }
            }
            assert forall|then: DocView, after: DocView, keep: Set<LayerId>|
                #![trigger old(self).reverts(then, after), same_picture(then, doc@, keep)]
                old(self).reverts(then, after) && keep.subset_of(then.layers.dom()) && same_picture(
                    after,
                    old(doc)@,
                    keep.union(old(self).refs()),
                ) implies same_picture(then, doc@, keep) by {
                let id = old(self).new_id->0;
                pictures_shrink(
                    after,
                    old(doc)@,
                    keep.union(old(self).refs()),
                    keep.insert(id),
                );
                lemma_addition_dropped(
                    then,
                    after,
                    old(doc)@,
                    doc@,
                    id,
                    self.prior_active,
                    keep,
                );
            }
        }
    }

    fn cleanup(&self, doc: &mut Document) {
    }

    fn referenced_layers(&self) -> (r: Vec<LayerId>)
        ensures
            r@ == with_maybe_seq(self.source, self.new_id),
    {
        with_maybe(self.source, self.new_id)
    }
}

/// A copy directly above its source in a tidy tree is an added layer.
proof fn lemma_copied(then: DocView, after: DocView, l: LayerView, id: LayerId, source: LayerId)
    requires
        tidy(then),
        after.layers.dom().finite(),
        !then.has(id),
        l.content !is Group,
        then.is_raster(source),
        exists|parent: Option<LayerId>, i: int| #[trigger]
            then.sits_at(source, parent, i) && after == (DocView {
                active: after.active,
                ..put_above(then, l, id, parent, i)
            }),
    ensures
        added(id, then.active, then, after),
        tidy(after),
        id != source,
        after.layers[source] == then.layers[source],
{
    let (parent, i) = choose|parent: Option<LayerId>, i: int| #[trigger]
        then.sits_at(source, parent, i) && after == (DocView {
            active: after.active,
            ..put_above(then, l, id, parent, i)
        });
    assert(then.removed.remove(id) =~= then.removed);
    if let Some(p) = parent {
        assert(then.is_parent(p, source));
    }
    leaf_is_newly_placed(then, after, id, parent, i + 1);
}

/// Snapshot the tiles that a cut changed: those that the selection touches, and
/// those without ink that were dropped.
fn snapshot_cut(
    was: &TiledBuffer,
    now: &TiledBuffer,
    selection: &Selection,
    offset: IVec2,
) -> (s: Vec<(TileCoord, Option<Arc<Tile>>)>)
    requires
        was.wf(),
        now.wf(),
        forall|t: TileCoord|
            !selected_tile(selection@, offset, t) ==> #[trigger] same_tile(
                was@,
                now@,
                key(t),
            ) || same_tile(pruned(was@), now@, key(t)),
    ensures
        snapshot_wf(s@),
        put_back(now@, s@) == was@,
{
    let mut tiles: Vec<TileCoord> = selection.selected_tiles(offset);
    let ghost picked = tiles@;
    let list: Vec<(TileCoord, Arc<Tile>)> = was.occupied_tiles();
    let mut i: usize = 0;
    while i < list.len()
        invariant
            was.wf(),
            now.wf(),
            i <= list@.len(),
            forall|c: TileCoord| #[trigger] picked.contains(c) ==> tiles@.contains(c),
            forall|j: int|
                0 <= j < i && !now@.dom().contains(key((#[trigger] list@[j]).0))
                    ==> tiles@.contains(list@[j].0),
        decreases list@.len() - i,
    {
        let c: TileCoord = list[i].0;
        if now.get_tile(c).is_none() {
            let ghost before = tiles@;
            tiles.push(c);
            proof {
                assert(tiles@[before.len() as int] == c);
                assert forall|d: TileCoord| #[trigger] before.contains(d) implies tiles@.contains(
                    d,
                ) by {
                    let j = choose|j: int| 0 <= j < before.len() && before[j] == d;
                    assert(tiles@[j] == d);
                }
            }
        }
        i = i + 1;
    }
    let s: Vec<(TileCoord, Option<Arc<Tile>>)> = snapshot_tiles(was, &tiles);
    proof {
        assert forall|k: (i32, i32)| !snapped(s@, k) implies #[trigger] same_tile(
            was@,
            now@,
            k,
        ) by {
            let t = TileCoord { x: k.0, y: k.1 };
            assert(key(t) == k);
            assert(!tiles@.contains(t));
            assert(!picked.contains(t));
            if same_tile(pruned(was@), now@, key(t)) && was@.dom().contains(k) {
                let j = choose|j: int| 0 <= j < list@.len() && key((#[trigger] list@[j]).0) == k;
                assert(list@[j].0 == t);
                assert(now@.dom().contains(k));
            }
        }
        putting_back_restores(was@, now@, s@);
    }
    s
}

/// A selection clipped to the canvas touches no more tiles.
proof fn lemma_clipped_tiles(
    canvas: crate::coord::Rect,
    s: SelectionView,
    c: SelectionView,
    offset: IVec2,
    t: TileCoord,
)
    requires
        is_clipped(canvas, s, c),
        selected_tile(c, offset, t),
    ensures
        selected_tile(s, offset, t),
{
}

/// Cut the selected pixels from one layer to a new raster layer.
///
/// The command snapshots the source tiles that the cut changes. Undo takes the new
/// layer out of the tree but keeps it, so that later commands that name it stay
/// valid across undo and redo. The layer is dropped only when the command is
/// evicted from history.
pub struct CutToNewLayerCmd<K> {
    /// The pixel arithmetic.
    pub kern: K,
    /// The layer to cut from.
    pub source: LayerId,
    /// The selection to cut.
    pub selection: Selection,
    /// The source tiles that were, once the command was applied.
    pub snapshots: Vec<(TileCoord, Option<Arc<Tile>>)>,
    /// The layer that was added, once the command was applied.
    pub new_id: Option<LayerId>,
    /// The active layer that was, once the command was applied.
    pub prior_active: Option<LayerId>,
    /// The parent of the added layer.
    pub parent: Option<LayerId>,
    /// The position of the added layer.
    pub index: usize,
    /// The layers that undo took out.
    pub removed_ids: Vec<LayerId>,
}

impl<K: Kernel> CutToNewLayerCmd<K> {
    /// Create a cut-to-new-layer command.
    pub fn new(kern: K, source: LayerId, selection: Selection) -> (r: Self)
        ensures
            r.kern == kern,
            r.source == source,
            r.selection == selection,
            r.snapshots@.len() == 0,
            r.new_id is None,
            r.prior_active is None,
            r.parent is None,
            r.removed_ids@.len() == 0,
    {
        CutToNewLayerCmd {
            kern,
            source,
            selection,
            snapshots: Vec::new(),
            new_id: None,
            prior_active: None,
            parent: None,
            index: 0,
            removed_ids: Vec::new(),
        }
    }
}

/// `after` is `then` with the layer `id` added and other pixels in `source`, which
/// the snapshot can put back.
pub open spec fn moved_out(
    id: LayerId,
    source: LayerId,
    s: Seq<(TileCoord, Option<Arc<Tile>>)>,
    prior: Option<LayerId>,
    then: DocView,
    after: DocView,
) -> bool {
    &&& after.is_raster(source)
    &&& source != id
    &&& added(id, prior, then, unpainted(after, source, s))
}

/// Why cutting again fails once the cut was undone.
pub open spec fn recut_error(v: DocView, source: LayerId, s: SelectionView) -> Option<OgreError> {
    if off_canvas(v.canvas, s) {
        None
    } else if !v.has(source) {
        Some(OgreError::LayerNotFound(source))
    } else if !v.is_raster(source) {
        Some(OgreError::NotRaster)
    } else {
        None
    }
}

/// Cutting again after an undo: the new layer goes back into the tree, is made
/// active, and the selection is erased from the source.
pub open spec fn is_recut<K: Kernel>(
    cmd: CutToNewLayerCmd<K>,
    id: LayerId,
    v: DocView,
    fin: DocView,
) -> bool {
    let w = restored(v, cmd.parent, cmd.index as int, id, cmd.removed_ids@);
    if off_canvas(v.canvas, cmd.selection@) {
        fin == DocView { active: Some(id), ..w }
    } else {
        exists|c: SelectionView, b: Map<(i32, i32), Seq<Rgba32F>>| #[trigger]
            is_clipped(v.canvas, cmd.selection@, c) && #[trigger] is_cut(
                &cmd.kern,
                w.layers[cmd.source],
                c,
                b,
            ) && fin == DocView {
                active: Some(id),
                ..w.with_layer(cmd.source, with_buffer(w.layers[cmd.source], b))
            }
    }
}

impl<K: Kernel + Send> Command for CutToNewLayerCmd<K> {
    open spec fn wf(&self) -> bool {
        &&& self.kern.wf()
        &&& self.selection.wf()
        &&& snapshot_wf(self.snapshots@)
        &&& self.new_id != Some(self.source)
    }

    open spec fn name(&self) -> Seq<char> {
        "Cut to new layer"@
    }

    open spec fn adds(&self) -> nat {
        1
    }

    open spec fn refs(&self) -> Set<LayerId> {
        with_maybe_set(self.source, self.new_id)
    }

    open spec fn reverts(&self, then: DocView, after: DocView) -> bool {
        self.new_id matches Some(id) && moved_out(
            id,
            self.source,
            self.snapshots@,
            self.prior_active,
            then,
            after,
        )
    }

    open spec fn fits(&self, v: DocView) -> bool {
        self.new_id matches Some(id) ==> {
            &&& v.removed.contains(id)
            &&& can_return(v, id, self.parent)
            &&& self.removed_ids@ == seq![id]
            &&& self.source != id
            &&& v.is_raster(self.source)
        }
    }

    open spec fn spares(&self, v: DocView, keep: Set<LayerId>) -> bool {
        are_scraps(v, self.removed_ids@.to_set(), keep)
    }

    open spec fn cleans(&self, v: DocView, w: DocView) -> bool {
        all_scrapped(v, self.removed_ids@, w)
    }

    open spec fn undoes(&self, now: DocView, fin: DocView) -> bool {
        match self.new_id {
            Some(id) => softly_removed(
                unpainted(now, self.source, self.snapshots@),
                id,
                self.prior_active,
                fin,
            ),
            None => fin == (DocView {
                active: self.prior_active,
                ..unpainted(now, self.source, self.snapshots@)
            }),
        }
    }

    open spec fn fickle(&self) -> bool {
        false
    }

    open spec fn does(&self, then: DocView, r: Result<(), OgreError>, after: DocView) -> bool {
        &&& r is Err ==> after == then
        &&& match self.new_id {
            Some(id) => match recut_error(then, self.source, self.selection@) {
                Some(e) => r == Err::<(), OgreError>(e),
                None => r is Ok && is_recut(*self, id, then, after),
            },
            None => match edit_error(then, self.source) {
                Some(e) => r == Err::<(), OgreError>(e),
                None => if off_canvas(then.canvas, self.selection@) {
                    r == Err::<(), OgreError>(OgreError::EmptySelection)
                } else if !then.placed(self.source) {
                    r == Err::<(), OgreError>(OgreError::LayerNotFound(self.source))
                } else {
                    &&& r is Ok
                    &&& exists|
                        id: LayerId,
                        w: DocView,
                        c: SelectionView,
                        b: Map<(i32, i32), Seq<Rgba32F>>,
                    | #[trigger]
                        cut_above(
                            &self.kern,
                            then,
                            self.source,
                            self.selection@,
                            id,
                            w,
                            c,
                            b,
                            after,
                        )
                },
            },
        }
    }

    fn label(&self) -> (r: &'static str) {
        "Cut to new layer"
    }

    fn apply(&mut self, doc: &mut Document) -> (r: Result<(), OgreError>)
        ensures
            r is Ok ==> final(self).prior_active == old(doc)@.active,
            r is Ok && old(self).new_id is None ==> final(self).new_id is Some
                && final(self).new_id == final(doc)@.active,
    {
        let r: Result<(), OgreError> = match self.new_id {
            Some(id) => self.cut_again(doc, id),
            None => self.cut_first(doc),
        };
        proof {
            if r is Ok && tidy(old(doc)@) && old(self).fits(old(doc)@) {
                let mid = unpainted(doc@, self.source, self.snapshots@);
                adding_keeps_layers(self.new_id->0, self.prior_active, old(doc)@, mid);
                assert forall|x: LayerId| #[trigger] old(doc)@.has(x) implies doc@.has(x) by {
                    assert(mid.has(x));
                }
                assert(mid.has(self.new_id->0));
            }
        }
        r
    }

    fn undo(&mut self, doc: &mut Document) {
        unpaint_layer(doc, self.source, &self.snapshots);
        let ghost mid = doc@;
        proof {
            doc.lemma_ids();
        }
        match self.new_id {
            Some(id) => {
                if self.parent.is_none() {
                    if let Some((parent, index)) = doc.sibling_index(id) {
                        self.parent = parent;
                        self.index = index;
                    }
                }
                self.removed_ids = take_out(doc, id, self.prior_active);
            },
            None => {
                doc.set_active(self.prior_active);
            },
        }
        proof {
            assert forall|then: DocView, after: DocView, keep: Set<LayerId>|
                #![trigger old(self).reverts(then, after), same_picture(then, doc@, keep)]
                old(self).reverts(then, after) && keep.subset_of(then.layers.dom()) && same_picture(
                    after,
                    old(doc)@,
                    keep.union(old(self).refs()),
                ) implies same_picture(then, doc@, keep) by {
                let id = old(self).new_id->0;
                let src = self.source;
                let was = unpainted(after, src, self.snapshots@);
                assert(keep.union(old(self).refs()) =~= keep.insert(id).insert(src));
                assert(after.layers =~= was.layers.insert(src, after.layers[src]));
                one_layer_put_back(was, after, old(doc)@, src, keep.insert(id));
                assert(mid == (DocView {
                    layers: old(doc)@.layers.insert(src, was.layers[src]),
                    active: was.active,
                    ..old(doc)@
                }));
                adding_taken_back(then, was, mid, doc@, id, self.prior_active, keep);
            }
        }
    }

    fn cleanup(&self, doc: &mut Document) {
        drop_scraps(doc, &self.removed_ids);
    }

    fn referenced_layers(&self) -> (r: Vec<LayerId>)
        ensures
            r@ == with_maybe_seq(self.source, self.new_id),
    {
        with_maybe(self.source, self.new_id)
    }
}

/// A copy of the pixels of a layer that has some, and where it is placed.
fn pixels_of(doc: &Document, id: LayerId) -> (r: (TiledBuffer, IVec2))
    requires
        doc.wf(),
    ensures
        r.0.wf(),
        doc@.is_raster(id) ==> r.0@ == buffer_of(doc@.layers[id]) && r.1 == doc@.layers[id].offset,
{
    if let Ok(layer) = doc.layer(id) {
        if let Some(buffer) = layer.buffer() {
            return (buffer.clone(), layer.offset);
        }
    }
    (TiledBuffer::new(), IVec2 { x: 0, y: 0 })
}

impl<K: Kernel> CutToNewLayerCmd<K> {
    fn cut_first(&mut self, doc: &mut Document) -> (r: Result<(), OgreError>)
        requires
            old(self).kern.wf(),
            old(self).selection.wf(),
            snapshot_wf(old(self).snapshots@),
            old(doc).wf(),
            old(doc).room(1),
        ensures
            final(self).kern == old(self).kern,
            final(self).selection == old(self).selection,
            final(self).source == old(self).source,
            snapshot_wf(final(self).snapshots@),
            final(doc).wf(),
            final(doc).used() <= old(doc).used() + 1,
            r is Err ==> final(doc)@ == old(doc)@ && *final(self) == *old(self),
            r is Ok ==> final(self).prior_active == old(doc)@.active,
            match edit_error(old(doc)@, old(self).source) {
                Some(e) => r == Err::<(), OgreError>(e),
                None => if off_canvas(old(doc)@.canvas, old(self).selection@) {
                    r == Err::<(), OgreError>(OgreError::EmptySelection)
                } else if !old(doc)@.placed(old(self).source) {
                    r == Err::<(), OgreError>(OgreError::LayerNotFound(old(self).source))
                } else {
                    &&& r is Ok
                    &&& final(self).new_id is Some
                    &&& exists|
                        w: DocView,
                        c: SelectionView,
                        b: Map<(i32, i32), Seq<Rgba32F>>,
                    | #[trigger]
                        cut_above(
                            &old(self).kern,
                            old(doc)@,
                            old(self).source,
                            old(self).selection@,
                            final(self).new_id->0,
                            w,
                            c,
                            b,
                            final(doc)@,
                        )
                },
            },
            r is Ok && tidy(old(doc)@) ==> tidy(final(doc)@) && moved_out(
                final(self).new_id->0,
                final(self).source,
                final(self).snapshots@,
                final(self).prior_active,
                old(doc)@,
                final(doc)@,
            ),
    {
        if let Err(e) = check_editable(doc, self.source) {
            return Err(e);
        }
        let prior: Option<LayerId> = doc.active_layer();
        if doc.sibling_index(self.source).is_none() {
            return Err(refusal(doc, self.source, &self.selection));
        }
        let (was, offset): (TiledBuffer, IVec2) = pixels_of(doc, self.source);
        let id: LayerId = match cut_selection_to_new_layer(
            &self.kern,
            doc,
            self.source,
            &self.selection,
        ) {
            Ok(id) => id,
            Err(e) => {
                return Err(e);
            },
        };
        let ghost v = old(doc)@;
        let ghost src = self.source;
        let ghost (w, c, b) = choose|
            w: DocView,
            c: SelectionView,
            b: Map<(i32, i32), Seq<Rgba32F>>,
        | #[trigger]
            cut_above(&self.kern, v, src, self.selection@, id, w, c, b, doc@);
        let (now, place): (TiledBuffer, IVec2) = pixels_of(doc, self.source);
        proof {
            assert forall|t: TileCoord|
                !selected_tile(self.selection@, offset, t) implies #[trigger] same_tile(
                was@,
                now@,
                key(t),
            ) || same_tile(pruned(was@), now@, key(t)) by {
                if selected_tile(c, offset, t) {
                    lemma_clipped_tiles(v.canvas, self.selection@, c, offset, t);
                }
                assert(same_tile(pruned(was@), b, key(t)));
            }
        }
        self.snapshots = snapshot_cut(&was, &now, &self.selection, offset);
        if let Some((parent, index)) = doc.sibling_index(id) {
            self.parent = parent;
            self.index = index;
        }
        self.new_id = Some(id);
        self.prior_active = prior;
        proof {
            doc.lemma_ids();
            assert(cut_above(
                &old(self).kern,
                v,
                src,
                old(self).selection@,
                self.new_id->0,
                w,
                c,
                b,
                doc@,
            ));
            if tidy(v) {
                let e = choose|e: Map<(i32, i32), Seq<Rgba32F>>| #[trigger]
                    copied_above(&old(self).kern, v, src, old(self).selection@, id, e, w);
                assert(w.layers.dom() =~= doc@.layers.dom()) by {
                    lemma_source_kept(v, w, copy_layer(v.layers[src], e), id, src);
                }
                lemma_copied(v, w, copy_layer(v.layers[src], e), id, src);
                let back = unpainted(doc@, src, self.snapshots@);
                assert(back.layers =~= w.layers);
                one_layer_keeps_tidy(w, doc@, src);
            }
        }
        Ok(())
    }

    fn cut_again(&mut self, doc: &mut Document, id: LayerId) -> (r: Result<(), OgreError>)
        requires
            old(self).kern.wf(),
            old(self).selection.wf(),
            snapshot_wf(old(self).snapshots@),
            old(doc).wf(),
            old(self).new_id == Some(id),
        ensures
            final(self).kern == old(self).kern,
            final(self).selection == old(self).selection,
            final(self).source == old(self).source,
            final(self).new_id == old(self).new_id,
            snapshot_wf(final(self).snapshots@),
            final(doc).wf(),
            final(doc).used() <= old(doc).used() + 1,
            r is Err ==> final(doc)@ == old(doc)@ && *final(self) == *old(self),
            r is Ok ==> final(self).prior_active == old(doc)@.active,
            match recut_error(old(doc)@, old(self).source, old(self).selection@) {
                Some(e) => r == Err::<(), OgreError>(e),
                None => r is Ok && is_recut(*old(self), id, old(doc)@, final(doc)@),
            },
            r is Ok && tidy(old(doc)@) && old(doc)@.removed.contains(id) && can_return(
                old(doc)@,
                id,
                old(self).parent,
            ) && old(self).removed_ids@ == seq![id] && old(self).source != id && old(
                doc,
            )@.is_raster(old(self).source) ==> tidy(final(doc)@) && moved_out(
                id,
                final(self).source,
                final(self).snapshots@,
                final(self).prior_active,
                old(doc)@,
                final(doc)@,
            ),
    {
        let ghost v = old(doc)@;
        let ghost src = self.source;
        let prior: Option<LayerId> = doc.active_layer();
        let canvas_sel: Selection = Selection::rect(doc.canvas_rect()).intersect(&self.selection);
        let off: bool = canvas_sel.is_empty();
        if !off {
            match doc.layer(self.source) {
                Ok(layer) => {
                    if !layer.is_raster() {
                        return Err(OgreError::NotRaster);
                    }
                },
                Err(e) => {
                    return Err(e);
                },
            }
        }
        let (was, offset): (TiledBuffer, IVec2) = pixels_of(doc, self.source);
        doc.restore_layer_soft(self.parent, self.index, id, &self.removed_ids);
        let ghost w = doc@;
        proof {
            lemma_restored_layers(v, self.parent, self.index as int, id, self.removed_ids@);
        }
        if !off {
            let done: Result<(), OgreError> = erase_selection(
                &self.kern,
                doc,
                self.source,
                &self.selection,
            );
        }
        let ghost x = doc@;
        doc.set_active(Some(id));
        let (now, place): (TiledBuffer, IVec2) = pixels_of(doc, self.source);
        if off {
            self.snapshots = Vec::new();
            assert(put_back(now@, self.snapshots@) == now@);
        } else {
            proof {
                let (c, b) = choose|c: SelectionView, b: Map<(i32, i32), Seq<Rgba32F>>| #[trigger]
                    is_clipped(w.canvas, self.selection@, c) && #[trigger] is_cut(
                        &self.kern,
                        w.layers[src],
                        c,
                        b,
                    ) && x == w.with_layer(
                        src,
                        crate::ops::extract::with_pixels(w.layers[src], b),
                    );
                assert forall|t: TileCoord|
                    !selected_tile(self.selection@, offset, t) implies #[trigger] same_tile(
                    was@,
                    now@,
                    key(t),
                ) || same_tile(pruned(was@), now@, key(t)) by {
                    if selected_tile(c, offset, t) {
                        lemma_clipped_tiles(v.canvas, self.selection@, c, offset, t);
                    }
                    assert(same_tile(pruned(was@), b, key(t)));
                }
                assert(is_recut(*self, id, v, doc@));
            }
            self.snapshots = snapshot_cut(&was, &now, &self.selection, offset);
        }
        self.prior_active = prior;
        proof {
            doc.lemma_ids();
            if tidy(v) && v.removed.contains(id) && can_return(v, id, self.parent)
                && self.removed_ids@ == seq![id] && src != id && v.is_raster(src) {
                let back = unpainted(doc@, src, self.snapshots@);
                let y = DocView { active: Some(id), ..w };
                assert(back.layers =~= y.layers);
                assert(back == y);
                assert(y.layers.dom() =~= doc@.layers.dom());
                lemma_returned(v, y, id, self.parent, self.index as int);
                one_layer_keeps_tidy(y, doc@, src);
            }
        }
        Ok(())
    }
}

/// Putting a copy above its source leaves the source as it is.
proof fn lemma_source_kept(v: DocView, w: DocView, l: LayerView, id: LayerId, source: LayerId)
    requires
        !v.has(id),
        exists|parent: Option<LayerId>, i: int| #[trigger]
            v.sits_at(source, parent, i) && w == (DocView {
                active: w.active,
                ..put_above(v, l, id, parent, i)
            }),
    ensures
        w.has(source),
{
}

/// Restoring a layer changes at most its parent's list of children.
proof fn lemma_restored_layers(
    v: DocView,
    parent: Option<LayerId>,
    index: int,
    id: LayerId,
    ids: Seq<LayerId>,
)
    ensures
        ({
            let w = restored(v, parent, index, id, ids);
            &&& w.canvas == v.canvas
            &&& forall|x: LayerId| #[trigger] w.has(x) <==> v.has(x)
            &&& forall|x: LayerId| #[trigger]
                v.has(x) && v.layers[x].content !is Group ==> w.layers[x] == v.layers[x]
        }),
{
}

/// A taken-out layer without children that went back into a tidy tree is an added
/// layer.
proof fn lemma_returned(
    v: DocView,
    after: DocView,
    id: LayerId,
    parent: Option<LayerId>,
    index: int,
)
    requires
        tidy(v),
        after.layers.dom().finite(),
        0 <= index,
        v.removed.contains(id),
        can_return(v, id, parent),
        after == (DocView { active: Some(id), ..restored(v, parent, index, id, seq![id]) }),
    ensures
        added(id, v.active, v, after),
        tidy(after),
{
    let i = if index <= v.list(parent).len() { index } else { v.list(parent).len() as int };
    assert(v.removed.difference(seq![id].to_set()) =~= v.removed.remove(id)) by {
        assert(seq![id][0] == id);
    }
    assert(v.layers.insert(id, v.layers[id]) =~= v.layers);
    if let Some(p) = parent {
        assert(p != id);
    }
    leaf_is_newly_placed(v, after, id, parent, i);
}

} // verus!
