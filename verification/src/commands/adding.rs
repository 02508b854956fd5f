//! Commands that add one layer to the tree.
//!
//! Each takes its layer out of the tree on undo and puts the same layer back on
//! redo, so that other commands that name the layer stay valid.
use vstd::prelude::*;

use crate::commands::props::{maybe, maybe_seq, maybe_set};
use crate::commands::scraps::{
    added, adding_keeps_layers, adding_taken_back, all_scrapped, are_scraps, can_return,
    drop_scraps, put_back_leaf, softly_removed, take_out,
};
use crate::commands::tiles::{write_all, written};
use crate::coord::{IVec2, Rect};
use crate::document::{
    lemma_unlisted_dom, put_above, restored, subtree, unlisted, with_new_top, DocView, Document,
};
use crate::error::OgreError;
use crate::history::Command;
use crate::layer::{fresh_layer, AdjustmentKind, ContentView, LayerId, LayerView, VectorData};
use crate::ops::layer_ops::{copy_name, duplicate_layer};
use crate::picture::{owned, pictures_agree_with_themselves, same_picture, shown, tidy};
use crate::placing::leaf_is_newly_placed;
use crate::pixel::Rgba32F;

verus! {

/// Layer `id` does not exist yet.
pub open spec fn is_new(v: DocView, id: LayerId) -> bool {
    !v.has(id)
}

/// Redoing a command that added layer `id`: the layer is put back where it was and
/// made active.
pub open spec fn returned(
    v: DocView,
    id: LayerId,
    parent: Option<LayerId>,
    index: Option<usize>,
) -> DocView {
    DocView {
        active: Some(id),
        ..restored(
            v,
            parent,
            match index {
                Some(i) => i as int,
                None => v.order.len() as int,
            },
            id,
            seq![id],
        )
    }
}

/// What undoing a command that added a layer makes of a document.
pub open spec fn unadded(
    v: DocView,
    new_id: Option<LayerId>,
    prior: Option<LayerId>,
    fin: DocView,
) -> bool {
    match new_id {
        Some(id) => softly_removed(v, id, prior, fin),
        None => fin == DocView { active: prior, ..v },
    }
}

/// Drop the layer that a command added, if it is taken out.
fn drop_added(doc: &mut Document, new_id: Option<LayerId>)
    requires
        old(doc).wf(),
    ensures
        final(doc).wf(),
        final(doc).used() <= old(doc).used(),
        all_scrapped(old(doc)@, maybe_seq(new_id), final(doc)@),
        owned(old(doc)@) ==> owned(final(doc)@),
        forall|keep: Set<LayerId>|
            #![trigger same_picture(old(doc)@, final(doc)@, keep)]
            are_scraps(old(doc)@, maybe_set(new_id), keep) ==> same_picture(
                old(doc)@,
                final(doc)@,
                keep,
            ),
{
    let mut ids: Vec<LayerId> = Vec::new();
    if let Some(id) = new_id {
        ids.push(id);
    }
    assert(ids@ =~= maybe_seq(new_id));
    assert(ids@.to_set() =~= maybe_set(new_id)) by {
        if let Some(id) = new_id {
            assert(ids@[0] == id);
        }
    }
    drop_scraps(doc, &ids);
}

/// A layer without children that was put on top of a tidy tree.
proof fn lemma_on_top(then: DocView, after: DocView, id: LayerId)
    requires
        tidy(then),
        after.layers.dom().finite(),
        !then.has(id),
        after.kids(id) == Seq::<LayerId>::empty(),
        after == (DocView {
            layers: then.layers.insert(id, after.layers[id]),
            order: then.order.push(id),
            active: after.active,
            ..then
        }),
    ensures
        added(id, then.active, then, after),
        tidy(after),
{
    let n = then.order.len() as int;
    assert(then.removed.remove(id) =~= then.removed);
    assert(then.order.insert(n, id) =~= then.order.push(id));
    leaf_is_newly_placed(then, after, id, None, n);
}

/// A layer without children that was put directly above another of a tidy tree.
proof fn lemma_above(
    then: DocView,
    after: DocView,
    l: LayerView,
    id: LayerId,
    parent: Option<LayerId>,
    i: int,
    anchor: LayerId,
)
    requires
        tidy(then),
        after.layers.dom().finite(),
        !then.has(id),
        l.content !is Group,
        then.sits_at(anchor, parent, i),
        after == (DocView { active: after.active, ..put_above(then, l, id, parent, i) }),
    ensures
        added(id, then.active, then, after),
        tidy(after),
{
    assert(then.removed.remove(id) =~= then.removed);
    if let Some(p) = parent {
        assert(then.is_parent(p, anchor));
    }
    leaf_is_newly_placed(then, after, id, parent, i + 1);
}

/// Add a new empty raster layer on top of the stack.
pub struct AddRasterLayerCmd {
    /// The name of the layer.
    pub name: String,
    /// The layer that was added, once the command was applied.
    pub new_id: Option<LayerId>,
    /// The position it was added at.
    pub inserted_index: Option<usize>,
    /// The active layer that was, once the command was applied.
    pub prior_active: Option<LayerId>,
}

impl AddRasterLayerCmd {
    /// Create an add-raster-layer command.
    pub fn new(name: &str) -> (r: Self)
        ensures
            r.name@ == name@,
            r.new_id is None,
            r.inserted_index is None,
            r.prior_active is None,
    {
        AddRasterLayerCmd {
            name: String::from_str(name),
            new_id: None,
            inserted_index: None,
            prior_active: None,
        }
    }
}

impl Command for AddRasterLayerCmd {
    open spec fn wf(&self) -> bool {
        true
    }

    open spec fn name(&self) -> Seq<char> {
        "Add layer"@
    }

    open spec fn adds(&self) -> nat {
        1
    }

    open spec fn refs(&self) -> Set<LayerId> {
        maybe_set(self.new_id)
    }

    open spec fn reverts(&self, then: DocView, after: DocView) -> bool {
        self.new_id matches Some(id) && added(id, self.prior_active, then, after)
    }

    open spec fn fits(&self, v: DocView) -> bool {
        self.new_id matches Some(id) && v.removed.contains(id) ==> can_return(
            v,
            self.new_id->0,
            None,
        )
    }

    open spec fn spares(&self, v: DocView, keep: Set<LayerId>) -> bool {
        are_scraps(v, maybe_set(self.new_id), keep)
    }

    open spec fn cleans(&self, v: DocView, w: DocView) -> bool {
        all_scrapped(v, maybe_seq(self.new_id), w)
    }

    open spec fn undoes(&self, now: DocView, fin: DocView) -> bool {
        unadded(now, self.new_id, self.prior_active, fin)
    }

    open spec fn fickle(&self) -> bool {
        false
    }

    open spec fn does(&self, then: DocView, r: Result<(), OgreError>, after: DocView) -> bool {
        &&& r is Ok
        &&& if self.new_id is Some && then.removed.contains(self.new_id->0) {
            after == returned(then, self.new_id->0, None, self.inserted_index)
        } else {
            exists|id: LayerId| #[trigger]
                is_new(then, id) && after == with_new_top(
                    then,
                    id,
                    fresh_layer(
                        self.name@,
                        ContentView::Raster { buffer: Map::empty(), mask: None },
                    ),
                )
        }
    }

    fn label(&self) -> (r: &'static str) {
        "Add layer"
    }

    fn apply(&mut self, doc: &mut Document) -> (r: Result<(), OgreError>)
        ensures
            final(self).prior_active == old(doc)@.active,
            if old(self).new_id is Some && old(doc)@.removed.contains(old(self).new_id->0) {
                final(self).new_id == old(self).new_id
            } else {
                &&& final(self).new_id matches Some(id) && !old(doc)@.has(id) && final(doc)@.active
                    == Some(id)
                &&& final(self).inserted_index == Some(old(doc)@.order.len() as usize)
            },
    {
        let prior: Option<LayerId> = doc.active_layer();
        if let Some(id) = self.new_id {
            if doc.is_removed(id) {
                let index: usize = match self.inserted_index {
                    Some(i) => i,
                    None => doc.root_order().len(),
                };
                put_back_leaf(doc, None, index, id);
                self.prior_active = prior;
                proof {
                    if tidy(old(doc)@) && old(self).fits(old(doc)@) {
                        adding_keeps_layers(id, prior, old(doc)@, doc@);
                    }
                }
                return Ok(());
            }
        }
        let index: usize = doc.root_order().len();
        let id: LayerId = doc.add_raster_layer(self.name.as_str());
        self.new_id = Some(id);
        self.inserted_index = Some(index);
        self.prior_active = prior;
        assert(is_new(old(doc)@, id));
        proof {
            doc.lemma_ids();
            if tidy(old(doc)@) {
                lemma_on_top(old(doc)@, doc@, id);
                adding_keeps_layers(id, prior, old(doc)@, doc@);
            }
        }
        Ok(())
    }

    fn undo(&mut self, doc: &mut Document)
        ensures
            *final(self) == *old(self),
    {
        proof {
            doc.lemma_ids();
        }
        match self.new_id {
            Some(id) => {
                let ids: Vec<LayerId> = take_out(doc, id, self.prior_active);
            },
            None => {
                doc.set_active(self.prior_active);
            },
        }
        proof {
            assert forall|then: DocView, after: DocView, keep: Set<LayerId>|
                #![trigger old(self).reverts(then, after), same_picture(then, doc@, keep)]
                old(self).reverts(then, after) && keep.subset_of(then.layers.dom()) && same_picture(
                    after,
                    old(doc)@,
                    keep.union(old(self).refs()),
                ) implies same_picture(then, doc@, keep) by {
                let id = self.new_id->0;
                assert(keep.union(old(self).refs()) =~= keep.insert(id));
                adding_taken_back(then, after, old(doc)@, doc@, id, self.prior_active, keep);
            }
        }
    }

    fn cleanup(&self, doc: &mut Document) {
        drop_added(doc, self.new_id);
    }

    fn referenced_layers(&self) -> (r: Vec<LayerId>)
        ensures
            r@ == maybe_seq(self.new_id),
    {
        maybe(self.new_id)
    }
}

/// The layer that [`AddVectorLayerCmd`] adds.
pub open spec fn vector_layer(cmd: AddVectorLayerCmd) -> LayerView {
    LayerView {
        offset: match cmd.offset {
            Some(o) => o,
            None => IVec2 { x: 0, y: 0 },
        },
        ..fresh_layer(cmd.name@, ContentView::Vector(cmd.data@))
    }
}

/// Add a non-destructive vector layer.
pub struct AddVectorLayerCmd {
    /// The name of the layer.
    pub name: String,
    /// The vector paths.
    pub data: VectorData,
    /// Where the layer is placed.
    pub offset: Option<IVec2>,
    /// The layer that was added, once the command was applied.
    pub new_id: Option<LayerId>,
    /// The position it was added at.
    pub inserted_index: Option<usize>,
    /// The active layer that was, once the command was applied.
    pub prior_active: Option<LayerId>,
}

impl AddVectorLayerCmd {
    /// Create an add-vector-layer command.
    pub fn new(name: &str, data: VectorData) -> (r: Self)
        ensures
            r.name@ == name@,
            r.data == data,
            r.offset is None,
            r.new_id is None,
            r.inserted_index is None,
            r.prior_active is None,
    {
        AddVectorLayerCmd {
            name: String::from_str(name),
            data,
            offset: None,
            new_id: None,
            inserted_index: None,
            prior_active: None,
        }
    }

    /// Set the offset for the new vector layer.
    pub fn with_offset(self, offset: IVec2) -> (r: Self)
        ensures
            r == (AddVectorLayerCmd { offset: Some(offset), ..self }),
    {
        AddVectorLayerCmd {
            name: self.name,
            data: self.data,
            offset: Some(offset),
            new_id: self.new_id,
            inserted_index: self.inserted_index,
            prior_active: self.prior_active,
        }
    }
}

impl Command for AddVectorLayerCmd {
    open spec fn wf(&self) -> bool {
        self.data.wf()
    }

    open spec fn name(&self) -> Seq<char> {
        "Add vector layer"@
    }

    open spec fn adds(&self) -> nat {
        1
    }

    open spec fn refs(&self) -> Set<LayerId> {
        maybe_set(self.new_id)
    }

    open spec fn reverts(&self, then: DocView, after: DocView) -> bool {
        self.new_id matches Some(id) && added(id, self.prior_active, then, after)
    }

    open spec fn fits(&self, v: DocView) -> bool {
        self.new_id matches Some(id) && v.removed.contains(id) ==> can_return(
            v,
            self.new_id->0,
            None,
        )
    }

    open spec fn spares(&self, v: DocView, keep: Set<LayerId>) -> bool {
        are_scraps(v, maybe_set(self.new_id), keep)
    }

    open spec fn cleans(&self, v: DocView, w: DocView) -> bool {
        all_scrapped(v, maybe_seq(self.new_id), w)
    }

    open spec fn undoes(&self, now: DocView, fin: DocView) -> bool {
        unadded(now, self.new_id, self.prior_active, fin)
    }

    open spec fn fickle(&self) -> bool {
        false
    }

    open spec fn does(&self, then: DocView, r: Result<(), OgreError>, after: DocView) -> bool {
        &&& r is Ok
        &&& if self.new_id is Some && then.removed.contains(self.new_id->0) {
            after == returned(then, self.new_id->0, None, self.inserted_index)
        } else {
            exists|id: LayerId| #[trigger]
                is_new(then, id) && after == with_new_top(
                    then,
                    id,
                    vector_layer(*self),
                )
        }
    }

    fn label(&self) -> (r: &'static str) {
        "Add vector layer"
    }

    fn apply(&mut self, doc: &mut Document) -> (r: Result<(), OgreError>)
        ensures
            final(self).prior_active == old(doc)@.active,
            if old(self).new_id is Some && old(doc)@.removed.contains(old(self).new_id->0) {
                final(self).new_id == old(self).new_id
            } else {
                &&& final(self).new_id matches Some(id) && !old(doc)@.has(id) && final(doc)@.active
                    == Some(id)
                &&& final(self).inserted_index == Some(old(doc)@.order.len() as usize)
            },
    {
        let prior: Option<LayerId> = doc.active_layer();
        if let Some(id) = self.new_id {
            if doc.is_removed(id) {
                let index: usize = match self.inserted_index {
                    Some(i) => i,
                    None => doc.root_order().len(),
                };
                put_back_leaf(doc, None, index, id);
                self.prior_active = prior;
                proof {
                    if tidy(old(doc)@) && old(self).fits(old(doc)@) {
                        adding_keeps_layers(id, prior, old(doc)@, doc@);
                    }
                }
                return Ok(());
            }
        }
        let index: usize = doc.root_order().len();
        let id: LayerId = doc.add_vector_layer(self.name.as_str(), self.data.clone());
        if let Some(offset) = self.offset {
            if let Ok(layer) = doc.layer_mut(id) {
                layer.offset = offset;
            }
        }
        assert(doc@.layers =~= old(doc)@.layers.insert(id, doc@.layers[id]));
        self.new_id = Some(id);
        self.inserted_index = Some(index);
        self.prior_active = prior;
        assert(is_new(old(doc)@, id));
        proof {
            doc.lemma_ids();
            if tidy(old(doc)@) {
                lemma_on_top(old(doc)@, doc@, id);
                adding_keeps_layers(id, prior, old(doc)@, doc@);
            }
        }
        Ok(())
    }

    fn undo(&mut self, doc: &mut Document)
        ensures
            *final(self) == *old(self),
    {
        proof {
            doc.lemma_ids();
        }
        match self.new_id {
            Some(id) => {
                let ids: Vec<LayerId> = take_out(doc, id, self.prior_active);
            },
            None => {
                doc.set_active(self.prior_active);
            },
        }
        proof {
            assert forall|then: DocView, after: DocView, keep: Set<LayerId>|
                #![trigger old(self).reverts(then, after), same_picture(then, doc@, keep)]
                old(self).reverts(then, after) && keep.subset_of(then.layers.dom()) && same_picture(
                    after,
                    old(doc)@,
                    keep.union(old(self).refs()),
                ) implies same_picture(then, doc@, keep) by {
                let id = self.new_id->0;
                assert(keep.union(old(self).refs()) =~= keep.insert(id));
                adding_taken_back(then, after, old(doc)@, doc@, id, self.prior_active, keep);
            }
        }
    }

    fn cleanup(&self, doc: &mut Document) {
        drop_added(doc, self.new_id);
    }

    fn referenced_layers(&self) -> (r: Vec<LayerId>)
        ensures
            r@ == maybe_seq(self.new_id),
    {
        maybe(self.new_id)
    }
}

/// Add a new adjustment layer on top of the root stack.
pub struct AddAdjustmentLayerCmd {
    /// The name of the layer.
    pub name: String,
    /// The adjustment.
    pub kind: AdjustmentKind,
    /// The layer that was added, once the command was applied.
    pub new_id: Option<LayerId>,
    /// The position it was added at.
    pub inserted_index: Option<usize>,
    /// The active layer that was, once the command was applied.
    pub prior_active: Option<LayerId>,
}

impl AddAdjustmentLayerCmd {
    /// Create an add-adjustment-layer command.
    pub fn new(name: &str, kind: AdjustmentKind) -> (r: Self)
        ensures
            r.name@ == name@,
            r.kind == kind,
            r.new_id is None,
            r.inserted_index is None,
            r.prior_active is None,
    {
        AddAdjustmentLayerCmd {
            name: String::from_str(name),
            kind,
            new_id: None,
            inserted_index: None,
            prior_active: None,
        }
    }
}

impl Command for AddAdjustmentLayerCmd {
    open spec fn wf(&self) -> bool {
        true
    }

    open spec fn name(&self) -> Seq<char> {
        "Add adjustment layer"@
    }

    open spec fn adds(&self) -> nat {
        1
    }

    open spec fn refs(&self) -> Set<LayerId> {
        maybe_set(self.new_id)
    }

    open spec fn reverts(&self, then: DocView, after: DocView) -> bool {
        self.new_id matches Some(id) && added(id, self.prior_active, then, after)
    }

    open spec fn fits(&self, v: DocView) -> bool {
        self.new_id matches Some(id) && v.removed.contains(id) ==> can_return(
            v,
            self.new_id->0,
            None,
        )
    }

    open spec fn spares(&self, v: DocView, keep: Set<LayerId>) -> bool {
        are_scraps(v, maybe_set(self.new_id), keep)
    }

    open spec fn cleans(&self, v: DocView, w: DocView) -> bool {
        all_scrapped(v, maybe_seq(self.new_id), w)
    }

    open spec fn undoes(&self, now: DocView, fin: DocView) -> bool {
        unadded(now, self.new_id, self.prior_active, fin)
    }

    open spec fn fickle(&self) -> bool {
        false
    }

    open spec fn does(&self, then: DocView, r: Result<(), OgreError>, after: DocView) -> bool {
        &&& r is Ok
        &&& if self.new_id is Some && then.removed.contains(self.new_id->0) {
            after == returned(then, self.new_id->0, None, self.inserted_index)
        } else {
            exists|id: LayerId| #[trigger]
                is_new(then, id) && after == with_new_top(
                    then,
                    id,
                    fresh_layer(self.name@, ContentView::Adjustment(self.kind)),
                )
        }
    }

    fn label(&self) -> (r: &'static str) {
        "Add adjustment layer"
    }

    fn apply(&mut self, doc: &mut Document) -> (r: Result<(), OgreError>)
        ensures
            final(self).prior_active == old(doc)@.active,
            if old(self).new_id is Some && old(doc)@.removed.contains(old(self).new_id->0) {
                final(self).new_id == old(self).new_id
            } else {
                &&& final(self).new_id matches Some(id) && !old(doc)@.has(id) && final(doc)@.active
                    == Some(id)
                &&& final(self).inserted_index == Some(old(doc)@.order.len() as usize)
            },
    {
        let prior: Option<LayerId> = doc.active_layer();
        if let Some(id) = self.new_id {
            if doc.is_removed(id) {
                let index: usize = match self.inserted_index {
                    Some(i) => i,
                    None => doc.root_order().len(),
                };
                put_back_leaf(doc, None, index, id);
                self.prior_active = prior;
                proof {
                    if tidy(old(doc)@) && old(self).fits(old(doc)@) {
                        adding_keeps_layers(id, prior, old(doc)@, doc@);
                    }
                }
                return Ok(());
            }
        }
        let index: usize = doc.root_order().len();
        let id: LayerId = doc.add_adjustment_layer(self.name.as_str(), self.kind);
        self.new_id = Some(id);
        self.inserted_index = Some(index);
        self.prior_active = prior;
        assert(is_new(old(doc)@, id));
        proof {
            doc.lemma_ids();
            if tidy(old(doc)@) {
                lemma_on_top(old(doc)@, doc@, id);
                adding_keeps_layers(id, prior, old(doc)@, doc@);
            }
        }
        Ok(())
    }

    fn undo(&mut self, doc: &mut Document)
        ensures
            *final(self) == *old(self),
    {
        proof {
            doc.lemma_ids();
        }
        match self.new_id {
            Some(id) => {
                let ids: Vec<LayerId> = take_out(doc, id, self.prior_active);
            },
            None => {
                doc.set_active(self.prior_active);
            },
        }
        proof {
            assert forall|then: DocView, after: DocView, keep: Set<LayerId>|
                #![trigger old(self).reverts(then, after), same_picture(then, doc@, keep)]
                old(self).reverts(then, after) && keep.subset_of(then.layers.dom()) && same_picture(
                    after,
                    old(doc)@,
                    keep.union(old(self).refs()),
                ) implies same_picture(then, doc@, keep) by {
                let id = self.new_id->0;
                assert(keep.union(old(self).refs()) =~= keep.insert(id));
                adding_taken_back(then, after, old(doc)@, doc@, id, self.prior_active, keep);
            }
        }
    }

    fn cleanup(&self, doc: &mut Document) {
        drop_added(doc, self.new_id);
    }

    fn referenced_layers(&self) -> (r: Vec<LayerId>)
        ensures
            r@ == maybe_seq(self.new_id),
    {
        maybe(self.new_id)
    }
}

/// The list holds the pixels of an image of `w` columns and `h` rows, row by row,
/// each with its place.
pub open spec fn lists_image(
    list: Seq<(IVec2, Rgba32F)>,
    pixels: Seq<Rgba32F>,
    w: int,
    h: int,
) -> bool {
    &&& list.len() == w * h
    &&& forall|y: int, x: int|
        #![trigger list[y * w + x]]
        0 <= y < h && 0 <= x < w ==> list[y * w + x] == (
            IVec2 { x: x as i32, y: y as i32 },
            pixels[y * w + x],
        )
}

/// List the pixels of an image with their places.
fn list_image(pixels: &Vec<Rgba32F>, w: u32, h: u32) -> (list: Vec<(IVec2, Rgba32F)>)
    requires
        pixels@.len() == w * h,
        w <= i32::MAX,
        h <= i32::MAX,
    ensures
        lists_image(list@, pixels@, w as int, h as int),
{
    let mut list: Vec<(IVec2, Rgba32F)> = Vec::new();
    let mut y: u32 = 0;
    assert(0 * w == 0);
    while y < h
        invariant
            y <= h,
            w <= i32::MAX,
            h <= i32::MAX,
            pixels@.len() == w * h,
            lists_image(list@, pixels@, w as int, y as int),
        decreases h - y,
    {
        let mut x: u32 = 0;
        while x < w
            invariant
                x <= w,
                y < h,
                w <= i32::MAX,
                h <= i32::MAX,
                pixels@.len() == w * h,
                list@.len() == y * w + x,
                forall|b: int, a: int|
                    #![trigger list@[b * w + a]]
                    (0 <= b < y && 0 <= a < w) || (b == y && 0 <= a < x) ==> list@[b * w + a] == (
                        IVec2 { x: a as i32, y: b as i32 },
                        pixels@[b * w + a],
                    ),
            decreases w - x,
        {
            let k: usize = list.len();
            proof {
                assert(y * w + x < w * h) by (nonlinear_arith)
                    requires
                        y < h,
                        x < w,
                ;
            }
            let ghost before = list@;
            list.push((IVec2 { x: x as i32, y: y as i32 }, pixels[k]));
            proof {
                assert forall|b: int, a: int|
                    #![trigger list@[b * w + a]]
                    (0 <= b < y && 0 <= a < w) || (b == y && 0 <= a < x + 1) implies list@[b * w
                    + a] == (IVec2 { x: a as i32, y: b as i32 }, pixels@[b * w + a]) by {
                    if b != y || a != x {
                        assert(0 <= b * w + a && b * w + a < y * w + x) by (nonlinear_arith)
                            requires
                                (0 <= b < y && 0 <= a < w) || (b == y && 0 <= a < x),
                                0 <= x,
                                0 <= y,
                                0 < w,
                        ;
                        assert(list@[b * w + a] == before[b * w + a]);
                    }
                }
            }
            x = x + 1;
        }
        assert(y * w + w == w * (y + 1)) by (nonlinear_arith);
        y = y + 1;
    }
    assert(h * w == w * h) by (nonlinear_arith);
    list
}

/// Add a raster layer containing pasted image pixels (top-left at the canvas
/// origin).
///
/// On first application the layer is created and filled with the pixels. Undo takes
/// the layer out; redo restores it without writing the pixels again.
pub struct PasteImageLayerCmd {
    /// The name of the layer.
    pub name: String,
    /// Columns of the image.
    pub width: u32,
    /// Rows of the image.
    pub height: u32,
    /// The pixels, row by row.
    pub pixels: Vec<Rgba32F>,
    /// The layer that was added, once the command was applied.
    pub new_id: Option<LayerId>,
    /// The position it was added at.
    pub inserted_index: Option<usize>,
    /// The active layer that was, once the command was applied.
    pub prior_active: Option<LayerId>,
}

impl PasteImageLayerCmd {
    /// Create a paste-image-layer command. `pixels` is row-major, one for each place of
    /// the image.
    pub fn new(name: &str, width: u32, height: u32, pixels: Vec<Rgba32F>) -> (r: Self)
        requires
            pixels@.len() == width * height,
            width <= i32::MAX,
            height <= i32::MAX,
        ensures
            r.name@ == name@,
            r.width == width,
            r.height == height,
            r.pixels == pixels,
            r.wf(),
            r.new_id is None,
            r.inserted_index is None,
            r.prior_active is None,
    {
        PasteImageLayerCmd {
            name: String::from_str(name),
            width,
            height,
            pixels,
            new_id: None,
            inserted_index: None,
            prior_active: None,
        }
    }
}

impl Command for PasteImageLayerCmd {
    open spec fn wf(&self) -> bool {
        self.pixels@.len() == self.width * self.height && self.width <= i32::MAX && self.height
            <= i32::MAX
    }

    open spec fn name(&self) -> Seq<char> {
        "Paste image"@
    }

    open spec fn adds(&self) -> nat {
        1
    }

    open spec fn refs(&self) -> Set<LayerId> {
        maybe_set(self.new_id)
    }

    open spec fn reverts(&self, then: DocView, after: DocView) -> bool {
        self.new_id matches Some(id) && added(id, self.prior_active, then, after)
    }

    open spec fn fits(&self, v: DocView) -> bool {
        self.new_id matches Some(id) && v.removed.contains(id) ==> can_return(
            v,
            self.new_id->0,
            None,
        )
    }

    open spec fn spares(&self, v: DocView, keep: Set<LayerId>) -> bool {
        are_scraps(v, maybe_set(self.new_id), keep)
    }

    open spec fn cleans(&self, v: DocView, w: DocView) -> bool {
        all_scrapped(v, maybe_seq(self.new_id), w)
    }

    open spec fn undoes(&self, now: DocView, fin: DocView) -> bool {
        unadded(now, self.new_id, self.prior_active, fin)
    }

    open spec fn fickle(&self) -> bool {
        false
    }

    open spec fn does(&self, then: DocView, r: Result<(), OgreError>, after: DocView) -> bool {
        &&& r is Ok
        &&& if self.new_id is Some && then.removed.contains(self.new_id->0) {
            after == returned(then, self.new_id->0, None, self.inserted_index)
        } else {
            exists|id: LayerId, list: Seq<(IVec2, Rgba32F)>| #[trigger]
                is_new(then, id) && #[trigger] lists_image(
                    list,
                    self.pixels@,
                    self.width as int,
                    self.height as int,
                ) && after == with_new_top(
                    then,
                    id,
                    LayerView {
                        offset: IVec2 { x: then.canvas.x, y: then.canvas.y },
                        ..fresh_layer(
                            self.name@,
                            ContentView::Raster { buffer: written(Map::empty(), list), mask: None },
                        )
                    },
                )
        }
    }

    fn label(&self) -> (r: &'static str) {
        "Paste image"
    }

    fn apply(&mut self, doc: &mut Document) -> (r: Result<(), OgreError>)
        ensures
            final(self).prior_active == old(doc)@.active,
            if old(self).new_id is Some && old(doc)@.removed.contains(old(self).new_id->0) {
                final(self).new_id == old(self).new_id
            } else {
                &&& final(self).new_id matches Some(id) && !old(doc)@.has(id) && final(doc)@.active
                    == Some(id)
                &&& final(self).inserted_index == Some(old(doc)@.order.len() as usize)
            },
    {
        let prior: Option<LayerId> = doc.active_layer();
        if let Some(id) = self.new_id {
            if doc.is_removed(id) {
                let index: usize = match self.inserted_index {
                    Some(i) => i,
                    None => doc.root_order().len(),
                };
                put_back_leaf(doc, None, index, id);
                self.prior_active = prior;
                proof {
                    if tidy(old(doc)@) && old(self).fits(old(doc)@) {
                        adding_keeps_layers(id, prior, old(doc)@, doc@);
                    }
                }
                return Ok(());
            }
        }
        let index: usize = doc.root_order().len();
        let id: LayerId = doc.add_raster_layer(self.name.as_str());
        let list: Vec<(IVec2, Rgba32F)> = list_image(&self.pixels, self.width, self.height);
        let canvas: Rect = doc.canvas_rect();
        if let Ok(layer) = doc.layer_mut(id) {
            layer.offset = IVec2::new(canvas.x, canvas.y);
            if let Some(buffer) = layer.buffer_mut() {
                write_all(buffer, &list);
            }
        }
        assert(doc@.layers =~= old(doc)@.layers.insert(id, doc@.layers[id]));
        self.new_id = Some(id);
        self.inserted_index = Some(index);
        self.prior_active = prior;
        assert(is_new(old(doc)@, id));
        proof {
            doc.lemma_ids();
            if tidy(old(doc)@) {
                lemma_on_top(old(doc)@, doc@, id);
                adding_keeps_layers(id, prior, old(doc)@, doc@);
            }
        }
        Ok(())
    }

    fn undo(&mut self, doc: &mut Document)
        ensures
            *final(self) == *old(self),
    {
        proof {
            doc.lemma_ids();
        }
        match self.new_id {
            Some(id) => {
                let ids: Vec<LayerId> = take_out(doc, id, self.prior_active);
            },
            None => {
                doc.set_active(self.prior_active);
            },
        }
        proof {
            assert forall|then: DocView, after: DocView, keep: Set<LayerId>|
                #![trigger old(self).reverts(then, after), same_picture(then, doc@, keep)]
                old(self).reverts(then, after) && keep.subset_of(then.layers.dom()) && same_picture(
                    after,
                    old(doc)@,
                    keep.union(old(self).refs()),
                ) implies same_picture(then, doc@, keep) by {
                let id = self.new_id->0;
                assert(keep.union(old(self).refs()) =~= keep.insert(id));
                adding_taken_back(then, after, old(doc)@, doc@, id, self.prior_active, keep);
            }
        }
    }

    fn cleanup(&self, doc: &mut Document) {
        drop_added(doc, self.new_id);
    }

    fn referenced_layers(&self) -> (r: Vec<LayerId>)
        ensures
            r@ == maybe_seq(self.new_id),
    {
        maybe(self.new_id)
    }
}

/// Duplicate a raster layer, inserting the copy directly above the original.
pub struct DuplicateLayerCmd {
    /// The layer to copy.
    pub source: LayerId,
    /// The layer that was added, once the command was applied.
    pub new_id: Option<LayerId>,
    /// The parent it was added to.
    pub inserted_parent: Option<LayerId>,
    /// The position it was added at.
    pub inserted_index: Option<usize>,
    /// The active layer that was, once the command was applied.
    pub prior_active: Option<LayerId>,
}

impl DuplicateLayerCmd {
    /// Create a duplicate-layer command.
    pub fn new(source: LayerId) -> (r: Self)
        ensures
            r.source == source,
            r.inserted_parent is None,
            r.new_id is None,
            r.inserted_index is None,
            r.prior_active is None,
    {
        DuplicateLayerCmd {
            source,
            new_id: None,
            inserted_parent: None,
            inserted_index: None,
            prior_active: None,
        }
    }
}

impl Command for DuplicateLayerCmd {
    open spec fn wf(&self) -> bool {
        true
    }

    open spec fn name(&self) -> Seq<char> {
        "Duplicate layer"@
    }

    open spec fn adds(&self) -> nat {
        1
    }

    open spec fn refs(&self) -> Set<LayerId> {
        maybe_set(self.new_id)
    }

    open spec fn reverts(&self, then: DocView, after: DocView) -> bool {
        self.new_id matches Some(id) && added(id, self.prior_active, then, after)
    }

    open spec fn fits(&self, v: DocView) -> bool {
        self.new_id matches Some(id) && v.removed.contains(id) ==> can_return(
            v,
            self.new_id->0,
            self.inserted_parent,
        )
    }

    open spec fn spares(&self, v: DocView, keep: Set<LayerId>) -> bool {
        are_scraps(v, maybe_set(self.new_id), keep)
    }

    open spec fn cleans(&self, v: DocView, w: DocView) -> bool {
        all_scrapped(v, maybe_seq(self.new_id), w)
    }

    open spec fn undoes(&self, now: DocView, fin: DocView) -> bool {
        unadded(now, self.new_id, self.prior_active, fin)
    }

    open spec fn fickle(&self) -> bool {
        false
    }

    open spec fn does(&self, then: DocView, r: Result<(), OgreError>, after: DocView) -> bool {
        &&& r is Err ==> after == then
        &&& if self.new_id is Some && then.removed.contains(self.new_id->0) {
            &&& r is Ok
            &&& after == returned(
                then,
                self.new_id->0,
                self.inserted_parent,
                self.inserted_index,
            )
        } else {
            let l = then.layers[self.source];
            if !then.placed(self.source) {
                r == Err::<(), OgreError>(OgreError::LayerNotFound(self.source))
            } else if !then.is_raster(self.source) {
                r == Err::<(), OgreError>(OgreError::NotRaster)
            } else {
                &&& r is Ok
                &&& exists|id: LayerId, parent: Option<LayerId>, i: int|
                    #![trigger is_new(then, id), then.sits_at(self.source, parent, i)]
                    is_new(then, id) && then.sits_at(self.source, parent, i) && after == (DocView {
                        active: Some(id),
                        ..put_above(
                            then,
                            LayerView { name: copy_name(l.name), ..l },
                            id,
                            parent,
                            i,
                        )
                    })
            }
        }
    }

    fn label(&self) -> (r: &'static str) {
        "Duplicate layer"
    }

    fn apply(&mut self, doc: &mut Document) -> (r: Result<(), OgreError>)
        ensures
            r is Ok ==> final(self).prior_active == old(doc)@.active,
            if old(self).new_id is Some && old(doc)@.removed.contains(old(self).new_id->0) {
                final(self).new_id == old(self).new_id
            } else {
                r is Ok ==> (final(self).new_id matches Some(id) && !old(doc)@.has(id)
                    && final(doc)@.active == Some(id))
            },
    {
        let prior: Option<LayerId> = doc.active_layer();
        if let Some(id) = self.new_id {
            if doc.is_removed(id) {
                let index: usize = match self.inserted_index {
                    Some(i) => i,
                    None => doc.root_order().len(),
                };
                put_back_leaf(doc, self.inserted_parent, index, id);
                self.prior_active = prior;
                proof {
                    if tidy(old(doc)@) && old(self).fits(old(doc)@) {
                        adding_keeps_layers(id, prior, old(doc)@, doc@);
                    }
                }
                return Ok(());
            }
        }
        let (parent, index): (Option<LayerId>, usize) = match doc.sibling_index(self.source) {
            Some(p) => p,
            None => {
                return Err(OgreError::LayerNotFound(self.source));
            },
        };
        let id: LayerId = match duplicate_layer(doc, self.source) {
            Ok(id) => id,
            Err(e) => {
                return Err(e);
            },
        };
        let ghost mid = doc@;
        doc.set_active(Some(id));
        self.new_id = Some(id);
        self.inserted_parent = parent;
        self.inserted_index = Some(index + 1);
        self.prior_active = prior;
        assert(is_new(old(doc)@, id));
        proof {
            doc.lemma_ids();
            let v = old(doc)@;
            let l = LayerView { name: copy_name(v.layers[self.source].name), ..v.layers[self.source] };
            let (p, i) = choose|p: Option<LayerId>, i: int| #[trigger]
                v.sits_at(self.source, p, i) && mid == put_above(v, l, id, p, i);
            if tidy(v) {
                lemma_above(v, doc@, l, id, p, i, self.source);
                adding_keeps_layers(id, prior, v, doc@);
            }
        }
        Ok(())
    }

    fn undo(&mut self, doc: &mut Document)
        ensures
            *final(self) == *old(self),
    {
        proof {
            doc.lemma_ids();
        }
        match self.new_id {
            Some(id) => {
                let ids: Vec<LayerId> = take_out(doc, id, self.prior_active);
            },
            None => {
                doc.set_active(self.prior_active);
            },
        }
        proof {
            assert forall|then: DocView, after: DocView, keep: Set<LayerId>|
                #![trigger old(self).reverts(then, after), same_picture(then, doc@, keep)]
                old(self).reverts(then, after) && keep.subset_of(then.layers.dom()) && same_picture(
                    after,
                    old(doc)@,
                    keep.union(old(self).refs()),
                ) implies same_picture(then, doc@, keep) by {
                let id = self.new_id->0;
                assert(keep.union(old(self).refs()) =~= keep.insert(id));
                adding_taken_back(then, after, old(doc)@, doc@, id, self.prior_active, keep);
            }
        }
    }

    fn cleanup(&self, doc: &mut Document) {
        drop_added(doc, self.new_id);
    }

    fn referenced_layers(&self) -> (r: Vec<LayerId>)
        ensures
            r@ == maybe_seq(self.new_id),
    {
        maybe(self.new_id)
    }
}

/// A layer that was put on top and taken out again comes back as it was: under its
/// identifier, at its place, with its content. Redoing the addition shows what doing
/// it showed.
pub proof fn added_layers_come_back(
    then: DocView,
    id: LayerId,
    l: LayerView,
    index: usize,
    gone: DocView,
)
    requires
        tidy(then),
        then.layers.dom().finite(),
        is_new(then, id),
        !(l.content is Group),
        index == then.order.len(),
        unadded(with_new_top(then, id, l), Some(id), then.active, gone),
    ensures
        same_picture(then, gone, then.layers.dom()),
        gone.removed.contains(id),
        same_picture(
            with_new_top(then, id, l),
            returned(gone, id, None, Some(index)),
            then.layers.dom().insert(id),
        ),
{
    let after = with_new_top(then, id, l);
    let keep = then.layers.dom();
    let back = returned(gone, id, None, Some(index));
    lemma_on_top(then, after, id);
    pictures_agree_with_themselves(after, keep.insert(id));
    adding_taken_back(then, after, after, gone, id, then.active, keep);
    let w = choose|w: DocView| #[trigger]
        unlisted(after, id, w) && gone == (DocView {
            active: gone.active,
            removed: w.removed.union(subtree(after, id).to_set()),
            ..w
        });
    lemma_unlisted_dom(after, id, w);
    assert(seq![id].contains(id)) by {
        assert(seq![id][0] == id);
    }
    assert(back.order =~= after.order);
    assert forall|x: LayerId| #[trigger] shown(after, keep.insert(id), x) == shown(
        back,
        keep.insert(id),
        x,
    ) by {
        assert(shown(then, keep, x) == shown(gone, keep, x));
        if x != id {
            assert(!seq![id].contains(x));
        }
    }
}

/// A layer that was put above another and taken out again comes back as it was: under
/// its identifier, at its place, with its content. Redoing the duplication shows what
/// doing it showed.
pub proof fn duplicates_come_back(
    then: DocView,
    anchor: LayerId,
    parent: Option<LayerId>,
    i: int,
    id: LayerId,
    l: LayerView,
    index: usize,
    gone: DocView,
)
    requires
        tidy(then),
        then.layers.dom().finite(),
        is_new(then, id),
        !(l.content is Group),
        then.sits_at(anchor, parent, i),
        index == i + 1,
        unadded(
            DocView { active: Some(id), ..put_above(then, l, id, parent, i) },
            Some(id),
            then.active,
            gone,
        ),
    ensures
        same_picture(then, gone, then.layers.dom()),
        gone.removed.contains(id),
        same_picture(
            DocView { active: Some(id), ..put_above(then, l, id, parent, i) },
            returned(gone, id, parent, Some(index)),
            then.layers.dom().insert(id),
        ),
{
    let after = DocView { active: Some(id), ..put_above(then, l, id, parent, i) };
    let keep = then.layers.dom();
    let back = returned(gone, id, parent, Some(index));
    lemma_above(then, after, l, id, parent, i, anchor);
    pictures_agree_with_themselves(after, keep.insert(id));
    adding_taken_back(then, after, after, gone, id, then.active, keep);
    let w = choose|w: DocView| #[trigger]
        unlisted(after, id, w) && gone == (DocView {
            active: gone.active,
            removed: w.removed.union(subtree(after, id).to_set()),
            ..w
        });
    lemma_unlisted_dom(after, id, w);
    assert(seq![id].contains(id)) by {
        assert(seq![id][0] == id);
    }
    if let Some(p) = parent {
        assert(then.is_parent(p, anchor));
        assert(shown(then, keep, p) == shown(gone, keep, p));
    }
    assert(back.order =~= after.order);
    assert forall|x: LayerId| #[trigger] shown(after, keep.insert(id), x) == shown(
        back,
        keep.insert(id),
        x,
    ) by {
        assert(shown(then, keep, x) == shown(gone, keep, x));
        if x != id {
            assert(!seq![id].contains(x));
        }
    }
}

} // verus!
