//! Commands that change one property of a layer.
use vstd::prelude::*;

use crate::coord::{fits_i32, IVec2};
use crate::document::{lemma_same_layer, DocView, Document};
use crate::error::OgreError;
use crate::float_bits::{clamp01_nan0, unit};
use crate::history::Command;
use crate::layer::{
    AdjustmentKind, BlendMode, ContentView, LayerContent, LayerId, LayerView, VectorData,
};
use crate::ops::layer_ops::shifted;
use crate::picture::{
    changed_alike, one_layer_apart, one_layer_keeps_tidy, one_layer_put_back, same_picture,
    seen_alike, visible,
};

verus! {

/// The list of one identifier.
pub(crate) fn just(id: LayerId) -> (r: Vec<LayerId>)
    ensures
        r@ == seq![id],
        forall|x: LayerId| #[trigger] r@.contains(x) <==> x == id,
{
    let r = vec![id];
    assert(r@[0] == id);
    r
}

/// The list of an optional identifier.
pub(crate) fn maybe(id: Option<LayerId>) -> (r: Vec<LayerId>)
    ensures
        r@ == maybe_seq(id),
        forall|x: LayerId| #[trigger] r@.contains(x) <==> id == Some(x),
{
    match id {
        Some(i) => just(i),
        None => Vec::new(),
    }
}

/// The identifiers that an optional identifier stands for.
pub open spec fn maybe_seq(id: Option<LayerId>) -> Seq<LayerId> {
    match id {
        Some(i) => seq![i],
        None => Seq::empty(),
    }
}

/// The set of an optional identifier.
pub open spec fn maybe_set(id: Option<LayerId>) -> Set<LayerId> {
    match id {
        Some(i) => Set::empty().insert(i),
        None => Set::empty(),
    }
}

/// Set whether a layer is visible.
pub struct SetVisibleCmd {
    /// The layer.
    pub layer: LayerId,
    /// Whether it is to be visible.
    pub visible: bool,
    /// What it was, once the command was applied.
    pub old: Option<bool>,
}

impl SetVisibleCmd {
    /// Create a visibility command.
    pub fn new(layer: LayerId, visible: bool) -> (r: Self)
        ensures
            r == (SetVisibleCmd { layer, visible, old: None }),
            r.wf(),
    {
        SetVisibleCmd { layer, visible, old: None }
    }
}

impl Command for SetVisibleCmd {
    open spec fn wf(&self) -> bool {
        true
    }

    open spec fn name(&self) -> Seq<char> {
        "Set visible"@
    }

    open spec fn adds(&self) -> nat {
        0
    }

    open spec fn refs(&self) -> Set<LayerId> {
        Set::empty().insert(self.layer)
    }

    open spec fn reverts(&self, then: DocView, after: DocView) -> bool {
        &&& one_layer_apart(then, after, self.layer)
        &&& after.active == then.active
        &&& self.old matches Some(v) && then.layers[self.layer] == (LayerView {
            visible: v,
            ..after.layers[self.layer]
        })
    }

    open spec fn learns(&self) -> bool {
        false
    }

    open spec fn undoes(&self, now: DocView, fin: DocView) -> bool {
        match self.old {
            Some(v) => if now.has(self.layer) {
                fin == now.with_layer(
                    self.layer,
                    (LayerView { visible: v, ..now.layers[self.layer] }),
                )
            } else {
                fin == now
            },
            None => fin == now,
        }
    }

    open spec fn does(&self, then: DocView, r: Result<(), OgreError>, after: DocView) -> bool {
        &&& r is Err ==> after == then
        &&& match r {
            Ok(_) => then.has(self.layer) && after == then.with_layer(
                self.layer,
                (LayerView {
                    visible: self.visible,
                    ..then.layers[self.layer]
                }),
            ),
            Err(e) => !then.has(self.layer) && e == OgreError::LayerNotFound(
                self.layer,
            ),
        }
    }

    open spec fn steady(&self, then: DocView) -> bool {
        visible(then, self.layer)
    }

    fn label(&self) -> (r: &'static str) {
        "Set visible"
    }

    fn apply(&mut self, doc: &mut Document) -> (r: Result<(), OgreError>) {
        proof {
            seen_alike(doc@, self.layer);
        }
        match doc.layer_mut(self.layer) {
            Ok(layer) => {
                self.old = Some(layer.visible);
                layer.visible = self.visible;
            },
            Err(e) => {
                return Err(e);
            },
        }
        proof {
            one_layer_keeps_tidy(old(doc)@, doc@, self.layer);
            changed_alike(old(doc)@, doc@, self.layer);
        }
        Ok(())
    }

    fn undo(&mut self, doc: &mut Document) {
        if let Some(v) = self.old {
            if let Ok(layer) = doc.layer_mut(self.layer) {
                layer.visible = v;
            }
        }
        proof {
            assert forall|then: DocView, after: DocView, keep: Set<LayerId>|
                #![trigger old(self).reverts(then, after), same_picture(then, doc@, keep)]
                old(self).reverts(then, after) && keep.subset_of(then.layers.dom()) && same_picture(
                    after,
                    old(doc)@,
                    keep.union(old(self).refs()),
                ) implies same_picture(then, doc@, keep) by {
                assert(keep.union(old(self).refs()) =~= keep.insert(self.layer));
                one_layer_put_back(then, after, old(doc)@, self.layer, keep);
            }
        }
    }

    fn cleanup(&self, doc: &mut Document) {
    }

    fn referenced_layers(&self) -> (r: Vec<LayerId>)
        ensures
            r@ == seq![self.layer],
    {
        just(self.layer)
    }
}

/// Set a layer's opacity.
pub struct SetOpacityCmd {
    /// The layer.
    pub layer: LayerId,
    /// The opacity it is to have.
    pub opacity: u32,
    /// What it was, once the command was applied.
    pub old: Option<u32>,
}

impl SetOpacityCmd {
    /// Create an opacity command.
    pub fn new(layer: LayerId, opacity: u32) -> (r: Self)
        ensures
            r == (SetOpacityCmd { layer, opacity: unit(opacity), old: None }),
            r.wf(),
    {
        SetOpacityCmd { layer, opacity: clamp01_nan0(opacity), old: None }
    }
}

impl Command for SetOpacityCmd {
    open spec fn wf(&self) -> bool {
        true
    }

    open spec fn name(&self) -> Seq<char> {
        "Set opacity"@
    }

    open spec fn adds(&self) -> nat {
        0
    }

    open spec fn refs(&self) -> Set<LayerId> {
        Set::empty().insert(self.layer)
    }

    open spec fn reverts(&self, then: DocView, after: DocView) -> bool {
        &&& one_layer_apart(then, after, self.layer)
        &&& after.active == then.active
        &&& self.old matches Some(v) && then.layers[self.layer] == (LayerView {
            opacity: v,
            ..after.layers[self.layer]
        })
    }

    open spec fn learns(&self) -> bool {
        false
    }

    open spec fn undoes(&self, now: DocView, fin: DocView) -> bool {
        match self.old {
            Some(v) => if now.has(self.layer) {
                fin == now.with_layer(
                    self.layer,
                    (LayerView { opacity: v, ..now.layers[self.layer] }),
                )
            } else {
                fin == now
            },
            None => fin == now,
        }
    }

    open spec fn does(&self, then: DocView, r: Result<(), OgreError>, after: DocView) -> bool {
        &&& r is Err ==> after == then
        &&& match r {
            Ok(_) => then.has(self.layer) && after == then.with_layer(
                self.layer,
                (LayerView {
                    opacity: self.opacity,
                    ..then.layers[self.layer]
                }),
            ),
            Err(e) => !then.has(self.layer) && e == OgreError::LayerNotFound(
                self.layer,
            ),
        }
    }

    open spec fn steady(&self, then: DocView) -> bool {
        visible(then, self.layer)
    }

    fn label(&self) -> (r: &'static str) {
        "Set opacity"
    }

    fn apply(&mut self, doc: &mut Document) -> (r: Result<(), OgreError>) {
        proof {
            seen_alike(doc@, self.layer);
        }
        match doc.layer_mut(self.layer) {
            Ok(layer) => {
                self.old = Some(layer.opacity);
                layer.opacity = self.opacity;
            },
            Err(e) => {
                return Err(e);
            },
        }
        proof {
            one_layer_keeps_tidy(old(doc)@, doc@, self.layer);
            changed_alike(old(doc)@, doc@, self.layer);
        }
        Ok(())
    }

    fn undo(&mut self, doc: &mut Document) {
        if let Some(v) = self.old {
            if let Ok(layer) = doc.layer_mut(self.layer) {
                layer.opacity = v;
            }
        }
        proof {
            assert forall|then: DocView, after: DocView, keep: Set<LayerId>|
                #![trigger old(self).reverts(then, after), same_picture(then, doc@, keep)]
                old(self).reverts(then, after) && keep.subset_of(then.layers.dom()) && same_picture(
                    after,
                    old(doc)@,
                    keep.union(old(self).refs()),
                ) implies same_picture(then, doc@, keep) by {
                assert(keep.union(old(self).refs()) =~= keep.insert(self.layer));
                one_layer_put_back(then, after, old(doc)@, self.layer, keep);
            }
        }
    }

    fn coalesce_opacity(&mut self, doc: &mut Document, layer: LayerId, opacity: u32) -> (r: bool)
        ensures
            r == (old(self).layer == layer),
            r ==> *final(self) == (SetOpacityCmd { opacity: unit(opacity), ..*old(self) })
                && final(doc)@ == (if old(doc)@.has(layer) {
                old(doc)@.with_layer(
                    layer,
                    (LayerView { opacity: unit(opacity), ..old(doc)@.layers[layer] }),
                )
            } else {
                old(doc)@
            }),
            !r ==> *final(self) == *old(self),
    {
        if self.layer != layer {
            return false;
        }
        self.opacity = clamp01_nan0(opacity);
        if let Ok(l) = doc.layer_mut(self.layer) {
            l.opacity = self.opacity;
        }
        proof {
            assert forall|then: DocView| #[trigger] old(self).reverts(
                then,
                old(doc)@,
            ) implies self.reverts(then, doc@) by {
                assert(doc@.layers =~= then.layers.insert(layer, doc@.layers[layer]));
            }
        }
        true
    }

    fn cleanup(&self, doc: &mut Document) {
    }

    fn referenced_layers(&self) -> (r: Vec<LayerId>)
        ensures
            r@ == seq![self.layer],
    {
        just(self.layer)
    }
}

/// Set a layer's blend mode.
pub struct SetBlendCmd {
    /// The layer.
    pub layer: LayerId,
    /// The blend mode it is to have.
    pub blend: BlendMode,
    /// What it was, once the command was applied.
    pub old: Option<BlendMode>,
}

impl SetBlendCmd {
    /// Create a blend-mode command.
    pub fn new(layer: LayerId, blend: BlendMode) -> (r: Self)
        ensures
            r == (SetBlendCmd { layer, blend, old: None }),
            r.wf(),
    {
        SetBlendCmd { layer, blend, old: None }
    }
}

impl Command for SetBlendCmd {
    open spec fn wf(&self) -> bool {
        true
    }

    open spec fn name(&self) -> Seq<char> {
        "Set blend"@
    }

    open spec fn adds(&self) -> nat {
        0
    }

    open spec fn refs(&self) -> Set<LayerId> {
        Set::empty().insert(self.layer)
    }

    open spec fn reverts(&self, then: DocView, after: DocView) -> bool {
        &&& one_layer_apart(then, after, self.layer)
        &&& after.active == then.active
        &&& self.old matches Some(v) && then.layers[self.layer] == (LayerView {
            blend: v,
            ..after.layers[self.layer]
        })
    }

    open spec fn learns(&self) -> bool {
        false
    }

    open spec fn undoes(&self, now: DocView, fin: DocView) -> bool {
        match self.old {
            Some(v) => if now.has(self.layer) {
                fin == now.with_layer(
                    self.layer,
                    (LayerView { blend: v, ..now.layers[self.layer] }),
                )
            } else {
                fin == now
            },
            None => fin == now,
        }
    }

    open spec fn does(&self, then: DocView, r: Result<(), OgreError>, after: DocView) -> bool {
        &&& r is Err ==> after == then
        &&& match r {
            Ok(_) => then.has(self.layer) && after == then.with_layer(
                self.layer,
                (LayerView {
                    blend: self.blend,
                    ..then.layers[self.layer]
                }),
            ),
            Err(e) => !then.has(self.layer) && e == OgreError::LayerNotFound(
                self.layer,
            ),
        }
    }

    open spec fn steady(&self, then: DocView) -> bool {
        visible(then, self.layer)
    }

    fn label(&self) -> (r: &'static str) {
        "Set blend"
    }

    fn apply(&mut self, doc: &mut Document) -> (r: Result<(), OgreError>) {
        proof {
            seen_alike(doc@, self.layer);
        }
        match doc.layer_mut(self.layer) {
            Ok(layer) => {
                self.old = Some(layer.blend);
                layer.blend = self.blend;
            },
            Err(e) => {
                return Err(e);
            },
        }
        proof {
            one_layer_keeps_tidy(old(doc)@, doc@, self.layer);
            changed_alike(old(doc)@, doc@, self.layer);
        }
        Ok(())
    }

    fn undo(&mut self, doc: &mut Document) {
        if let Some(v) = self.old {
            if let Ok(layer) = doc.layer_mut(self.layer) {
                layer.blend = v;
            }
        }
        proof {
            assert forall|then: DocView, after: DocView, keep: Set<LayerId>|
                #![trigger old(self).reverts(then, after), same_picture(then, doc@, keep)]
                old(self).reverts(then, after) && keep.subset_of(then.layers.dom()) && same_picture(
                    after,
                    old(doc)@,
                    keep.union(old(self).refs()),
                ) implies same_picture(then, doc@, keep) by {
                assert(keep.union(old(self).refs()) =~= keep.insert(self.layer));
                one_layer_put_back(then, after, old(doc)@, self.layer, keep);
            }
        }
    }

    fn cleanup(&self, doc: &mut Document) {
    }

    fn referenced_layers(&self) -> (r: Vec<LayerId>)
        ensures
            r@ == seq![self.layer],
    {
        just(self.layer)
    }
}

/// Toggle a layer's lock.
///
/// Stores the prior value so undo restores it exactly. A locked layer is refused,
/// with [`OgreError::LayerLocked`], by every command that edits the pixels, the mask
/// or the offset of one layer.
pub struct SetLayerLockedCmd {
    /// The layer.
    pub id: LayerId,
    /// Whether it is to be locked.
    pub locked: bool,
    /// What it was, once the command was applied.
    pub prior: Option<bool>,
}

impl SetLayerLockedCmd {
    /// Create a lock-toggle command. `locked` is the desired new state.
    pub fn new(id: LayerId, locked: bool) -> (r: Self)
        ensures
            r == (SetLayerLockedCmd { id, locked, prior: None }),
            r.wf(),
    {
        SetLayerLockedCmd { id, locked, prior: None }
    }
}

impl Command for SetLayerLockedCmd {
    open spec fn wf(&self) -> bool {
        true
    }

    open spec fn name(&self) -> Seq<char> {
        if self.locked { "Lock layer"@ } else { "Unlock layer"@ }
    }

    open spec fn adds(&self) -> nat {
        0
    }

    open spec fn refs(&self) -> Set<LayerId> {
        Set::empty().insert(self.id)
    }

    open spec fn reverts(&self, then: DocView, after: DocView) -> bool {
        &&& one_layer_apart(then, after, self.id)
        &&& after.active == then.active
        &&& self.prior matches Some(v) && then.layers[self.id] == (LayerView {
            locked: v,
            ..after.layers[self.id]
        })
    }

    open spec fn learns(&self) -> bool {
        false
    }

    open spec fn undoes(&self, now: DocView, fin: DocView) -> bool {
        match self.prior {
            Some(v) => if now.has(self.id) {
                fin == now.with_layer(
                    self.id,
                    (LayerView { locked: v, ..now.layers[self.id] }),
                )
            } else {
                fin == now
            },
            None => fin == now,
        }
    }

    open spec fn does(&self, then: DocView, r: Result<(), OgreError>, after: DocView) -> bool {
        &&& r is Err ==> after == then
        &&& match r {
            Ok(_) => then.has(self.id) && after == then.with_layer(
                self.id,
                (LayerView {
                    locked: self.locked,
                    ..then.layers[self.id]
                }),
            ),
            Err(e) => !then.has(self.id) && e == OgreError::LayerNotFound(
                self.id,
            ),
        }
    }

    open spec fn steady(&self, then: DocView) -> bool {
        visible(then, self.id)
    }

    fn label(&self) -> (r: &'static str) {
        if self.locked { "Lock layer" } else { "Unlock layer" }
    }

    fn apply(&mut self, doc: &mut Document) -> (r: Result<(), OgreError>) {
        proof {
            seen_alike(doc@, self.id);
        }
        match doc.layer_mut(self.id) {
            Ok(layer) => {
                self.prior = Some(layer.locked);
                layer.locked = self.locked;
            },
            Err(e) => {
                return Err(e);
            },
        }
        proof {
            one_layer_keeps_tidy(old(doc)@, doc@, self.id);
            changed_alike(old(doc)@, doc@, self.id);
        }
        Ok(())
    }

    fn undo(&mut self, doc: &mut Document) {
        if let Some(v) = self.prior {
            if let Ok(layer) = doc.layer_mut(self.id) {
                layer.locked = v;
            }
        }
        proof {
            assert forall|then: DocView, after: DocView, keep: Set<LayerId>|
                #![trigger old(self).reverts(then, after), same_picture(then, doc@, keep)]
                old(self).reverts(then, after) && keep.subset_of(then.layers.dom()) && same_picture(
                    after,
                    old(doc)@,
                    keep.union(old(self).refs()),
                ) implies same_picture(then, doc@, keep) by {
                assert(keep.union(old(self).refs()) =~= keep.insert(self.id));
                one_layer_put_back(then, after, old(doc)@, self.id, keep);
            }
        }
    }

    fn cleanup(&self, doc: &mut Document) {
    }

    fn referenced_layers(&self) -> (r: Vec<LayerId>)
        ensures
            r@ == seq![self.id],
    {
        just(self.id)
    }
}

/// Rename a layer.
pub struct RenameCmd {
    /// The layer.
    pub layer: LayerId,
    /// The name it is to have.
    pub name: String,
    /// What it was, once the command was applied.
    pub old: Option<String>,
}

impl RenameCmd {
    /// Create a rename command.
    pub fn new(layer: LayerId, name: &str) -> (r: Self)
        ensures
            r.layer == layer,
            r.name@ == name@,
            r.old is None,
            r.wf(),
    {
        RenameCmd { layer, name: String::from_str(name), old: None }
    }
}

impl Command for RenameCmd {
    open spec fn wf(&self) -> bool {
        true
    }

    open spec fn name(&self) -> Seq<char> {
        "Rename layer"@
    }

    open spec fn adds(&self) -> nat {
        0
    }

    open spec fn refs(&self) -> Set<LayerId> {
        Set::empty().insert(self.layer)
    }

    open spec fn reverts(&self, then: DocView, after: DocView) -> bool {
        &&& one_layer_apart(then, after, self.layer)
        &&& after.active == then.active
        &&& self.old matches Some(v) && then.layers[self.layer] == (LayerView {
            name: v@,
            ..after.layers[self.layer]
        })
    }

    open spec fn learns(&self) -> bool {
        false
    }

    open spec fn undoes(&self, now: DocView, fin: DocView) -> bool {
        match self.old {
            Some(v) => if now.has(self.layer) {
                fin == now.with_layer(
                    self.layer,
                    (LayerView { name: v@, ..now.layers[self.layer] }),
                )
            } else {
                fin == now
            },
            None => fin == now,
        }
    }

    open spec fn does(&self, then: DocView, r: Result<(), OgreError>, after: DocView) -> bool {
        &&& r is Err ==> after == then
        &&& match r {
            Ok(_) => then.has(self.layer) && after == then.with_layer(
                self.layer,
                (LayerView {
                    name: self.name@,
                    ..then.layers[self.layer]
                }),
            ),
            Err(e) => !then.has(self.layer) && e == OgreError::LayerNotFound(
                self.layer,
            ),
        }
    }

    open spec fn steady(&self, then: DocView) -> bool {
        visible(then, self.layer)
    }

    fn label(&self) -> (r: &'static str) {
        "Rename layer"
    }

    fn apply(&mut self, doc: &mut Document) -> (r: Result<(), OgreError>) {
        proof {
            seen_alike(doc@, self.layer);
        }
        match doc.layer_mut(self.layer) {
            Ok(layer) => {
                self.old = Some(layer.name.clone());
                layer.name = self.name.clone();
            },
            Err(e) => {
                return Err(e);
            },
        }
        proof {
            one_layer_keeps_tidy(old(doc)@, doc@, self.layer);
            changed_alike(old(doc)@, doc@, self.layer);
        }
        Ok(())
    }

    fn undo(&mut self, doc: &mut Document) {
        if let Some(v) = &self.old {
            if let Ok(layer) = doc.layer_mut(self.layer) {
                layer.name = v.clone();
            }
        }
        proof {
            assert forall|then: DocView, after: DocView, keep: Set<LayerId>|
                #![trigger old(self).reverts(then, after), same_picture(then, doc@, keep)]
                old(self).reverts(then, after) && keep.subset_of(then.layers.dom()) && same_picture(
                    after,
                    old(doc)@,
                    keep.union(old(self).refs()),
                ) implies same_picture(then, doc@, keep) by {
                assert(keep.union(old(self).refs()) =~= keep.insert(self.layer));
                one_layer_put_back(then, after, old(doc)@, self.layer, keep);
            }
        }
    }

    fn cleanup(&self, doc: &mut Document) {
    }

    fn referenced_layers(&self) -> (r: Vec<LayerId>)
        ensures
            r@ == seq![self.layer],
    {
        just(self.layer)
    }
}

/// Change the adjustment kind of an adjustment layer.
pub struct SetAdjustmentCmd {
    /// The layer.
    pub layer: LayerId,
    /// The adjustment it is to make.
    pub kind: AdjustmentKind,
    /// What it was, once the command was applied.
    pub old: Option<AdjustmentKind>,
}

impl SetAdjustmentCmd {
    /// Create a set-adjustment command.
    pub fn new(layer: LayerId, kind: AdjustmentKind) -> (r: Self)
        ensures
            r == (SetAdjustmentCmd { layer, kind, old: None }),
            r.wf(),
    {
        SetAdjustmentCmd { layer, kind, old: None }
    }
}

impl Command for SetAdjustmentCmd {
    open spec fn wf(&self) -> bool {
        true
    }

    open spec fn name(&self) -> Seq<char> {
        "Set adjustment"@
    }

    open spec fn adds(&self) -> nat {
        0
    }

    open spec fn refs(&self) -> Set<LayerId> {
        Set::empty().insert(self.layer)
    }

    open spec fn reverts(&self, then: DocView, after: DocView) -> bool {
        &&& one_layer_apart(then, after, self.layer)
        &&& after.active == then.active
        &&& after.layers[self.layer].content is Adjustment
        &&& self.old matches Some(v) && then.layers[self.layer] == (LayerView {
            content: ContentView::Adjustment(v),
            ..after.layers[self.layer]
        })
    }

    open spec fn learns(&self) -> bool {
        false
    }

    open spec fn undoes(&self, now: DocView, fin: DocView) -> bool {
        match self.old {
            Some(v) => if now.has(self.layer) && now.layers[self.layer].content is Adjustment {
                fin == now.with_layer(
                    self.layer,
                    (LayerView {
                        content: ContentView::Adjustment(v),
                        ..now.layers[self.layer]
                    }),
                )
            } else {
                fin == now
            },
            None => fin == now,
        }
    }

    open spec fn does(&self, then: DocView, r: Result<(), OgreError>, after: DocView) -> bool {
        &&& r is Err ==> after == then
        &&& match r {
            Ok(_) => then.has(self.layer) && then.layers[self.layer].content is Adjustment && after
                == then.with_layer(
                self.layer,
                (LayerView {
                    content: ContentView::Adjustment(self.kind),
                    ..then.layers[self.layer]
                }),
            ),
            Err(e) => if then.has(self.layer) {
                !(then.layers[self.layer].content is Adjustment) && e
                    == OgreError::InvalidOperation("layer is not an adjustment layer")
            } else {
                e == OgreError::LayerNotFound(self.layer)
            },
        }
    }

    open spec fn steady(&self, then: DocView) -> bool {
        visible(then, self.layer)
    }

    fn label(&self) -> (r: &'static str) {
        "Set adjustment"
    }

    fn apply(&mut self, doc: &mut Document) -> (r: Result<(), OgreError>) {
        proof {
            seen_alike(doc@, self.layer);
        }
        proof {
            lemma_same_layer(doc@, self.layer);
        }
        match doc.layer_mut(self.layer) {
            Ok(layer) => match &mut layer.content {
                LayerContent::Adjustment(current) => {
                    self.old = Some(*current);
                    *current = self.kind;
                },
                _ => {
                    return Err(OgreError::InvalidOperation("layer is not an adjustment layer"));
                },
            },
            Err(e) => {
                return Err(e);
            },
        }
        proof {
            one_layer_keeps_tidy(old(doc)@, doc@, self.layer);
            changed_alike(old(doc)@, doc@, self.layer);
        }
        Ok(())
    }

    fn undo(&mut self, doc: &mut Document) {
        proof {
            lemma_same_layer(doc@, self.layer);
        }
        if let Some(old) = self.old {
            if let Ok(layer) = doc.layer_mut(self.layer) {
                match &mut layer.content {
                    LayerContent::Adjustment(current) => {
                        *current = old;
                    },
                    _ => {},
                }
            }
        }
        proof {
            assert forall|then: DocView, after: DocView, keep: Set<LayerId>|
                #![trigger old(self).reverts(then, after), same_picture(then, doc@, keep)]
                old(self).reverts(then, after) && keep.subset_of(then.layers.dom()) && same_picture(
                    after,
                    old(doc)@,
                    keep.union(old(self).refs()),
                ) implies same_picture(then, doc@, keep) by {
                assert(keep.union(old(self).refs()) =~= keep.insert(self.layer));
                one_layer_put_back(then, after, old(doc)@, self.layer, keep);
            }
        }
    }

    fn cleanup(&self, doc: &mut Document) {
    }

    fn referenced_layers(&self) -> (r: Vec<LayerId>)
        ensures
            r@ == seq![self.layer],
    {
        just(self.layer)
    }
}

/// Replace a vector layer's data. Deep-clones for undo.
pub struct EditVectorCmd {
    /// The layer.
    pub layer: LayerId,
    /// The data it is to have.
    pub new_data: VectorData,
    /// What it was, once the command was applied.
    pub old_data: Option<VectorData>,
}

impl EditVectorCmd {
    /// Create a command that replaces the vector data on `layer` with `new_data`.
    pub fn new(layer: LayerId, new_data: VectorData) -> (r: Self)
        requires
            new_data.wf(),
        ensures
            r == (EditVectorCmd { layer, new_data, old_data: None }),
            r.wf(),
    {
        EditVectorCmd { layer, new_data, old_data: None }
    }
}

impl Command for EditVectorCmd {
    open spec fn wf(&self) -> bool {
        self.new_data.wf() && (self.old_data matches Some(d) ==> d.wf())
    }

    open spec fn name(&self) -> Seq<char> {
        "Edit vector"@
    }

    open spec fn adds(&self) -> nat {
        0
    }

    open spec fn refs(&self) -> Set<LayerId> {
        Set::empty().insert(self.layer)
    }

    open spec fn reverts(&self, then: DocView, after: DocView) -> bool {
        &&& one_layer_apart(then, after, self.layer)
        &&& after.active == then.active
        &&& after.layers[self.layer].content is Vector
        &&& self.old_data matches Some(v) && then.layers[self.layer] == (LayerView {
            content: ContentView::Vector(v@),
            ..after.layers[self.layer]
        })
    }

    open spec fn learns(&self) -> bool {
        false
    }

    open spec fn undoes(&self, now: DocView, fin: DocView) -> bool {
        match self.old_data {
            Some(v) => if now.has(self.layer) && now.layers[self.layer].content is Vector {
                fin == now.with_layer(
                    self.layer,
                    (LayerView {
                        content: ContentView::Vector(v@),
                        ..now.layers[self.layer]
                    }),
                )
            } else {
                fin == now
            },
            None => fin == now,
        }
    }

    open spec fn does(&self, then: DocView, r: Result<(), OgreError>, after: DocView) -> bool {
        &&& r is Err ==> after == then
        &&& match r {
            Ok(_) => then.has(self.layer) && then.layers[self.layer].content is Vector && after
                == then.with_layer(
                self.layer,
                (LayerView {
                    content: ContentView::Vector(self.new_data@),
                    ..then.layers[self.layer]
                }),
            ),
            Err(e) => if then.has(self.layer) {
                !(then.layers[self.layer].content is Vector) && e
                    == OgreError::InvalidOperation("operation requires a vector layer")
            } else {
                e == OgreError::LayerNotFound(self.layer)
            },
        }
    }

    open spec fn steady(&self, then: DocView) -> bool {
        visible(then, self.layer)
    }

    fn label(&self) -> (r: &'static str) {
        "Edit vector"
    }

    fn apply(&mut self, doc: &mut Document) -> (r: Result<(), OgreError>) {
        proof {
            seen_alike(doc@, self.layer);
        }
        proof {
            lemma_same_layer(doc@, self.layer);
        }
        match doc.layer_mut(self.layer) {
            Ok(layer) => {
                match layer.vector_data() {
                    Some(d) => {
                        self.old_data = Some(d.clone());
                    },
                    None => {
                        return Err(
                            OgreError::InvalidOperation("operation requires a vector layer"),
                        );
                    },
                }
                if let Some(data) = layer.vector_data_mut() {
                    *data = self.new_data.clone();
                }
            },
            Err(e) => {
                return Err(e);
            },
        }
        proof {
            one_layer_keeps_tidy(old(doc)@, doc@, self.layer);
            changed_alike(old(doc)@, doc@, self.layer);
        }
        Ok(())
    }

    fn undo(&mut self, doc: &mut Document) {
        proof {
            lemma_same_layer(doc@, self.layer);
        }
        if let Some(old) = &self.old_data {
            if let Ok(layer) = doc.layer_mut(self.layer) {
                if let Some(data) = layer.vector_data_mut() {
                    *data = old.clone();
                }
            }
        }
        proof {
            assert forall|then: DocView, after: DocView, keep: Set<LayerId>|
                #![trigger old(self).reverts(then, after), same_picture(then, doc@, keep)]
                old(self).reverts(then, after) && keep.subset_of(then.layers.dom()) && same_picture(
                    after,
                    old(doc)@,
                    keep.union(old(self).refs()),
                ) implies same_picture(then, doc@, keep) by {
                assert(keep.union(old(self).refs()) =~= keep.insert(self.layer));
                one_layer_put_back(then, after, old(doc)@, self.layer, keep);
            }
        }
    }

    fn cleanup(&self, doc: &mut Document) {
    }

    fn referenced_layers(&self) -> (r: Vec<LayerId>)
        ensures
            r@ == seq![self.layer],
    {
        just(self.layer)
    }
}

/// Why a move command fails. A layer whose offset would leave the coordinates is
/// reported before a locked one.
pub open spec fn move_by_error(v: DocView, id: Option<LayerId>, delta: IVec2) -> Option<OgreError> {
    match id {
        None => Some(OgreError::InvalidOperation("no layer to move")),
        Some(i) => if !v.has(i) {
            Some(OgreError::LayerNotFound(i))
        } else if !fits_i32(v.layers[i].offset.x + delta.x) || !fits_i32(
            v.layers[i].offset.y + delta.y,
        ) {
            Some(OgreError::InvalidOperation("layer offset out of range"))
        } else if v.layers[i].locked {
            Some(OgreError::LayerLocked(i))
        } else {
            None
        },
    }
}

/// Move a layer by adding `delta` to its offset.
///
/// The command stores the layer's prior offset and active-layer state so undo can
/// restore the exact original state. If the stored layer does not exist, the
/// command returns an error rather than falling back to the active layer.
pub struct MoveLayerByCmd {
    /// The layer.
    pub id: Option<LayerId>,
    /// How far it moves.
    pub delta: IVec2,
    /// Where it was.
    pub prior_offset: Option<IVec2>,
    /// The layer that was active.
    pub prior_active: Option<LayerId>,
}

impl MoveLayerByCmd {
    /// Create a move-layer-by-delta command.
    pub fn new(id: LayerId, delta: IVec2) -> (r: Self)
        ensures
            r == (MoveLayerByCmd { id: Some(id), delta, prior_offset: None, prior_active: None }),
            r.wf(),
    {
        MoveLayerByCmd { id: Some(id), delta, prior_offset: None, prior_active: None }
    }
}

impl Command for MoveLayerByCmd {
    open spec fn wf(&self) -> bool {
        true
    }

    open spec fn name(&self) -> Seq<char> {
        "Move layer"@
    }

    open spec fn adds(&self) -> nat {
        0
    }

    open spec fn refs(&self) -> Set<LayerId> {
        maybe_set(self.id)
    }

    open spec fn reverts(&self, then: DocView, after: DocView) -> bool {
        self.id matches Some(id) && one_layer_apart(then, after, id) && self.prior_active
            == then.active && (self.prior_offset matches Some(o) && then.layers[id] == (LayerView {
            offset: o,
            ..after.layers[id]
        }))
    }

    open spec fn learns(&self) -> bool {
        false
    }

    open spec fn undoes(&self, now: DocView, fin: DocView) -> bool {
        fin == (DocView {
            active: self.prior_active,
            ..match (self.id, self.prior_offset) {
                (Some(id), Some(o)) => if now.has(id) {
                    now.with_layer(
                        id,
                        LayerView { offset: o, ..now.layers[id] },
                    )
                } else {
                    now
                },
                _ => now,
            }
        })
    }

    open spec fn does(&self, then: DocView, r: Result<(), OgreError>, after: DocView) -> bool {
        &&& r is Err ==> after == then
        &&& match move_by_error(then, self.id, self.delta) {
            Some(e) => r == Err::<(), OgreError>(e),
            None => r is Ok && after == (DocView {
                active: self.id,
                ..then.with_layer(
                    self.id->0,
                    LayerView {
                        offset: shifted(
                            then.layers[self.id->0].offset,
                            self.delta,
                        ),
                        ..then.layers[self.id->0]
                    },
                )
            }),
        }
    }

    open spec fn steady(&self, then: DocView) -> bool {
        self.id matches Some(id) && visible(then, id)
    }

    fn label(&self) -> (r: &'static str) {
        "Move layer"
    }

    fn apply(&mut self, doc: &mut Document) -> (r: Result<(), OgreError>) {
        let id: LayerId = match self.id {
            Some(id) => id,
            None => {
                return Err(OgreError::InvalidOperation("no layer to move"));
            },
        };
        proof {
            lemma_same_layer(doc@, id);
            seen_alike(doc@, id);
        }
        let active: Option<LayerId> = doc.active_layer();
        match doc.layer_mut(id) {
            Ok(layer) => {
                let offset: IVec2 = match (
                    layer.offset.x.checked_add(self.delta.x),
                    layer.offset.y.checked_add(self.delta.y),
                ) {
                    (Some(x), Some(y)) => IVec2::new(x, y),
                    _ => {
                        return Err(OgreError::InvalidOperation("layer offset out of range"));
                    },
                };
                self.prior_offset = Some(layer.offset);
                self.prior_active = active;
                if layer.locked {
                    return Err(OgreError::LayerLocked(id));
                }
                layer.offset = offset;
            },
            Err(e) => {
                return Err(e);
            },
        }
        doc.set_active(Some(id));
        proof {
            one_layer_keeps_tidy(old(doc)@, doc@, id);
            changed_alike(old(doc)@, doc@, id);
        }
        Ok(())
    }

    fn undo(&mut self, doc: &mut Document) {
        if let (Some(id), Some(offset)) = (self.id, self.prior_offset) {
            if let Ok(layer) = doc.layer_mut(id) {
                layer.offset = offset;
            }
        }
        doc.set_active(self.prior_active);
        proof {
            assert forall|then: DocView, after: DocView, keep: Set<LayerId>|
                #![trigger old(self).reverts(then, after), same_picture(then, doc@, keep)]
                old(self).reverts(then, after) && keep.subset_of(then.layers.dom()) && same_picture(
                    after,
                    old(doc)@,
                    keep.union(old(self).refs()),
                ) implies same_picture(then, doc@, keep) by {
                let id = self.id->0;
                assert(keep.union(old(self).refs()) =~= keep.insert(id));
                one_layer_put_back(then, after, old(doc)@, id, keep);
            }
        }
    }

    fn cleanup(&self, doc: &mut Document) {
    }

    fn referenced_layers(&self) -> (r: Vec<LayerId>)
        ensures
            r@ == maybe_seq(self.id),
    {
        maybe(self.id)
    }
}

} // verus!
