//! Commands that change the selection.
use vstd::prelude::*;

use crate::arith::Arith;
use crate::commands::props::{maybe, maybe_seq, maybe_set};
use crate::coord::{IVec2, Rect};
use crate::document::{DocView, Document};
use crate::error::OgreError;
use crate::float_bits::{clamp, clamped, from_u32, number_of, F_ZERO};
use crate::history::Command;
use crate::layer::{Layer, LayerId};
use crate::ops::magic_wand::{magic_wand, selects, wand_pick};
use crate::picture::{
    same_picture, selection_apart, selection_put_back, shown, structure_decides_tidy,
};
use crate::selection::{
    is_combination, is_grown, is_inverse, is_shrunk, margin, Selection, SelectionMode,
    SelectionView,
};

verus! {

/// A selection that is kept for undo is well formed.
pub open spec fn kept_wf(s: Option<Selection>) -> bool {
    s matches Some(x) ==> x.wf()
}

/// The document before the command had the selection that is kept for undo.
pub open spec fn selection_kept(s: Option<Selection>, then: DocView, after: DocView) -> bool {
    selection_apart(then, after) && (s matches Some(x) && x@ == then.selection)
}

/// The longer side of a canvas, at least one.
pub open spec fn longest_side(canvas: Rect) -> u32 {
    let side = if canvas.w >= canvas.h { canvas.w } else { canvas.h };
    if side >= 1 { side } else { 1 }
}

fn max_dim(canvas: Rect) -> (r: u32)
    ensures
        r == longest_side(canvas),
{
    let side: u32 = if canvas.w >= canvas.h { canvas.w } else { canvas.h };
    if side >= 1 { side } else { 1 }
}

/// The smaller of two amounts.
pub open spec fn at_most_amount(a: u32, b: u32) -> u32 {
    if a <= b { a } else { b }
}

/// Change the document selection.
///
/// This command captures the previous selection so it can be restored on undo.
pub struct SetSelectionCmd {
    /// The selection to combine with the current one.
    pub new_selection: Selection,
    /// How they are combined.
    pub mode: SelectionMode,
    /// The selection that was, once the command was applied.
    pub old_selection: Option<Selection>,
}

impl SetSelectionCmd {
    /// Create a selection command that combines `selection` with the current
    /// document selection using `mode`.
    pub fn with_mode(selection: Selection, mode: SelectionMode) -> (r: Self)
        requires
            selection.wf(),
        ensures
            r.wf(),
            r.new_selection == selection,
            r.mode == mode,
            r.old_selection is None,
    {
        SetSelectionCmd { new_selection: selection, mode, old_selection: None }
    }

    /// Create a selection command that will replace the document selection with
    /// `selection`.
    pub fn new(selection: Selection) -> (r: Self)
        requires
            selection.wf(),
        ensures
            r.wf(),
            r.new_selection == selection,
            r.mode == SelectionMode::Replace,
            r.old_selection is None,
    {
        Self::with_mode(selection, SelectionMode::Replace)
    }
}

impl Command for SetSelectionCmd {
    open spec fn wf(&self) -> bool {
        self.new_selection.wf() && kept_wf(self.old_selection)
    }

    open spec fn name(&self) -> Seq<char> {
        match self.mode {
            SelectionMode::Replace => "Set selection"@,
            SelectionMode::Add => "Add to selection"@,
            SelectionMode::Subtract => "Subtract from selection"@,
            SelectionMode::Intersect => "Intersect selection"@,
        }
    }

    open spec fn adds(&self) -> nat {
        0
    }

    open spec fn refs(&self) -> Set<LayerId> {
        Set::empty()
    }

    open spec fn reverts(&self, then: DocView, after: DocView) -> bool {
        selection_kept(self.old_selection, then, after)
    }

    open spec fn learns(&self) -> bool {
        false
    }

    open spec fn undoes(&self, now: DocView, fin: DocView) -> bool {
        fin == (DocView {
            selection: match self.old_selection {
                Some(s) => s@,
                None => now.selection,
            },
            ..now
        })
    }

    open spec fn does(&self, then: DocView, r: Result<(), OgreError>, after: DocView) -> bool {
        &&& r is Err ==> after == then
        &&& r is Ok
        &&& selection_apart(then, after)
        &&& is_combination(
            then.selection,
            self.new_selection@,
            self.mode,
            after.selection,
        )
    }

    fn label(&self) -> (r: &'static str) {
        match self.mode {
            SelectionMode::Replace => "Set selection",
            SelectionMode::Add => "Add to selection",
            SelectionMode::Subtract => "Subtract from selection",
            SelectionMode::Intersect => "Intersect selection",
        }
    }

    fn apply(&mut self, doc: &mut Document) -> (r: Result<(), OgreError>)
        ensures
            final(self).mode == old(self).mode,
            final(self).new_selection@ == old(self).new_selection@,
            final(self).old_selection matches Some(s) && s@ == old(doc)@.selection,
    {
        let now: Selection = doc.current_selection().clone();
        let next: Selection = now.combine(&self.new_selection, self.mode);
        self.old_selection = Some(now);
        doc.set_selection(next);
        proof {
            structure_decides_tidy(old(doc)@, doc@);
        }
        Ok(())
    }

    fn undo(&mut self, doc: &mut Document) {
        if let Some(s) = self.old_selection.take() {
            doc.set_selection(s);
        }
        proof {
            assert forall|then: DocView, after: DocView, keep: Set<LayerId>|
                #![trigger old(self).reverts(then, after), same_picture(then, doc@, keep)]
                old(self).reverts(then, after) && keep.subset_of(then.layers.dom()) && same_picture(
                    after,
                    old(doc)@,
                    keep.union(old(self).refs()),
                ) implies same_picture(then, doc@, keep) by {
                selection_put_back(then, after, old(doc)@, keep, keep.union(old(self).refs()));
            }
        }
    }

    /// Only commands that replace the selection take part; the selection captured
    /// first is kept, so undo returns to before the polygon.
    fn coalesce_selection(&mut self, doc: &mut Document, selection: &Selection) -> (r: bool)
        ensures
            r == (old(self).mode == SelectionMode::Replace),
            r ==> final(doc)@ == (DocView { selection: selection@, ..old(doc)@ })
                && final(self).new_selection@ == selection@ && final(self).old_selection == old(self).old_selection,
    {
        if self.mode != SelectionMode::Replace {
            return false;
        }
        self.new_selection = selection.clone();
        doc.set_selection(selection.clone());
        true
    }

    fn cleanup(&self, doc: &mut Document) {
    }

    fn referenced_layers(&self) -> (r: Vec<LayerId>)
        ensures
            r@ == Seq::<LayerId>::empty(),
    {
        Vec::new()
    }
}

/// Select a contiguous or global region by color.
///
/// The command resolves the active raster layer at apply time and uses the
/// magic-wand algorithm to build a coverage mask. Undo restores the previous
/// selection.
pub struct MagicWandCmd<M> {
    /// The arithmetic.
    pub math: M,
    /// Where the wand is set down, in document space.
    pub seed_doc: IVec2,
    /// The largest color distance.
    pub tolerance: u32,
    /// Whether only connected pixels are selected.
    pub contiguous: bool,
    /// The layer, once the command was applied.
    pub layer: Option<LayerId>,
    /// How the result is combined with the current selection.
    pub mode: SelectionMode,
    /// The selection that was, once the command was applied.
    pub old_selection: Option<Selection>,
}

/// Why there is no active raster layer to read.
pub open spec fn active_raster_error(v: DocView) -> Option<OgreError> {
    match v.active {
        None => Some(OgreError::NoActiveLayer),
        Some(id) => if !v.has(id) {
            Some(OgreError::LayerNotFound(id))
        } else if !v.is_raster(id) {
            Some(OgreError::NotRaster)
        } else {
            None
        },
    }
}

impl<M: Arith> MagicWandCmd<M> {
    /// Create a magic-wand command that combines the result with the current
    /// selection using `mode`.
    pub fn with_mode(
        math: M,
        seed_doc: IVec2,
        tolerance: u32,
        contiguous: bool,
        mode: SelectionMode,
    ) -> (r: Self)
        ensures
            r == (MagicWandCmd {
                math,
                seed_doc,
                tolerance,
                contiguous,
                layer: None,
                mode,
                old_selection: None,
            }),
    {
        MagicWandCmd {
            math,
            seed_doc,
            tolerance,
            contiguous,
            layer: None,
            mode,
            old_selection: None,
        }
    }
}

impl<M: Arith + Send> Command for MagicWandCmd<M> {
    open spec fn wf(&self) -> bool {
        self.math.wf() && kept_wf(self.old_selection)
    }

    open spec fn name(&self) -> Seq<char> {
        if self.contiguous { "Magic wand"@ } else { "Select by color"@ }
    }

    open spec fn adds(&self) -> nat {
        0
    }

    open spec fn refs(&self) -> Set<LayerId> {
        maybe_set(self.layer)
    }

    open spec fn reverts(&self, then: DocView, after: DocView) -> bool {
        selection_kept(self.old_selection, then, after) && (self.layer matches Some(id) && after.has(id))
    }

    open spec fn learns(&self) -> bool {
        false
    }

    open spec fn undoes(&self, now: DocView, fin: DocView) -> bool {
        fin == (DocView {
            selection: match self.old_selection {
                Some(s) => s@,
                None => now.selection,
            },
            ..now
        })
    }

    open spec fn does(&self, then: DocView, r: Result<(), OgreError>, after: DocView) -> bool {
        &&& r is Err ==> after == then
        &&& match active_raster_error(then) {
            Some(e) => r == Err::<(), OgreError>(e),
            None => r is Ok && selection_apart(then, after) && exists|
                s: SelectionView,
            | #[trigger]
                is_combination(
                    then.selection,
                    s,
                    self.mode,
                    after.selection,
                ) && selects(
                    s,
                    wand_pick(
                        &self.math,
                        then.layers[then.active->0].content->buffer,
                        then.layers[then.active->0].offset,
                        self.seed_doc,
                        self.tolerance,
                        self.contiguous,
                    ),
                    then.layers[then.active->0].offset,
                ),
        }
    }

    fn label(&self) -> (r: &'static str) {
        if self.contiguous { "Magic wand" } else { "Select by color" }
    }

    fn apply(&mut self, doc: &mut Document) -> (r: Result<(), OgreError>) {
        let id: LayerId = match doc.active_layer() {
            Some(id) => id,
            None => {
                return Err(OgreError::NoActiveLayer);
            },
        };
        let layer: &Layer = match doc.layer(id) {
            Ok(l) => l,
            Err(e) => {
                return Err(e);
            },
        };
        let found: Selection = match layer.buffer() {
            Some(buffer) => magic_wand(
                &self.math,
                buffer,
                layer.offset,
                self.seed_doc,
                self.tolerance,
                self.contiguous,
            ),
            None => {
                return Err(OgreError::NotRaster);
            },
        };
        let now: Selection = doc.current_selection().clone();
        let next: Selection = now.combine(&found, self.mode);
        self.layer = Some(id);
        self.old_selection = Some(now);
        doc.set_selection(next);
        proof {
            structure_decides_tidy(old(doc)@, doc@);
        }
        Ok(())
    }

    fn undo(&mut self, doc: &mut Document) {
        if let Some(s) = self.old_selection.take() {
            doc.set_selection(s);
        }
        proof {
            assert forall|then: DocView, after: DocView, keep: Set<LayerId>|
                #![trigger old(self).reverts(then, after), same_picture(then, doc@, keep)]
                old(self).reverts(then, after) && keep.subset_of(then.layers.dom()) && same_picture(
                    after,
                    old(doc)@,
                    keep.union(old(self).refs()),
                ) implies same_picture(then, doc@, keep) by {
                selection_put_back(then, after, old(doc)@, keep, keep.union(old(self).refs()));
            }
        }
    }

    fn cleanup(&self, doc: &mut Document) {
    }

    fn referenced_layers(&self) -> (r: Vec<LayerId>)
        ensures
            r@ == maybe_seq(self.layer),
    {
        maybe(self.layer)
    }
}

/// Invert the current selection within the document canvas.
///
/// Undo restores the previous selection.
pub struct InvertSelectionCmd {
    /// The selection that was, once the command was applied.
    pub old_selection: Option<Selection>,
}

impl InvertSelectionCmd {
    /// Create an invert-selection command.
    pub fn new() -> (r: Self)
        ensures
            r == (InvertSelectionCmd { old_selection: None }),
            r.wf(),
    {
        InvertSelectionCmd { old_selection: None }
    }
}

impl Default for InvertSelectionCmd {
    fn default() -> (r: Self)
        ensures
            r.wf(),
            r.old_selection is None,
    {
        InvertSelectionCmd::new()
    }
}

impl Command for InvertSelectionCmd {
    open spec fn wf(&self) -> bool {
        kept_wf(self.old_selection)
    }

    open spec fn name(&self) -> Seq<char> {
        "Invert selection"@
    }

    open spec fn adds(&self) -> nat {
        0
    }

    open spec fn refs(&self) -> Set<LayerId> {
        Set::empty()
    }

    open spec fn reverts(&self, then: DocView, after: DocView) -> bool {
        selection_kept(self.old_selection, then, after)
    }

    open spec fn learns(&self) -> bool {
        false
    }

    open spec fn undoes(&self, now: DocView, fin: DocView) -> bool {
        fin == (DocView {
            selection: match self.old_selection {
                Some(s) => s@,
                None => now.selection,
            },
            ..now
        })
    }

    open spec fn does(&self, then: DocView, r: Result<(), OgreError>, after: DocView) -> bool {
        &&& r is Err ==> after == then
        &&& r is Ok
        &&& selection_apart(then, after)
        &&& is_inverse(then.selection, then.canvas, after.selection)
    }

    fn label(&self) -> (r: &'static str) {
        "Invert selection"
    }

    fn apply(&mut self, doc: &mut Document) -> (r: Result<(), OgreError>) {
        let now: Selection = doc.current_selection().clone();
        let canvas: Rect = doc.canvas_rect();
        let next: Selection = now.invert(canvas);
        self.old_selection = Some(now);
        doc.set_selection(next);
        proof {
            structure_decides_tidy(old(doc)@, doc@);
        }
        Ok(())
    }

    fn undo(&mut self, doc: &mut Document) {
        if let Some(s) = self.old_selection.take() {
            doc.set_selection(s);
        }
        proof {
            assert forall|then: DocView, after: DocView, keep: Set<LayerId>|
                #![trigger old(self).reverts(then, after), same_picture(then, doc@, keep)]
                old(self).reverts(then, after) && keep.subset_of(then.layers.dom()) && same_picture(
                    after,
                    old(doc)@,
                    keep.union(old(self).refs()),
                ) implies same_picture(then, doc@, keep) by {
                selection_put_back(then, after, old(doc)@, keep, keep.union(old(self).refs()));
            }
        }
    }

    fn cleanup(&self, doc: &mut Document) {
    }

    fn referenced_layers(&self) -> (r: Vec<LayerId>)
        ensures
            r@ == Seq::<LayerId>::empty(),
    {
        Vec::new()
    }
}

/// Grow (dilate) the current selection by a number of pixels, at most the longer
/// side of the canvas.
pub struct GrowSelectionCmd {
    /// How many pixels.
    pub amount: u32,
    /// The selection that was, once the command was applied.
    pub old_selection: Option<Selection>,
}

impl GrowSelectionCmd {
    /// Create the command.
    pub fn new(amount: u32) -> (r: Self)
        ensures
            r == (GrowSelectionCmd { amount, old_selection: None }),
            r.wf(),
    {
        GrowSelectionCmd { amount, old_selection: None }
    }
}

impl Command for GrowSelectionCmd {
    open spec fn wf(&self) -> bool {
        kept_wf(self.old_selection)
    }

    open spec fn name(&self) -> Seq<char> {
        "Grow selection"@
    }

    open spec fn adds(&self) -> nat {
        0
    }

    open spec fn refs(&self) -> Set<LayerId> {
        Set::empty()
    }

    open spec fn reverts(&self, then: DocView, after: DocView) -> bool {
        selection_kept(self.old_selection, then, after)
    }

    open spec fn learns(&self) -> bool {
        false
    }

    open spec fn undoes(&self, now: DocView, fin: DocView) -> bool {
        fin == (DocView {
            selection: match self.old_selection {
                Some(s) => s@,
                None => now.selection,
            },
            ..now
        })
    }

    open spec fn does(&self, then: DocView, r: Result<(), OgreError>, after: DocView) -> bool {
        &&& r is Err ==> after == then
        &&& r is Ok
        &&& selection_apart(then, after)
        &&& is_grown(
            then.selection,
            margin(at_most_amount(self.amount, longest_side(then.canvas))),
            after.selection,
        )
    }

    fn label(&self) -> (r: &'static str) {
        "Grow selection"
    }

    fn apply(&mut self, doc: &mut Document) -> (r: Result<(), OgreError>) {
        let now: Selection = doc.current_selection().clone();
        let canvas: Rect = doc.canvas_rect();
        let limit: u32 = max_dim(canvas);
        let amount: u32 = if self.amount <= limit { self.amount } else { limit };
        let next: Selection = now.grow(amount);
        self.old_selection = Some(now);
        doc.set_selection(next);
        proof {
            structure_decides_tidy(old(doc)@, doc@);
        }
        Ok(())
    }

    fn undo(&mut self, doc: &mut Document) {
        if let Some(s) = self.old_selection.take() {
            doc.set_selection(s);
        }
        proof {
            assert forall|then: DocView, after: DocView, keep: Set<LayerId>|
                #![trigger old(self).reverts(then, after), same_picture(then, doc@, keep)]
                old(self).reverts(then, after) && keep.subset_of(then.layers.dom()) && same_picture(
                    after,
                    old(doc)@,
                    keep.union(old(self).refs()),
                ) implies same_picture(then, doc@, keep) by {
                selection_put_back(then, after, old(doc)@, keep, keep.union(old(self).refs()));
            }
        }
    }

    fn cleanup(&self, doc: &mut Document) {
    }

    fn referenced_layers(&self) -> (r: Vec<LayerId>)
        ensures
            r@ == Seq::<LayerId>::empty(),
    {
        Vec::new()
    }
}

/// Shrink (erode) the current selection by a number of pixels, at most the longer
/// side of the canvas.
pub struct ShrinkSelectionCmd {
    /// How many pixels.
    pub amount: u32,
    /// The selection that was, once the command was applied.
    pub old_selection: Option<Selection>,
}

impl ShrinkSelectionCmd {
    /// Create the command.
    pub fn new(amount: u32) -> (r: Self)
        ensures
            r == (ShrinkSelectionCmd { amount, old_selection: None }),
            r.wf(),
    {
        ShrinkSelectionCmd { amount, old_selection: None }
    }
}

impl Command for ShrinkSelectionCmd {
    open spec fn wf(&self) -> bool {
        kept_wf(self.old_selection)
    }

    open spec fn name(&self) -> Seq<char> {
        "Shrink selection"@
    }

    open spec fn adds(&self) -> nat {
        0
    }

    open spec fn refs(&self) -> Set<LayerId> {
        Set::empty()
    }

    open spec fn reverts(&self, then: DocView, after: DocView) -> bool {
        selection_kept(self.old_selection, then, after)
    }

    open spec fn learns(&self) -> bool {
        false
    }

    open spec fn undoes(&self, now: DocView, fin: DocView) -> bool {
        fin == (DocView {
            selection: match self.old_selection {
                Some(s) => s@,
                None => now.selection,
            },
            ..now
        })
    }

    open spec fn does(&self, then: DocView, r: Result<(), OgreError>, after: DocView) -> bool {
        &&& r is Err ==> after == then
        &&& r is Ok
        &&& selection_apart(then, after)
        &&& is_shrunk(
            then.selection,
            margin(at_most_amount(self.amount, longest_side(then.canvas))),
            after.selection,
        )
    }

    fn label(&self) -> (r: &'static str) {
        "Shrink selection"
    }

    fn apply(&mut self, doc: &mut Document) -> (r: Result<(), OgreError>) {
        let now: Selection = doc.current_selection().clone();
        let canvas: Rect = doc.canvas_rect();
        let limit: u32 = max_dim(canvas);
        let amount: u32 = if self.amount <= limit { self.amount } else { limit };
        let next: Selection = now.shrink(amount);
        self.old_selection = Some(now);
        doc.set_selection(next);
        proof {
            structure_decides_tidy(old(doc)@, doc@);
        }
        Ok(())
    }

    fn undo(&mut self, doc: &mut Document) {
        if let Some(s) = self.old_selection.take() {
            doc.set_selection(s);
        }
        proof {
            assert forall|then: DocView, after: DocView, keep: Set<LayerId>|
                #![trigger old(self).reverts(then, after), same_picture(then, doc@, keep)]
                old(self).reverts(then, after) && keep.subset_of(then.layers.dom()) && same_picture(
                    after,
                    old(doc)@,
                    keep.union(old(self).refs()),
                ) implies same_picture(then, doc@, keep) by {
                selection_put_back(then, after, old(doc)@, keep, keep.union(old(self).refs()));
            }
        }
    }

    fn cleanup(&self, doc: &mut Document) {
    }

    fn referenced_layers(&self) -> (r: Vec<LayerId>)
        ensures
            r@ == Seq::<LayerId>::empty(),
    {
        Vec::new()
    }
}

/// Feather (blur) the current selection edge.
pub struct FeatherSelectionCmd<F> {
    /// Blurs a selection.
    pub feather: F,
    /// The radius.
    pub radius: u32,
    /// The selection that was, once the command was applied.
    pub old_selection: Option<Selection>,
}

/// The function blurs every selection by a radius.
pub open spec fn softens<F: Fn(&Selection, u32) -> Selection>(feather: &F) -> bool {
    &&& forall|s: &Selection, r: u32| s.wf() ==> #[trigger] feather.requires((s, r))
    &&& forall|s: &Selection, r: u32, out: Selection| #[trigger]
        feather.ensures((s, r), out) ==> out.wf() && out@ == softened(feather, s@, r)
}

/// The function may blur the selection `s` to `out`.
pub open spec fn may_soften<F: Fn(&Selection, u32) -> Selection>(
    feather: &F,
    s: SelectionView,
    r: u32,
    out: SelectionView,
) -> bool {
    exists|x: &Selection, y: Selection| #[trigger]
        feather.ensures((x, r), y) && x@ == s && y@ == out
}

/// What the function blurs a selection to.
pub open spec fn softened<F: Fn(&Selection, u32) -> Selection>(
    feather: &F,
    s: SelectionView,
    r: u32,
) -> SelectionView {
    choose|out: SelectionView| may_soften(feather, s, r, out)
}

impl<F: Fn(&Selection, u32) -> Selection> FeatherSelectionCmd<F> {
    /// Create a feather-selection command with the given Gaussian radius.
    pub fn new(feather: F, radius: u32) -> (r: Self)
        ensures
            r == (FeatherSelectionCmd { feather, radius, old_selection: None }),
    {
        FeatherSelectionCmd { feather, radius, old_selection: None }
    }
}

impl<F: Fn(&Selection, u32) -> Selection + Send> Command for FeatherSelectionCmd<F> {
    open spec fn wf(&self) -> bool {
        softens(&self.feather) && kept_wf(self.old_selection)
    }

    open spec fn name(&self) -> Seq<char> {
        "Feather selection"@
    }

    open spec fn adds(&self) -> nat {
        0
    }

    open spec fn refs(&self) -> Set<LayerId> {
        Set::empty()
    }

    open spec fn reverts(&self, then: DocView, after: DocView) -> bool {
        selection_kept(self.old_selection, then, after)
    }

    open spec fn learns(&self) -> bool {
        false
    }

    open spec fn undoes(&self, now: DocView, fin: DocView) -> bool {
        fin == (DocView {
            selection: match self.old_selection {
                Some(s) => s@,
                None => now.selection,
            },
            ..now
        })
    }

    open spec fn does(&self, then: DocView, r: Result<(), OgreError>, after: DocView) -> bool {
        &&& r is Err ==> after == then
        &&& r is Ok
        &&& after == (DocView {
            selection: softened(
                &self.feather,
                then.selection,
                clamped(
                    self.radius,
                    F_ZERO,
                    number_of(longest_side(then.canvas) as nat) as u32,
                ),
            ),
            ..then
        })
    }

    open spec fn steady(&self, then: DocView) -> bool {
        true
    }

    fn label(&self) -> (r: &'static str) {
        "Feather selection"
    }

    fn apply(&mut self, doc: &mut Document) -> (r: Result<(), OgreError>) {
        let now: Selection = doc.current_selection().clone();
        let limit: u32 = from_u32(max_dim(doc.canvas_rect()));
        let radius: u32 = clamp(self.radius, F_ZERO, limit);
        let next: Selection = (self.feather)(&now, radius);
        self.old_selection = Some(now);
        doc.set_selection(next);
        proof {
            structure_decides_tidy(old(doc)@, doc@);
            assert forall|then: DocView, after: DocView, keep: Set<LayerId>|
                #![trigger old(self).does(then, Ok(()), after), same_picture(then, old(doc)@, keep)]
                old(self).does(then, Ok(()), after) && same_picture(
                    then,
                    old(doc)@,
                    keep,
                ) implies same_picture(after, doc@, keep) by {
                assert forall|x: LayerId| #[trigger] shown(after, keep, x) == shown(
                    doc@,
                    keep,
                    x,
                ) by {
                    assert(shown(then, keep, x) == shown(old(doc)@, keep, x));
                }
            }
        }
        Ok(())
    }

    fn undo(&mut self, doc: &mut Document) {
        if let Some(s) = self.old_selection.take() {
            doc.set_selection(s);
        }
        proof {
            assert forall|then: DocView, after: DocView, keep: Set<LayerId>|
                #![trigger old(self).reverts(then, after), same_picture(then, doc@, keep)]
                old(self).reverts(then, after) && keep.subset_of(then.layers.dom()) && same_picture(
                    after,
                    old(doc)@,
                    keep.union(old(self).refs()),
                ) implies same_picture(then, doc@, keep) by {
                selection_put_back(then, after, old(doc)@, keep, keep.union(old(self).refs()));
            }
        }
    }

    fn cleanup(&self, doc: &mut Document) {
    }

    fn referenced_layers(&self) -> (r: Vec<LayerId>)
        ensures
            r@ == Seq::<LayerId>::empty(),
    {
        Vec::new()
    }
}

} // verus!
