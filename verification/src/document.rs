//! Document model: canvas, layer tree, and render order.
use vstd::prelude::*;
use vstd::string::*;

use crate::arena::{IdSet, LayerArena, MAX_LAYERS};
use crate::coord::Rect;
use crate::equality::{layer_same, same_bytes, same_ids, selection_same};
use crate::error::OgreError;
use crate::inserting::inserting_keeps_tidy;
use crate::layer::{
    fresh_layer, AdjustmentKind, ContentView, Layer, LayerContent, LayerId, LayerView, VectorData,
};
use crate::picture::tidy;
use crate::selection::{Selection, SelectionView};

verus! {

/// The color space in which document pixels are interpreted.
#[derive(Clone, Copy, Debug, PartialEq, Eq, Structural)]
pub enum ColorSpace {
    /// Linear sRGB, the working space for correct compositing.
    LinearSrgb,
    /// Gamma-encoded sRGB, typically used for final export/display.
    Srgb,
}

impl Default for ColorSpace {
    fn default() -> (r: Self)
        ensures
            r == ColorSpace::LinearSrgb,
    {
        ColorSpace::LinearSrgb
    }
}

/// A named rectangular slice region.
#[derive(Debug, PartialEq)]
pub struct SliceRect {
    /// Human-readable name (used as the export filename stem).
    pub name: String,
    /// The rectangle in document coordinates.
    pub rect: Rect,
}

/// A layered image document.
///
/// The document owns the layer arena, the root z-order, and the current
/// selection.
pub struct Document {
    /// The fixed canvas rectangle. Pixels outside this rect are not part of the
    /// exported image but may still exist in layer buffers.
    pub canvas: Rect,
    layers: LayerArena,
    /// Root z-order, bottom-to-top.
    pub order: Vec<LayerId>,
    /// Currently active layer, if any.
    pub active: Option<LayerId>,
    /// Current selection.
    pub selection: Selection,
    /// Color space used for compositing/export.
    pub color_space: ColorSpace,
    /// Optional embedded ICC profile bytes. When present this overrides the
    /// generic `color_space` hint for accurate import/export color conversion.
    pub icc_profile: Option<Vec<u8>>,
    removed: IdSet,
    /// Named slice rectangles for web export. Stored as metadata; they do not
    /// affect the composited image.
    pub slices: Vec<SliceRect>,
}

/// What a document is, as mathematical values.
pub struct DocView {
    /// The canvas rectangle.
    pub canvas: Rect,
    /// The layers in the arena.
    pub layers: Map<LayerId, LayerView>,
    /// The root z-order.
    pub order: Seq<LayerId>,
    /// The active layer.
    pub active: Option<LayerId>,
    /// The selection.
    pub selection: SelectionView,
    /// The color space.
    pub color_space: ColorSpace,
    /// The embedded ICC profile.
    pub icc_profile: Option<Seq<u8>>,
    /// The layers taken out of the tree but kept for undo.
    pub removed: Set<LayerId>,
    /// The slices, by name and rectangle.
    pub slices: Seq<(Seq<char>, Rect)>,
}

impl View for Document {
    type V = DocView;

    closed spec fn view(&self) -> DocView {
        DocView {
            canvas: self.canvas,
            layers: self.layers@,
            order: self.order@,
            active: self.active,
            selection: self.selection@,
            color_space: self.color_space,
            icc_profile: match self.icc_profile {
                Some(v) => Some(v@),
                None => None,
            },
            removed: self.removed@,
            slices: self.slices@.map_values(|s: SliceRect| (s.name@, s.rect)),
        }
    }
}

impl DocView {
    /// The layer `id` exists.
    pub open spec fn has(self, id: LayerId) -> bool {
        self.layers.dom().contains(id)
    }

    /// The layer `id` exists and is a group.
    pub open spec fn is_group(self, id: LayerId) -> bool {
        self.has(id) && self.layers[id].content is Group
    }

    /// The layer `id` exists and holds pixels.
    pub open spec fn is_raster(self, id: LayerId) -> bool {
        self.has(id) && self.layers[id].content is Raster
    }

    /// The children of `id`, bottom to top; none if it is no group.
    pub open spec fn kids(self, id: LayerId) -> Seq<LayerId> {
        match self.layers[id].content {
            ContentView::Group(c) => c,
            _ => Seq::empty(),
        }
    }

    /// `p` is a group in the tree that has `id` among its children.
    pub open spec fn is_parent(self, p: LayerId, id: LayerId) -> bool {
        self.is_group(p) && !self.removed.contains(p) && self.kids(p).contains(id)
    }

    /// The children of `parent`, or the root z-order.
    pub open spec fn list(self, parent: Option<LayerId>) -> Seq<LayerId> {
        match parent {
            Some(p) => self.kids(p),
            None => self.order,
        }
    }

    /// The document with another list of children of `parent`, or another root
    /// z-order.
    pub open spec fn with_list(self, parent: Option<LayerId>, list: Seq<LayerId>) -> DocView {
        match parent {
            Some(p) => DocView {
                layers: self.layers.insert(
                    p,
                    LayerView { content: ContentView::Group(list), ..self.layers[p] },
                ),
                ..self
            },
            None => DocView { order: list, ..self },
        }
    }

    /// Layer `id` stands in the tree at position `i` of the list of `parent`.
    pub open spec fn sits_at(self, id: LayerId, parent: Option<LayerId>, i: int) -> bool {
        &&& self.has(id)
        &&& !self.removed.contains(id)
        &&& first_at(self.list(parent), id, i)
        &&& match parent {
            Some(p) => self.is_parent(p, id),
            None => forall|p: LayerId| !(#[trigger] self.is_parent(p, id)),
        }
    }

    /// Layer `id` stands in the tree.
    pub open spec fn placed(self, id: LayerId) -> bool {
        &&& self.has(id)
        &&& !self.removed.contains(id)
        &&& (self.order.contains(id) || exists|p: LayerId| #[trigger] self.is_parent(p, id))
    }

    /// The document with layer `id` changed to `l`.
    pub open spec fn with_layer(self, id: LayerId, l: LayerView) -> DocView {
        DocView { layers: self.layers.insert(id, l), ..self }
    }

    /// Every layer knows its own identifier.
    pub open spec fn ids_agree(self) -> bool {
        &&& forall|id: LayerId| #[trigger] self.layers.dom().contains(id) ==> self.layers[id].id == id
        &&& !self.layers.dom().contains(LayerId::null_spec())
        &&& self.layers.dom().finite()
    }
}

/// Position `i` is the first of `s` that holds `id`.
pub open spec fn first_at(s: Seq<LayerId>, id: LayerId, i: int) -> bool {
    0 <= i < s.len() && s[i] == id && forall|j: int| 0 <= j < i ==> s[j] != id
}

/// The first position of an identifier in a list.
fn position(list: &Vec<LayerId>, id: LayerId) -> (r: Option<usize>)
    ensures
        r is Some <==> list@.contains(id),
        r matches Some(i) ==> first_at(list@, id, i as int) && i < usize::MAX,
{
    let mut i: usize = 0;
    while i < list.len()
        invariant
            i <= list@.len(),
            forall|j: int| 0 <= j < i ==> list@[j] != id,
        decreases list@.len() - i,
    {
        if list[i] == id {
            assert(list@[i as int] == id);
            return Some(i);
        }
        i = i + 1;
    }
    None
}

/// True if an identifier is in a list.
pub fn lists(list: &Vec<LayerId>, id: LayerId) -> (r: bool)
    ensures
        r == list@.contains(id),
{
    position(list, id).is_some()
}

impl Document {
    /// The arena is well formed, every layer knows its own identifier, and the
    /// selection is well formed.
    pub closed spec fn wf(&self) -> bool {
        &&& self.layers.wf()
        &&& self@.ids_agree()
        &&& self.selection.wf()
    }

    /// The number of layers in the arena.
    pub closed spec fn used(&self) -> nat {
        self.layers.count()
    }

    /// There is room for `n` more layers.
    pub open spec fn room(&self, n: nat) -> bool {
        self.used() + n <= MAX_LAYERS
    }

    /// A well-formed document knows its layers by their identifiers.
    pub proof fn lemma_ids(&self)
        requires
            self.wf(),
        ensures
            self@.ids_agree(),
    {
    }

    /// The canvas rectangle.
    pub fn canvas_rect(&self) -> (r: Rect)
        ensures
            r == self@.canvas,
    {
        self.canvas
    }

    /// The active layer, if any.
    pub fn active_layer(&self) -> (r: Option<LayerId>)
        ensures
            r == self@.active,
    {
        self.active
    }

    /// The root z-order, bottom to top.
    pub fn root_order(&self) -> (r: &Vec<LayerId>)
        ensures
            r@ == self@.order,
    {
        &self.order
    }

    /// The current selection.
    pub fn current_selection(&self) -> (r: &Selection)
        requires
            self.wf(),
        ensures
            r@ == self@.selection,
            r.wf(),
    {
        &self.selection
    }

    /// Make a layer the active one, or none.
    pub fn set_active(&mut self, active: Option<LayerId>)
        requires
            old(self).wf(),
        ensures
            final(self).wf(),
            final(self)@ == (DocView { active, ..old(self)@ }),
            final(self).used() <= old(self).used(),
    {
        self.active = active;
    }

    /// Replace the selection.
    pub fn set_selection(&mut self, selection: Selection)
        requires
            old(self).wf(),
            selection.wf(),
        ensures
            final(self).wf(),
            final(self)@ == (DocView { selection: selection@, ..old(self)@ }),
            final(self).used() <= old(self).used(),
    {
        self.selection = selection;
    }

    /// Replace the canvas rectangle.
    pub fn set_canvas(&mut self, canvas: Rect)
        requires
            old(self).wf(),
        ensures
            final(self).wf(),
            final(self)@ == (DocView { canvas, ..old(self)@ }),
            final(self).used() <= old(self).used(),
    {
        self.canvas = canvas;
    }

    /// True if a layer was taken out of the tree but kept for undo.
    pub fn is_removed(&self, id: LayerId) -> (r: bool)
        ensures
            r == self@.removed.contains(id),
    {
        self.removed.contains(id)
    }

    /// Create a new document with the given canvas size.
    pub fn new(w: u32, h: u32) -> (d: Self)
        ensures
            d.wf(),
            d@ == blank_document(Rect { x: 0, y: 0, w, h }),
            d.used() == 0,
    {
        Self::with_canvas(Rect::new(0, 0, w, h))
    }

    /// Create a new document with the given canvas rectangle.
    pub fn with_canvas(canvas: Rect) -> (d: Self)
        ensures
            d.wf(),
            d@ == blank_document(canvas),
            d.used() == 0,
    {
        let d = Document {
            canvas,
            layers: LayerArena::new(),
            order: Vec::new(),
            active: None,
            selection: Selection::none(),
            color_space: ColorSpace::LinearSrgb,
            icc_profile: None,
            removed: IdSet::new(),
            slices: Vec::new(),
        };
        assert(d@.slices =~= Seq::empty());
        assert(d@.order =~= Seq::empty());
        d
    }

    /// True if there is room for `n` more layers.
    pub fn has_room(&self, n: usize) -> (r: bool)
        ensures
            r == self.room(n as nat),
    {
        n <= MAX_LAYERS && self.layers.len() <= MAX_LAYERS - n
    }

    /// Insert an arbitrary layer into the document's arena.
    ///
    /// The layer's identifier is overwritten with the one assigned by the
    /// document. The caller is responsible for adding the returned identifier to
    /// the layer tree (`order` or a group's `children`).
    pub fn add_layer(&mut self, layer: Layer) -> (id: LayerId)
        requires
            old(self).wf(),
            layer.wf(),
            old(self).room(1),
        ensures
            final(self).wf(),
            !old(self)@.has(id),
            id != LayerId::null_spec(),
            final(self)@ == old(self)@.with_layer(id, (LayerView { id, ..layer@ })),
            final(self).used() == old(self).used() + 1,
    {
        let id: LayerId = self.layers.insert(layer);
        match self.layers.get_mut(id) {
            Some(l) => {
                l.id = id;
            },
            None => {},
        }
        assert(self@.layers =~= old(self)@.layers.insert(id, LayerView { id, ..layer@ }));
        assert(self@ == old(self)@.with_layer(id, LayerView { id, ..layer@ }));
        id
    }

    /// Replace the set of soft-deleted layer ids.
    pub fn set_removed(&mut self, removed: IdSet)
        requires
            old(self).wf(),
        ensures
            final(self).wf(),
            final(self)@ == (DocView { removed: removed@, ..old(self)@ }),
            final(self).used() <= old(self).used(),
    {
        self.removed = removed;
    }

    /// Borrow the full layer arena.
    pub fn all_layers(&self) -> (r: &LayerArena)
        requires
            self.wf(),
        ensures
            r@ == self@.layers,
            r.wf(),
    {
        &self.layers
    }

    /// Borrow the set of soft-deleted layer ids.
    pub fn removed_layers(&self) -> (r: &IdSet)
        ensures
            r@ == self@.removed,
    {
        &self.removed
    }

    /// Borrow a layer by id.
    pub fn layer(&self, id: LayerId) -> (r: Result<&Layer, OgreError>)
        requires
            self.wf(),
        ensures
            r is Ok <==> self@.has(id),
            r matches Ok(l) ==> l@ == self@.layers[id] && l@.id == id && l.wf(),
            r matches Err(e) ==> e == OgreError::LayerNotFound(id),
    {
        match self.layers.get(id) {
            Some(l) => Ok(l),
            None => Err(OgreError::LayerNotFound(id)),
        }
    }

    /// Mutably borrow a layer by id.
    ///
    /// The document stays well formed if the layer does and keeps its
    /// identifier.
    pub fn layer_mut(&mut self, id: LayerId) -> (r: Result<&mut Layer, OgreError>)
        requires
            old(self).wf(),
        ensures
            r is Ok <==> old(self)@.has(id),
            r matches Ok(l) ==> l@ == old(self)@.layers[id] && l@.id == id && l.wf() && final(self)@ == old(
                self)@.with_layer(id, final(l)@) && (final(l).wf() && final(l)@.id == id
                ==> final(self).wf()) && final(self).used() == old(self).used(),
            r matches Err(e) ==> e == OgreError::LayerNotFound(id) && final(self)@ == old(self)@
                && final(self).wf() && final(self).used() == old(self).used(),
    {
        proof {
            let a = self@;
            assert forall|b: Map<LayerId, LayerView>, l: LayerView|
                #![trigger a.layers.insert(id, l), b.dom()]
                a.has(id) && b == a.layers.insert(id, l) implies b.dom() =~= a.layers.dom() by {}
        }
        match self.layers.get_mut(id) {
            Some(l) => Ok(l),
            None => Err(OgreError::LayerNotFound(id)),
        }
    }
}

/// A document without layers.
pub open spec fn blank_document(canvas: Rect) -> DocView {
    DocView {
        canvas,
        layers: Map::empty(),
        order: Seq::empty(),
        active: None,
        selection: SelectionView::Nothing,
        color_space: ColorSpace::LinearSrgb,
        icc_profile: None,
        removed: Set::empty(),
        slices: Seq::empty(),
    }
}

impl DocView {
    /// The layers that `seen` does not hold yet.
    pub open spec fn unseen(self, seen: Set<LayerId>) -> nat {
        self.layers.dom().difference(seen).len()
    }
}

/// Going down is not possible because a layer was met twice.
pub open spec fn cycle_error() -> OgreError {
    OgreError::InvalidOperation("cycle in layer tree")
}

/// Every layer below `id`, each before what is below it, and the layers met with
/// those already `seen`.
///
/// An error if a layer is met twice or does not exist.
pub open spec fn walk(v: DocView, id: LayerId, seen: Set<LayerId>) -> Result<
    (Seq<LayerId>, Set<LayerId>),
    OgreError,
>
    decreases v.unseen(seen), 0nat,
    when v.layers.dom().finite()
{
    if seen.contains(id) {
        Err(cycle_error())
    } else if !v.has(id) {
        Err(OgreError::LayerNotFound(id))
    } else {
        proof {
            lemma_unseen_less(v, seen, seen.insert(id), id);
        }
        walk_list(v, v.kids(id), seen.insert(id))
    }
}

/// The layers of a list and all below them, each before what is below it.
pub open spec fn walk_list(v: DocView, list: Seq<LayerId>, seen: Set<LayerId>) -> Result<
    (Seq<LayerId>, Set<LayerId>),
    OgreError,
>
    decreases v.unseen(seen), 1 + list.len(),
    when v.layers.dom().finite()
{
    if list.len() == 0 {
        Ok((Seq::empty(), seen))
    } else {
        match walk_list(v, list.drop_last(), seen) {
            Err(e) => Err(e),
            Ok(a) => if !seen.subset_of(a.1) {
                Err(cycle_error())
            } else {
                proof {
                    lemma_unseen_no_more(v, seen, a.1);
                }
                match walk(v, list.last(), a.1) {
                    Err(e) => Err(e),
                    Ok(b) => Ok((a.0.push(list.last()) + b.0, b.1)),
                }
            },
        }
    }
}

/// Having met more layers leaves no more unmet.
pub proof fn lemma_unseen_no_more(v: DocView, a: Set<LayerId>, b: Set<LayerId>)
    requires
        v.layers.dom().finite(),
        a.subset_of(b),
    ensures
        v.unseen(b) <= v.unseen(a),
{
    let d = v.layers.dom();
    vstd::set_lib::lemma_len_subset(d.difference(b), d.difference(a));
}

/// Having met one more layer leaves fewer unmet.
pub proof fn lemma_unseen_less(v: DocView, a: Set<LayerId>, b: Set<LayerId>, id: LayerId)
    requires
        v.layers.dom().finite(),
        a.subset_of(b),
        !a.contains(id),
        b.contains(id),
        v.has(id),
    ensures
        v.unseen(b) < v.unseen(a),
{
    let d = v.layers.dom();
    assert(d.difference(b).subset_of(d.difference(a).remove(id)));
    vstd::set_lib::lemma_len_subset(d.difference(b), d.difference(a).remove(id));
}

/// Every layer of the tree below and with `id`, as it is painted: a group before
/// its children, each with its depth.
///
/// Removed layers are left out with all below them, missing ones too. An error
/// if a layer is met twice.
pub open spec fn paint(v: DocView, id: LayerId, depth: u8, seen: Set<LayerId>) -> Result<
    (Seq<(LayerId, u8)>, Set<LayerId>),
    OgreError,
>
    decreases v.unseen(seen), 0nat,
    when v.layers.dom().finite()
{
    if v.removed.contains(id) {
        Ok((Seq::empty(), seen))
    } else if seen.contains(id) {
        Err(cycle_error())
    } else if !v.has(id) {
        Ok((Seq::empty(), seen.insert(id)))
    } else {
        proof {
            lemma_unseen_less(v, seen, seen.insert(id), id);
        }
        match paint_list(v, v.kids(id), deeper(depth), seen.insert(id)) {
            Err(e) => Err(e),
            Ok(a) => Ok((seq![(id, depth)] + a.0, a.1)),
        }
    }
}

/// The layers of a list as they are painted.
pub open spec fn paint_list(
    v: DocView,
    list: Seq<LayerId>,
    depth: u8,
    seen: Set<LayerId>,
) -> Result<(Seq<(LayerId, u8)>, Set<LayerId>), OgreError>
    decreases v.unseen(seen), 1 + list.len(),
    when v.layers.dom().finite()
{
    if list.len() == 0 {
        Ok((Seq::empty(), seen))
    } else {
        match paint_list(v, list.drop_last(), depth, seen) {
            Err(e) => Err(e),
            Ok(a) => if !seen.subset_of(a.1) {
                Err(cycle_error())
            } else {
                proof {
                    lemma_unseen_no_more(v, seen, a.1);
                }
                match paint(v, list.last(), depth, a.1) {
                    Err(e) => Err(e),
                    Ok(b) => Ok((a.0 + b.0, b.1)),
                }
            },
        }
    }
}

/// One level deeper, up to the deepest level that there is.
pub open spec fn deeper(depth: u8) -> u8 {
    if depth == u8::MAX { u8::MAX } else { (depth + 1) as u8 }
}

/// What a walk met before it still counts as met.
proof fn lemma_walk_grows(v: DocView, id: LayerId, seen: Set<LayerId>)
    requires
        v.layers.dom().finite(),
    ensures
        walk(v, id, seen) matches Ok(a) ==> seen.insert(id).subset_of(a.1),
    decreases v.unseen(seen), 0nat,
{
    if !seen.contains(id) && v.has(id) {
        lemma_unseen_less(v, seen, seen.insert(id), id);
        lemma_walk_list_grows(v, v.kids(id), seen.insert(id));
    }
}

proof fn lemma_walk_list_grows(v: DocView, list: Seq<LayerId>, seen: Set<LayerId>)
    requires
        v.layers.dom().finite(),
    ensures
        walk_list(v, list, seen) matches Ok(a) ==> seen.subset_of(a.1),
    decreases v.unseen(seen), 1 + list.len(),
{
    if list.len() > 0 {
        lemma_walk_list_grows(v, list.drop_last(), seen);
        match walk_list(v, list.drop_last(), seen) {
            Err(e) => {},
            Ok(a) => {
                lemma_unseen_no_more(v, seen, a.1);
                lemma_walk_grows(v, list.last(), a.1);
            },
        }
    }
}

/// An error in a part of a list is the error of the list.
proof fn lemma_walk_list_fails(v: DocView, list: Seq<LayerId>, seen: Set<LayerId>, n: int)
    requires
        v.layers.dom().finite(),
        0 <= n <= list.len(),
        walk_list(v, list.take(n), seen) is Err,
    ensures
        walk_list(v, list, seen) == walk_list(v, list.take(n), seen),
    decreases list.len(),
{
    if n == list.len() {
        assert(list.take(n) =~= list);
    } else {
        assert(list.drop_last().take(n) =~= list.take(n));
        lemma_walk_list_fails(v, list.drop_last(), seen, n);
    }
}

proof fn lemma_paint_grows(v: DocView, id: LayerId, depth: u8, seen: Set<LayerId>)
    requires
        v.layers.dom().finite(),
    ensures
        paint(v, id, depth, seen) matches Ok(a) ==> seen.subset_of(a.1),
    decreases v.unseen(seen), 0nat,
{
    if !seen.contains(id) && v.has(id) {
        lemma_unseen_less(v, seen, seen.insert(id), id);
        lemma_paint_list_grows(v, v.kids(id), deeper(depth), seen.insert(id));
    }
}

proof fn lemma_paint_list_grows(v: DocView, list: Seq<LayerId>, depth: u8, seen: Set<LayerId>)
    requires
        v.layers.dom().finite(),
    ensures
        paint_list(v, list, depth, seen) matches Ok(a) ==> seen.subset_of(a.1),
    decreases v.unseen(seen), 1 + list.len(),
{
    if list.len() > 0 {
        lemma_paint_list_grows(v, list.drop_last(), depth, seen);
        match paint_list(v, list.drop_last(), depth, seen) {
            Err(e) => {},
            Ok(a) => {
                lemma_unseen_no_more(v, seen, a.1);
                lemma_paint_grows(v, list.last(), depth, a.1);
            },
        }
    }
}

proof fn lemma_paint_list_fails(
    v: DocView,
    list: Seq<LayerId>,
    depth: u8,
    seen: Set<LayerId>,
    n: int,
)
    requires
        v.layers.dom().finite(),
        0 <= n <= list.len(),
        paint_list(v, list.take(n), depth, seen) is Err,
    ensures
        paint_list(v, list, depth, seen) == paint_list(v, list.take(n), depth, seen),
    decreases list.len(),
{
    if n == list.len() {
        assert(list.take(n) =~= list);
    } else {
        assert(list.drop_last().take(n) =~= list.take(n));
        lemma_paint_list_fails(v, list.drop_last(), depth, seen, n);
    }
}

impl Document {
    fn collect_descendants(
        &self,
        id: LayerId,
        out: &mut Vec<LayerId>,
        visited: &mut IdSet,
    ) -> (r: Result<(), OgreError>)
        requires
            self.wf(),
        ensures
            match walk(self@, id, old(visited)@) {
                Ok(a) => r is Ok && final(out)@ == old(out)@ + a.0 && final(visited)@ == a.1,
                Err(e) => r == Err::<(), OgreError>(e),
            },
        decreases self@.unseen(old(visited)@),
    {
        let ghost seen0 = visited@;
        let ghost out0 = out@;
        if !visited.insert(id) {
            return Err(OgreError::InvalidOperation("cycle in layer tree"));
        }
        match self.layers.get(id) {
            None => Err(OgreError::LayerNotFound(id)),
            Some(layer) => {
                match &layer.content {
                    LayerContent::Group { children } => {
                        let ghost list = children@;
                        let ghost seen = visited@;
                        let mut i: usize = 0;
                        assert(self@.kids(id) == list);
                        assert(list.take(0) =~= Seq::empty());
                        assert(out@ =~= out0 + Seq::empty());
                        while i < children.len()
                            invariant
                                self.wf(),
                                i <= list.len(),
                                list == children@,
                                self@.has(id),
                                self@.kids(id) == list,
                                seen0 == old(visited)@,
                                out0 == old(out)@,
                                seen == seen0.insert(id),
                                !seen0.contains(id),
                                walk_list(self@, list.take(i as int), seen) matches Ok(a) && out@
                                    == out0 + a.0 && visited@ == a.1,
                            decreases list.len() - i,
                        {
                            let child: LayerId = children[i];
                            let ghost before = out@;
                            let ghost vis = visited@;
                            out.push(child);
                            proof {
                                let t = list.take(i + 1);
                                assert(t.drop_last() =~= list.take(i as int));
                                assert(t.last() == child);
                                lemma_walk_list_grows(self@, list.take(i as int), seen);
                                lemma_unseen_less(self@, seen0, vis, id);
                            }
                            let res = self.collect_descendants(child, out, visited);
                            proof {
                                match walk(self@, child, vis) {
                                    Ok(b) => {
                                        let a = walk_list(self@, list.take(i as int), seen)->Ok_0;
                                        assert(out@ =~= out0 + (a.0.push(child) + b.0));
                                    },
                                    Err(e) => {
                                        lemma_walk_list_fails(self@, list, seen, i + 1);
                                    },
                                }
                            }
                            if let Err(e) = res {
                                return Err(e);
                            }
                            i = i + 1;
                        }
                        assert(list.take(i as int) =~= list);
                        Ok(())
                    },
                    _ => {
                        assert(self@.kids(id) =~= Seq::empty());
                        assert(out@ =~= out0 + Seq::empty());
                        Ok(())
                    },
                }
            },
        }
    }

    /// Return the flattened bottom-to-top render order with nesting depth.
    ///
    /// Groups appear before their children; children are emitted with an
    /// incremented depth. This matches the compositor's depth-first traversal.
    ///
    /// Returns an error if the layer tree contains a cycle.
    pub fn render_order(&self) -> (r: Result<Vec<(LayerId, u8)>, OgreError>)
        requires
            self.wf(),
        ensures
            match paint_list(self@, self@.order, 0, Set::empty()) {
                Ok(a) => r matches Ok(out) && out@ == a.0,
                Err(e) => r matches Err(x) && x == e,
            },
    {
        let mut out: Vec<(LayerId, u8)> = Vec::new();
        let mut visited: IdSet = IdSet::new();
        let mut i: usize = 0;
        let ghost list = self.order@;
        assert(list.take(0) =~= Seq::empty());
        while i < self.order.len()
            invariant
                self.wf(),
                i <= list.len(),
                list == self.order@,
                paint_list(self@, list.take(i as int), 0, Set::empty()) matches Ok(a) && out@ == a.0
                    && visited@ == a.1,
            decreases list.len() - i,
        {
            let ghost before = out@;
            let ghost vis = visited@;
            proof {
                let t = list.take(i + 1);
                assert(t.drop_last() =~= list.take(i as int));
                assert(t.last() == list[i as int]);
                lemma_paint_list_grows(self@, list.take(i as int), 0, Set::empty());
            }
            let res = self.render_order_visit(self.order[i], 0, &mut out, &mut visited);
            proof {
                if paint(self@, list[i as int], 0, vis) is Err {
                    lemma_paint_list_fails(self@, list, 0, Set::empty(), i + 1);
                }
            }
            if let Err(e) = res {
                return Err(e);
            }
            i = i + 1;
        }
        assert(list.take(i as int) =~= list);
        Ok(out)
    }

    fn render_order_visit(
        &self,
        id: LayerId,
        depth: u8,
        out: &mut Vec<(LayerId, u8)>,
        visited: &mut IdSet,
    ) -> (r: Result<(), OgreError>)
        requires
            self.wf(),
        ensures
            match paint(self@, id, depth, old(visited)@) {
                Ok(a) => r is Ok && final(out)@ == old(out)@ + a.0 && final(visited)@ == a.1,
                Err(e) => r == Err::<(), OgreError>(e),
            },
        decreases self@.unseen(old(visited)@),
    {
        let ghost seen0 = visited@;
        let ghost out0 = out@;
        if self.removed.contains(id) {
            assert(out@ =~= out0 + Seq::<(LayerId, u8)>::empty());
            return Ok(());
        }
        if !visited.insert(id) {
            return Err(OgreError::InvalidOperation("cycle in layer tree"));
        }
        match self.layers.get(id) {
            None => {
                assert(out@ =~= out0 + Seq::<(LayerId, u8)>::empty());
                Ok(())
            },
            Some(layer) => {
                out.push((id, depth));
                let ghost out1 = out@;
                assert(out1 =~= out0 + seq![(id, depth)]);
                match &layer.content {
                    LayerContent::Group { children } => {
                        let ghost list = children@;
                        let ghost seen = visited@;
                        let below: u8 = if depth == 255 { 255 } else { depth + 1 };
                        let mut i: usize = 0;
                        assert(self@.kids(id) == list);
                        assert(list.take(0) =~= Seq::empty());
                        assert(out@ =~= out1 + Seq::<(LayerId, u8)>::empty());
                        while i < children.len()
                            invariant
                                self.wf(),
                                i <= list.len(),
                                list == children@,
                                self@.has(id),
                                self@.kids(id) == list,
                                seen0 == old(visited)@,
                                out0 == old(out)@,
                                seen == seen0.insert(id),
                                !seen0.contains(id),
                                !self@.removed.contains(id),
                                below == deeper(depth),
                                paint_list(self@, list.take(i as int), below, seen) matches Ok(a)
                                    && out@ == out1 + a.0 && visited@ == a.1,
                            decreases list.len() - i,
                        {
                            let ghost vis = visited@;
                            let ghost before = out@;
                            proof {
                                let t = list.take(i + 1);
                                assert(t.drop_last() =~= list.take(i as int));
                                assert(t.last() == list[i as int]);
                                lemma_paint_list_grows(self@, list.take(i as int), below, seen);
                                lemma_unseen_less(self@, seen0, vis, id);
                            }
                            let res = self.render_order_visit(children[i], below, out, visited);
                            proof {
                                match paint(self@, list[i as int], below, vis) {
                                    Ok(b) => {
                                        let a = paint_list(
                                            self@,
                                            list.take(i as int),
                                            below,
                                            seen,
                                        )->Ok_0;
                                        assert(out@ =~= out1 + (a.0 + b.0));
                                    },
                                    Err(e) => {
                                        lemma_paint_list_fails(self@, list, below, seen, i + 1);
                                    },
                                }
                            }
                            if let Err(e) = res {
                                return Err(e);
                            }
                            i = i + 1;
                        }
                        assert(list.take(i as int) =~= list);
                        proof {
                            let a = paint_list(self@, list, below, seen)->Ok_0;
                            assert(out@ =~= out0 + (seq![(id, depth)] + a.0));
                        }
                        Ok(())
                    },
                    _ => {
                        assert(self@.kids(id) =~= Seq::empty());
                        assert(out@ =~= out0 + (seq![(id, depth)] + Seq::<(LayerId, u8)>::empty()));
                        Ok(())
                    },
                }
            },
        }
    }
}

/// Writing a layer back unchanged changes nothing.
pub proof fn lemma_same_layer(v: DocView, id: LayerId)
    ensures
        v.has(id) ==> v.with_layer(id, v.layers[id]) == v,
{
    if v.has(id) {
        assert(v.layers.insert(id, v.layers[id]) =~= v.layers);
    }
}

/// Where an identifier goes when it is put at `index` of a list.
pub open spec fn put_at(list: Seq<LayerId>, index: int, id: LayerId) -> Seq<LayerId> {
    list.insert(if index <= list.len() { index } else { list.len() as int }, id)
}

/// Why an identifier cannot be put into the list of `parent`.
pub open spec fn list_error(v: DocView, parent: Option<LayerId>) -> Option<OgreError> {
    match parent {
        Some(p) => if !v.has(p) {
            Some(OgreError::LayerNotFound(p))
        } else if !v.is_group(p) {
            Some(OgreError::InvalidOperation("parent must be a group"))
        } else {
            None
        },
        None => None,
    }
}

/// Why the identifier at `index` of the list of `parent` cannot be taken out.
pub open spec fn take_error(v: DocView, parent: Option<LayerId>, index: int) -> Option<OgreError> {
    match list_error(v, parent) {
        Some(e) => Some(e),
        None => if index >= v.list(parent).len() {
            Some(OgreError::InvalidOperation("sibling index out of range"))
        } else {
            None
        },
    }
}

impl Document {
    /// Return the parent of `id`, or `None` if it is a root layer.
    ///
    /// Soft-removed parents are ignored, so a layer inside a deleted subtree
    /// appears as an orphan.
    pub fn parent_of(&self, id: LayerId) -> (r: Option<LayerId>)
        requires
            self.wf(),
        ensures
            r matches Some(p) ==> self@.is_parent(p, id),
            r is None ==> forall|p: LayerId| !(#[trigger] self@.is_parent(p, id)),
    {
        let keys: Vec<LayerId> = self.layers.keys();
        let mut i: usize = 0;
        while i < keys.len()
            invariant
                self.wf(),
                i <= keys@.len(),
                forall|k: LayerId| #[trigger] keys@.contains(k) <==> self@.has(k),
                forall|j: int| 0 <= j < i ==> !self@.is_parent(#[trigger] keys@[j], id),
            decreases keys@.len() - i,
        {
            let k: LayerId = keys[i];
            assert(keys@.contains(k));
            if !self.removed.contains(k) {
                if let Some(layer) = self.layers.get(k) {
                    if let LayerContent::Group { children } = &layer.content {
                        if lists(children, id) {
                            return Some(k);
                        }
                    }
                }
            }
            i = i + 1;
        }
        proof {
            assert forall|p: LayerId| !(#[trigger] self@.is_parent(p, id)) by {
                if self@.is_parent(p, id) {
                    assert(keys@.contains(p));
                    let j = choose|j: int| 0 <= j < keys@.len() && keys@[j] == p;
                    assert(!self@.is_parent(keys@[j], id));
                }
            }
        }
        None
    }

    /// Return the sibling list that contains `id`.
    ///
    /// Returns `None` if the layer does not exist in the tree or has been soft-removed.
    pub fn siblings(&self, id: LayerId) -> (r: Option<&Vec<LayerId>>)
        requires
            self.wf(),
        ensures
            r is Some <==> self@.placed(id),
            r matches Some(list) ==> list@.contains(id) && exists|parent: Option<LayerId>, i: int|
                #[trigger]
                self@.sits_at(id, parent, i) && list@ == self@.list(parent),
    {
        let (parent, index): (Option<LayerId>, usize) = match self.sibling_index(id) {
            Some(place) => place,
            None => {
                return None;
            },
        };
        assert(self@.sits_at(id, parent, index as int));
        assert(self@.list(parent)[index as int] == id);
        if let Some(p) = parent {
            assert(self@.is_parent(p, id));
            if let Some(layer) = self.layers.get(p) {
                if let LayerContent::Group { children } = &layer.content {
                    return Some(children);
                }
            }
        }
        Some(&self.order)
    }

    /// Return `(parent, index)` for `id` within its sibling list, or `None`
    /// if the layer is not present (or soft-removed). A root-level layer
    /// returns `(None, index_into_order)`.
    pub fn sibling_index(&self, id: LayerId) -> (r: Option<(Option<LayerId>, usize)>)
        requires
            self.wf(),
        ensures
            r is Some <==> self@.placed(id),
            r matches Some(x) ==> self@.sits_at(id, x.0, x.1 as int) && x.1 < usize::MAX,
    {
        if !self.layers.contains_key(id) || self.removed.contains(id) {
            return None;
        }
        if let Some(parent) = self.parent_of(id) {
            if let Some(layer) = self.layers.get(parent) {
                if let LayerContent::Group { children } = &layer.content {
                    match position(children, id) {
                        Some(i) => {
                            return Some((Some(parent), i));
                        },
                        None => {
                            return None;
                        },
                    }
                }
            }
        }
        match position(&self.order, id) {
            Some(i) => Some((None, i)),
            None => None,
        }
    }

    fn sibling_list_len(&self, parent: Option<LayerId>) -> (r: Option<usize>)
        requires
            self.wf(),
        ensures
            r is Some <==> (parent matches Some(p) ==> self@.has(p)),
            r matches Some(n) ==> n == self@.list(parent).len(),
    {
        match parent {
            Some(pid) => match self.layers.get(pid) {
                Some(layer) => match &layer.content {
                    LayerContent::Group { children } => Some(children.len()),
                    _ => Some(0),
                },
                None => None,
            },
            None => Some(self.order.len()),
        }
    }

    /// Put `id` at `index` of the children of `parent`, or of the root z-order.
    pub(crate) fn insert_into_siblings(
        &mut self,
        parent: Option<LayerId>,
        index: usize,
        id: LayerId,
    ) -> (r: Result<(), OgreError>)
        requires
            old(self).wf(),
        ensures
            final(self).wf(),
            final(self).used() <= old(self).used(),
            match list_error(old(self)@, parent) {
                Some(e) => r == Err::<(), OgreError>(e) && final(self)@ == old(self)@,
                None => r is Ok && final(self)@ == old(self)@.with_list(
                    parent,
                    put_at(old(self)@.list(parent), index as int, id),
                ),
            },
    {
        proof {
            if let Some(p) = parent {
                lemma_same_layer(self@, p);
            }
        }
        match parent {
            Some(pid) => match self.layer_mut(pid) {
                Ok(layer) => match &mut layer.content {
                    LayerContent::Group { children } => {
                        let n: usize = children.len();
                        children.insert(if index <= n { index } else { n }, id);
                        Ok(())
                    },
                    _ => Err(OgreError::InvalidOperation("parent must be a group")),
                },
                Err(e) => Err(e),
            },
            None => {
                let n: usize = self.order.len();
                self.order.insert(if index <= n { index } else { n }, id);
                Ok(())
            },
        }
    }

    fn remove_from_siblings(&mut self, parent: Option<LayerId>, index: usize) -> (r: Result<
        (),
        OgreError,
    >)
        requires
            old(self).wf(),
        ensures
            final(self).wf(),
            final(self).used() <= old(self).used(),
            match take_error(old(self)@, parent, index as int) {
                Some(e) => r == Err::<(), OgreError>(e) && final(self)@ == old(self)@,
                None => r is Ok && final(self)@ == old(self)@.with_list(
                    parent,
                    old(self)@.list(parent).remove(index as int),
                ),
            },
    {
        proof {
            if let Some(p) = parent {
                lemma_same_layer(self@, p);
            }
        }
        match parent {
            Some(pid) => match self.layer_mut(pid) {
                Ok(layer) => match &mut layer.content {
                    LayerContent::Group { children } => {
                        if index >= children.len() {
                            Err(OgreError::InvalidOperation("sibling index out of range"))
                        } else {
                            children.remove(index);
                            Ok(())
                        }
                    },
                    _ => Err(OgreError::InvalidOperation("parent must be a group")),
                },
                Err(e) => Err(e),
            },
            None => {
                if index >= self.order.len() {
                    Err(OgreError::InvalidOperation("sibling index out of range"))
                } else {
                    self.order.remove(index);
                    Ok(())
                }
            },
        }
    }
}

/// The document after a layer with new identifier `id` was put on top and made
/// active.
pub open spec fn with_new_top(v: DocView, id: LayerId, l: LayerView) -> DocView {
    DocView {
        layers: v.layers.insert(id, LayerView { id, ..l }),
        order: v.order.push(id),
        active: Some(id),
        ..v
    }
}

/// The document after `id` moved within the list of `parent` from `from` to
/// `to`.
pub open spec fn moved_in_list(
    v: DocView,
    id: LayerId,
    parent: Option<LayerId>,
    from: int,
    to: int,
) -> DocView {
    v.with_list(parent, v.list(parent).remove(from).insert(to, id))
}

/// The place that an index names in a list: the last one if it is too large.
pub open spec fn last_or(index: int, len: int) -> int {
    if index < len { index } else { len - 1 }
}

/// Why `id` cannot be moved into `group`.
pub open spec fn move_error(v: DocView, id: LayerId, group: LayerId) -> Option<OgreError> {
    if id == group {
        Some(OgreError::InvalidOperation("cannot move a layer into itself"))
    } else if !v.has(id) {
        Some(OgreError::LayerNotFound(id))
    } else if !v.has(group) {
        Some(OgreError::LayerNotFound(group))
    } else if v.removed.contains(group) {
        Some(OgreError::InvalidOperation("target layer is removed"))
    } else if !v.is_group(group) {
        Some(OgreError::InvalidOperation("target layer is not a group"))
    } else {
        match walk(v, id, Set::empty()) {
            Err(e) => Some(e),
            Ok(a) => if a.0.contains(group) {
                Some(OgreError::InvalidOperation("cannot move a layer into its own descendant"))
            } else if !v.placed(id) {
                Some(OgreError::LayerNotFound(id))
            } else {
                None
            },
        }
    }
}

/// The document after `id`, at position `from` of the list of `parent`, moved
/// into `group`.
pub open spec fn moved_into(
    v: DocView,
    id: LayerId,
    parent: Option<LayerId>,
    from: int,
    group: LayerId,
    index: int,
) -> DocView {
    let w = v.with_list(parent, v.list(parent).remove(from));
    w.with_list(Some(group), put_at(w.kids(group), index, id))
}

/// Why `id` and all below it cannot be taken out.
pub open spec fn subtree_error(v: DocView, id: LayerId) -> Option<OgreError> {
    if !v.has(id) {
        Some(OgreError::LayerNotFound(id))
    } else {
        match walk(v, id, Set::empty()) {
            Err(e) => Some(e),
            Ok(a) => None,
        }
    }
}

/// Every layer below `id`, and `id` itself last.
pub open spec fn subtree(v: DocView, id: LayerId) -> Seq<LayerId> {
    match walk(v, id, Set::empty()) {
        Ok(a) => a.0.push(id),
        Err(e) => seq![id],
    }
}

/// `w` is the document with `id` no longer in its sibling list, if it was in one.
pub open spec fn unlisted(v: DocView, id: LayerId, w: DocView) -> bool {
    if v.placed(id) {
        exists|parent: Option<LayerId>, i: int| #[trigger]
            v.sits_at(id, parent, i) && w == v.with_list(parent, v.list(parent).remove(i))
    } else {
        w == v
    }
}

/// The place of `id` in the tree, if it has one.
pub open spec fn is_place_of(v: DocView, id: LayerId, place: Option<(Option<LayerId>, usize)>) -> bool {
    &&& place is Some <==> v.placed(id)
    &&& place matches Some(at) ==> v.sits_at(id, at.0, at.1 as int)
}

/// The document without what stands at a place.
pub open spec fn vacated(v: DocView, place: Option<(Option<LayerId>, usize)>) -> DocView {
    match place {
        Some(at) => v.with_list(at.0, v.list(at.0).remove(at.1 as int)),
        None => v,
    }
}

/// The active layer, unless it is one of `ids`.
pub open spec fn active_outside(v: DocView, ids: Seq<LayerId>) -> Option<LayerId> {
    match v.active {
        Some(a) => if ids.contains(a) { None } else { Some(a) },
        None => None,
    }
}

impl Document {
    fn add_on_top(&mut self, layer: Layer) -> (id: LayerId)
        requires
            old(self).wf(),
            layer.wf(),
            old(self).room(1),
        ensures
            final(self).wf(),
            !old(self)@.has(id),
            id != LayerId::null_spec(),
            final(self)@ == with_new_top(old(self)@, id, layer@),
            final(self).used() == old(self).used() + 1,
    {
        let id: LayerId = self.add_layer(layer);
        self.order.push(id);
        self.active = Some(id);
        id
    }

    /// Add a new empty raster layer on top of the root stack.
    ///
    /// The new layer becomes the active layer.
    pub fn add_raster_layer(&mut self, name: &str) -> (id: LayerId)
        requires
            old(self).wf(),
            old(self).room(1),
        ensures
            final(self).wf(),
            !old(self)@.has(id),
            id != LayerId::null_spec(),
            final(self)@ == with_new_top(
                old(self)@,
                id,
                fresh_layer(name@, ContentView::Raster { buffer: Map::empty(), mask: None }),
            ),
            final(self).used() == old(self).used() + 1,
    {
        self.add_on_top(Layer::new_raster(name))
    }

    /// Add a new adjustment layer on top of the root stack.
    ///
    /// The new layer becomes the active layer.
    pub fn add_adjustment_layer(&mut self, name: &str, kind: AdjustmentKind) -> (id: LayerId)
        requires
            old(self).wf(),
            old(self).room(1),
        ensures
            final(self).wf(),
            !old(self)@.has(id),
            id != LayerId::null_spec(),
            final(self)@ == with_new_top(
                old(self)@,
                id,
                fresh_layer(name@, ContentView::Adjustment(kind)),
            ),
            final(self).used() == old(self).used() + 1,
    {
        self.add_on_top(Layer::new_adjustment(name, kind))
    }

    /// Add a new vector layer on top of the root stack.
    ///
    /// The new layer becomes the active layer.
    pub fn add_vector_layer(&mut self, name: &str, data: VectorData) -> (id: LayerId)
        requires
            old(self).wf(),
            data.wf(),
            old(self).room(1),
        ensures
            final(self).wf(),
            !old(self)@.has(id),
            id != LayerId::null_spec(),
            final(self)@ == with_new_top(
                old(self)@,
                id,
                fresh_layer(name@, ContentView::Vector(data@)),
            ),
            final(self).used() == old(self).used() + 1,
    {
        self.add_on_top(Layer::new_vector(name, data))
    }

    /// Move `id` to `new_index` within its current sibling list.
    ///
    /// `new_index` is clamped to the valid final-index range for that list,
    /// so passing a very large value moves the layer to the end of its sibling
    /// list.
    pub fn reorder(&mut self, id: LayerId, new_index: usize) -> (r: Result<(), OgreError>)
        requires
            old(self).wf(),
        ensures
            final(self).wf(),
            final(self).used() <= old(self).used(),
            r is Ok <==> old(self)@.placed(id),
            r matches Err(e) ==> e == OgreError::LayerNotFound(id) && final(self)@ == old(self)@,
            r is Ok ==> exists|parent: Option<LayerId>, i: int| #[trigger]
                old(self)@.sits_at(id, parent, i) && final(self)@ == moved_in_list(
                    old(self)@,
                    id,
                    parent,
                    i,
                    last_or(new_index as int, old(self)@.list(parent).len() as int),
                ),
    {
        let ghost v = self@;
        let (parent, current) = match self.sibling_index(id) {
            Some(x) => x,
            None => {
                return Err(OgreError::LayerNotFound(id));
            },
        };
        let list_len: usize = match self.sibling_list_len(parent) {
            Some(n) => n,
            None => {
                return Err(OgreError::LayerNotFound(id));
            },
        };
        let target: usize = if new_index < list_len { new_index } else { list_len - 1 };
        let ghost list = v.list(parent);
        if current == target {
            proof {
                assert(list.remove(current as int).insert(target as int, id) =~= list);
                if let Some(p) = parent {
                    lemma_same_layer(v, p);
                }
                assert(self@ == moved_in_list(v, id, parent, current as int, target as int));
            }
            return Ok(());
        }
        let a = self.remove_from_siblings(parent, current);
        let ghost w = self@;
        proof {
            assert(w.list(parent) == list.remove(current as int));
        }
        let b = self.insert_into_siblings(parent, target, id);
        proof {
            if let Some(p) = parent {
                assert(self@.layers =~= moved_in_list(
                    v,
                    id,
                    parent,
                    current as int,
                    target as int,
                ).layers);
            }
            assert(self@ == moved_in_list(v, id, parent, current as int, target as int));
        }
        Ok(())
    }

    /// Move `id` into `group` at `index` within the group's children.
    ///
    /// `index` is clamped to the valid range. Moving a group into itself or
    /// into one of its descendants is rejected with an error.
    pub fn move_into_group(&mut self, id: LayerId, group: LayerId, index: usize) -> (r: Result<
        (),
        OgreError,
    >)
        requires
            old(self).wf(),
        ensures
            final(self).wf(),
            final(self).used() <= old(self).used(),
            match move_error(old(self)@, id, group) {
                Some(e) => r == Err::<(), OgreError>(e) && final(self)@ == old(self)@,
                None => r is Ok && exists|parent: Option<LayerId>, i: int| #[trigger]
                    old(self)@.sits_at(id, parent, i) && final(self)@ == moved_into(
                        old(self)@,
                        id,
                        parent,
                        i,
                        group,
                        index as int,
                    ),
            },
    {
        let ghost v = self@;
        if id == group {
            return Err(OgreError::InvalidOperation("cannot move a layer into itself"));
        }
        if !self.layers.contains_key(id) {
            return Err(OgreError::LayerNotFound(id));
        }
        match self.layers.get(group) {
            None => {
                return Err(OgreError::LayerNotFound(group));
            },
            Some(layer) => {
                if self.removed.contains(group) {
                    return Err(OgreError::InvalidOperation("target layer is removed"));
                }
                match &layer.content {
                    LayerContent::Group { .. } => {},
                    _ => {
                        return Err(OgreError::InvalidOperation("target layer is not a group"));
                    },
                }
            },
        }
        // Prevent cycles: the group must not be a descendant of `id`.
        let mut descendants: Vec<LayerId> = Vec::new();
        let mut visited: IdSet = IdSet::new();
        match self.collect_descendants(id, &mut descendants, &mut visited) {
            Err(e) => {
                return Err(e);
            },
            Ok(_) => {},
        }
        assert(descendants@ =~= walk(v, id, Set::empty())->Ok_0.0);
        if lists(&descendants, group) {
            return Err(OgreError::InvalidOperation("cannot move a layer into its own descendant"));
        }
        let (parent, current) = match self.sibling_index(id) {
            Some(x) => x,
            None => {
                return Err(OgreError::LayerNotFound(id));
            },
        };
        let a = self.remove_from_siblings(parent, current);
        assert(self@.is_group(group));
        let b = self.insert_into_siblings(Some(group), index, id);
        assert(self@ == moved_into(v, id, parent, current as int, group, index as int));
        Ok(())
    }

    /// The layers below `id`, and `id` last.
    fn collect_subtree(&self, id: LayerId) -> (r: Result<Vec<LayerId>, OgreError>)
        requires
            self.wf(),
        ensures
            match subtree_error(self@, id) {
                Some(e) => r matches Err(x) && x == e,
                None => r matches Ok(out) && out@ == subtree(self@, id),
            },
    {
        if !self.layers.contains_key(id) {
            return Err(OgreError::LayerNotFound(id));
        }
        let mut out: Vec<LayerId> = Vec::new();
        let mut visited: IdSet = IdSet::new();
        match self.collect_descendants(id, &mut out, &mut visited) {
            Err(e) => Err(e),
            Ok(_) => {
                assert(out@ =~= walk(self@, id, Set::empty())->Ok_0.0);
                out.push(id);
                Ok(out)
            },
        }
    }

    /// Take `id` out of its sibling list, and clear the active layer if it is
    /// one of `ids`.
    fn unlist(&mut self, id: LayerId, place: Option<(Option<LayerId>, usize)>, ids: &Vec<LayerId>)
        requires
            old(self).wf(),
            is_place_of(old(self)@, id, place),
        ensures
            final(self).wf(),
            final(self).used() <= old(self).used(),
            unlisted(old(self)@, id, vacated(old(self)@, place)),
            final(self)@ == (DocView {
                active: active_outside(old(self)@, ids@),
                ..vacated(old(self)@, place)
            }),
    {
        let ghost v = self@;
        if let Some((parent, idx)) = place {
            assert(v.sits_at(id, parent, idx as int));
            let a = self.remove_from_siblings(parent, idx);
        }
        if let Some(a) = self.active {
            if lists(ids, a) {
                self.active = None;
            }
        }
    }

    /// Remove a layer (and all of its descendants, if it is a group) from the
    /// document.
    ///
    /// Returns the removed layer. If the active layer is removed, it is cleared.
    /// Deletion that can be undone goes through a delete command, which keeps
    /// layer identifiers stable.
    pub fn remove_layer(&mut self, id: LayerId) -> (r: Result<Layer, OgreError>)
        requires
            old(self).wf(),
        ensures
            final(self).wf(),
            final(self).used() <= old(self).used(),
            match subtree_error(old(self)@, id) {
                Some(e) => r matches Err(x) && x == e && final(self)@ == old(self)@,
                None => r matches Ok(l) && l.wf() && l@ == old(self)@.layers[id] && exists|
                    w: DocView,
                | #[trigger]
                    unlisted(old(self)@, id, w) && final(self)@ == dropped(
                        w,
                        subtree(old(self)@, id),
                        active_outside(old(self)@, subtree(old(self)@, id)),
                    ),
            },
    {
        let ghost v = self@;
        let ids: Vec<LayerId> = match self.collect_subtree(id) {
            Ok(ids) => ids,
            Err(e) => {
                return Err(e);
            },
        };
        let place: Option<(Option<LayerId>, usize)> = self.sibling_index(id);
        self.unlist(id, place, &ids);
        let ghost w = vacated(v, place);
        proof {
            lemma_unlisted_keeps(v, id, w);
            lemma_walk_facts(v, id, Set::empty());
        }
        self.removed.remove(id);
        let taken = self.layers.remove(id);
        let layer: Layer = match taken {
            Some(l) => l,
            None => {
                assert(false);
                return Err(OgreError::LayerNotFound(id));
            },
        };
        let ghost act = active_outside(v, ids@);
        let n: usize = ids.len() - 1;
        let mut i: usize = 0;
        proof {
            let one = ids@.take(0).push(id);
            assert(one =~= seq![id]);
            assert(forall|x: LayerId| #[trigger] one.to_set().contains(x) <==> x == id) by {
                assert(one[0] == id);
            }
            assert(self@.layers =~= w.layers.remove_keys(one.to_set()));
            assert(self@.removed =~= w.removed.difference(one.to_set()));
        }
        while i < n
            invariant
                self.layers.wf(),
                self.selection.wf(),
                self@.ids_agree(),
                n == ids@.len() - 1,
                i <= n,
                self.used() <= old(self).used(),
                w.ids_agree(),
                self@ == (DocView {
                    active: act,
                    layers: w.layers.remove_keys(ids@.take(i as int).push(id).to_set()),
                    removed: w.removed.difference(ids@.take(i as int).push(id).to_set()),
                    ..w
                }),
            decreases n - i,
        {
            let rid: LayerId = ids[i];
            let ghost before = self@;
            self.removed.remove(rid);
            let gone = self.layers.remove(rid);
            proof {
                let s0 = ids@.take(i as int).push(id).to_set();
                let s1 = ids@.take(i + 1).push(id).to_set();
                lemma_push_push(ids@, i as int, id);
                assert(self@.layers =~= w.layers.remove_keys(s1));
                assert(self@.removed =~= w.removed.difference(s1));
            }
            i = i + 1;
        }
        proof {
            assert(ids@.take(n as int).push(id) =~= ids@);
        }
        Ok(layer)
    }

    /// Soft-remove a layer subtree from the tree while keeping it in the arena.
    ///
    /// The returned vector contains every layer id that became removed, in the
    /// order collected (descendants first, then `id`).
    pub fn remove_layer_soft(&mut self, id: LayerId) -> (r: Result<Vec<LayerId>, OgreError>)
        requires
            old(self).wf(),
        ensures
            final(self).wf(),
            final(self).used() <= old(self).used(),
            match subtree_error(old(self)@, id) {
                Some(e) => r matches Err(x) && x == e && final(self)@ == old(self)@,
                None => r matches Ok(ids) && ids@ == subtree(old(self)@, id) && exists|w: DocView| #[trigger]
                    unlisted(old(self)@, id, w) && final(self)@ == (DocView {
                        active: active_outside(old(self)@, ids@),
                        removed: w.removed.union(ids@.to_set()),
                        ..w
                    }),
            },
    {
        let place: Option<(Option<LayerId>, usize)> = self.sibling_index(id);
        self.remove_soft_at(id, place)
    }

    /// Soft-remove a layer subtree whose root stands at `place`, as
    /// [`Document::remove_layer_soft`] does.
    pub(crate) fn remove_soft_at(
        &mut self,
        id: LayerId,
        place: Option<(Option<LayerId>, usize)>,
    ) -> (r: Result<Vec<LayerId>, OgreError>)
        requires
            old(self).wf(),
            is_place_of(old(self)@, id, place),
        ensures
            final(self).wf(),
            final(self).used() <= old(self).used(),
            match subtree_error(old(self)@, id) {
                Some(e) => r matches Err(x) && x == e && final(self)@ == old(self)@,
                None => r matches Ok(ids) && ids@ == subtree(old(self)@, id) && unlisted(
                    old(self)@,
                    id,
                    vacated(old(self)@, place),
                ) && final(self)@ == (DocView {
                    active: active_outside(old(self)@, ids@),
                    removed: old(self)@.removed.union(ids@.to_set()),
                    ..vacated(old(self)@, place)
                }),
            },
    {
        let ghost v = self@;
        let ids: Vec<LayerId> = match self.collect_subtree(id) {
            Ok(ids) => ids,
            Err(e) => {
                return Err(e);
            },
        };
        self.unlist(id, place, &ids);
        let ghost w = vacated(v, place);
        let ghost act = active_outside(v, ids@);
        let mut i: usize = 0;
        assert(self@.removed =~= w.removed.union(ids@.take(0).to_set()));
        while i < ids.len()
            invariant
                self.layers.wf(),
                self.selection.wf(),
                self@.ids_agree(),
                i <= ids@.len(),
                self.used() <= old(self).used(),
                self@ == (DocView {
                    active: act,
                    removed: w.removed.union(ids@.take(i as int).to_set()),
                    ..w
                }),
            decreases ids@.len() - i,
        {
            let fresh: bool = self.removed.insert(ids[i]);
            proof {
                lemma_take_set(ids@, i as int);
                assert(self@.removed =~= w.removed.union(ids@.take(i + 1).to_set()));
            }
            i = i + 1;
        }
        assert(ids@.take(i as int) =~= ids@);
        Ok(ids)
    }

    /// Restore a soft-removed layer subtree to the tree.
    pub fn restore_layer_soft(
        &mut self,
        parent: Option<LayerId>,
        index: usize,
        id: LayerId,
        ids: &Vec<LayerId>,
    )
        requires
            old(self).wf(),
        ensures
            final(self).wf(),
            final(self).used() <= old(self).used(),
            final(self)@ == restored(old(self)@, parent, index as int, id, ids@),
    {
        let ghost v = self@;
        let a = self.insert_into_siblings(parent, index, id);
        let ghost w = self@;
        let mut i: usize = 0;
        assert(self@.removed =~= w.removed.difference(ids@.take(0).to_set()));
        while i < ids.len()
            invariant
                self.layers.wf(),
                self.selection.wf(),
                self@.ids_agree(),
                i <= ids@.len(),
                self.used() <= old(self).used(),
                self@ == (DocView {
                    removed: w.removed.difference(ids@.take(i as int).to_set()),
                    ..w
                }),
            decreases ids@.len() - i,
        {
            self.removed.remove(ids[i]);
            proof {
                lemma_take_set(ids@, i as int);
                assert(self@.removed =~= w.removed.difference(ids@.take(i + 1).to_set()));
            }
            i = i + 1;
        }
        assert(ids@.take(i as int) =~= ids@);
    }
}

/// The document without the layers `ids`, and with another active layer.
pub open spec fn dropped(w: DocView, ids: Seq<LayerId>, active: Option<LayerId>) -> DocView {
    DocView {
        active,
        layers: w.layers.remove_keys(ids.to_set()),
        removed: w.removed.difference(ids.to_set()),
        ..w
    }
}

/// The document with `id` back in the list of `parent`, if that is a list, and
/// `ids` no longer removed.
pub open spec fn restored(
    v: DocView,
    parent: Option<LayerId>,
    index: int,
    id: LayerId,
    ids: Seq<LayerId>,
) -> DocView {
    let w = if list_error(v, parent) is None {
        v.with_list(parent, put_at(v.list(parent), index, id))
    } else {
        v
    };
    DocView { removed: w.removed.difference(ids.to_set()), ..w }
}

proof fn lemma_take_set(s: Seq<LayerId>, i: int)
    requires
        0 <= i < s.len(),
    ensures
        s.take(i + 1).to_set() == s.take(i).to_set().insert(s[i]),
{
    let a = s.take(i + 1);
    let b = s.take(i);
    assert forall|x: LayerId| #[trigger] a.to_set().contains(x) <==> b.to_set().insert(
        s[i],
    ).contains(x) by {
        if a.contains(x) {
            let j = choose|j: int| 0 <= j < a.len() && a[j] == x;
            if j < i {
                assert(b[j] == x);
            }
        }
        if b.contains(x) {
            let j = choose|j: int| 0 <= j < b.len() && b[j] == x;
            assert(a[j] == x);
        }
        assert(a[i] == s[i]);
    }
    assert(a.to_set() =~= b.to_set().insert(s[i]));
}

proof fn lemma_push_push(s: Seq<LayerId>, i: int, id: LayerId)
    requires
        0 <= i < s.len(),
    ensures
        s.take(i + 1).push(id).to_set() == s.take(i).push(id).to_set().insert(s[i]),
{
    let a = s.take(i + 1).push(id);
    let b = s.take(i).push(id);
    assert forall|x: LayerId| #[trigger] a.to_set().contains(x) <==> b.to_set().insert(
        s[i],
    ).contains(x) by {
        if a.contains(x) {
            let j = choose|j: int| 0 <= j < a.len() && a[j] == x;
            if j < i {
                assert(b[j] == x);
            } else if j == i + 1 {
                assert(b[i] == x);
            }
        }
        if b.contains(x) {
            let j = choose|j: int| 0 <= j < b.len() && b[j] == x;
            if j < i {
                assert(a[j] == x);
            } else {
                assert(a[i + 1] == x);
            }
        }
        assert(a[i] == s[i]);
    }
    assert(a.to_set() =~= b.to_set().insert(s[i]));
}

/// Taking `id` out of its list keeps the layers and who they are.
proof fn lemma_unlisted_keeps(v: DocView, id: LayerId, w: DocView)
    requires
        v.ids_agree(),
        unlisted(v, id, w),
    ensures
        w.ids_agree(),
        w.layers.dom() == v.layers.dom(),
        !v.kids(id).contains(id) ==> w.layers[id] == v.layers[id],
{
    if v.placed(id) {
        let (parent, i) = choose|parent: Option<LayerId>, i: int| #[trigger]
            v.sits_at(id, parent, i) && w == v.with_list(parent, v.list(parent).remove(i));
        assert(w.layers.dom() =~= v.layers.dom());
    }
}

/// Taking a subtree out softly and restoring it at the same place gives the
/// document back, but for the active layer.
pub proof fn soft_removal_is_undone_by_restoring(
    v: DocView,
    id: LayerId,
    parent: Option<LayerId>,
    i: int,
    ids: Seq<LayerId>,
    active: Option<LayerId>,
)
    requires
        v.sits_at(id, parent, i),
        v.removed.disjoint(ids.to_set()),
    ensures
        ({
            let w = v.with_list(parent, v.list(parent).remove(i));
            let gone = DocView { active, removed: w.removed.union(ids.to_set()), ..w };
            restored(gone, parent, i, id, ids) == (DocView { active, ..v })
        }),
{
    let w = v.with_list(parent, v.list(parent).remove(i));
    let gone = DocView { active, removed: w.removed.union(ids.to_set()), ..w };
    let back = restored(gone, parent, i, id, ids);
    assert(v.list(parent).remove(i).insert(i, id) =~= v.list(parent));
    assert(back.removed =~= v.removed);
    assert(list_error(gone, parent) is None);
    assert(gone.list(parent) == v.list(parent).remove(i));
    match parent {
        Some(p) => {
            assert(v.layers[p].content == ContentView::Group(v.kids(p)));
            assert(back.layers =~= v.layers);
        },
        None => {
            assert(back.order =~= v.order);
        },
    }
}

/// What a walk that succeeds has met.
pub proof fn lemma_walk_facts(v: DocView, id: LayerId, seen: Set<LayerId>)
    requires
        v.layers.dom().finite(),
        walk(v, id, seen) is Ok,
    ensures
        ({
            let a = walk(v, id, seen)->Ok_0;
            &&& v.has(id)
            &&& forall|x: LayerId| #[trigger]
                a.1.contains(x) <==> seen.contains(x) || x == id || a.0.contains(x)
            &&& forall|x: LayerId| #[trigger]
                a.0.contains(x) ==> !seen.contains(x) && x != id && v.has(x)
            &&& a.0.no_duplicates()
            &&& forall|x: LayerId| #[trigger] v.kids(id).contains(x) ==> a.0.contains(x)
            &&& forall|x: LayerId, y: LayerId|
                #![trigger a.0.contains(x), v.kids(x).contains(y)]
                a.0.contains(x) && v.kids(x).contains(y) ==> a.0.contains(y)
        }),
    decreases v.unseen(seen), 0nat,
{
    lemma_unseen_less(v, seen, seen.insert(id), id);
    lemma_walk_list_facts(v, v.kids(id), seen.insert(id));
}

proof fn lemma_walk_list_facts(v: DocView, list: Seq<LayerId>, seen: Set<LayerId>)
    requires
        v.layers.dom().finite(),
        walk_list(v, list, seen) is Ok,
    ensures
        ({
            let a = walk_list(v, list, seen)->Ok_0;
            &&& forall|x: LayerId| #[trigger]
                a.1.contains(x) <==> seen.contains(x) || a.0.contains(x)
            &&& forall|x: LayerId| #[trigger] a.0.contains(x) ==> !seen.contains(x) && v.has(x)
            &&& a.0.no_duplicates()
            &&& forall|x: LayerId| #[trigger] list.contains(x) ==> a.0.contains(x)
            &&& forall|x: LayerId, y: LayerId|
                #![trigger a.0.contains(x), v.kids(x).contains(y)]
                a.0.contains(x) && v.kids(x).contains(y) ==> a.0.contains(y)
        }),
    decreases v.unseen(seen), 1 + list.len(),
{
    if list.len() > 0 {
        let c = list.last();
        lemma_walk_list_facts(v, list.drop_last(), seen);
        lemma_walk_list_grows(v, list.drop_last(), seen);
        let a = walk_list(v, list.drop_last(), seen)->Ok_0;
        lemma_unseen_no_more(v, seen, a.1);
        lemma_walk_facts(v, c, a.1);
        let b = walk(v, c, a.1)->Ok_0;
        let out = a.0.push(c) + b.0;
        assert forall|x: LayerId| #[trigger] out.contains(x) <==> a.0.contains(x) || x == c
            || b.0.contains(x) by {
            lemma_contains_parts(a.0, c, b.0, x);
        }
        assert forall|x: LayerId| #[trigger] list.contains(x) implies out.contains(x) by {
            let j = choose|j: int| 0 <= j < list.len() && list[j] == x;
            if j < list.len() - 1 {
                assert(list.drop_last()[j] == x);
                assert(list.drop_last().contains(x));
            }
        }
        assert(a.1.contains(c) ==> false) by {
            if a.1.contains(c) {
                assert(walk(v, c, a.1) is Err);
            }
        }
        assert forall|i: int, j: int| 0 <= i < j < out.len() implies out[i] != out[j] by {
            let n = a.0.len();
            if j < n {
                assert(a.0[i] != a.0[j]);
            } else if j == n {
                assert(a.0.contains(a.0[i]));
            } else {
                assert(b.0.contains(b.0[j - n - 1]));
                if i < n {
                    assert(a.0.contains(a.0[i]));
                    assert(a.1.contains(a.0[i]));
                } else if i > n {
                    assert(b.0[i - n - 1] != b.0[j - n - 1]);
                }
            }
        }
        assert(out.no_duplicates()) by {
            assert forall|i: int, j: int| 0 <= i < out.len() && 0 <= j < out.len() && i
                != j implies out[i] != out[j] by {
                if i > j {
                    assert(out[j] != out[i]);
                }
            }
        }
    } else {
        assert(walk_list(v, list, seen)->Ok_0.0 =~= Seq::empty());
    }
}

proof fn lemma_contains_parts(a: Seq<LayerId>, c: LayerId, b: Seq<LayerId>, x: LayerId)
    ensures
        (a.push(c) + b).contains(x) <==> a.contains(x) || x == c || b.contains(x),
{
    let out = a.push(c) + b;
    if out.contains(x) {
        let j = choose|j: int| 0 <= j < out.len() && out[j] == x;
        if j < a.len() {
            assert(a[j] == x);
        } else if j > a.len() {
            assert(b[j - a.len() - 1] == x);
        }
    }
    if a.contains(x) {
        let j = choose|j: int| 0 <= j < a.len() && a[j] == x;
        assert(out[j] == x);
    }
    if b.contains(x) {
        let j = choose|j: int| 0 <= j < b.len() && b[j] == x;
        assert(out[a.len() + 1 + j] == x);
    }
    assert(out[a.len() as int] == c);
}

/// The layer at position `i` of a path has the next one among its children.
pub open spec fn linked(v: DocView, path: Seq<LayerId>, i: int) -> bool {
    v.has(path[i]) && v.kids(path[i]).contains(path[i + 1])
}

/// A way down the tree, from child to child.
pub open spec fn is_path(v: DocView, path: Seq<LayerId>) -> bool {
    path.len() >= 2 && forall|i: int| 0 <= i < path.len() - 1 ==> #[trigger] linked(v, path, i)
}

/// A way down leads from `a` to `b`.
pub open spec fn below(v: DocView, a: LayerId, b: LayerId) -> bool {
    exists|path: Seq<LayerId>| #[trigger] is_path(v, path) && path[0] == a && path.last() == b
}

/// No layer is below itself.
pub open spec fn acyclic(v: DocView) -> bool {
    forall|x: LayerId| !(#[trigger] below(v, x, x))
}

/// A walk that succeeds meets exactly the layers below, each once.
pub proof fn walk_meets_what_is_below(v: DocView, id: LayerId, x: LayerId)
    requires
        v.layers.dom().finite(),
        walk(v, id, Set::empty()) is Ok,
    ensures
        walk(v, id, Set::empty())->Ok_0.0.contains(x) <==> below(v, id, x),
        walk(v, id, Set::empty())->Ok_0.0.no_duplicates(),
        !walk(v, id, Set::empty())->Ok_0.0.contains(id),
{
    lemma_walk_facts(v, id, Set::empty());
    let out = walk(v, id, Set::empty())->Ok_0.0;
    if below(v, id, x) {
        let path = choose|path: Seq<LayerId>| #[trigger]
            is_path(v, path) && path[0] == id && path.last() == x;
        lemma_path_stays(v, id, out, path, path.len() - 1);
    }
    if out.contains(x) {
        lemma_walk_sound(v, id, Set::empty(), x);
    }
}

proof fn lemma_path_stays(v: DocView, id: LayerId, out: Seq<LayerId>, path: Seq<LayerId>, n: int)
    requires
        is_path(v, path),
        path[0] == id,
        1 <= n < path.len(),
        forall|x: LayerId| #[trigger] v.kids(id).contains(x) ==> out.contains(x),
        forall|x: LayerId, y: LayerId|
            #![trigger out.contains(x), v.kids(x).contains(y)]
            out.contains(x) && v.kids(x).contains(y) ==> out.contains(y),
    ensures
        out.contains(path[n]),
    decreases n,
{
    assert(linked(v, path, n - 1));
    if n > 1 {
        lemma_path_stays(v, id, out, path, n - 1);
        assert(out.contains(path[n - 1]));
        assert(v.kids(path[n - 1]).contains(path[n]));
    }
}

proof fn lemma_walk_sound(v: DocView, id: LayerId, seen: Set<LayerId>, x: LayerId)
    requires
        v.layers.dom().finite(),
        walk(v, id, seen) is Ok,
        walk(v, id, seen)->Ok_0.0.contains(x),
    ensures
        below(v, id, x),
    decreases v.unseen(seen), 0nat,
{
    lemma_unseen_less(v, seen, seen.insert(id), id);
    let y = lemma_walk_list_sound(v, v.kids(id), seen.insert(id), x);
    let first = seq![id, y];
    assert(linked(v, first, 0));
    assert(is_path(v, first));
    if y != x {
        let path = choose|path: Seq<LayerId>| #[trigger]
            is_path(v, path) && path[0] == y && path.last() == x;
        let longer = seq![id] + path;
        assert forall|i: int| 0 <= i < longer.len() - 1 implies #[trigger] linked(v, longer, i) by {
            if i > 0 {
                assert(linked(v, path, i - 1));
                assert(longer[i] == path[i - 1] && longer[i + 1] == path[i]);
            } else {
                assert(longer[0] == id && longer[1] == y);
            }
        }
        assert(is_path(v, longer));
        assert(longer.last() == x);
    } else {
        assert(first.last() == x);
    }
}

proof fn lemma_walk_list_sound(
    v: DocView,
    list: Seq<LayerId>,
    seen: Set<LayerId>,
    x: LayerId,
) -> (y: LayerId)
    requires
        v.layers.dom().finite(),
        walk_list(v, list, seen) is Ok,
        walk_list(v, list, seen)->Ok_0.0.contains(x),
    ensures
        list.contains(y),
        x == y || below(v, y, x),
    decreases v.unseen(seen), 1 + list.len(),
{
    assert(list.len() > 0) by {
        if list.len() == 0 {
            assert(walk_list(v, list, seen)->Ok_0.0 =~= Seq::empty());
        }
    }
    let c = list.last();
    assert(list[list.len() - 1] == c);
    lemma_walk_list_grows(v, list.drop_last(), seen);
    let a = walk_list(v, list.drop_last(), seen)->Ok_0;
    lemma_unseen_no_more(v, seen, a.1);
    let b = walk(v, c, a.1)->Ok_0;
    lemma_contains_parts(a.0, c, b.0, x);
    if a.0.contains(x) {
        let y = lemma_walk_list_sound(v, list.drop_last(), seen, x);
        let j = choose|j: int| 0 <= j < list.drop_last().len() && list.drop_last()[j] == y;
        assert(list[j] == y);
        y
    } else if x == c {
        c
    } else {
        lemma_walk_sound(v, c, a.1, x);
        c
    }
}

/// Moving a layer into a group makes no layer its own descendant.
pub proof fn moving_into_a_group_makes_no_cycle(
    v: DocView,
    id: LayerId,
    parent: Option<LayerId>,
    i: int,
    group: LayerId,
    index: int,
)
    requires
        v.layers.dom().finite(),
        acyclic(v),
        move_error(v, id, group) is None,
        v.sits_at(id, parent, i),
        0 <= index,
    ensures
        acyclic(moved_into(v, id, parent, i, group, index)),
{
    let w = moved_into(v, id, parent, i, group, index);
    assert forall|x: LayerId| !(#[trigger] below(w, x, x)) by {
        if below(w, x, x) {
            let path = choose|path: Seq<LayerId>| #[trigger]
                is_path(w, path) && path[0] == x && path.last() == x;
            lemma_no_cycle(v, w, id, parent, i, group, index, path);
        }
    }
}

/// A link of the tree after a move is one from before, or the new one.
proof fn lemma_moved_links(
    v: DocView,
    id: LayerId,
    parent: Option<LayerId>,
    i: int,
    group: LayerId,
    index: int,
    a: LayerId,
    b: LayerId,
)
    requires
        v.sits_at(id, parent, i),
        v.is_group(group),
        0 <= index,
        moved_into(v, id, parent, i, group, index).has(a),
        moved_into(v, id, parent, i, group, index).kids(a).contains(b),
    ensures
        v.has(a),
        v.kids(a).contains(b) || (a == group && b == id),
{
    let u = v.with_list(parent, v.list(parent).remove(i));
    let w = moved_into(v, id, parent, i, group, index);
    assert(u.has(a));
    if a == group {
        let at = if index <= u.kids(group).len() { index } else { u.kids(group).len() as int };
        let l = u.kids(group).insert(at, id);
        assert(w.kids(a) == l);
        let j = choose|j: int| 0 <= j < l.len() && l[j] == b;
        if j < at {
            assert(u.kids(group)[j] == b);
        } else if j > at {
            assert(u.kids(group)[j - 1] == b);
        }
        if b != id {
            assert(u.kids(a).contains(b));
        }
    }
    if b != id || a != group {
        assert(u.kids(a).contains(b));
        if parent == Some(a) {
            let l = v.kids(a).remove(i);
            let j = choose|j: int| 0 <= j < l.len() && l[j] == b;
            if j < i {
                assert(v.kids(a)[j] == b);
            } else {
                assert(v.kids(a)[j + 1] == b);
            }
        }
    }
}

proof fn lemma_no_cycle(
    v: DocView,
    w: DocView,
    id: LayerId,
    parent: Option<LayerId>,
    i: int,
    group: LayerId,
    index: int,
    path: Seq<LayerId>,
)
    requires
        v.layers.dom().finite(),
        acyclic(v),
        move_error(v, id, group) is None,
        v.sits_at(id, parent, i),
        0 <= index,
        w == moved_into(v, id, parent, i, group, index),
        is_path(w, path),
    ensures
        path[0] != path.last(),
{
    let n = path.len() as int;
    if path[0] != path.last() {
    } else if exists|j: int| 0 <= j < n - 1 && #[trigger] path[j] == group && path[j + 1] == id {
        let j = choose|j: int| 0 <= j < n - 1 && #[trigger] path[j] == group && path[j + 1] == id;
        // From the new child round to the group again.
        let round = path.subrange(j + 1, n) + path.subrange(1, j + 1);
        assert(round[0] == id);
        assert(round.last() == group);
        assert forall|k: int| 0 <= k < round.len() - 1 implies #[trigger] linked(w, round, k) by {
            let cut = n - j - 1;
            if k < cut - 1 {
                assert(linked(w, path, j + 1 + k));
                assert(round[k] == path[j + 1 + k] && round[k + 1] == path[j + 2 + k]);
            } else if k == cut - 1 {
                assert(linked(w, path, 0));
                assert(round[k] == path[n - 1] && round[k + 1] == path[1]);
            } else {
                assert(linked(w, path, k - cut + 1));
                assert(round[k] == path[k - cut + 1] && round[k + 1] == path[k - cut + 2]);
            }
        }
        let last = round.len() - 1;
        let k = lemma_first(round, group, last);
        let short = round.take(k + 1);
        assert(k > 0);
        assert forall|m: int| 0 <= m < short.len() - 1 implies #[trigger] linked(v, short, m) by {
            assert(linked(w, round, m));
            assert(short[m] == round[m] && short[m + 1] == round[m + 1]);
            lemma_moved_links(v, id, parent, i, group, index, round[m], round[m + 1]);
        }
        assert(is_path(v, short));
        assert(short[0] == id && short.last() == group);
        assert(below(v, id, group));
        walk_meets_what_is_below(v, id, group);
    } else {
        assert forall|m: int| 0 <= m < path.len() - 1 implies #[trigger] linked(v, path, m) by {
            assert(linked(w, path, m));
            lemma_moved_links(v, id, parent, i, group, index, path[m], path[m + 1]);
            assert(!(path[m] == group && path[m + 1] == id));
        }
        assert(is_path(v, path));
        assert(below(v, path[0], path[0]));
    }
}

/// The first position of an identifier that is somewhere in a list.
proof fn lemma_first(s: Seq<LayerId>, id: LayerId, at: int) -> (k: int)
    requires
        0 <= at < s.len(),
        s[at] == id,
    ensures
        first_at(s, id, k),
    decreases at,
{
    if exists|j: int| 0 <= j < at && s[j] == id {
        let j = choose|j: int| 0 <= j < at && s[j] == id;
        lemma_first(s, id, j)
    } else {
        at
    }
}

/// The identifiers of a painted sequence are layers that exist and are not
/// removed, and none occurs twice.
pub proof fn painted_layers_occur_once(v: DocView, list: Seq<LayerId>)
    requires
        v.layers.dom().finite(),
        paint_list(v, list, 0, Set::empty()) is Ok,
    ensures
        ({
            let out = paint_list(v, list, 0, Set::empty())->Ok_0.0;
            &&& forall|i: int|
                0 <= i < out.len() ==> v.has((#[trigger] out[i]).0) && !v.removed.contains(out[i].0)
            &&& forall|i: int, j: int|
                0 <= i < j < out.len() ==> (#[trigger] out[i]).0 != (#[trigger] out[j]).0
        }),
{
    lemma_paint_list_facts(v, list, 0, Set::empty());
}

spec fn paint_facts(
    v: DocView,
    out: Seq<(LayerId, u8)>,
    seen: Set<LayerId>,
    after: Set<LayerId>,
) -> bool {
    &&& forall|i: int|
        0 <= i < out.len() ==> v.has((#[trigger] out[i]).0) && !v.removed.contains(out[i].0)
            && !seen.contains(out[i].0) && after.contains(out[i].0)
    &&& forall|i: int, j: int|
        0 <= i < j < out.len() ==> (#[trigger] out[i]).0 != (#[trigger] out[j]).0
}

proof fn lemma_paint_facts(v: DocView, id: LayerId, depth: u8, seen: Set<LayerId>)
    requires
        v.layers.dom().finite(),
        paint(v, id, depth, seen) is Ok,
    ensures
        paint_facts(
            v,
            paint(v, id, depth, seen)->Ok_0.0,
            seen,
            paint(v, id, depth, seen)->Ok_0.1,
        ),
    decreases v.unseen(seen), 0nat,
{
    if !v.removed.contains(id) && v.has(id) {
        lemma_unseen_less(v, seen, seen.insert(id), id);
        lemma_paint_list_facts(v, v.kids(id), deeper(depth), seen.insert(id));
        lemma_paint_list_grows(v, v.kids(id), deeper(depth), seen.insert(id));
        let a = paint_list(v, v.kids(id), deeper(depth), seen.insert(id))->Ok_0;
        let out = seq![(id, depth)] + a.0;
        assert forall|i: int, j: int| 0 <= i < j < out.len() implies (#[trigger] out[i]).0 != (
        #[trigger] out[j]).0 by {
            assert(out[j] == a.0[j - 1]);
            if i > 0 {
                assert(out[i] == a.0[i - 1]);
            }
        }
        assert forall|i: int| 0 <= i < out.len() implies v.has((#[trigger] out[i]).0)
            && !v.removed.contains(out[i].0) && !seen.contains(out[i].0) && a.1.contains(
            out[i].0,
        ) by {
            if i > 0 {
                assert(out[i] == a.0[i - 1]);
            }
        }
    }
}

proof fn lemma_paint_list_facts(v: DocView, list: Seq<LayerId>, depth: u8, seen: Set<LayerId>)
    requires
        v.layers.dom().finite(),
        paint_list(v, list, depth, seen) is Ok,
    ensures
        paint_facts(
            v,
            paint_list(v, list, depth, seen)->Ok_0.0,
            seen,
            paint_list(v, list, depth, seen)->Ok_0.1,
        ),
    decreases v.unseen(seen), 1 + list.len(),
{
    if list.len() > 0 {
        lemma_paint_list_facts(v, list.drop_last(), depth, seen);
        lemma_paint_list_grows(v, list.drop_last(), depth, seen);
        let a = paint_list(v, list.drop_last(), depth, seen)->Ok_0;
        lemma_unseen_no_more(v, seen, a.1);
        lemma_paint_facts(v, list.last(), depth, a.1);
        lemma_paint_grows(v, list.last(), depth, a.1);
        let b = paint(v, list.last(), depth, a.1)->Ok_0;
        let out = a.0 + b.0;
        assert forall|i: int, j: int| 0 <= i < j < out.len() implies (#[trigger] out[i]).0 != (
        #[trigger] out[j]).0 by {
            let n = a.0.len();
            if j >= n {
                assert(out[j] == b.0[j - n]);
                if i >= n {
                    assert(out[i] == b.0[i - n]);
                } else {
                    assert(out[i] == a.0[i]);
                    assert(a.1.contains(a.0[i].0));
                }
            } else {
                assert(out[i] == a.0[i] && out[j] == a.0[j]);
            }
        }
        assert forall|i: int| 0 <= i < out.len() implies v.has((#[trigger] out[i]).0)
            && !v.removed.contains(out[i].0) && !seen.contains(out[i].0) && b.1.contains(
            out[i].0,
        ) by {
            let n = a.0.len();
            if i < n {
                assert(out[i] == a.0[i]);
            } else {
                assert(out[i] == b.0[i - n]);
            }
        }
    }
}

/// The children that a group keeps when it is inserted: those that exist and
/// are not removed, each once.
pub open spec fn adoptable(v: DocView, children: Seq<LayerId>) -> Seq<LayerId>
    decreases children.len(),
{
    if children.len() == 0 {
        Seq::empty()
    } else {
        let rest = adoptable(v, children.drop_last());
        let c = children.last();
        if children.drop_last().contains(c) || v.removed.contains(c) || !v.has(c) {
            rest
        } else {
            rest.push(c)
        }
    }
}

/// `w` is the document with each of the layers `ids`, in turn, no longer in its
/// sibling list.
pub open spec fn all_unlisted(v: DocView, ids: Seq<LayerId>, w: DocView) -> bool
    decreases ids.len(),
{
    if ids.len() == 0 {
        w == v
    } else {
        exists|u: DocView|
            all_unlisted(v, ids.drop_last(), u) && #[trigger] unlisted(u, ids.last(), w)
    }
}

/// The children that the contents of a layer name.
pub open spec fn named_children(l: LayerView) -> Seq<LayerId> {
    match l.content {
        ContentView::Group(c) => c,
        _ => Seq::empty(),
    }
}

/// A layer that keeps only the children `kept`, if it is a group.
pub open spec fn with_children(l: LayerView, kept: Seq<LayerId>) -> LayerView {
    match l.content {
        ContentView::Group(c) => LayerView { content: ContentView::Group(kept), ..l },
        _ => l,
    }
}

impl Document {
    /// Detach children referenced by a not-yet-inserted group layer.
    ///
    /// Existing layers in the document are removed from their current sibling
    /// list so they can be adopted by the group. Ids that do not yet exist in
    /// the document, removed ones and duplicates are dropped. This keeps the
    /// single-parent invariant intact when a group is inserted with a pre-built
    /// children list.
    fn detach_group_children(&mut self, layer: &mut Layer)
        requires
            old(self).wf(),
            old(layer).wf(),
        ensures
            final(self).wf(),
            final(layer).wf(),
            final(self).used() <= old(self).used(),
            final(layer)@ == with_children(
                old(layer)@,
                adoptable(old(self)@, named_children(old(layer)@)),
            ),
            all_unlisted(
                old(self)@,
                adoptable(old(self)@, named_children(old(layer)@)),
                final(self)@,
            ),
    {
        let ghost v = self@;
        match &mut layer.content {
            LayerContent::Group { children } => {
                let ghost list = children@;
                let mut cleaned: Vec<LayerId> = Vec::new();
                let mut adopted: IdSet = IdSet::new();
                let mut i: usize = 0;
                assert(list.take(0) =~= Seq::empty());
                while i < children.len()
                    invariant
                        self.wf(),
                        self.used() <= old(self).used(),
                        children@ == list,
                        i <= list.len(),
                        forall|x: LayerId| #[trigger]
                            adopted@.contains(x) <==> list.take(i as int).contains(x),
                        cleaned@ == adoptable(v, list.take(i as int)),
                        all_unlisted(v, cleaned@, self@),
                        self@.removed == v.removed,
                        self@.layers.dom() == v.layers.dom(),
                    decreases list.len() - i,
                {
                    let child: LayerId = children[i];
                    let ghost t = list.take(i + 1);
                    proof {
                        assert(t.drop_last() =~= list.take(i as int));
                        assert(t.last() == child);
                        assert forall|x: LayerId| #[trigger] t.contains(x) <==> list.take(
                            i as int,
                        ).contains(x) || x == child by {
                            lemma_take_contains(list, i as int, x);
                        }
                    }
                    let fresh: bool = adopted.insert(child);
                    if fresh && !self.removed.contains(child) && self.layers.contains_key(child) {
                        let ghost u = self@;
                        if let Some((parent, idx)) = self.sibling_index(child) {
                            let a = self.remove_from_siblings(parent, idx);
                            assert(u.sits_at(child, parent, idx as int));
                        }
                        assert(unlisted(u, child, self@));
                        proof {
                            self.lemma_ids();
                            lemma_unlisted_dom(u, child, self@);
                        }
                        let ghost before = cleaned@;
                        cleaned.push(child);
                        proof {
                            assert(cleaned@.drop_last() =~= before);
                            assert(cleaned@.last() == child);
                            assert(all_unlisted(v, before, u) && unlisted(u, child, self@));
                            assert(all_unlisted(v, cleaned@, self@));
                        }
                    }
                    i = i + 1;
                }
                assert(list.take(i as int) =~= list);
                *children = cleaned;
            },
            _ => {
                assert(adoptable(v, Seq::empty()) =~= Seq::empty());
            },
        }
    }

    /// Insert an existing layer directly above `anchor` in its sibling list.
    ///
    /// The layer's identifier is overwritten with the one assigned by the
    /// document's arena. Returns the new id on success. If the anchor exists but
    /// does not stand in the tree, the layer is in the arena all the same.
    pub fn insert_layer_above(&mut self, layer: Layer, anchor: LayerId) -> (r: Result<
        LayerId,
        OgreError,
    >)
        requires
            old(self).wf(),
            layer.wf(),
            old(self).room(1),
        ensures
            final(self).wf(),
            final(self).used() <= old(self).used() + 1,
            r matches Err(e) ==> e == OgreError::LayerNotFound(anchor),
            !old(self)@.has(anchor) ==> r is Err && final(self)@ == old(self)@,
            old(self)@.has(anchor) ==> exists|w: DocView, id: LayerId|
                #![trigger inserted_above(old(self)@, layer@, anchor, w, id, final(self)@)]
                inserted_above(old(self)@, layer@, anchor, w, id, final(self)@) && (r is Ok
                    <==> entered(old(self)@, layer@, w, id).placed(anchor)) && (r matches Ok(x)
                    ==> x == id),
            tidy(old(self)@) ==> tidy(final(self)@),
    {
        let ghost v = self@;
        if !self.layers.contains_key(anchor) {
            return Err(OgreError::LayerNotFound(anchor));
        }
        // If the caller handed us a group with pre-populated children, make the
        // tree consistent before the group enters the arena: adopt children that
        // already live in the document and drop references to ids that do not
        // exist yet.
        let mut layer = layer;
        let ghost l0 = layer@;
        self.detach_group_children(&mut layer);
        let ghost w = self@;
        proof {
            self.lemma_ids();
            lemma_all_unlisted_dom(v, adoptable(v, named_children(l0)), w);
        }
        let id: LayerId = self.add_layer(layer);
        let ghost x = self@;
        match self.sibling_index(anchor) {
            None => {
                assert(inserted_above(v, l0, anchor, w, id, self@));
                proof {
                    if tidy(v) {
                        inserting_keeps_tidy(v, l0, anchor, w, id, self@);
                    }
                }
                Err(OgreError::LayerNotFound(anchor))
            },
            Some((parent, index)) => {
                let ghost len = x.list(parent).len();
                assert(index < len);
                let b = self.insert_into_siblings(parent, index + 1, id);
                assert(x.sits_at(anchor, parent, index as int));
                assert(inserted_above(v, l0, anchor, w, id, self@));
                proof {
                    if tidy(v) {
                        inserting_keeps_tidy(v, l0, anchor, w, id, self@);
                    }
                }
                Ok(id)
            },
        }
    }
}

/// Document `w` with layer `l` of document `v` in the arena, under the new
/// identifier `id`, with the children that it adopts.
pub open spec fn entered(v: DocView, l: LayerView, w: DocView, id: LayerId) -> DocView {
    w.with_layer(id, LayerView { id, ..with_children(l, adoptable(v, named_children(l))) })
}

/// `z` is document `v` with layer `l`, under the new identifier `id`, directly
/// above `anchor`.
///
/// `w` is the document in between: the children that `l` adopts are out of their
/// lists. If `anchor` stands nowhere once `l` is in the arena, `l` stands nowhere
/// either.
pub open spec fn inserted_above(
    v: DocView,
    l: LayerView,
    anchor: LayerId,
    w: DocView,
    id: LayerId,
    z: DocView,
) -> bool {
    let x = entered(v, l, w, id);
    &&& !v.has(id)
    &&& id != LayerId::null_spec()
    &&& all_unlisted(v, adoptable(v, named_children(l)), w)
    &&& if x.placed(anchor) {
        exists|parent: Option<LayerId>, i: int| #[trigger]
            x.sits_at(anchor, parent, i) && z == x.with_list(
                parent,
                x.list(parent).insert(i + 1, id),
            )
    } else {
        z == x
    }
}

proof fn lemma_take_contains(s: Seq<LayerId>, i: int, x: LayerId)
    requires
        0 <= i < s.len(),
    ensures
        s.take(i + 1).contains(x) <==> s.take(i).contains(x) || x == s[i],
{
    let a = s.take(i + 1);
    let b = s.take(i);
    if a.contains(x) {
        let j = choose|j: int| 0 <= j < a.len() && a[j] == x;
        if j < i {
            assert(b[j] == x);
        }
    }
    if b.contains(x) {
        let j = choose|j: int| 0 <= j < b.len() && b[j] == x;
        assert(a[j] == x);
    }
    assert(a[i] == s[i]);
}

/// Taking a layer out of its list keeps which layers there are.
pub proof fn lemma_unlisted_dom(v: DocView, id: LayerId, w: DocView)
    requires
        unlisted(v, id, w),
    ensures
        w.layers.dom() == v.layers.dom(),
        w.removed == v.removed,
        w.active == v.active && w.canvas == v.canvas && w.selection == v.selection,
{
    if v.placed(id) {
        let (parent, i) = choose|parent: Option<LayerId>, i: int| #[trigger]
            v.sits_at(id, parent, i) && w == v.with_list(parent, v.list(parent).remove(i));
        assert(w.layers.dom() =~= v.layers.dom());
    }
}

/// Taking layers out of their lists keeps which layers there are.
pub proof fn lemma_all_unlisted_dom(v: DocView, ids: Seq<LayerId>, w: DocView)
    requires
        all_unlisted(v, ids, w),
    ensures
        w.layers.dom() == v.layers.dom(),
        w.removed == v.removed,
        w.active == v.active && w.canvas == v.canvas && w.selection == v.selection,
    decreases ids.len(),
{
    if ids.len() > 0 {
        let u = choose|u: DocView|
            all_unlisted(v, ids.drop_last(), u) && #[trigger] unlisted(u, ids.last(), w);
        lemma_all_unlisted_dom(v, ids.drop_last(), u);
        lemma_unlisted_dom(u, ids.last(), w);
    }
}

/// Putting a layer without children into the arena moves no layer.
pub proof fn entering_moves_no_layer(
    v: DocView,
    l: LayerView,
    w: DocView,
    id: LayerId,
    a: LayerId,
    parent: Option<LayerId>,
    i: int,
)
    requires
        !v.has(id),
        v.has(a),
        named_children(l) == Seq::<LayerId>::empty(),
        all_unlisted(v, adoptable(v, named_children(l)), w),
    ensures
        w == v,
        entered(v, l, w, id) == v.with_layer(id, LayerView { id, ..l }),
        entered(v, l, w, id).sits_at(a, parent, i) <==> v.sits_at(a, parent, i),
        entered(v, l, w, id).placed(a) <==> v.placed(a),
        v.sits_at(a, parent, i) ==> entered(v, l, w, id).list(parent) == v.list(parent),
{
    assert(adoptable(v, named_children(l)) =~= Seq::empty());
    let x = entered(v, l, w, id);
    assert(with_children(l, Seq::empty()) == l);
    assert forall|p: LayerId| #[trigger] x.is_parent(p, a) <==> v.is_parent(p, a) by {
        if p == id {
            assert(x.kids(id) =~= Seq::empty());
        }
    }
    if x.placed(a) && !v.order.contains(a) {
        let p = choose|p: LayerId| #[trigger] x.is_parent(p, a);
        assert(v.is_parent(p, a));
    }
    if v.placed(a) && !v.order.contains(a) {
        let p = choose|p: LayerId| #[trigger] v.is_parent(p, a);
        assert(x.is_parent(p, a));
    }
    if parent == Some(id) {
        assert(x.kids(id) =~= Seq::empty());
    }
    if v.sits_at(a, parent, i) {
        if let Some(p) = parent {
            assert(v.is_parent(p, a));
            assert(x.is_parent(p, a));
        } else {
            assert forall|p: LayerId| !(#[trigger] x.is_parent(p, a)) by {
                assert(!v.is_parent(p, a));
            }
        }
    }
    if x.sits_at(a, parent, i) {
        if let Some(p) = parent {
            assert(x.is_parent(p, a));
            assert(v.is_parent(p, a));
        } else {
            assert forall|p: LayerId| !(#[trigger] v.is_parent(p, a)) by {
                assert(!x.is_parent(p, a));
            }
        }
    }
}

/// A layer that sits somewhere stands in the tree, and the other way round.
pub proof fn placed_layers_sit_somewhere(v: DocView, id: LayerId)
    ensures
        v.placed(id) <==> exists|parent: Option<LayerId>, i: int| #[trigger]
            v.sits_at(id, parent, i),
{
    if v.placed(id) {
        if exists|p: LayerId| #[trigger] v.is_parent(p, id) {
            let p = choose|p: LayerId| #[trigger] v.is_parent(p, id);
            let l = v.kids(p);
            let j = choose|j: int| 0 <= j < l.len() && l[j] == id;
            let k = lemma_first(l, id, j);
            assert(v.sits_at(id, Some(p), k));
        } else {
            let l = v.order;
            let j = choose|j: int| 0 <= j < l.len() && l[j] == id;
            let k = lemma_first(l, id, j);
            assert(v.sits_at(id, None, k));
        }
    }
    if exists|parent: Option<LayerId>, i: int| #[trigger] v.sits_at(id, parent, i) {
        let (parent, i) = choose|parent: Option<LayerId>, i: int| #[trigger]
            v.sits_at(id, parent, i);
        match parent {
            Some(p) => {
                assert(v.is_parent(p, id));
            },
            None => {
                assert(v.order[i] == id);
            },
        }
    }
}

impl Clone for SliceRect {
    fn clone(&self) -> (r: Self)
        ensures
            r.name@ == self.name@,
            r.rect == self.rect,
    {
        SliceRect { name: self.name.clone(), rect: self.rect }
    }
}

/// Two documents are equal: the same layers under the same identifiers, and all
/// else alike. Numbers are compared as numbers.
pub open spec fn document_same(a: DocView, b: DocView) -> bool {
    &&& a.canvas == b.canvas
    &&& a.order == b.order
    &&& a.active == b.active
    &&& selection_same(a.selection, b.selection)
    &&& a.color_space == b.color_space
    &&& a.icc_profile == b.icc_profile
    &&& a.removed == b.removed
    &&& a.slices == b.slices
    &&& a.layers.dom() =~= b.layers.dom()
    &&& forall|id: LayerId| #[trigger]
        a.layers.dom().contains(id) ==> layer_same(a.layers[id], b.layers[id])
}

fn same_slices(a: &Vec<SliceRect>, b: &Vec<SliceRect>) -> (r: bool)
    ensures
        r == (a@.map_values(|s: SliceRect| (s.name@, s.rect)) == b@.map_values(
            |s: SliceRect| (s.name@, s.rect),
        )),
{
    let ghost f = |s: SliceRect| (s.name@, s.rect);
    if a.len() != b.len() {
        assert(a@.map_values(f).len() != b@.map_values(f).len());
        return false;
    }
    let mut i: usize = 0;
    while i < a.len()
        invariant
            a@.len() == b@.len(),
            i <= a@.len(),
            f == (|s: SliceRect| (s.name@, s.rect)),
            forall|k: int|
                0 <= k < i ==> #[trigger] a@[k].name@ == b@[k].name@ && a@[k].rect == b@[k].rect,
        decreases a@.len() - i,
    {
        if a[i].name != b[i].name || a[i].rect != b[i].rect {
            assert(a@.map_values(f)[i as int] != b@.map_values(f)[i as int]);
            return false;
        }
        i = i + 1;
    }
    assert(a@.map_values(f) =~= b@.map_values(f));
    true
}

fn same_profile(a: &Option<Vec<u8>>, b: &Option<Vec<u8>>) -> (r: bool)
    ensures
        r == match (*a, *b) {
            (Some(x), Some(y)) => x@ == y@,
            (None, None) => true,
            _ => false,
        },
{
    match (a, b) {
        (Some(x), Some(y)) => same_bytes(x, y),
        (None, None) => true,
        _ => false,
    }
}

/// True if every layer of one arena has an equal layer under its identifier in
/// another.
fn layers_within(a: &LayerArena, b: &LayerArena) -> (r: bool)
    requires
        a.wf(),
        b.wf(),
    ensures
        r == forall|id: LayerId| #[trigger]
            a@.dom().contains(id) ==> b@.dom().contains(id) && layer_same(a@[id], b@[id]),
{
    let ids: Vec<LayerId> = a.keys();
    let mut i: usize = 0;
    while i < ids.len()
        invariant
            a.wf(),
            b.wf(),
            i <= ids@.len(),
            forall|id: LayerId| #[trigger] ids@.contains(id) <==> a@.dom().contains(id),
            forall|k: int|
                0 <= k < i ==> b@.dom().contains(#[trigger] ids@[k]) && layer_same(
                    a@[ids@[k]],
                    b@[ids@[k]],
                ),
        decreases ids@.len() - i,
    {
        let id: LayerId = ids[i];
        assert(ids@.contains(id));
        let equal: bool = match (a.get(id), b.get(id)) {
            (Some(x), Some(y)) => x.eq(y),
            _ => false,
        };
        if !equal {
            return false;
        }
        i = i + 1;
    }
    proof {
        assert forall|id: LayerId| #[trigger] a@.dom().contains(id) implies b@.dom().contains(id)
            && layer_same(a@[id], b@[id]) by {
            assert(ids@.contains(id));
        }
    }
    true
}

/// True if every identifier of one arena is one of another.
fn keys_within(a: &LayerArena, b: &LayerArena) -> (r: bool)
    requires
        b.wf(),
    ensures
        r == a@.dom().subset_of(b@.dom()),
{
    let ids: Vec<LayerId> = a.keys();
    let mut i: usize = 0;
    while i < ids.len()
        invariant
            b.wf(),
            i <= ids@.len(),
            forall|id: LayerId| #[trigger] ids@.contains(id) <==> a@.dom().contains(id),
            forall|k: int| 0 <= k < i ==> b@.dom().contains(#[trigger] ids@[k]),
        decreases ids@.len() - i,
    {
        assert(ids@.contains(ids@[i as int]));
        if !b.contains_key(ids[i]) {
            return false;
        }
        i = i + 1;
    }
    proof {
        assert forall|id: LayerId| #[trigger] a@.dom().contains(id) implies b@.dom().contains(
            id,
        ) by {
            assert(ids@.contains(id));
        }
    }
    true
}

impl Document {
    /// True if two documents are equal.
    pub fn eq(&self, other: &Self) -> (r: bool)
        requires
            self.wf(),
            other.wf(),
        ensures
            r == document_same(self@, other@),
    {
        let active: bool = match (self.active, other.active) {
            (Some(x), Some(y)) => x == y,
            (None, None) => true,
            _ => false,
        };
        self.canvas == other.canvas && same_ids(&self.order, &other.order) && active
            && self.selection.eq(&other.selection) && self.color_space == other.color_space
            && same_profile(&self.icc_profile, &other.icc_profile) && self.removed.eq(
            &other.removed,
        ) && same_slices(&self.slices, &other.slices) && keys_within(&other.layers, &self.layers)
            && layers_within(&self.layers, &other.layers)
    }
}

impl Clone for Document {
    fn clone(&self) -> (r: Self)
        ensures
            r@ == self@,
            self.wf() ==> r.wf(),
            r.used() == self.used(),
    {
        let mut slices: Vec<SliceRect> = Vec::new();
        let ghost f = |s: SliceRect| (s.name@, s.rect);
        let mut i: usize = 0;
        while i < self.slices.len()
            invariant
                i <= self.slices@.len(),
                slices@.len() == i,
                forall|j: int|
                    0 <= j < i ==> (#[trigger] slices@[j]).name@ == self.slices@[j].name@
                        && slices@[j].rect == self.slices@[j].rect,
            decreases self.slices@.len() - i,
        {
            slices.push(self.slices[i].clone());
            i = i + 1;
        }
        let mut order: Vec<LayerId> = Vec::new();
        let mut j: usize = 0;
        while j < self.order.len()
            invariant
                j <= self.order@.len(),
                order@ == self.order@.take(j as int),
            decreases self.order@.len() - j,
        {
            order.push(self.order[j]);
            assert(order@ =~= self.order@.take(j + 1));
            j = j + 1;
        }
        assert(order@ =~= self.order@);
        let icc: Option<Vec<u8>> = match &self.icc_profile {
            Some(v) => Some(v.clone()),
            None => None,
        };
        let r = Document {
            canvas: self.canvas,
            layers: self.layers.clone(),
            order,
            active: self.active,
            selection: self.selection.clone(),
            color_space: self.color_space,
            icc_profile: icc,
            removed: self.removed.clone(),
            slices,
        };
        proof {
            assert(r@.slices =~= self@.slices);
            if self.icc_profile is Some {
                assert(r.icc_profile->0@ =~= self.icc_profile->0@);
            }
            assert(r@.icc_profile == self@.icc_profile);
        }
        r
    }
}

/// The document with layer `l` in the arena under the new identifier `id`, but
/// nowhere in the tree.
pub open spec fn stored(v: DocView, l: LayerView, id: LayerId) -> DocView {
    v.with_layer(id, LayerView { id, ..l })
}

/// The document with layer `l`, under the new identifier `id`, directly above
/// position `i` of the list of `parent`.
pub open spec fn put_above(
    v: DocView,
    l: LayerView,
    id: LayerId,
    parent: Option<LayerId>,
    i: int,
) -> DocView {
    v.with_layer(id, LayerView { id, ..l }).with_list(parent, v.list(parent).insert(i + 1, id))
}

impl Document {
    /// Insert a layer without children directly above `anchor` in its sibling
    /// list, as [`Document::insert_layer_above`] does.
    pub(crate) fn insert_plain_above(&mut self, layer: Layer, anchor: LayerId) -> (r: Result<
        LayerId,
        OgreError,
    >)
        requires
            old(self).wf(),
            layer.wf(),
            old(self).room(1),
            named_children(layer@) == Seq::<LayerId>::empty(),
        ensures
            final(self).wf(),
            final(self).used() <= old(self).used() + 1,
            r is Ok <==> old(self)@.placed(anchor),
            r matches Err(e) ==> e == OgreError::LayerNotFound(anchor),
            r matches Ok(id) ==> !old(self)@.has(id) && id != LayerId::null_spec() && exists|
                parent: Option<LayerId>,
                i: int,
            | #[trigger]
                old(self)@.sits_at(anchor, parent, i) && final(self)@ == put_above(
                    old(self)@,
                    layer@,
                    id,
                    parent,
                    i,
                ),
            r is Err ==> (if old(self)@.has(anchor) {
                exists|id: LayerId|
                    !old(self)@.has(id) && final(self)@ == #[trigger] stored(
                        old(self)@,
                        layer@,
                        id,
                    )
            } else {
                final(self)@ == old(self)@
            }),
    {
        let ghost v = self@;
        let ghost l = layer@;
        let r = self.insert_layer_above(layer, anchor);
        proof {
            if v.has(anchor) {
                let (w, id) = choose|w: DocView, id: LayerId|
                    #![trigger inserted_above(v, l, anchor, w, id, self@)]
                    inserted_above(v, l, anchor, w, id, self@) && (r is Ok <==> entered(
                        v,
                        l,
                        w,
                        id,
                    ).placed(anchor)) && (r matches Ok(x) ==> x == id);
                entering_moves_no_layer(v, l, w, id, anchor, None, 0);
                let x = entered(v, l, w, id);
                if x.placed(anchor) {
                    let (parent, i) = choose|parent: Option<LayerId>, i: int| #[trigger]
                        x.sits_at(anchor, parent, i) && self@ == x.with_list(
                            parent,
                            x.list(parent).insert(i + 1, id),
                        );
                    entering_moves_no_layer(v, l, w, id, anchor, parent, i);
                    assert(v.sits_at(anchor, parent, i));
                    assert(self@ == put_above(v, l, id, parent, i));
                } else {
                    assert(self@ == stored(v, l, id));
                }
            }
        }
        r
    }
}

/// A layer without children has nothing below it.
pub proof fn lemma_walk_leaf(v: DocView, id: LayerId)
    requires
        v.layers.dom().finite(),
        v.has(id),
        v.kids(id) == Seq::<LayerId>::empty(),
    ensures
        walk(v, id, Set::empty()) matches Ok(a) && a.0 == Seq::<LayerId>::empty(),
        subtree_error(v, id) is None,
        subtree(v, id) == seq![id],
{
    assert(walk_list(v, v.kids(id), Set::empty().insert(id)) == Ok::<
        (Seq<LayerId>, Set<LayerId>),
        OgreError,
    >((Seq::empty(), Set::empty().insert(id))));
    assert(subtree(v, id) =~= seq![id]);
}

impl Document {
    /// The identifier at `index` of the children of `parent`, or of the root
    /// z-order.
    pub(crate) fn sibling_at(&self, parent: Option<LayerId>, index: usize) -> (id: LayerId)
        requires
            self.wf(),
            index < self@.list(parent).len(),
            parent matches Some(p) ==> self@.is_group(p),
        ensures
            id == self@.list(parent)[index as int],
    {
        match parent {
            Some(p) => match self.layers.get(p) {
                Some(layer) => match &layer.content {
                    LayerContent::Group { children } => children[index],
                    _ => LayerId::null(),
                },
                None => LayerId::null(),
            },
            None => self.order[index],
        }
    }
}

} // verus!
