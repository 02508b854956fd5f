//! Commands that change the canvas.
use vstd::prelude::*;

use crate::coord::{clamp_i32, fits_i32, IVec2, Rect};
use crate::document::{DocView, Document};
use crate::error::OgreError;
use crate::float_bits::{
    from_u32, lemma_integer_pattern, nearest_i32, number_of, round_i32, whole_numbers_survive, F_SIGN,
};
use crate::history::Command;
use crate::layer::{LayerId, LayerView};
use crate::picture::{same_picture, shown, structure_decides_tidy};

verus! {

/// Anchor point used when resizing the canvas.
///
/// The anchor determines which edges stay fixed; content is shifted by the
/// opposite edges. For example, [`CanvasAnchor::TopLeft`] keeps the top-left
/// corner fixed and grows or shrinks toward the bottom-right.
#[derive(Clone, Copy, Debug, PartialEq, Eq, Structural)]
pub enum CanvasAnchor {
    /// Keep the top-left corner fixed.
    TopLeft,
    /// Keep the top edge centered.
    TopCenter,
    /// Keep the top-right corner fixed.
    TopRight,
    /// Keep the left edge centered.
    CenterLeft,
    /// Keep the center fixed.
    Center,
    /// Keep the right edge centred.
    CenterRight,
    /// Keep the bottom-left corner fixed.
    BottomLeft,
    /// Keep the bottom edge centred.
    BottomCenter,
    /// Keep the bottom-right corner fixed.
    BottomRight,
}

impl CanvasAnchor {
    /// Anchor position in halves of the canvas: zero is the left or top edge, two
    /// the right or bottom edge.
    pub open spec fn halves(self) -> (int, int) {
        match self {
            CanvasAnchor::TopLeft => (0, 0),
            CanvasAnchor::TopCenter => (1, 0),
            CanvasAnchor::TopRight => (2, 0),
            CanvasAnchor::CenterLeft => (0, 1),
            CanvasAnchor::Center => (1, 1),
            CanvasAnchor::CenterRight => (2, 1),
            CanvasAnchor::BottomLeft => (0, 2),
            CanvasAnchor::BottomCenter => (1, 2),
            CanvasAnchor::BottomRight => (2, 2),
        }
    }

    /// Anchor position in halves of the canvas.
    pub fn factors(self) -> (r: (u8, u8))
        ensures
            (r.0 as int, r.1 as int) == self.halves(),
    {
        match self {
            CanvasAnchor::TopLeft => (0, 0),
            CanvasAnchor::TopCenter => (1, 0),
            CanvasAnchor::TopRight => (2, 0),
            CanvasAnchor::CenterLeft => (0, 1),
            CanvasAnchor::Center => (1, 1),
            CanvasAnchor::CenterRight => (2, 1),
            CanvasAnchor::BottomLeft => (0, 2),
            CanvasAnchor::BottomCenter => (1, 2),
            CanvasAnchor::BottomRight => (2, 2),
        }
    }
}

/// Change the document canvas to `canvas` without destroying layer pixels.
///
/// Layers keep their existing offsets and buffers; only the exported viewport
/// changes. Undo restores the previous canvas rectangle.
pub struct CropCmd {
    /// The canvas that is to be.
    pub canvas: Rect,
    /// The canvas that was, once the command was applied.
    pub old_canvas: Option<Rect>,
}

impl CropCmd {
    /// Create a crop command.
    pub fn new(canvas: Rect) -> (r: Self)
        ensures
            r == (CropCmd { canvas, old_canvas: None }),
            r.wf(),
    {
        CropCmd { canvas, old_canvas: None }
    }
}

impl Command for CropCmd {
    open spec fn wf(&self) -> bool {
        true
    }

    open spec fn name(&self) -> Seq<char> {
        "Crop canvas"@
    }

    open spec fn adds(&self) -> nat {
        0
    }

    open spec fn refs(&self) -> Set<LayerId> {
        Set::empty()
    }

    open spec fn reverts(&self, then: DocView, after: DocView) -> bool {
        after == (DocView { canvas: after.canvas, ..then }) && self.old_canvas == Some(then.canvas)
    }

    open spec fn learns(&self) -> bool {
        false
    }

    open spec fn undoes(&self, now: DocView, fin: DocView) -> bool {
        fin == (DocView {
            canvas: match self.old_canvas {
                Some(c) => c,
                None => now.canvas,
            },
            ..now
        })
    }

    open spec fn does(&self, then: DocView, r: Result<(), OgreError>, after: DocView) -> bool {
        &&& r is Err ==> after == then
        &&& if self.canvas.empty() {
            r == Err::<(), OgreError>(OgreError::InvalidOperation("crop rectangle is empty"))
        } else {
            r is Ok && after == (DocView { canvas: self.canvas, ..then })
        }
    }

    open spec fn steady(&self, then: DocView) -> bool {
        true
    }

    fn label(&self) -> (r: &'static str) {
        "Crop canvas"
    }

    fn apply(&mut self, doc: &mut Document) -> (r: Result<(), OgreError>) {
        if self.canvas.is_empty() {
            return Err(OgreError::InvalidOperation("crop rectangle is empty"));
        }
        self.old_canvas = Some(doc.canvas_rect());
        doc.set_canvas(self.canvas);
        proof {
            structure_decides_tidy(old(doc)@, doc@);
            assert forall|then: DocView, after: DocView, keep: Set<LayerId>|
                #![trigger old(self).does(then, Ok(()), after), same_picture(then, old(doc)@, keep)]
                old(self).does(then, Ok(()), after) && same_picture(
                    then,
                    old(doc)@,
                    keep,
                ) implies same_picture(after, doc@, keep) by {
                assert forall|x: LayerId| #[trigger] shown(after, keep, x) == shown(
                    doc@,
                    keep,
                    x,
                ) by {
                    assert(shown(then, keep, x) == shown(old(doc)@, keep, x));
                }
            }
        }
        Ok(())
    }

    fn undo(&mut self, doc: &mut Document) {
        if let Some(c) = self.old_canvas.take() {
            doc.set_canvas(c);
        }
        proof {
            assert forall|then: DocView, after: DocView, keep: Set<LayerId>|
                #![trigger old(self).reverts(then, after), same_picture(then, doc@, keep)]
                old(self).reverts(then, after) && keep.subset_of(then.layers.dom()) && same_picture(
                    after,
                    old(doc)@,
                    keep.union(old(self).refs()),
                ) implies same_picture(then, doc@, keep) by {
                let more = keep.union(old(self).refs());
                assert(more =~= keep);
                assert forall|x: LayerId| #[trigger] shown(then, keep, x) == shown(
                    doc@,
                    keep,
                    x,
                ) by {
                    assert(shown(after, more, x) == shown(old(doc)@, more, x));
                }
            }
        }
    }

    fn cleanup(&self, doc: &mut Document) {
    }

    fn referenced_layers(&self) -> (r: Vec<LayerId>)
        ensures
            r@ == Seq::<LayerId>::empty(),
    {
        Vec::new()
    }
}

/// How far content moves along one axis when a canvas side changes by `d` and the
/// anchor stands at `halves` halves of it: the binary32 product, rounded.
pub open spec fn anchor_shift(halves: int, d: int) -> int {
    if halves == 0 || d == 0 {
        0
    } else {
        let size = number_of((if d < 0 { -d } else { d }) as nat);
        let part = if halves == 1 { size - 0x80_0000 } else { size };
        nearest_i32((if d < 0 { part + F_SIGN } else { part }) as u32)
    }
}

fn shift_by(halves: u8, d: i64) -> (r: i32)
    requires
        -0xffff_ffff <= d <= 0xffff_ffff,
        halves <= 2,
    ensures
        r == anchor_shift(halves as int, d as int),
{
    if halves == 0 || d == 0 {
        return 0;
    }
    let n: u32 = (if d < 0 { -d } else { d }) as u32;
    let size: u32 = from_u32(n);
    proof {
        lemma_integer_pattern(n as nat);
    }
    let part: u32 = if halves == 1 { size - 0x80_0000 } else { size };
    round_i32(if d < 0 { part + F_SIGN } else { part })
}

/// An offset moved by `(dx, dy)`, stopping at the ends of the coordinates.
pub open spec fn moved_offset(o: IVec2, dx: int, dy: int) -> IVec2 {
    IVec2 { x: clamp_i32(o.x + dx) as i32, y: clamp_i32(o.y + dy) as i32 }
}

fn saturating(a: i32, b: i32) -> (r: i32)
    ensures
        r == clamp_i32(a + b),
{
    let s: i64 = a as i64 + b as i64;
    if s < -0x8000_0000 {
        i32::MIN
    } else if s > 0x7fff_ffff {
        i32::MAX
    } else {
        s as i32
    }
}

/// The document with a canvas of another size, every layer moved as the anchor
/// says.
pub open spec fn resized(v: DocView, w: u32, h: u32, anchor: CanvasAnchor) -> DocView {
    let dx = anchor_shift(anchor.halves().0, w - v.canvas.w);
    let dy = anchor_shift(anchor.halves().1, h - v.canvas.h);
    DocView {
        canvas: Rect { x: v.canvas.x, y: v.canvas.y, w, h },
        layers: v.layers.map_values(
            |l: LayerView| LayerView { offset: moved_offset(l.offset, dx, dy), ..l },
        ),
        ..v
    }
}

/// Resize the document canvas, shifting layer content according to `anchor`.
///
/// Layer pixel data is preserved; only the canvas bounds and layer offsets are
/// changed. Undo restores the previous canvas and the previous offsets of every
/// layer that existed when the command was applied.
pub struct ResizeCanvasCmd {
    /// The width that is to be.
    pub new_width: u32,
    /// The height that is to be.
    pub new_height: u32,
    /// What stays fixed.
    pub anchor: CanvasAnchor,
    /// The canvas that was, once the command was applied.
    pub old_canvas: Option<Rect>,
    /// Where the layers were.
    pub old_offsets: Vec<(LayerId, IVec2)>,
}

impl ResizeCanvasCmd {
    /// Create a canvas-resize command.
    pub fn new(new_width: u32, new_height: u32, anchor: CanvasAnchor) -> (r: Self)
        ensures
            r.new_width == new_width,
            r.new_height == new_height,
            r.anchor == anchor,
            r.old_canvas is None,
            r.old_offsets@.len() == 0,
            r.wf(),
    {
        ResizeCanvasCmd { new_width, new_height, anchor, old_canvas: None, old_offsets: Vec::new() }
    }
}

/// Entry `i` is where layer `id` was.
pub open spec fn offset_listed(list: Seq<(LayerId, IVec2)>, id: LayerId, i: int) -> bool {
    0 <= i < list.len() && list[i].0 == id
}

/// The list holds the offset of every layer once, and of no other.
pub open spec fn lists_offsets(v: DocView, list: Seq<(LayerId, IVec2)>) -> bool {
    &&& forall|i: int|
        0 <= i < list.len() ==> v.has((#[trigger] list[i]).0) && list[i].1
            == v.layers[list[i].0].offset
    &&& forall|id: LayerId| #[trigger]
        v.has(id) ==> exists|i: int| #[trigger] offset_listed(list, id, i)
}

/// Layer `l` with the offset that the first `n` entries say.
pub open spec fn with_listed_offset(list: Seq<(LayerId, IVec2)>, n: int, id: LayerId, l: LayerView) -> LayerView
    decreases n,
{
    if n <= 0 {
        l
    } else if list[n - 1].0 == id {
        LayerView { offset: list[n - 1].1, ..l }
    } else {
        with_listed_offset(list, n - 1, id, l)
    }
}

/// A document with every listed offset put back.
pub open spec fn with_listed_offsets(v: DocView, list: Seq<(LayerId, IVec2)>) -> DocView {
    DocView {
        layers: Map::new(
            |id: LayerId| v.layers.dom().contains(id),
            |id: LayerId| with_listed_offset(list, list.len() as int, id, v.layers[id]),
        ),
        ..v
    }
}

proof fn lemma_listed_offset(list: Seq<(LayerId, IVec2)>, n: int, id: LayerId, l: LayerView, o: IVec2)
    requires
        0 <= n <= list.len(),
        forall|i: int| 0 <= i < n && (#[trigger] list[i]).0 == id ==> list[i].1 == o,
    ensures
        (exists|i: int| 0 <= i < n && #[trigger] offset_listed(list, id, i)) ==> with_listed_offset(
            list,
            n,
            id,
            l,
        ) == (LayerView { offset: o, ..l }),
        with_listed_offset(list, n, id, l).content == l.content,
        with_listed_offset(list, n, id, l).id == l.id,
    decreases n,
{
    if n > 0 {
        lemma_listed_offset(list, n - 1, id, l, o);
        if list[n - 1].0 != id {
            if exists|i: int| 0 <= i < n && #[trigger] offset_listed(list, id, i) {
                let i = choose|i: int| 0 <= i < n && #[trigger] offset_listed(list, id, i);
                assert(i < n - 1);
                assert(0 <= i < n - 1 && offset_listed(list, id, i));
            }
        }
    }
}

/// Setting an offset changes neither the contents nor the identifier.
proof fn lemma_listed_keeps(list: Seq<(LayerId, IVec2)>, n: int, id: LayerId, l: LayerView)
    ensures
        with_listed_offset(list, n, id, l) == (LayerView {
            offset: with_listed_offset(list, n, id, l).offset,
            ..l
        }),
    decreases n,
{
    if n > 0 {
        lemma_listed_keeps(list, n - 1, id, l);
    }
}

impl Command for ResizeCanvasCmd {
    open spec fn wf(&self) -> bool {
        true
    }

    open spec fn name(&self) -> Seq<char> {
        "Resize canvas"@
    }

    open spec fn adds(&self) -> nat {
        0
    }

    open spec fn refs(&self) -> Set<LayerId> {
        Set::empty()
    }

    open spec fn reverts(&self, then: DocView, after: DocView) -> bool {
        &&& self.old_canvas == Some(then.canvas)
        &&& lists_offsets(then, self.old_offsets@)
        &&& after == resized(then, self.new_width, self.new_height, self.anchor)
    }

    open spec fn learns(&self) -> bool {
        false
    }

    open spec fn undoes(&self, now: DocView, fin: DocView) -> bool {
        fin == with_listed_offsets(
            (DocView {
                canvas: match self.old_canvas {
                    Some(c) => c,
                    None => now.canvas,
                },
                ..now
            }),
            self.old_offsets@,
        )
    }

    open spec fn does(&self, then: DocView, r: Result<(), OgreError>, after: DocView) -> bool {
        &&& r is Err ==> after == then
        &&& if self.new_width == 0 || self.new_height == 0 {
            r == Err::<(), OgreError>(
                OgreError::InvalidOperation("canvas size must be non-zero"),
            )
        } else {
            r is Ok && after == resized(
                then,
                self.new_width,
                self.new_height,
                self.anchor,
            )
        }
    }

    open spec fn steady(&self, then: DocView) -> bool {
        true
    }

    fn label(&self) -> (r: &'static str) {
        "Resize canvas"
    }

    fn apply(&mut self, doc: &mut Document) -> (r: Result<(), OgreError>) {
        if self.new_width == 0 || self.new_height == 0 {
            return Err(OgreError::InvalidOperation("canvas size must be non-zero"));
        }
        let was: Rect = doc.canvas_rect();
        let (ax, ay): (u8, u8) = self.anchor.factors();
        let dx: i32 = shift_by(ax, self.new_width as i64 - was.w as i64);
        let dy: i32 = shift_by(ay, self.new_height as i64 - was.h as i64);
        let keys: Vec<LayerId> = doc.all_layers().keys();
        let mut offsets: Vec<(LayerId, IVec2)> = Vec::new();
        let ghost v = doc@;
        let ghost move_it = |l: LayerView| LayerView {
            offset: moved_offset(l.offset, dx as int, dy as int),
            ..l
        };
        let mut i: usize = 0;
        assert(keys@.take(0) =~= Seq::empty());
        while i < keys.len()
            invariant
                i <= keys@.len(),
                keys@.no_duplicates(),
                forall|id: LayerId| #[trigger] keys@.contains(id) <==> v.has(id),
                v == old(doc)@,
                move_it == (|l: LayerView| LayerView {
                    offset: moved_offset(l.offset, dx as int, dy as int),
                    ..l
                }),
                doc.wf(),
                doc.used() == old(doc).used(),
                doc@ == (DocView { layers: doc@.layers, ..v }),
                doc@.layers.dom() == v.layers.dom(),
                forall|id: LayerId| #[trigger]
                    v.has(id) ==> doc@.layers[id] == (if keys@.take(i as int).contains(id) {
                        move_it(v.layers[id])
                    } else {
                        v.layers[id]
                    }),
                offsets@.len() == i,
                forall|k: int|
                    0 <= k < i ==> (#[trigger] offsets@[k]) == (
                        keys@[k],
                        v.layers[keys@[k]].offset,
                    ),
            decreases keys@.len() - i,
        {
            let id: LayerId = keys[i];
            proof {
                assert(keys@.contains(id));
                assert(!keys@.take(i as int).contains(id)) by {
                    if keys@.take(i as int).contains(id) {
                        let k = choose|k: int|
                            0 <= k < keys@.take(i as int).len() && keys@.take(i as int)[k] == id;
                        assert(keys@[k] == keys@[i as int]);
                    }
                }
            }
            let ghost d0 = doc@;
            if let Ok(layer) = doc.layer_mut(id) {
                offsets.push((id, layer.offset));
                layer.offset = IVec2::new(
                    saturating(layer.offset.x, dx),
                    saturating(layer.offset.y, dy),
                );
            }
            proof {
                assert(doc@.layers.dom() =~= v.layers.dom());
                assert forall|x: LayerId| #[trigger] v.has(x) implies doc@.layers[x] == (
                if keys@.take(i + 1).contains(x) { move_it(v.layers[x]) } else { v.layers[x] }) by {
                    let (a, b) = (keys@.take(i as int), keys@.take(i + 1));
                    assert(b =~= a.push(id));
                    assert(b.contains(x) <==> a.contains(x) || x == id) by {
                        if a.contains(x) {
                            let k = choose|k: int| 0 <= k < a.len() && a[k] == x;
                            assert(b[k] == x);
                        }
                        if b.contains(x) {
                            let k = choose|k: int| 0 <= k < b.len() && b[k] == x;
                            if k < i {
                                assert(a[k] == x);
                            }
                        }
                        assert(b[i as int] == id);
                    }
                }
            }
            i = i + 1;
        }
        doc.set_canvas(Rect::new(was.x, was.y, self.new_width, self.new_height));
        self.old_canvas = Some(was);
        self.old_offsets = offsets;
        proof {
            assert(keys@.take(i as int) =~= keys@);
            let want = resized(v, self.new_width, self.new_height, self.anchor);
            assert(doc@.layers =~= want.layers) by {
                assert forall|id: LayerId| want.layers.dom().contains(id) implies doc@.layers[id]
                    == #[trigger] want.layers[id] by {
                    assert(v.has(id));
                    assert(keys@.contains(id));
                }
            }
            assert forall|id: LayerId| #[trigger] v.has(id) implies exists|k: int| #[trigger]
                offset_listed(self.old_offsets@, id, k) by {
                assert(keys@.contains(id));
                let k = choose|k: int| 0 <= k < keys@.len() && keys@[k] == id;
                assert(offset_listed(self.old_offsets@, id, k));
            }
            assert forall|k: int| 0 <= k < self.old_offsets@.len() implies v.has(
                (#[trigger] self.old_offsets@[k]).0,
            ) && self.old_offsets@[k].1 == v.layers[self.old_offsets@[k].0].offset by {
                assert(keys@.contains(keys@[k]));
            }
            structure_decides_tidy(v, doc@);
            assert forall|then: DocView, after: DocView, keep: Set<LayerId>|
                #![trigger old(self).does(then, Ok(()), after), same_picture(then, old(doc)@, keep)]
                old(self).does(then, Ok(()), after) && same_picture(
                    then,
                    old(doc)@,
                    keep,
                ) implies same_picture(after, doc@, keep) by {
                assert forall|x: LayerId| #[trigger] shown(after, keep, x) == shown(
                    doc@,
                    keep,
                    x,
                ) by {
                    assert(shown(then, keep, x) == shown(old(doc)@, keep, x));
                }
            }
        }
        Ok(())
    }

    fn undo(&mut self, doc: &mut Document)
        ensures
            final(self).old_canvas is None,
            final(self).old_offsets@.len() == 0,
    {
        if let Some(c) = self.old_canvas.take() {
            doc.set_canvas(c);
        }
        let ghost v = doc@;
        let ghost list = self.old_offsets@;
        let mut i: usize = 0;
        while i < self.old_offsets.len()
            invariant
                i <= self.old_offsets@.len(),
                self.old_offsets@ == list,
                list == old(self).old_offsets@,
                self.new_width == old(self).new_width,
                v == (DocView {
                    canvas: match old(self).old_canvas {
                        Some(c) => c,
                        None => old(doc)@.canvas,
                    },
                    ..old(doc)@
                }),
                doc.wf(),
                doc.used() <= old(doc).used(),
                doc@ == (DocView { layers: doc@.layers, ..v }),
                doc@.layers.dom() == v.layers.dom(),
                forall|id: LayerId| #[trigger]
                    v.has(id) ==> doc@.layers[id] == with_listed_offset(
                        list,
                        i as int,
                        id,
                        v.layers[id],
                    ),
            decreases self.old_offsets@.len() - i,
        {
            let (id, offset): (LayerId, IVec2) = self.old_offsets[i];
            let ghost d0 = doc@;
            if let Ok(layer) = doc.layer_mut(id) {
                layer.offset = offset;
            }
            proof {
                assert(doc@.layers.dom() =~= v.layers.dom());
                assert forall|x: LayerId| #[trigger] v.has(x) implies doc@.layers[x]
                    == with_listed_offset(list, i + 1, x, v.layers[x]) by {
                    lemma_listed_keeps(list, i as int, x, v.layers[x]);
                }
            }
            i = i + 1;
        }
        self.old_offsets = Vec::new();
        proof {
            assert(doc@.layers =~= with_listed_offsets(v, list).layers) by {
                assert forall|id: LayerId| doc@.layers.dom().contains(id) implies doc@.layers[id]
                    == with_listed_offsets(v, list).layers[id] by {
                    assert(v.has(id));
                }
            }
            assert forall|id: LayerId| #[trigger] v.has(id) implies v.layers[id].content
                == doc@.layers[id].content by {
                lemma_listed_keeps(list, i as int, id, v.layers[id]);
            }
            structure_decides_tidy(v, doc@);
            assert forall|then: DocView, after: DocView, keep: Set<LayerId>|
                #![trigger old(self).reverts(then, after), same_picture(then, doc@, keep)]
                old(self).reverts(then, after) && keep.subset_of(then.layers.dom()) && same_picture(
                    after,
                    old(doc)@,
                    keep.union(old(self).refs()),
                ) implies same_picture(then, doc@, keep) by {
                let more = keep.union(old(self).refs());
                assert(more =~= keep);
                assert forall|x: LayerId| #[trigger] shown(then, keep, x) == shown(
                    doc@,
                    keep,
                    x,
                ) by {
                    assert(shown(after, keep, x) == shown(old(doc)@, keep, x));
                    assert(after.has(x) == then.has(x));
                    if then.has(x) {
                        assert(after.layers[x] == (LayerView {
                            offset: after.layers[x].offset,
                            ..then.layers[x]
                        }));
                        assert(v.has(x) ==> doc@.layers[x] == with_listed_offset(
                            list,
                            i as int,
                            x,
                            v.layers[x],
                        ));
                        let k = choose|k: int| #[trigger] offset_listed(list, x, k);
                        assert(0 <= k < i && offset_listed(list, x, k));
                        lemma_listed_offset(
                            list,
                            i as int,
                            x,
                            v.layers[x],
                            then.layers[x].offset,
                        );
                    }
                }
            }
        }
    }

    fn cleanup(&self, doc: &mut Document) {
    }

    fn referenced_layers(&self) -> (r: Vec<LayerId>)
        ensures
            r@ == Seq::<LayerId>::empty(),
    {
        Vec::new()
    }
}

/// Resizing moves no layer along an axis whose near edge is anchored; where the far
/// edge is anchored, every layer keeps its distance from that edge. Nothing else of
/// a layer changes.
///
/// The far edge is held exactly as long as the size changes by less than 2²⁴ pixels
/// and the offset stays within the coordinates.
pub proof fn anchored_edges_stay(
    v: DocView,
    w: u32,
    h: u32,
    anchor: CanvasAnchor,
    id: LayerId,
)
    requires
        v.has(id),
        -0x100_0000 < w - v.canvas.w < 0x100_0000,
        -0x100_0000 < h - v.canvas.h < 0x100_0000,
        fits_i32(v.layers[id].offset.x + w - v.canvas.w),
        fits_i32(v.layers[id].offset.y + h - v.canvas.h),
    ensures
        ({
            let was = v.layers[id].offset;
            let l = resized(v, w, h, anchor).layers[id];
            &&& l == LayerView { offset: l.offset, ..v.layers[id] }
            &&& anchor.halves().0 == 0 ==> l.offset.x == was.x
            &&& anchor.halves().0 == 2 ==> w - l.offset.x == v.canvas.w - was.x
            &&& anchor.halves().1 == 0 ==> l.offset.y == was.y
            &&& anchor.halves().1 == 2 ==> h - l.offset.y == v.canvas.h - was.y
        }),
{
    lemma_far_shift(w - v.canvas.w);
    lemma_far_shift(h - v.canvas.h);
}

proof fn lemma_far_shift(d: int)
    requires
        -0x100_0000 < d < 0x100_0000,
    ensures
        anchor_shift(2, d) == d,
{
    if d > 0 {
        whole_numbers_survive(d as nat);
    } else if d < 0 {
        whole_numbers_survive((-d) as nat);
    }
}

} // verus!
