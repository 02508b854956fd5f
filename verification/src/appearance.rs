//! What a document looks like follows from its layers alone.
use vstd::prelude::*;

use crate::compositor::{composite_px, pixel_state};
use crate::coord::IVec2;
use crate::document::{
    deeper, lemma_unseen_less, lemma_unseen_no_more, paint, paint_list, painted_layers_occur_once,
    DocView,
};
use crate::kernel::Kernel;
use crate::layer::LayerId;
use crate::picture::{neat, pictures_share_the_tree, same_picture, spot, visible};
use crate::pixel::Rgba32F;

verus! {

/// The color that a document shows at a position; none if its tree has a cycle.
pub open spec fn look<K: Kernel>(kern: &K, v: DocView, pos: IVec2) -> Option<Rgba32F> {
    match paint_list(v, v.order, 0, Set::empty()) {
        Ok(a) => Some(composite_px(kern, v, pos, a.0)),
        Err(_) => None,
    }
}

/// `b` has all layers of the tree of `a`.
spec fn covers(a: DocView, b: DocView) -> bool {
    &&& a.layers.dom().finite()
    &&& b.layers.dom().finite()
    &&& neat(a)
    &&& forall|x: LayerId| #[trigger]
        visible(a, x) ==> visible(b, x) && b.layers[x] == a.layers[x]
}

proof fn paints_alike(a: DocView, b: DocView, id: LayerId, depth: u8, seen: Set<LayerId>)
    requires
        covers(a, b),
        visible(a, id),
    ensures
        paint(b, id, depth, seen) == paint(a, id, depth, seen),
    decreases a.unseen(seen), 0nat,
{
    assert(visible(b, id));
    if !seen.contains(id) {
        lemma_unseen_less(a, seen, seen.insert(id), id);
        let kids = a.kids(id);
        assert forall|i: int| 0 <= i < kids.len() implies visible(a, #[trigger] kids[i]) by {
            assert(a.layers[id].content is Group);
            assert(spot(a, Some(id), i));
        }
        paints_lists_alike(a, b, kids, deeper(depth), seen.insert(id));
    }
}

proof fn paints_lists_alike(
    a: DocView,
    b: DocView,
    list: Seq<LayerId>,
    depth: u8,
    seen: Set<LayerId>,
)
    requires
        covers(a, b),
        forall|i: int| 0 <= i < list.len() ==> visible(a, #[trigger] list[i]),
    ensures
        paint_list(b, list, depth, seen) == paint_list(a, list, depth, seen),
    decreases a.unseen(seen), 1 + list.len(),
{
    if list.len() > 0 {
        let less = list.drop_last();
        assert forall|i: int| 0 <= i < less.len() implies visible(a, #[trigger] less[i]) by {
            assert(less[i] == list[i]);
        }
        paints_lists_alike(a, b, less, depth, seen);
        if let Ok(m) = paint_list(a, less, depth, seen) {
            if seen.subset_of(m.1) {
                lemma_unseen_no_more(a, seen, m.1);
                paints_alike(a, b, list.last(), depth, m.1);
            }
        }
    }
}

proof fn blends_alike<K: Kernel>(
    kern: &K,
    a: DocView,
    b: DocView,
    pos: IVec2,
    order: Seq<(LayerId, u8)>,
)
    requires
        forall|i: int|
            0 <= i < order.len() ==> a.layers[(#[trigger] order[i]).0] == b.layers[order[i].0],
    ensures
        pixel_state(kern, a, pos, order) == pixel_state(kern, b, pos, order),
    decreases order.len(),
{
    if order.len() > 0 {
        let less = order.drop_last();
        assert forall|i: int| 0 <= i < less.len() implies a.layers[(#[trigger] less[i]).0]
            == b.layers[less[i].0] by {
            assert(less[i] == order[i]);
        }
        blends_alike(kern, a, b, pos, less);
        assert(order.last() == order[order.len() - 1]);
    }
}

/// States that show the same picture look the same everywhere: what undo gives back
/// looks as it did.
pub proof fn same_pictures_look_the_same<K: Kernel>(
    kern: &K,
    a: DocView,
    b: DocView,
    keep: Set<LayerId>,
    pos: IVec2,
)
    requires
        neat(a),
        a.layers.dom().finite(),
        b.layers.dom().finite(),
        same_picture(a, b, keep),
    ensures
        look(kern, a, pos) == look(kern, b, pos),
{
    pictures_share_the_tree(a, b, keep);
    assert(covers(a, b));
    assert forall|i: int| 0 <= i < a.order.len() implies visible(a, #[trigger] a.order[i]) by {
        assert(spot(a, None, i));
    }
    paints_lists_alike(a, b, a.order, 0, Set::empty());
    if let Ok(out) = paint_list(a, a.order, 0, Set::empty()) {
        painted_layers_occur_once(a, a.order);
        assert forall|i: int| 0 <= i < out.0.len() implies a.layers[(#[trigger] out.0[i]).0]
            == b.layers[out.0[i].0] by {
            assert(visible(a, out.0[i].0));
        }
        blends_alike(kern, a, b, pos, out.0);
    }
}

proof fn paints_by_layers(a: DocView, b: DocView, id: LayerId, depth: u8, seen: Set<LayerId>)
    requires
        a.layers.dom().finite(),
        a.layers == b.layers,
        a.removed == b.removed,
    ensures
        paint(b, id, depth, seen) == paint(a, id, depth, seen),
    decreases a.unseen(seen), 0nat,
{
    if !a.removed.contains(id) && !seen.contains(id) && a.has(id) {
        lemma_unseen_less(a, seen, seen.insert(id), id);
        paints_lists_by_layers(a, b, a.kids(id), deeper(depth), seen.insert(id));
    }
}

proof fn paints_lists_by_layers(
    a: DocView,
    b: DocView,
    list: Seq<LayerId>,
    depth: u8,
    seen: Set<LayerId>,
)
    requires
        a.layers.dom().finite(),
        a.layers == b.layers,
        a.removed == b.removed,
    ensures
        paint_list(b, list, depth, seen) == paint_list(a, list, depth, seen),
    decreases a.unseen(seen), 1 + list.len(),
{
    if list.len() > 0 {
        let less = list.drop_last();
        paints_lists_by_layers(a, b, less, depth, seen);
        if let Ok(m) = paint_list(a, less, depth, seen) {
            if seen.subset_of(m.1) {
                lemma_unseen_no_more(a, seen, m.1);
                paints_by_layers(a, b, list.last(), depth, m.1);
            }
        }
    }
}

/// Slices, the embedded profile, the color space, the selection, the active layer and
/// the canvas do not affect what the layers look like.
pub proof fn only_layers_show<K: Kernel>(kern: &K, a: DocView, b: DocView, pos: IVec2)
    requires
        a.layers.dom().finite(),
        a.layers == b.layers,
        a.removed == b.removed,
        a.order == b.order,
    ensures
        look(kern, a, pos) == look(kern, b, pos),
{
    paints_lists_by_layers(a, b, a.order, 0, Set::empty());
    if let Ok(out) = paint_list(a, a.order, 0, Set::empty()) {
        blends_alike(kern, a, b, pos, out.0);
    }
}

} // verus!
