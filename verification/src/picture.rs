//! What two states of a document have in common.
//!
//! Undoing an edit gives the document back as it was seen, but it may leave
//! layers behind that were taken out of the tree: a later redo needs them. Two
//! states show the same picture if everything that is not taken out is the same
//! in both, and so are the taken-out layers that are to be kept.
use vstd::prelude::*;

use crate::document::DocView;
use crate::layer::{LayerId, LayerView};

verus! {

/// What is to be seen of layer `id`: its content and whether it is taken out, if
/// it is in the tree or to be kept.
pub open spec fn shown(v: DocView, keep: Set<LayerId>, id: LayerId) -> Option<(LayerView, bool)> {
    if v.has(id) && (!v.removed.contains(id) || keep.contains(id)) {
        Some((v.layers[id], v.removed.contains(id)))
    } else {
        None
    }
}

/// Two states show the same picture: they agree on all but taken-out layers, and
/// on the taken-out layers in `keep`.
pub open spec fn same_picture(a: DocView, b: DocView, keep: Set<LayerId>) -> bool {
    &&& a.canvas == b.canvas
    &&& a.order == b.order
    &&& a.active == b.active
    &&& a.selection == b.selection
    &&& a.color_space == b.color_space
    &&& a.icc_profile == b.icc_profile
    &&& a.slices == b.slices
    &&& forall|id: LayerId| #[trigger] shown(a, keep, id) == shown(b, keep, id)
}

/// `b` shows the same picture as `a`, with all layers that are taken out in `a`.
pub open spec fn left_alone(a: DocView, b: DocView) -> bool {
    forall|keep: Set<LayerId>|
        keep.subset_of(a.layers.dom()) ==> #[trigger] same_picture(a, b, keep)
}

/// The layers `refs` exist in `after`, and so do all layers of `then`.
pub open spec fn sustains(refs: Set<LayerId>, then: DocView, after: DocView) -> bool {
    &&& forall|id: LayerId| #[trigger] refs.contains(id) ==> after.has(id)
    &&& forall|id: LayerId| #[trigger] then.has(id) ==> after.has(id)
}

/// Layer `id` exists and is not taken out.
pub open spec fn visible(v: DocView, id: LayerId) -> bool {
    v.has(id) && !v.removed.contains(id)
}

/// Position `i` of the list of `parent` is a place in the tree.
pub open spec fn spot(v: DocView, parent: Option<LayerId>, i: int) -> bool {
    &&& 0 <= i < v.list(parent).len()
    &&& parent matches Some(p) ==> v.is_group(p) && !v.removed.contains(p)
}

/// The tree holds only layers that exist and are not taken out, each at one place
/// at most.
pub open spec fn neat(v: DocView) -> bool {
    &&& forall|parent: Option<LayerId>, i: int| #[trigger]
        spot(v, parent, i) ==> visible(v, v.list(parent)[i])
    &&& forall|p: Option<LayerId>, i: int, q: Option<LayerId>, j: int|
        (p != q || i != j) && #[trigger] spot(v, p, i) && #[trigger] spot(v, q, j) ==> v.list(p)[i]
            != v.list(q)[j]
}

/// Only layers that exist are taken out.
pub open spec fn owned(v: DocView) -> bool {
    forall|id: LayerId| #[trigger] v.removed.contains(id) ==> v.has(id)
}

/// The tree is in order, and only layers that exist are taken out.
pub open spec fn tidy(v: DocView) -> bool {
    neat(v) && owned(v)
}

/// A state shows the same picture as itself.
pub proof fn pictures_agree_with_themselves(a: DocView, keep: Set<LayerId>)
    ensures
        same_picture(a, a, keep),
{
}

/// States that show the same picture as a third show the same picture.
pub proof fn pictures_chain(a: DocView, b: DocView, c: DocView, keep: Set<LayerId>)
    requires
        same_picture(a, b, keep),
        same_picture(b, c, keep),
    ensures
        same_picture(a, c, keep),
        same_picture(b, a, keep),
{
    assert forall|id: LayerId| #[trigger] shown(a, keep, id) == shown(c, keep, id) by {
        assert(shown(b, keep, id) == shown(c, keep, id));
    }
    assert forall|id: LayerId| #[trigger] shown(b, keep, id) == shown(a, keep, id) by {
        assert(shown(a, keep, id) == shown(b, keep, id));
    }
}

/// Keeping less asks for less.
pub proof fn pictures_shrink(a: DocView, b: DocView, keep: Set<LayerId>, less: Set<LayerId>)
    requires
        same_picture(a, b, keep),
        less.subset_of(keep),
    ensures
        same_picture(a, b, less),
{
    assert forall|id: LayerId| #[trigger] shown(a, less, id) == shown(b, less, id) by {
        assert(shown(a, keep, id) == shown(b, keep, id));
    }
}

/// States that show the same picture have the same tree.
pub proof fn pictures_share_the_tree(a: DocView, b: DocView, keep: Set<LayerId>)
    requires
        same_picture(a, b, keep),
    ensures
        forall|id: LayerId| #[trigger] visible(a, id) == visible(b, id),
        forall|id: LayerId| #[trigger] visible(a, id) ==> a.layers[id] == b.layers[id],
        forall|p: LayerId, id: LayerId| #[trigger] a.is_parent(p, id) == b.is_parent(p, id),
        forall|parent: Option<LayerId>, i: int| #[trigger]
            spot(a, parent, i) == spot(b, parent, i),
        forall|parent: Option<LayerId>, i: int| #[trigger]
            spot(a, parent, i) ==> a.list(parent) == b.list(parent),
        forall|id: LayerId, parent: Option<LayerId>, i: int| #[trigger]
            a.sits_at(id, parent, i) ==> b.sits_at(id, parent, i),
        neat(a) == neat(b),
{
    assert forall|id: LayerId| #[trigger] visible(a, id) == visible(b, id) by {
        assert(shown(a, keep, id) == shown(b, keep, id));
    }
    assert forall|id: LayerId| #[trigger] visible(a, id) implies a.layers[id] == b.layers[id] by {
        assert(shown(a, keep, id) == shown(b, keep, id));
    }
    assert forall|p: LayerId, id: LayerId| #[trigger] a.is_parent(p, id) == b.is_parent(p, id) by {
        assert(visible(a, p) == visible(b, p));
    }
    assert forall|parent: Option<LayerId>, i: int| #[trigger] spot(a, parent, i) == spot(
        b,
        parent,
        i,
    ) by {
        if let Some(p) = parent {
            assert(visible(a, p) == visible(b, p));
        }
    }
    assert forall|parent: Option<LayerId>, i: int| #[trigger] spot(a, parent, i) implies a.list(
        parent,
    ) == b.list(parent) by {
        if let Some(p) = parent {
            assert(visible(a, p));
        }
    }
    assert forall|id: LayerId, parent: Option<LayerId>, i: int| #[trigger]
        a.sits_at(id, parent, i) implies b.sits_at(id, parent, i) by {
        assert(visible(a, id));
        match parent {
            Some(p) => {
                assert(a.is_parent(p, id));
                assert(visible(a, p));
            },
            None => {
                assert forall|p: LayerId| !(#[trigger] b.is_parent(p, id)) by {
                    assert(a.is_parent(p, id) == b.is_parent(p, id));
                }
            },
        }
    }
    lemma_neat_same(a, b, keep);
    pictures_chain(a, b, b, keep);
    lemma_neat_same(b, a, keep);
}

proof fn lemma_neat_same(a: DocView, b: DocView, keep: Set<LayerId>)
    requires
        same_picture(a, b, keep),
    ensures
        neat(a) ==> neat(b),
{
    if neat(a) {
        assert forall|parent: Option<LayerId>, i: int| #[trigger] spot(b, parent, i) implies spot(
            a,
            parent,
            i,
        ) && b.list(parent) == a.list(parent) by {
            if let Some(p) = parent {
                assert(shown(a, keep, p) == shown(b, keep, p));
            }
        }
        assert forall|parent: Option<LayerId>, i: int| #[trigger] spot(b, parent, i) implies visible(
            b,
            b.list(parent)[i],
        ) by {
            assert(spot(a, parent, i));
            let id = a.list(parent)[i];
            assert(shown(a, keep, id) == shown(b, keep, id));
        }
        assert forall|p: Option<LayerId>, i: int, q: Option<LayerId>, j: int|
            (p != q || i != j) && #[trigger] spot(b, p, i) && #[trigger] spot(
                b,
                q,
                j,
            ) implies b.list(p)[i] != b.list(q)[j] by {
            assert(spot(a, p, i) && spot(a, q, j));
        }
    }
}

/// `after` is `then` with another layer `id` and another active layer.
pub open spec fn one_layer_apart(then: DocView, after: DocView, id: LayerId) -> bool {
    &&& then.has(id)
    &&& after.has(id)
    &&& after == DocView {
        layers: then.layers.insert(id, after.layers[id]),
        active: after.active,
        ..then
    }
}

/// Putting back the one layer that differs gives the picture back.
pub proof fn one_layer_put_back(
    then: DocView,
    after: DocView,
    now: DocView,
    id: LayerId,
    keep: Set<LayerId>,
)
    requires
        one_layer_apart(then, after, id),
        same_picture(after, now, keep.insert(id)),
    ensures
        now.has(id),
        now.layers[id] == after.layers[id],
        same_picture(
            then,
            DocView {
                layers: now.layers.insert(id, then.layers[id]),
                active: then.active,
                ..now
            },
            keep,
        ),
{
    let more = keep.insert(id);
    assert(shown(after, more, id) == shown(now, more, id));
    let back = DocView {
        layers: now.layers.insert(id, then.layers[id]),
        active: then.active,
        ..now
    };
    assert forall|x: LayerId| #[trigger] shown(then, keep, x) == shown(back, keep, x) by {
        assert(shown(after, more, x) == shown(now, more, x));
    }
}

/// A layer in the tree is the same in every state that shows the same picture.
pub proof fn seen_alike(now: DocView, id: LayerId)
    ensures
        forall|then: DocView, keep: Set<LayerId>| #[trigger]
            same_picture(then, now, keep) && visible(then, id) ==> visible(now, id)
                && now.layers[id] == then.layers[id],
{
    assert forall|then: DocView, keep: Set<LayerId>| #[trigger]
        same_picture(then, now, keep) && visible(then, id) implies visible(now, id)
        && now.layers[id] == then.layers[id] by {
        assert(shown(then, keep, id) == shown(now, keep, id));
    }
}

/// Changing one layer of the tree in the same way in two states that show the same
/// picture gives two that show the same picture.
pub proof fn changed_alike(now: DocView, fin: DocView, id: LayerId)
    requires
        one_layer_apart(now, fin, id),
    ensures
        forall|then: DocView, after: DocView, keep: Set<LayerId>|
            #![trigger same_picture(then, now, keep), same_picture(after, fin, keep)]
            same_picture(then, now, keep) && visible(then, id) && one_layer_apart(then, after, id)
                && after.layers[id] == fin.layers[id] && after.active == fin.active ==> same_picture(
                after,
                fin,
                keep,
            ),
{
    assert forall|then: DocView, after: DocView, keep: Set<LayerId>|
        #![trigger same_picture(then, now, keep), same_picture(after, fin, keep)]
        same_picture(then, now, keep) && visible(then, id) && one_layer_apart(then, after, id)
            && after.layers[id] == fin.layers[id] && after.active == fin.active implies same_picture(
        after,
        fin,
        keep,
    ) by {
        assert forall|x: LayerId| #[trigger] shown(after, keep, x) == shown(fin, keep, x) by {
            assert(shown(then, keep, x) == shown(now, keep, x));
        }
    }
}

/// A change of one layer that keeps its list of children leaves the tree alone.
pub proof fn one_layer_keeps_tidy(then: DocView, after: DocView, id: LayerId)
    requires
        one_layer_apart(then, after, id),
        after.layers[id].content is Group <==> then.layers[id].content is Group,
        after.kids(id) == then.kids(id),
    ensures
        tidy(then) ==> tidy(after),
        owned(then) ==> owned(after),
{
    assert forall|parent: Option<LayerId>| #[trigger] after.list(parent) == then.list(parent) by {}
    assert forall|parent: Option<LayerId>, i: int| #[trigger] spot(after, parent, i) == spot(
        then,
        parent,
        i,
    ) by {}
    if tidy(then) {
        assert forall|parent: Option<LayerId>, i: int| #[trigger] spot(
            after,
            parent,
            i,
        ) implies visible(after, after.list(parent)[i]) by {
            assert(spot(then, parent, i));
        }
        assert forall|p: Option<LayerId>, i: int, q: Option<LayerId>, j: int|
            (p != q || i != j) && #[trigger] spot(after, p, i) && #[trigger] spot(
                after,
                q,
                j,
            ) implies after.list(p)[i] != after.list(q)[j] by {
            assert(spot(then, p, i) && spot(then, q, j));
        }
    }
}

/// The tree follows from the layers' contents, the root order and what is taken
/// out.
pub proof fn structure_decides_tidy(a: DocView, b: DocView)
    requires
        a.order == b.order,
        a.removed == b.removed,
        a.layers.dom() == b.layers.dom(),
        forall|id: LayerId| #[trigger]
            a.has(id) ==> a.layers[id].content == b.layers[id].content,
    ensures
        tidy(a) ==> tidy(b),
        owned(a) ==> owned(b),
{
    assert forall|parent: Option<LayerId>, i: int| #[trigger] spot(b, parent, i) implies spot(
        a,
        parent,
        i,
    ) && a.list(parent) == b.list(parent) by {
        if let Some(p) = parent {
            assert(a.has(p));
        }
    }
    if tidy(a) {
        assert forall|p: Option<LayerId>, i: int, q: Option<LayerId>, j: int|
            (p != q || i != j) && #[trigger] spot(b, p, i) && #[trigger] spot(
                b,
                q,
                j,
            ) implies b.list(p)[i] != b.list(q)[j] by {
            assert(spot(a, p, i) && spot(a, q, j));
        }
    }
}

/// `after` is `then` with another selection.
pub open spec fn selection_apart(then: DocView, after: DocView) -> bool {
    after == DocView { selection: after.selection, ..then }
}

/// Putting the selection back gives the picture back.
pub proof fn selection_put_back(
    then: DocView,
    after: DocView,
    now: DocView,
    keep: Set<LayerId>,
    more: Set<LayerId>,
)
    requires
        selection_apart(then, after),
        same_picture(after, now, more),
        keep.subset_of(more),
    ensures
        same_picture(then, DocView { selection: then.selection, ..now }, keep),
{
    let back = DocView { selection: then.selection, ..now };
    assert forall|x: LayerId| #[trigger] shown(then, keep, x) == shown(back, keep, x) by {
        assert(shown(after, more, x) == shown(now, more, x));
    }
}

} // verus!
