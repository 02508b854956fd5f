//! Layers that come into the tree and leave it.
use vstd::prelude::*;

use crate::document::{
    first_at, lemma_unseen_less, lemma_unseen_no_more, lemma_walk_facts, lemma_walk_leaf,
    list_error, put_at, restored, subtree, subtree_error, unlisted, walk, walk_list, DocView,
};
use crate::layer::{ContentView, LayerId, LayerView};
use crate::picture::{
    neat, owned, pictures_share_the_tree, same_picture, shown, spot, tidy, visible,
};

verus! {

/// A walk that succeeds in `a` takes the same way in `b` if the layers it meets
/// have the same children there.
pub proof fn walks_agree(a: DocView, b: DocView, id: LayerId, seen: Set<LayerId>)
    requires
        a.layers.dom().finite(),
        b.layers.dom().finite(),
        walk(a, id, seen) is Ok,
        b.has(id),
        b.kids(id) == a.kids(id),
        forall|x: LayerId| #[trigger]
            walk(a, id, seen)->Ok_0.0.contains(x) ==> b.has(x) && b.kids(x) == a.kids(x),
    ensures
        walk(b, id, seen) == walk(a, id, seen),
    decreases a.unseen(seen), 0nat,
{
    lemma_unseen_less(a, seen, seen.insert(id), id);
    lists_agree(a, b, a.kids(id), seen.insert(id));
}

proof fn lists_agree(a: DocView, b: DocView, list: Seq<LayerId>, seen: Set<LayerId>)
    requires
        a.layers.dom().finite(),
        b.layers.dom().finite(),
        walk_list(a, list, seen) is Ok,
        forall|x: LayerId| #[trigger]
            walk_list(a, list, seen)->Ok_0.0.contains(x) ==> b.has(x) && b.kids(x) == a.kids(x),
    ensures
        walk_list(b, list, seen) == walk_list(a, list, seen),
    decreases a.unseen(seen), 1 + list.len(),
{
    if list.len() > 0 {
        let less = list.drop_last();
        let c = list.last();
        let out = walk_list(a, list, seen)->Ok_0.0;
        let m = walk_list(a, less, seen)->Ok_0;
        lemma_unseen_no_more(a, seen, m.1);
        let n = walk(a, c, m.1)->Ok_0;
        assert(out == m.0.push(c) + n.0);
        assert forall|x: LayerId| #[trigger] m.0.contains(x) implies b.has(x) && b.kids(x)
            == a.kids(x) by {
            let j = choose|j: int| 0 <= j < m.0.len() && m.0[j] == x;
            assert(out[j] == x);
            assert(out.contains(x));
        }
        lists_agree(a, b, less, seen);
        assert(out[m.0.len() as int] == c);
        assert(out.contains(c));
        assert forall|x: LayerId| #[trigger] n.0.contains(x) implies b.has(x) && b.kids(x)
            == a.kids(x) by {
            let j = choose|j: int| 0 <= j < n.0.len() && n.0[j] == x;
            assert(out[m.0.len() + 1 + j] == x);
            assert(out.contains(x));
        }
        walks_agree(a, b, c, m.1);
    }
}

/// A walk stays within a set that holds the children of its members.
pub proof fn walks_stay_within(v: DocView, id: LayerId, seen: Set<LayerId>, s: Set<LayerId>)
    requires
        v.layers.dom().finite(),
        s.contains(id),
        forall|x: LayerId, y: LayerId|
            #![trigger s.contains(x), v.kids(x).contains(y)]
            s.contains(x) && v.kids(x).contains(y) && v.has(y) ==> s.contains(y),
        walk(v, id, seen) is Ok,
    ensures
        forall|x: LayerId| #[trigger] walk(v, id, seen)->Ok_0.0.contains(x) ==> s.contains(x),
    decreases v.unseen(seen), 0nat,
{
    lemma_unseen_less(v, seen, seen.insert(id), id);
    assert forall|i: int| 0 <= i < v.kids(id).len() && v.has(
        #[trigger] v.kids(id)[i],
    ) implies s.contains(v.kids(id)[i]) by {
        assert(v.kids(id).contains(v.kids(id)[i]));
    }
    lists_stay_within(v, v.kids(id), seen.insert(id), s);
}

proof fn lists_stay_within(v: DocView, list: Seq<LayerId>, seen: Set<LayerId>, s: Set<LayerId>)
    requires
        v.layers.dom().finite(),
        forall|x: LayerId, y: LayerId|
            #![trigger s.contains(x), v.kids(x).contains(y)]
            s.contains(x) && v.kids(x).contains(y) && v.has(y) ==> s.contains(y),
        forall|i: int|
            0 <= i < list.len() && v.has(#[trigger] list[i]) ==> s.contains(list[i]),
        walk_list(v, list, seen) is Ok,
    ensures
        forall|x: LayerId| #[trigger]
            walk_list(v, list, seen)->Ok_0.0.contains(x) ==> s.contains(x),
    decreases v.unseen(seen), 1 + list.len(),
{
    if list.len() > 0 {
        let less = list.drop_last();
        let c = list.last();
        let out = walk_list(v, list, seen)->Ok_0.0;
        let m = walk_list(v, less, seen)->Ok_0;
        lemma_unseen_no_more(v, seen, m.1);
        lists_stay_within(v, less, seen, s);
        assert(v.has(list[list.len() - 1]));
        walks_stay_within(v, c, m.1, s);
        let n = walk(v, c, m.1)->Ok_0;
        assert forall|x: LayerId| #[trigger] out.contains(x) implies s.contains(x) by {
            let j = choose|j: int| 0 <= j < out.len() && out[j] == x;
            if j < m.0.len() {
                assert(m.0[j] == x);
                assert(m.0.contains(x));
            } else if j > m.0.len() {
                assert(n.0[j - m.0.len() - 1] == x);
                assert(n.0.contains(x));
            }
        }
    }
}

/// In a tidy tree everything below a layer of the tree is in the tree.
pub proof fn walks_stay_visible(v: DocView, id: LayerId, seen: Set<LayerId>)
    requires
        v.layers.dom().finite(),
        neat(v),
        visible(v, id),
        walk(v, id, seen) is Ok,
    ensures
        forall|x: LayerId| #[trigger] walk(v, id, seen)->Ok_0.0.contains(x) ==> visible(v, x),
{
    let s = Set::new(|x: LayerId| visible(v, x));
    assert forall|x: LayerId, y: LayerId|
        #![trigger s.contains(x), v.kids(x).contains(y)]
        s.contains(x) && v.kids(x).contains(y) && v.has(y) implies s.contains(y) by {
        let i = choose|i: int| 0 <= i < v.kids(x).len() && v.kids(x)[i] == y;
        assert(spot(v, Some(x), i));
    }
    walks_stay_within(v, id, seen, s);
    assert forall|x: LayerId| #[trigger] walk(v, id, seen)->Ok_0.0.contains(x) implies visible(
        v,
        x,
    ) by {
        assert(s.contains(x));
    }
}

/// What is below a layer, with the layer itself, in a tidy tree: all of it is in
/// the tree, and the parent is not among it.
pub proof fn subtree_facts(v: DocView, id: LayerId)
    requires
        v.layers.dom().finite(),
        subtree_error(v, id) is None,
    ensures
        subtree(v, id).contains(id),
        forall|x: LayerId| #[trigger] subtree(v, id).contains(x) ==> v.has(x),
        forall|p: LayerId| #[trigger]
            v.kids(p).contains(id) ==> !subtree(v, id).contains(p),
        forall|x: LayerId, y: LayerId|
            #![trigger subtree(v, id).contains(x), v.kids(x).contains(y)]
            subtree(v, id).contains(x) && v.kids(x).contains(y) ==> subtree(v, id).contains(y) && y
                != id,
        neat(v) && visible(v, id) ==> forall|x: LayerId| #[trigger]
            subtree(v, id).contains(x) ==> visible(v, x),
{
    let a = walk(v, id, Set::empty())->Ok_0;
    let s = subtree(v, id);
    lemma_walk_facts(v, id, Set::empty());
    assert(s == a.0.push(id));
    assert(s[a.0.len() as int] == id);
    assert forall|x: LayerId| #[trigger] s.contains(x) <==> a.0.contains(x) || x == id by {
        if s.contains(x) {
            let j = choose|j: int| 0 <= j < s.len() && s[j] == x;
            if j < a.0.len() {
                assert(a.0[j] == x);
            }
        }
        if a.0.contains(x) {
            let j = choose|j: int| 0 <= j < a.0.len() && a.0[j] == x;
            assert(s[j] == x);
        }
    }
    if neat(v) && visible(v, id) {
        walks_stay_visible(v, id, Set::empty());
    }
}

/// A layer has one seat in a tidy tree.
pub proof fn one_seat(
    v: DocView,
    id: LayerId,
    p: Option<LayerId>,
    i: int,
    q: Option<LayerId>,
    j: int,
)
    requires
        neat(v),
        v.sits_at(id, p, i),
        v.sits_at(id, q, j),
    ensures
        p == q,
        i == j,
{
    assert(spot(v, p, i));
    assert(spot(v, q, j));
}

/// Position `i` of the list of `parent` is one where a layer can be put.
pub open spec fn is_place(v: DocView, parent: Option<LayerId>, i: int) -> bool {
    &&& 0 <= i <= v.list(parent).len()
    &&& parent matches Some(p) ==> v.is_group(p) && !v.removed.contains(p)
}

/// The document with layers `ids`, as they are in `l`, in the tree below `id`, which
/// is put at position `i` of the list of `parent`.
pub open spec fn with_placed(
    v: DocView,
    l: Map<LayerId, LayerView>,
    id: LayerId,
    ids: Set<LayerId>,
    parent: Option<LayerId>,
    i: int,
) -> DocView {
    (DocView {
        layers: v.layers.union_prefer_right(l.restrict(ids)),
        removed: v.removed.difference(ids),
        ..v
    }).with_list(parent, v.list(parent).insert(i, id))
}

/// `after` is `then` with the layers `ids`, which were not in the tree, put there
/// below `id`.
pub open spec fn newly_placed(
    then: DocView,
    after: DocView,
    id: LayerId,
    ids: Set<LayerId>,
    parent: Option<LayerId>,
    i: int,
) -> bool {
    &&& is_place(then, parent, i)
    &&& ids.contains(id)
    &&& forall|x: LayerId| #[trigger]
        ids.contains(x) ==> after.has(x) && !visible(then, x) && (then.has(x) ==> then.layers[x]
            == after.layers[x])
    &&& after == (DocView {
        active: after.active,
        ..with_placed(then, after.layers, id, ids, parent, i)
    })
    &&& subtree_error(after, id) is None
    &&& subtree(after, id).to_set() == ids
    &&& neat(after)
}

/// What [`newly_placed`] means for each layer.
pub proof fn placed_layers(
    then: DocView,
    after: DocView,
    id: LayerId,
    ids: Set<LayerId>,
    parent: Option<LayerId>,
    i: int,
)
    requires
        newly_placed(then, after, id, ids, parent, i),
    ensures
        after.removed == then.removed.difference(ids),
        forall|x: LayerId| #[trigger] after.has(x) <==> then.has(x) || ids.contains(x),
        forall|x: LayerId|
            then.has(x) && parent != Some(x) ==> #[trigger] after.layers[x] == then.layers[x],
        parent matches Some(p) ==> !ids.contains(p) && after.layers[p] == (LayerView {
            content: ContentView::Group(then.list(parent).insert(i, id)),
            ..then.layers[p]
        }),
        after.list(parent) == then.list(parent).insert(i, id),
        parent is Some ==> after.order == then.order,
        after.canvas == then.canvas,
        after.selection == then.selection,
        after.color_space == then.color_space,
        after.icc_profile == then.icc_profile,
        after.slices == then.slices,
        after.list(parent).remove(i) == then.list(parent),
        visible(after, id),
        after.sits_at(id, parent, i),
{
    let base = DocView {
        layers: then.layers.union_prefer_right(after.layers.restrict(ids)),
        removed: then.removed.difference(ids),
        ..then
    };
    assert(then.list(parent).insert(i, id).remove(i) =~= then.list(parent));
    assert(after.list(parent)[i] == id);
    assert forall|x: LayerId| #[trigger] after.has(x) <==> then.has(x) || ids.contains(x) by {}
    assert(ids.contains(id));
    if let Some(p) = parent {
        assert(visible(then, p));
        assert(!ids.contains(p));
    }
    assert(spot(after, parent, i));
    assert(first_at(after.list(parent), id, i)) by {
        assert forall|j: int| 0 <= j < i implies after.list(parent)[j] != id by {
            assert(spot(after, parent, j));
        }
    }
    match parent {
        Some(p) => {
            assert(after.kids(p)[i] == id);
            assert(after.is_parent(p, id));
        },
        None => {
            assert forall|q: LayerId| !(#[trigger] after.is_parent(q, id)) by {
                if after.is_parent(q, id) {
                    let j = choose|j: int| 0 <= j < after.kids(q).len() && after.kids(q)[j] == id;
                    assert(spot(after, Some(q), j));
                }
            }
        },
    }
}

/// What a soft removal of `id` makes of `v`.
pub open spec fn taken_out(v: DocView, id: LayerId, fin: DocView) -> bool {
    exists|w: DocView| #[trigger]
        unlisted(v, id, w) && fin == (DocView {
            active: fin.active,
            removed: w.removed.union(subtree(v, id).to_set()),
            ..w
        })
}

/// Taking newly placed layers out again gives the picture back.
pub proof fn placing_taken_back(
    then: DocView,
    after: DocView,
    now: DocView,
    fin: DocView,
    id: LayerId,
    ids: Set<LayerId>,
    parent: Option<LayerId>,
    i: int,
    keep: Set<LayerId>,
)
    requires
        newly_placed(then, after, id, ids, parent, i),
        after.layers.dom().finite(),
        now.layers.dom().finite(),
        keep.subset_of(then.layers.dom()),
        same_picture(after, now, keep.union(ids)),
        subtree_error(now, id) is None ==> taken_out(now, id, fin),
        fin.active == then.active,
    ensures
        subtree_error(now, id) is None,
        subtree(now, id) == subtree(after, id),
        now.sits_at(id, parent, i),
        same_picture(then, fin, keep),
{
    let more = keep.union(ids);
    placed_layers(then, after, id, ids, parent, i);
    pictures_share_the_tree(after, now, more);
    subtree_facts(after, id);
    let sub = subtree(after, id);
    assert forall|x: LayerId| #[trigger] ids.contains(x) <==> sub.contains(x) by {
        assert(sub.to_set().contains(x) <==> sub.contains(x));
    }
    let a = walk(after, id, Set::empty())->Ok_0;
    assert forall|x: LayerId| #[trigger] a.0.contains(x) implies now.has(x) && now.kids(x)
        == after.kids(x) by {
        let j = choose|j: int| 0 <= j < a.0.len() && a.0[j] == x;
        assert(sub[j] == x);
        assert(visible(after, x));
        assert(visible(now, x));
    }
    assert(visible(now, id));
    walks_agree(after, now, id, Set::empty());
    assert(now.sits_at(id, parent, i));
    let w = choose|w: DocView| #[trigger]
        unlisted(now, id, w) && fin == (DocView {
            active: fin.active,
            removed: w.removed.union(subtree(now, id).to_set()),
            ..w
        });
    crate::document::placed_layers_sit_somewhere(now, id);
    let (q, j) = choose|q: Option<LayerId>, j: int| #[trigger]
        now.sits_at(id, q, j) && w == now.with_list(q, now.list(q).remove(j));
    one_seat(now, id, parent, i, q, j);
    assert(spot(after, parent, i));
    assert(now.list(parent) == after.list(parent));
    assert(fin.list(parent) == then.list(parent));
    assert(fin.removed == now.removed.union(ids));
    assert forall|x: LayerId| #[trigger] shown(then, keep, x) == shown(fin, keep, x) by {
        assert(shown(after, more, x) == shown(now, more, x));
        if ids.contains(x) {
            assert(!visible(then, x));
            assert(visible(after, x));
            if keep.contains(x) {
                assert(then.has(x));
            }
        } else {
            assert(fin.has(x) == now.has(x));
        }
    }
}

/// Layers that come into the tree leave only layers that exist taken out.
pub proof fn placing_keeps_owned(
    then: DocView,
    after: DocView,
    id: LayerId,
    ids: Set<LayerId>,
    parent: Option<LayerId>,
    i: int,
)
    requires
        newly_placed(then, after, id, ids, parent, i),
        owned(then),
    ensures
        tidy(after),
{
    placed_layers(then, after, id, ids, parent, i);
}

/// A layer without children that is put into a tidy tree.
pub proof fn leaf_is_newly_placed(
    then: DocView,
    after: DocView,
    id: LayerId,
    parent: Option<LayerId>,
    i: int,
)
    requires
        tidy(then),
        after.layers.dom().finite(),
        is_place(then, parent, i),
        !visible(then, id),
        after.has(id),
        after.kids(id) == Seq::<LayerId>::empty(),
        then.has(id) ==> then.layers[id] == after.layers[id],
        after == (DocView {
            active: after.active,
            ..(DocView {
                layers: then.layers.insert(id, after.layers[id]),
                removed: then.removed.remove(id),
                ..then
            }).with_list(parent, then.list(parent).insert(i, id))
        }),
    ensures
        newly_placed(then, after, id, Set::empty().insert(id), parent, i),
        tidy(after),
{
    let ids = Set::<LayerId>::empty().insert(id);
    lemma_walk_leaf(after, id);
    assert(subtree(after, id).to_set() =~= ids) by {
        assert(seq![id][0] == id);
    }
    assert(then.removed.difference(ids) =~= then.removed.remove(id));
    assert(then.layers.union_prefer_right(after.layers.restrict(ids)) =~= then.layers.insert(
        id,
        after.layers[id],
    ));
    if let Some(p) = parent {
        assert(visible(then, p));
    }
    let l = then.list(parent).insert(i, id);
    assert forall|q: Option<LayerId>, j: int| #[trigger] spot(after, q, j) implies (if q == parent {
        after.list(q) == l
    } else {
        after.list(q) == then.list(q) && spot(then, q, j)
    }) by {
        if let Some(x) = q {
            if x == id {
                assert(after.kids(id).len() == 0);
            }
        }
    }
    assert forall|q: Option<LayerId>, j: int| #[trigger] spot(after, q, j) implies visible(
        after,
        after.list(q)[j],
    ) by {
        if q == parent {
            if j < i {
                assert(spot(then, parent, j));
            } else if j > i {
                assert(spot(then, parent, j - 1));
            }
        } else {
            assert(spot(then, q, j));
        }
    }
    assert forall|p: Option<LayerId>, a: int, q: Option<LayerId>, b: int|
        (p != q || a != b) && #[trigger] spot(after, p, a) && #[trigger] spot(
            after,
            q,
            b,
        ) implies after.list(p)[a] != after.list(q)[b] by {
        let s = if p == parent && a > i { a - 1 } else { a };
        let t = if q == parent && b > i { b - 1 } else { b };
        if !(p == parent && a == i) {
            assert(spot(then, p, s));
            assert(after.list(p)[a] == then.list(p)[s]);
        }
        if !(q == parent && b == i) {
            assert(spot(then, q, t));
            assert(after.list(q)[b] == then.list(q)[t]);
        }
    }
    assert(neat(after));
}

/// `after` is `then` with `id` and all below it taken out of the tree.
pub open spec fn removed_from(
    then: DocView,
    after: DocView,
    id: LayerId,
    ids: Seq<LayerId>,
    parent: Option<LayerId>,
    i: int,
) -> bool {
    let w = then.with_list(parent, then.list(parent).remove(i));
    &&& then.sits_at(id, parent, i)
    &&& forall|x: LayerId| #[trigger] ids.contains(x) ==> visible(then, x) && parent != Some(x)
    &&& ids.contains(id)
    &&& after == (DocView {
        active: after.active,
        removed: w.removed.union(ids.to_set()),
        ..w
    })
}

/// A soft removal of a layer that sits in a tidy tree.
pub proof fn soft_removal_takes_out(
    then: DocView,
    after: DocView,
    id: LayerId,
    parent: Option<LayerId>,
    i: int,
)
    requires
        then.layers.dom().finite(),
        tidy(then),
        then.sits_at(id, parent, i),
        subtree_error(then, id) is None,
        taken_out(then, id, after),
    ensures
        removed_from(then, after, id, subtree(then, id), parent, i),
        tidy(after),
{
    let ids = subtree(then, id);
    subtree_facts(then, id);
    let w = choose|w: DocView| #[trigger]
        unlisted(then, id, w) && after == (DocView {
            active: after.active,
            removed: w.removed.union(ids.to_set()),
            ..w
        });
    crate::document::placed_layers_sit_somewhere(then, id);
    let (q, j) = choose|q: Option<LayerId>, j: int| #[trigger]
        then.sits_at(id, q, j) && w == then.with_list(q, then.list(q).remove(j));
    one_seat(then, id, parent, i, q, j);
    assert forall|x: LayerId| #[trigger] ids.contains(x) implies visible(then, x) && parent
        != Some(x) by {
        if parent == Some(x) {
            assert(then.kids(x)[i] == id);
        }
    }
    assert forall|x: LayerId| #[trigger] after.removed.contains(x) <==> then.removed.contains(x)
        || ids.contains(x) by {
        assert(ids.to_set().contains(x) <==> ids.contains(x));
    }
    let l = then.list(parent).remove(i);
    assert forall|q: Option<LayerId>, j: int| #[trigger] spot(after, q, j) implies (if q == parent {
        after.list(q) == l
    } else {
        after.list(q) == then.list(q) && spot(then, q, j)
    }) by {}
    assert forall|q: Option<LayerId>, j: int| #[trigger] spot(after, q, j) implies visible(
        after,
        after.list(q)[j],
    ) by {
        let k = if q == parent && j >= i { j + 1 } else { j };
        assert(spot(then, q, k));
        let y = then.list(q)[k];
        assert(after.list(q)[j] == y);
        assert(visible(then, y));
        if ids.contains(y) {
            // Whoever lists a layer of the subtree is in it, but for the list that
            // held `id`.
            lemma_listed_below(then, id, parent, i, q, k);
        }
    }
    assert forall|p: Option<LayerId>, a: int, q: Option<LayerId>, b: int|
        (p != q || a != b) && #[trigger] spot(after, p, a) && #[trigger] spot(
            after,
            q,
            b,
        ) implies after.list(p)[a] != after.list(q)[b] by {
        let s = if p == parent && a >= i { a + 1 } else { a };
        let t = if q == parent && b >= i { b + 1 } else { b };
        assert(spot(then, p, s) && spot(then, q, t));
    }
    assert(neat(after));
    assert(owned(after)) by {
        assert forall|x: LayerId| #[trigger] after.removed.contains(x) implies after.has(x) by {
            if ids.contains(x) {
                assert(visible(then, x));
            }
        }
    }
}

/// A list that holds a layer of the subtree of `id` is that of a layer of the
/// subtree, or it is the one that holds `id` itself.
proof fn lemma_listed_below(
    v: DocView,
    id: LayerId,
    parent: Option<LayerId>,
    i: int,
    q: Option<LayerId>,
    k: int,
)
    requires
        v.layers.dom().finite(),
        neat(v),
        v.sits_at(id, parent, i),
        subtree_error(v, id) is None,
        spot(v, q, k),
        subtree(v, id).contains(v.list(q)[k]),
    ensures
        (q == parent && k == i) || (q matches Some(x) && subtree(v, id).contains(x)),
{
    let ids = subtree(v, id);
    let y = v.list(q)[k];
    if y == id {
        assert(spot(v, parent, i));
    } else {
        let a = walk(v, id, Set::empty())->Ok_0;
        assert(a.0.contains(y)) by {
            let j = choose|j: int| 0 <= j < ids.len() && ids[j] == y;
            assert(a.0[j] == y);
        }
        lemma_met_from(v, id, Set::empty(), y);
        let x = choose|x: LayerId| (x == id || a.0.contains(x)) && #[trigger] v.kids(x).contains(y);
        subtree_facts(v, id);
        assert(ids.contains(x)) by {
            if a.0.contains(x) {
                let j = choose|j: int| 0 <= j < a.0.len() && a.0[j] == x;
                assert(ids[j] == x);
            }
        }
        let m = choose|m: int| 0 <= m < v.kids(x).len() && v.kids(x)[m] == y;
        assert(visible(v, x));
        assert(spot(v, Some(x), m));
    }
}

/// Whatever a walk meets is a child of something that it met.
proof fn lemma_met_from(v: DocView, id: LayerId, seen: Set<LayerId>, y: LayerId)
    requires
        v.layers.dom().finite(),
        walk(v, id, seen) is Ok,
        walk(v, id, seen)->Ok_0.0.contains(y),
    ensures
        exists|x: LayerId|
            (x == id || walk(v, id, seen)->Ok_0.0.contains(x)) && #[trigger] v.kids(x).contains(y),
    decreases v.unseen(seen), 0nat,
{
    lemma_unseen_less(v, seen, seen.insert(id), id);
    lemma_list_met_from(v, v.kids(id), seen.insert(id), y);
    assert(v.kids(id).contains(y) ==> (id == id && v.kids(id).contains(y)));
}

proof fn lemma_list_met_from(v: DocView, list: Seq<LayerId>, seen: Set<LayerId>, y: LayerId)
    requires
        v.layers.dom().finite(),
        walk_list(v, list, seen) is Ok,
        walk_list(v, list, seen)->Ok_0.0.contains(y),
    ensures
        list.contains(y) || exists|x: LayerId|
            walk_list(v, list, seen)->Ok_0.0.contains(x) && #[trigger] v.kids(x).contains(y),
    decreases v.unseen(seen), 1 + list.len(),
{
    if list.len() > 0 {
        let less = list.drop_last();
        let c = list.last();
        let out = walk_list(v, list, seen)->Ok_0.0;
        let m = walk_list(v, less, seen)->Ok_0;
        lemma_unseen_no_more(v, seen, m.1);
        let n = walk(v, c, m.1)->Ok_0;
        let j = choose|j: int| 0 <= j < out.len() && out[j] == y;
        if j < m.0.len() {
            assert(m.0[j] == y);
            lemma_list_met_from(v, less, seen, y);
            if less.contains(y) {
                let k = choose|k: int| 0 <= k < less.len() && less[k] == y;
                assert(list[k] == y);
            } else {
                let x = choose|x: LayerId|
                    m.0.contains(x) && #[trigger] v.kids(x).contains(y);
                let k = choose|k: int| 0 <= k < m.0.len() && m.0[k] == x;
                assert(out[k] == x);
            }
        } else if j == m.0.len() {
            assert(list[list.len() - 1] == y);
        } else {
            assert(n.0[j - m.0.len() - 1] == y);
            lemma_met_from(v, c, m.1, y);
            let x = choose|x: LayerId|
                (x == c || n.0.contains(x)) && #[trigger] v.kids(x).contains(y);
            if x == c {
                assert(out[m.0.len() as int] == c);
            } else {
                let k = choose|k: int| 0 <= k < n.0.len() && n.0[k] == x;
                assert(out[m.0.len() + 1 + k] == x);
            }
        }
    } else {
        assert(walk_list(v, list, seen)->Ok_0.0 =~= Seq::empty());
    }
}

/// Restoring what was taken out gives the picture back.
pub proof fn removal_taken_back(
    then: DocView,
    after: DocView,
    now: DocView,
    id: LayerId,
    ids: Seq<LayerId>,
    parent: Option<LayerId>,
    i: int,
    keep: Set<LayerId>,
)
    requires
        removed_from(then, after, id, ids, parent, i),
        neat(then),
        keep.subset_of(then.layers.dom()),
        same_picture(after, now, keep.union(ids.to_set())),
    ensures
        same_picture(
            then,
            DocView { active: then.active, ..restored(now, parent, i, id, ids) },
            keep,
        ),
{
    let more = keep.union(ids.to_set());
    let fin = DocView { active: then.active, ..restored(now, parent, i, id, ids) };
    let l = then.list(parent).remove(i);
    assert forall|x: LayerId| #[trigger] after.removed.contains(x) <==> then.removed.contains(x)
        || ids.contains(x) by {
        assert(ids.to_set().contains(x) <==> ids.contains(x));
    }
    pictures_share_the_tree(after, now, more);
    if let Some(p) = parent {
        assert(then.is_parent(p, id));
        assert(visible(then, p));
        assert(!ids.contains(p)) by {
            if ids.contains(p) {
                assert(parent != Some(p));
            }
        }
        assert(visible(after, p));
        assert(visible(now, p));
        assert(now.layers[p] == after.layers[p]);
    }
    assert(now.list(parent) == l);
    assert(list_error(now, parent) is None);
    assert(put_at(l, i, id) =~= then.list(parent));
    assert forall|x: LayerId| #[trigger] shown(then, keep, x) == shown(fin, keep, x) by {
        assert(shown(after, more, x) == shown(now, more, x));
        assert(ids.to_set().contains(x) <==> ids.contains(x));
        if ids.contains(x) {
            assert(visible(then, x));
        }
    }
}

} // verus!
