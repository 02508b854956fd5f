//! Inserting a subtree of another document.
use vstd::prelude::*;

use crate::arena::IdSet;
use crate::commands::scraps::{
    all_scrapped, are_scraps, drop_scraps, softly_removed, take_out,
};
use crate::commands::structure::copy_ids;
use crate::document::{
    cycle_error, lemma_unseen_less, named_children, put_at, restored, subtree, walk, walk_list,
    with_children, DocView, Document,
};
use crate::error::OgreError;
use crate::history::Command;
use crate::layer::{Layer, LayerContent, LayerId, LayerView};
use crate::picture::{neat, same_picture, spot, tidy, visible};
use crate::placing::{
    newly_placed, placed_layers, placing_keeps_owned, placing_taken_back, walks_agree,
};

verus! {

/// A layer subtree taken from a source document for insertion into another one.
///
/// Group children are stored as subtrees rather than as identifiers of the source
/// document, which mean nothing in the destination. The stored group layer
/// therefore has an empty child list.
pub struct LayerSubtreeSnapshot {
    /// The layer, without children.
    pub layer: Layer,
    /// The subtrees of its children, bottom to top.
    pub children: Vec<LayerSubtreeSnapshot>,
}

/// Every layer of a subtree is well formed and has its children stored as
/// subtrees.
pub open spec fn tree_wf(t: LayerSubtreeSnapshot) -> bool
    decreases t,
{
    &&& t.layer.wf()
    &&& named_children(t.layer@) == Seq::<LayerId>::empty()
    &&& t.layer@.content !is Group ==> t.children@.len() == 0
    &&& forall|i: int| 0 <= i < t.children@.len() ==> tree_wf(#[trigger] t.children@[i])
}

/// How many layers a subtree has.
pub open spec fn nodes(t: LayerSubtreeSnapshot) -> nat
    decreases t, t.children@.len() + 1,
{
    1 + nodes_before(t, t.children@.len() as int)
}

/// How many layers the first `n` subtrees below a layer have.
pub open spec fn nodes_before(t: LayerSubtreeSnapshot, n: int) -> nat
    decreases t, n,
{
    if n <= 0 || n > t.children@.len() {
        0
    } else {
        nodes_before(t, n - 1) + nodes(t.children@[n - 1])
    }
}

/// `t` holds the subtree of layer `id`.
pub open spec fn is_snapshot(v: DocView, id: LayerId, t: LayerSubtreeSnapshot) -> bool
    decreases t,
{
    &&& v.has(id)
    &&& t.layer@ == with_children(v.layers[id], Seq::empty())
    &&& t.children@.len() == v.kids(id).len()
    &&& forall|i: int|
        0 <= i < t.children@.len() ==> is_snapshot(v, v.kids(id)[i], #[trigger] t.children@[i])
}

/// Why the subtree of `id` cannot be taken: a layer of it is missing, or is below
/// itself.
pub open spec fn snapshot_error(v: DocView, id: LayerId, path: Set<LayerId>) -> Option<OgreError>
    decreases v.unseen(path), 0nat,
    when v.layers.dom().finite()
{
    if path.contains(id) {
        Some(cycle_error())
    } else if !v.has(id) {
        Some(OgreError::LayerNotFound(id))
    } else {
        proof {
            lemma_unseen_less(v, path, path.insert(id), id);
        }
        snapshot_list_error(v, v.kids(id), path.insert(id))
    }
}

/// Why one of the subtrees of a list cannot be taken: the first reason counts.
pub open spec fn snapshot_list_error(
    v: DocView,
    list: Seq<LayerId>,
    path: Set<LayerId>,
) -> Option<OgreError>
    decreases v.unseen(path), 1 + list.len(),
    when v.layers.dom().finite()
{
    if list.len() == 0 {
        None
    } else {
        match snapshot_list_error(v, list.drop_last(), path) {
            Some(e) => Some(e),
            None => snapshot_error(v, list.last(), path),
        }
    }
}

proof fn lemma_list_error(v: DocView, list: Seq<LayerId>, path: Set<LayerId>, n: int)
    requires
        v.layers.dom().finite(),
        0 <= n <= list.len(),
        snapshot_list_error(v, list.take(n), path) is Some,
    ensures
        snapshot_list_error(v, list, path) == snapshot_list_error(v, list.take(n), path),
    decreases list.len() - n,
{
    if n < list.len() {
        assert(list.take(n + 1).drop_last() =~= list.take(n));
        lemma_list_error(v, list, path, n + 1);
    } else {
        assert(list.take(n) =~= list);
    }
}

/// Snapshot the subtree of `id` in `doc`.
fn snapshot_subtree(doc: &Document, id: LayerId, path: &mut IdSet) -> (r: Result<
    LayerSubtreeSnapshot,
    OgreError,
>)
    requires
        doc.wf(),
    ensures
        match snapshot_error(doc@, id, old(path)@) {
            Some(e) => r matches Err(x) && x == e,
            None => r matches Ok(t) && tree_wf(t) && is_snapshot(doc@, id, t) && final(path)@
                == old(path)@,
        },
    decreases doc@.unseen(old(path)@),
{
    proof {
        doc.lemma_ids();
    }
    let ghost p0 = path@;
    if !path.insert(id) {
        return Err(OgreError::InvalidOperation("cycle in layer tree"));
    }
    let mut layer: Layer = match doc.layer(id) {
        Ok(l) => l.clone(),
        Err(e) => {
            return Err(e);
        },
    };
    let ghost list = doc@.kids(id);
    let ghost p1 = path@;
    let mut children: Vec<LayerSubtreeSnapshot> = Vec::new();
    if let LayerContent::Group { children: kids } = &layer.content {
        let mut i: usize = 0;
        assert(list.take(0) =~= Seq::empty());
        while i < kids.len()
            invariant
                doc.wf(),
                doc@.layers.dom().finite(),
                doc@.has(id),
                !p0.contains(id),
                p0 == old(path)@,
                p1 == p0.insert(id),
                path@ == p1,
                kids@ == list,
                list == doc@.kids(id),
                i <= list.len(),
                children@.len() == i,
                snapshot_list_error(doc@, list.take(i as int), p1) is None,
                forall|j: int|
                    0 <= j < i ==> tree_wf(#[trigger] children@[j]) && is_snapshot(
                        doc@,
                        list[j],
                        children@[j],
                    ),
            decreases list.len() - i,
        {
            proof {
                assert(list.take(i + 1).drop_last() =~= list.take(i as int));
                assert(list.take(i + 1).last() == list[i as int]);
                lemma_unseen_less(doc@, p0, p1, id);
            }
            match snapshot_subtree(doc, kids[i], path) {
                Ok(t) => {
                    children.push(t);
                },
                Err(e) => {
                    proof {
                        lemma_list_error(doc@, list, p1, i + 1);
                    }
                    return Err(e);
                },
            }
            i = i + 1;
        }
        assert(list.take(i as int) =~= list);
    }
    path.remove(id);
    assert(path@ =~= p0);
    let ghost l = layer@;
    match &mut layer.content {
        LayerContent::Group { children: kids } => {
            kids.clear();
        },
        _ => {},
    }
    assert(layer@ == with_children(l, Seq::empty()));
    Ok(LayerSubtreeSnapshot { layer, children })
}

/// Layer `id` stands for the subtree `t`: it has the same layers below it, in the
/// same order.
pub open spec fn holds_tree(v: DocView, id: LayerId, t: LayerSubtreeSnapshot) -> bool
    decreases t,
{
    &&& v.has(id)
    &&& v.layers[id] == (LayerView { id, ..with_children(t.layer@, v.kids(id)) })
    &&& v.kids(id).len() == t.children@.len()
    &&& forall|i: int|
        0 <= i < t.children@.len() ==> holds_tree(v, v.kids(id)[i], #[trigger] t.children@[i])
}

/// Position `j` of the children of `x`.
pub open spec fn inner_spot(v: DocView, s: Set<LayerId>, x: LayerId, j: int) -> bool {
    s.contains(x) && 0 <= j < v.kids(x).len()
}

/// The layers `s` list only each other, each once at most, and not `root`.
pub open spec fn closed_tree(v: DocView, root: LayerId, s: Set<LayerId>) -> bool {
    &&& s.contains(root)
    &&& forall|x: LayerId| #[trigger] s.contains(x) ==> v.has(x)
    &&& forall|x: LayerId, j: int| #[trigger]
        inner_spot(v, s, x, j) ==> s.contains(v.kids(x)[j]) && v.kids(x)[j] != root
    &&& forall|x: LayerId, i: int, y: LayerId, j: int|
        (x != y || i != j) && #[trigger] inner_spot(v, s, x, i) && #[trigger] inner_spot(v, s, y, j)
            ==> v.kids(x)[i] != v.kids(y)[j]
}

/// Every walk from `root` that has met none of `s` meets exactly these.
pub open spec fn walks_all(v: DocView, root: LayerId, s: Set<LayerId>) -> bool {
    forall|seen: Set<LayerId>| #[trigger] walks_from(v, root, s, seen)
}

/// A walk from `root` that has met `seen` meets exactly the layers `s`, if it has
/// met none of them.
pub open spec fn walks_from(v: DocView, root: LayerId, s: Set<LayerId>, seen: Set<LayerId>) -> bool {
    seen.disjoint(s) ==> {
        &&& walk(v, root, seen) is Ok
        &&& walk(v, root, seen)->Ok_0.1 == seen.union(s)
        &&& walk(v, root, seen)->Ok_0.0.to_set().insert(root) == s
    }
}

/// `w` is `v` with the new layers `s`, which stand for the subtree `t` below `root`,
/// in the arena but not in the tree.
pub open spec fn grafted(
    v: DocView,
    w: DocView,
    root: LayerId,
    s: Set<LayerId>,
    t: LayerSubtreeSnapshot,
) -> bool {
    &&& w == DocView { layers: w.layers, ..v }
    &&& forall|x: LayerId| #[trigger] w.has(x) <==> v.has(x) || s.contains(x)
    &&& forall|x: LayerId| #[trigger] s.contains(x) ==> !v.has(x)
    &&& forall|x: LayerId| #[trigger] v.has(x) ==> w.layers[x] == v.layers[x]
    &&& holds_tree(w, root, t)
    &&& closed_tree(w, root, s)
    &&& walks_all(w, root, s)
}

proof fn lemma_tree_stays(
    a: DocView,
    b: DocView,
    id: LayerId,
    t: LayerSubtreeSnapshot,
    root: LayerId,
    s: Set<LayerId>,
)
    requires
        holds_tree(a, id, t),
        closed_tree(a, root, s),
        s.contains(id),
        forall|x: LayerId| #[trigger] s.contains(x) ==> b.has(x) && b.layers[x] == a.layers[x],
    ensures
        holds_tree(b, id, t),
    decreases t,
{
    assert forall|i: int| 0 <= i < t.children@.len() implies holds_tree(
        b,
        b.kids(id)[i],
        #[trigger] t.children@[i],
    ) by {
        assert(inner_spot(a, s, id, i));
        lemma_tree_stays(a, b, a.kids(id)[i], t.children@[i], root, s);
    }
}

/// What was grafted stays as it is when the layers it consists of do.
proof fn lemma_graft_stays(
    a: DocView,
    b: DocView,
    root: LayerId,
    s: Set<LayerId>,
    t: LayerSubtreeSnapshot,
)
    requires
        a.layers.dom().finite(),
        b.layers.dom().finite(),
        holds_tree(a, root, t),
        closed_tree(a, root, s),
        walks_all(a, root, s),
        forall|x: LayerId| #[trigger] s.contains(x) ==> b.has(x) && b.layers[x] == a.layers[x],
    ensures
        holds_tree(b, root, t),
        closed_tree(b, root, s),
        walks_all(b, root, s),
{
    lemma_tree_stays(a, b, root, t, root, s);
    assert forall|x: LayerId, j: int| #[trigger] inner_spot(b, s, x, j) implies inner_spot(
        a,
        s,
        x,
        j,
    ) && b.kids(x) == a.kids(x) by {}
    assert forall|x: LayerId, i: int, y: LayerId, j: int|
        (x != y || i != j) && #[trigger] inner_spot(b, s, x, i) && #[trigger] inner_spot(
            b,
            s,
            y,
            j,
        ) implies b.kids(x)[i] != b.kids(y)[j] by {
        assert(inner_spot(a, s, x, i) && inner_spot(a, s, y, j));
    }
    assert forall|seen: Set<LayerId>| #[trigger] walks_from(b, root, s, seen) by {
        if seen.disjoint(s) {
            assert(walks_from(a, root, s, seen));
            let m = walk(a, root, seen)->Ok_0;
            assert forall|x: LayerId| #[trigger] m.0.contains(x) implies b.has(x) && b.kids(x)
                == a.kids(x) by {
                assert(m.0.to_set().contains(x));
                assert(s.contains(x));
            }
            walks_agree(a, b, root, seen);
        }
    }
}

/// The union of the first `n` sets.
spec fn union_before(sets: Seq<Set<LayerId>>, n: int) -> Set<LayerId>
    decreases n,
{
    if n <= 0 {
        Set::empty()
    } else {
        union_before(sets, n - 1).union(sets[n - 1])
    }
}

proof fn lemma_union(sets: Seq<Set<LayerId>>, n: int)
    requires
        0 <= n <= sets.len(),
    ensures
        forall|x: LayerId| #[trigger]
            union_before(sets, n).contains(x) <==> exists|j: int|
                0 <= j < n && (#[trigger] sets[j]).contains(x),
    decreases n,
{
    if n > 0 {
        lemma_union(sets, n - 1);
        assert forall|x: LayerId| #[trigger] union_before(sets, n).contains(x) <==> exists|j: int|
            0 <= j < n && (#[trigger] sets[j]).contains(x) by {
            if sets[n - 1].contains(x) {
            } else if union_before(sets, n - 1).contains(x) {
                let j = choose|j: int| 0 <= j < n - 1 && (#[trigger] sets[j]).contains(x);
                assert(sets[j].contains(x));
            }
        }
    }
}

/// The union is the same for sequences that agree so far.
proof fn lemma_union_same(a: Seq<Set<LayerId>>, b: Seq<Set<LayerId>>, n: int)
    requires
        forall|j: int| 0 <= j < n ==> a[j] == b[j],
    ensures
        union_before(a, n) == union_before(b, n),
    decreases n,
{
    if n > 0 {
        lemma_union_same(a, b, n - 1);
    }
}

/// A walk along the roots of disjoint trees meets them all.
proof fn lemma_walk_roots(
    v: DocView,
    roots: Seq<LayerId>,
    sets: Seq<Set<LayerId>>,
    n: int,
    seen: Set<LayerId>,
)
    requires
        v.layers.dom().finite(),
        0 <= n <= roots.len(),
        roots.len() == sets.len(),
        forall|j: int| 0 <= j < n ==> #[trigger] walks_all(v, roots[j], sets[j]),
        forall|j: int| 0 <= j < n ==> (#[trigger] sets[j]).contains(roots[j]),
        forall|i: int, j: int|
            0 <= i < j < n ==> (#[trigger] sets[i]).disjoint(#[trigger] sets[j]),
        seen.disjoint(union_before(sets, n)),
    ensures
        walk_list(v, roots.take(n), seen) matches Ok(a) && a.1 == seen.union(
            union_before(sets, n),
        ) && a.0.to_set() == union_before(sets, n),
    decreases n,
{
    if n == 0 {
        assert(roots.take(0) =~= Seq::empty());
        assert(seen.union(Set::empty()) =~= seen);
        assert(Seq::<LayerId>::empty().to_set() =~= Set::empty());
    } else {
        let list = roots.take(n);
        let u = union_before(sets, n - 1);
        assert(list.drop_last() =~= roots.take(n - 1));
        assert(list.last() == roots[n - 1]);
        assert(seen.disjoint(u)) by {
            assert forall|x: LayerId| !(seen.contains(x) && u.contains(x)) by {
                assert(union_before(sets, n).contains(x) <==> u.contains(x) || sets[n
                    - 1].contains(x));
            }
        }
        lemma_walk_roots(v, roots, sets, n - 1, seen);
        let a = walk_list(v, roots.take(n - 1), seen)->Ok_0;
        let c = roots[n - 1];
        let s = sets[n - 1];
        assert(a.1.disjoint(s)) by {
            lemma_union(sets, n - 1);
            assert forall|x: LayerId| !(a.1.contains(x) && s.contains(x)) by {
                if s.contains(x) {
                    assert(union_before(sets, n).contains(x));
                    if u.contains(x) {
                        let j = choose|j: int|
                            0 <= j < n - 1 && (#[trigger] sets[j]).contains(x);
                        assert(sets[j].disjoint(sets[n - 1]));
                    }
                }
            }
        }
        assert(walks_all(v, roots[n - 1], sets[n - 1]));
        assert(walks_from(v, c, s, a.1));
        let b = walk(v, c, a.1)->Ok_0;
        let out = a.0.push(c) + b.0;
        assert(a.1.union(s) =~= seen.union(union_before(sets, n)));
        assert(out.to_set() =~= union_before(sets, n)) by {
            assert forall|x: LayerId| out.to_set().contains(x) <==> union_before(sets, n).contains(
                x,
            ) by {
                lemma_three_parts(a.0, c, b.0, x);
                assert(s.contains(x) <==> b.0.to_set().insert(c).contains(x));
                assert(u.contains(x) <==> a.0.to_set().contains(x));
            }
        }
    }
}

proof fn lemma_three_parts(a: Seq<LayerId>, c: LayerId, b: Seq<LayerId>, x: LayerId)
    ensures
        (a.push(c) + b).to_set().contains(x) <==> a.to_set().contains(x) || x == c
            || b.to_set().contains(x),
{
    let out = a.push(c) + b;
    if out.contains(x) {
        let j = choose|j: int| 0 <= j < out.len() && out[j] == x;
        if j < a.len() {
            assert(a[j] == x);
        } else if j > a.len() {
            assert(b[j - a.len() - 1] == x);
        }
    }
    if a.contains(x) {
        let j = choose|j: int| 0 <= j < a.len() && a[j] == x;
        assert(out[j] == x);
    }
    if b.contains(x) {
        let j = choose|j: int| 0 <= j < b.len() && b[j] == x;
        assert(out[a.len() + 1 + j] == x);
    }
    assert(out[a.len() as int] == c);
}

/// The trees grafted so far: the first `n` children of `t`, below the roots, on
/// disjoint sets of new layers.
spec fn grafts(
    v: DocView,
    w: DocView,
    id: LayerId,
    t: LayerSubtreeSnapshot,
    roots: Seq<LayerId>,
    sets: Seq<Set<LayerId>>,
) -> bool {
    &&& w.layers.dom().finite()
    &&& roots.len() == sets.len()
    &&& roots.len() <= t.children@.len()
    &&& !v.has(id)
    &&& w == DocView { layers: w.layers, ..v }
    &&& w.has(id)
    &&& w.layers[id] == LayerView { id, ..t.layer@ }
    &&& forall|x: LayerId| #[trigger] v.has(x) ==> w.has(x) && w.layers[x] == v.layers[x]
    &&& forall|x: LayerId| #[trigger]
        w.has(x) <==> v.has(x) || x == id || union_before(sets, sets.len() as int).contains(x)
    &&& forall|j: int|
        0 <= j < roots.len() ==> #[trigger] holds_tree(w, roots[j], t.children@[j])
    &&& forall|j: int| 0 <= j < roots.len() ==> #[trigger] closed_tree(w, roots[j], sets[j])
    &&& forall|j: int| 0 <= j < roots.len() ==> #[trigger] walks_all(w, roots[j], sets[j])
    &&& forall|j: int, x: LayerId|
        0 <= j < sets.len() && #[trigger] sets[j].contains(x) ==> x != id && !v.has(x)
    &&& forall|i: int, j: int|
        0 <= i < j < sets.len() ==> (#[trigger] sets[i]).disjoint(#[trigger] sets[j])
}

/// One more tree is grafted.
proof fn lemma_one_more(
    v: DocView,
    w: DocView,
    z: DocView,
    id: LayerId,
    t: LayerSubtreeSnapshot,
    roots: Seq<LayerId>,
    sets: Seq<Set<LayerId>>,
    root: LayerId,
    s: Set<LayerId>,
)
    requires
        grafts(v, w, id, t, roots, sets),
        roots.len() < t.children@.len(),
        z.layers.dom().finite(),
        grafted(w, z, root, s, t.children@[roots.len() as int]),
    ensures
        grafts(v, z, id, t, roots.push(root), sets.push(s)),
{
    let n = sets.len() as int;
    let more = sets.push(s);
    let tops = roots.push(root);
    lemma_union(sets, n);
    lemma_union_same(sets, more, n);
    assert(union_before(more, n + 1) == union_before(sets, n).union(s));
    assert forall|x: LayerId| #[trigger] z.has(x) <==> v.has(x) || x == id || union_before(
        more,
        n + 1,
    ).contains(x) by {
        assert(w.has(x) <==> v.has(x) || x == id || union_before(sets, n).contains(x));
    }
    assert forall|j: int| 0 <= j < n implies holds_tree(z, #[trigger] tops[j], t.children@[j])
        && closed_tree(z, tops[j], more[j]) && walks_all(z, tops[j], more[j]) by {
        assert(holds_tree(w, roots[j], t.children@[j]));
        assert(closed_tree(w, roots[j], sets[j]));
        assert(walks_all(w, roots[j], sets[j]));
        assert forall|x: LayerId| #[trigger] sets[j].contains(x) implies z.has(x) && z.layers[x]
            == w.layers[x] by {
            assert(w.has(x));
        }
        lemma_graft_stays(w, z, roots[j], sets[j], t.children@[j]);
    }
    assert forall|j: int| 0 <= j < tops.len() implies #[trigger] holds_tree(
        z,
        tops[j],
        t.children@[j],
    ) by {
        if j < n {
            assert(tops[j] == roots[j]);
        }
    }
    assert forall|j: int| 0 <= j < tops.len() implies #[trigger] closed_tree(
        z,
        tops[j],
        more[j],
    ) by {
        if j < n {
            assert(tops[j] == roots[j]);
        }
    }
    assert forall|j: int| 0 <= j < tops.len() implies #[trigger] walks_all(z, tops[j], more[j]) by {
        if j < n {
            assert(tops[j] == roots[j]);
        }
    }
    assert forall|j: int, x: LayerId|
        0 <= j < more.len() && #[trigger] more[j].contains(x) implies x != id && !v.has(x) by {
        if j < n {
            assert(sets[j].contains(x));
        } else {
            assert(s.contains(x));
            assert(!w.has(x));
        }
    }
    assert forall|i: int, j: int| 0 <= i < j < more.len() implies (#[trigger] more[i]).disjoint(
        #[trigger] more[j],
    ) by {
        if j < n {
            assert(sets[i].disjoint(sets[j]));
        } else {
            assert forall|x: LayerId| !(more[i].contains(x) && s.contains(x)) by {
                if sets[i].contains(x) {
                    assert(closed_tree(w, roots[i], sets[i]));
                    assert(w.has(x));
                }
            }
        }
    }
}

/// With all children grafted, the layer that lists them stands for the subtree.
proof fn lemma_all_grafted(
    v: DocView,
    w: DocView,
    z: DocView,
    id: LayerId,
    t: LayerSubtreeSnapshot,
    roots: Seq<LayerId>,
    sets: Seq<Set<LayerId>>,
)
    requires
        tree_wf(t),
        grafts(v, w, id, t, roots, sets),
        roots.len() == t.children@.len(),
        z.layers.dom().finite(),
        z == w.with_layer(id, with_children(w.layers[id], roots)),
    ensures
        grafted(v, z, id, union_before(sets, sets.len() as int).insert(id), t),
{
    let n = sets.len() as int;
    let u = union_before(sets, n);
    let s = u.insert(id);
    lemma_union(sets, n);
    assert(z.kids(id) =~= roots);
    assert forall|j: int| 0 <= j < n implies holds_tree(z, #[trigger] roots[j], t.children@[j])
        && closed_tree(z, roots[j], sets[j]) && walks_all(z, roots[j], sets[j]) by {
        assert(holds_tree(w, roots[j], t.children@[j]));
        assert(closed_tree(w, roots[j], sets[j]));
        assert(walks_all(w, roots[j], sets[j]));
        assert forall|x: LayerId| #[trigger] sets[j].contains(x) implies z.has(x) && z.layers[x]
            == w.layers[x] by {
            assert(w.has(x));
        }
        lemma_graft_stays(w, z, roots[j], sets[j], t.children@[j]);
    }
    assert forall|i: int| 0 <= i < t.children@.len() implies holds_tree(
        z,
        z.kids(id)[i],
        #[trigger] t.children@[i],
    ) by {
        assert(z.kids(id)[i] == roots[i]);
    }
    assert(holds_tree(z, id, t));
    assert(!u.contains(id)) by {
        if u.contains(id) {
            let j = choose|j: int| 0 <= j < n && (#[trigger] sets[j]).contains(id);
            assert(sets[j].contains(id));
        }
    }
    assert forall|x: LayerId| #[trigger] s.contains(x) implies !v.has(x) by {
        if u.contains(x) {
            let j = choose|j: int| 0 <= j < n && (#[trigger] sets[j]).contains(x);
            assert(sets[j].contains(x));
        }
    }
    assert forall|x: LayerId| #[trigger] s.contains(x) implies z.has(x) by {
        assert(w.has(x));
    }
    assert forall|x: LayerId, j: int| #[trigger] inner_spot(z, s, x, j) implies s.contains(
        z.kids(x)[j],
    ) && z.kids(x)[j] != id by {
        lemma_inner(v, z, id, roots, sets, x, j);
    }
    assert forall|x: LayerId, i: int, y: LayerId, j: int|
        (x != y || i != j) && #[trigger] inner_spot(z, s, x, i) && #[trigger] inner_spot(
            z,
            s,
            y,
            j,
        ) implies z.kids(x)[i] != z.kids(y)[j] by {
        lemma_inner_once(v, z, id, roots, sets, x, i, y, j);
    }
    assert forall|seen: Set<LayerId>| #[trigger] walks_from(z, id, s, seen) by {
        if seen.disjoint(s) {
            assert(!seen.contains(id)) by {
                assert(s.contains(id));
            }
            let sn = seen.insert(id);
            assert(sn.disjoint(u)) by {
                assert forall|x: LayerId| !(sn.contains(x) && u.contains(x)) by {
                    if u.contains(x) {
                        assert(s.contains(x));
                    }
                }
            }
            assert forall|j: int| 0 <= j < n implies #[trigger] walks_all(
                z,
                roots[j],
                sets[j],
            ) by {
                assert(holds_tree(z, roots[j], t.children@[j]));
            }
            assert forall|j: int| 0 <= j < n implies (#[trigger] sets[j]).contains(roots[j]) by {
                assert(closed_tree(w, roots[j], sets[j]));
            }
            lemma_walk_roots(z, roots, sets, n, sn);
            assert(roots.take(n) =~= roots);
            let a = walk_list(z, roots, sn)->Ok_0;
            assert(sn.union(u) =~= seen.union(s));
            assert(a.0.to_set().insert(id) =~= s);
        }
    }
    assert(closed_tree(z, id, s));
    assert(walks_all(z, id, s));
    assert forall|x: LayerId| #[trigger] z.has(x) <==> v.has(x) || s.contains(x) by {
        assert(w.has(x) <==> v.has(x) || x == id || u.contains(x));
    }
    assert forall|x: LayerId| #[trigger] v.has(x) implies z.layers[x] == v.layers[x] by {
        assert(w.layers[x] == v.layers[x]);
    }
}

/// Which tree a spot below a new layer belongs to.
proof fn lemma_inner(
    v: DocView,
    z: DocView,
    id: LayerId,
    roots: Seq<LayerId>,
    sets: Seq<Set<LayerId>>,
    x: LayerId,
    j: int,
)
    requires
        roots.len() == sets.len(),
        z.kids(id) == roots,
        forall|j: int| 0 <= j < roots.len() ==> closed_tree(z, #[trigger] roots[j], sets[j]),
        forall|j: int, x: LayerId|
            0 <= j < sets.len() && #[trigger] sets[j].contains(x) ==> x != id && !v.has(x),
        inner_spot(
            z,
            union_before(sets, sets.len() as int).insert(id),
            x,
            j,
        ),
    ensures
        union_before(sets, sets.len() as int).contains(z.kids(x)[j]),
        z.kids(x)[j] != id,
        x == id ==> z.kids(x)[j] == roots[j] && sets[j].contains(roots[j]),
        x != id ==> exists|k: int|
            #![trigger sets[k]]
            0 <= k < sets.len() && sets[k].contains(x) && sets[k].contains(z.kids(x)[j]) && z.kids(
                x,
            )[j] != roots[k] && inner_spot(z, sets[k], x, j),
{
    let n = sets.len() as int;
    lemma_union(sets, n);
    if x == id {
        assert(closed_tree(z, roots[j], sets[j]));
        assert(sets[j].contains(roots[j]));
    } else {
        let k = choose|k: int| 0 <= k < n && (#[trigger] sets[k]).contains(x);
        assert(closed_tree(z, roots[k], sets[k]));
        assert(inner_spot(z, sets[k], x, j));
        assert(sets[k].contains(z.kids(x)[j]));
    }
}

/// No layer is listed twice below a new layer.
proof fn lemma_inner_once(
    v: DocView,
    z: DocView,
    id: LayerId,
    roots: Seq<LayerId>,
    sets: Seq<Set<LayerId>>,
    x: LayerId,
    i: int,
    y: LayerId,
    j: int,
)
    requires
        roots.len() == sets.len(),
        z.kids(id) == roots,
        forall|j: int| 0 <= j < roots.len() ==> closed_tree(z, #[trigger] roots[j], sets[j]),
        forall|j: int, x: LayerId|
            0 <= j < sets.len() && #[trigger] sets[j].contains(x) ==> x != id && !v.has(x),
        forall|i: int, j: int|
            0 <= i < j < sets.len() ==> (#[trigger] sets[i]).disjoint(#[trigger] sets[j]),
        x != y || i != j,
        inner_spot(z, union_before(sets, sets.len() as int).insert(id), x, i),
        inner_spot(z, union_before(sets, sets.len() as int).insert(id), y, j),
    ensures
        z.kids(x)[i] != z.kids(y)[j],
{
    lemma_inner(v, z, id, roots, sets, x, i);
    lemma_inner(v, z, id, roots, sets, y, j);
    let a = z.kids(x)[i];
    let b = z.kids(y)[j];
    let ka = if x == id {
        i
    } else {
        choose|k: int|
            #![trigger sets[k]]
            0 <= k < sets.len() && sets[k].contains(x) && sets[k].contains(a) && a != roots[k]
                && inner_spot(z, sets[k], x, i)
    };
    let kb = if y == id {
        j
    } else {
        choose|k: int|
            #![trigger sets[k]]
            0 <= k < sets.len() && sets[k].contains(y) && sets[k].contains(b) && b != roots[k]
                && inner_spot(z, sets[k], y, j)
    };
    assert(sets[ka].contains(a) && sets[kb].contains(b));
    if a == b {
        if ka < kb {
            assert(sets[ka].disjoint(sets[kb]));
            assert(false);
        } else if kb < ka {
            assert(sets[kb].disjoint(sets[ka]));
            assert(false);
        } else {
            assert(closed_tree(z, roots[ka], sets[ka]));
            if x != id && y != id {
                assert(inner_spot(z, sets[ka], x, i) && inner_spot(z, sets[ka], y, j));
            }
        }
    }
}

proof fn lemma_nodes_before(t: LayerSubtreeSnapshot, n: int)
    requires
        0 <= n <= t.children@.len(),
    ensures
        nodes_before(t, n) <= nodes_before(t, t.children@.len() as int),
    decreases t.children@.len() - n,
{
    if n < t.children@.len() {
        lemma_nodes_before(t, n + 1);
    }
}

/// The list holds layers of `v` only, each once.
spec fn lists_layers(ids: Seq<LayerId>, v: DocView) -> bool {
    ids.no_duplicates() && forall|x: LayerId| #[trigger] ids.contains(x) ==> v.has(x)
}

/// Allocate new identifiers for `node` and all below it, rebuilding each group's
/// child list. Returns the new root id.
fn insert_subtree(doc: &mut Document, node: &LayerSubtreeSnapshot, ids: &mut Vec<LayerId>) -> (r:
    (LayerId, Ghost<Set<LayerId>>))
    requires
        old(doc).wf(),
        tree_wf(*node),
        old(doc).room(nodes(*node)),
    ensures
        final(doc).wf(),
        final(doc).used() <= old(doc).used() + nodes(*node),
        grafted(old(doc)@, final(doc)@, r.0, r.1@, *node),
        final(ids)@.to_set() == old(ids)@.to_set().union(r.1@),
        lists_layers(old(ids)@, old(doc)@) ==> lists_layers(final(ids)@, final(doc)@),
    decreases *node,
{
    let ghost v = doc@;
    let ghost before = ids@.to_set();
    let id: LayerId = doc.add_layer(node.layer.clone());
    ids.push(id);
    let mut child_ids: Vec<LayerId> = Vec::new();
    let ghost mut sets: Seq<Set<LayerId>> = Seq::empty();
    let mut i: usize = 0;
    proof {
        doc.lemma_ids();
        assert(ids@.to_set() =~= before.insert(id)) by {
            lemma_push_set(old(ids)@, id);
        }
        assert(before.insert(id).union(union_before(sets, 0)) =~= before.insert(id));
        if lists_layers(old(ids)@, v) {
            assert forall|x: LayerId| #[trigger] ids@.contains(x) implies doc@.has(x) by {
                assert(ids@.to_set().contains(x));
                assert(x == id || old(ids)@.contains(x));
            }
            assert(!old(ids)@.contains(id));
        }
    }
    while i < node.children.len()
        invariant
            doc.wf(),
            tree_wf(*node),
            i <= node.children@.len(),
            v == old(doc)@,
            before == old(ids)@.to_set(),
            child_ids@.len() == i,
            grafts(v, doc@, id, *node, child_ids@, sets),
            ids@.to_set() == before.insert(id).union(union_before(sets, i as int)),
            lists_layers(old(ids)@, v) ==> lists_layers(ids@, doc@),
            doc.used() <= old(doc).used() + 1 + nodes_before(*node, i as int),
            old(doc).room(nodes(*node)),
        decreases node.children@.len() - i,
    {
        let ghost w = doc@;
        proof {
            lemma_nodes_before(*node, i + 1);
            assert(tree_wf(node.children@[i as int]));
        }
        let (c, s): (LayerId, Ghost<Set<LayerId>>) = insert_subtree(doc, &node.children[i], ids);
        proof {
            doc.lemma_ids();
            lemma_one_more(v, w, doc@, id, *node, child_ids@, sets, c, s@);
            lemma_union_same(sets, sets.push(s@), i as int);
            sets = sets.push(s@);
            assert(union_before(sets, i + 1) == union_before(sets, i as int).union(s@));
            assert(ids@.to_set() =~= before.insert(id).union(union_before(sets, i + 1)));
        }
        child_ids.push(c);
        i = i + 1;
    }
    let ghost w = doc@;
    let ghost roots = child_ids@;
    if let Ok(layer) = doc.layer_mut(id) {
        match &mut layer.content {
            LayerContent::Group { children } => {
                *children = child_ids;
            },
            _ => {},
        }
    }
    let ghost s = union_before(sets, sets.len() as int).insert(id);
    proof {
        doc.lemma_ids();
        assert(doc@.layers[id] == with_children(w.layers[id], roots));
        lemma_all_grafted(v, w, doc@, id, *node, roots, sets);
        assert(ids@.to_set() =~= before.union(s));
        assert(forall|x: LayerId| #[trigger] w.has(x) ==> doc@.has(x));
    }
    (id, Ghost(s))
}

/// A grafted subtree whose root is put into the root order of a tidy tree.
proof fn lemma_graft_placed(
    then: DocView,
    w: DocView,
    after: DocView,
    root: LayerId,
    s: Set<LayerId>,
    t: LayerSubtreeSnapshot,
    i: int,
)
    requires
        tidy(then),
        grafted(then, w, root, s, t),
        w.layers.dom().finite(),
        0 <= i <= then.order.len(),
        after == (DocView {
            active: after.active,
            ..w.with_list(None, then.order.insert(i, root))
        }),
    ensures
        newly_placed(then, after, root, s, None, i),
        tidy(after),
{
    assert(then.removed.difference(s) =~= then.removed) by {
        assert forall|x: LayerId| !(then.removed.contains(x) && s.contains(x)) by {
            if s.contains(x) {
                assert(!then.has(x));
            }
        }
    }
    assert(then.layers.union_prefer_right(after.layers.restrict(s)) =~= after.layers) by {
        assert forall|x: LayerId| #[trigger]
            then.layers.union_prefer_right(after.layers.restrict(s)).dom().contains(x)
                <==> after.layers.dom().contains(x) by {
            assert(w.has(x) <==> then.has(x) || s.contains(x));
        }
        assert forall|x: LayerId| after.layers.dom().contains(x) implies then.layers.union_prefer_right(
            after.layers.restrict(s),
        )[x] == after.layers[x] by {
            assert(w.has(x) <==> then.has(x) || s.contains(x));
            if !s.contains(x) {
                assert(then.has(x));
            }
        }
    }
    assert(walks_from(w, root, s, Set::empty()));
    let a = walk(w, root, Set::empty())->Ok_0;
    assert forall|x: LayerId| #[trigger] a.0.contains(x) implies after.has(x) && after.kids(x)
        == w.kids(x) by {
        assert(a.0.to_set().contains(x));
        assert(s.contains(x));
        assert(w.has(x));
    }
    walks_agree(w, after, root, Set::empty());
    assert(subtree(after, root).to_set() =~= s) by {
        lemma_push_set(a.0, root);
    }
    let l = then.order.insert(i, root);
    assert forall|q: Option<LayerId>, j: int| #[trigger] spot(after, q, j) implies (match q {
        None => after.list(q) == l,
        Some(x) => if s.contains(x) {
            inner_spot(w, s, x, j) && after.kids(x) == w.kids(x)
        } else {
            spot(then, q, j) && after.kids(x) == then.kids(x)
        },
    }) by {
        if let Some(x) = q {
            assert(w.has(x) <==> then.has(x) || s.contains(x));
            if !s.contains(x) {
                assert(then.has(x));
            }
        }
    }
    assert forall|q: Option<LayerId>, j: int| #[trigger] spot(after, q, j) implies visible(
        after,
        after.list(q)[j],
    ) by {
        lemma_spot_source(then, w, after, root, s, t, i, q, j);
        let y = after.list(q)[j];
        if s.contains(y) {
            assert(w.has(y));
            assert(!then.has(y));
        } else {
            assert(visible(then, y));
            assert(w.has(y));
        }
    }
    assert forall|p: Option<LayerId>, a: int, q: Option<LayerId>, b: int|
        (p != q || a != b) && #[trigger] spot(after, p, a) && #[trigger] spot(
            after,
            q,
            b,
        ) implies after.list(p)[a] != after.list(q)[b] by {
        lemma_spot_source(then, w, after, root, s, t, i, p, a);
        lemma_spot_source(then, w, after, root, s, t, i, q, b);
        let m = source_spot(s, i, p, a);
        let n = source_spot(s, i, q, b);
        match (m, n) {
            (Source::Old(c), Source::Old(d)) => {
                assert(spot(then, p, c) && spot(then, q, d));
            },
            (Source::Inner(x), Source::Inner(y)) => {
                assert(inner_spot(w, s, x, a) && inner_spot(w, s, y, b));
            },
            _ => {},
        }
    }
    assert(neat(after));
    assert(ids_new(then, after, s)) by {
        assert forall|x: LayerId| #[trigger] s.contains(x) implies after.has(x) && !visible(
            then,
            x,
        ) by {
            assert(w.has(x));
        }
    }
    placing_keeps_owned(then, after, root, s, None, i);
}

/// The layers are new.
spec fn ids_new(then: DocView, after: DocView, s: Set<LayerId>) -> bool {
    forall|x: LayerId| #[trigger] s.contains(x) ==> after.has(x) && !visible(then, x)
}

/// Where a place in the tree comes from once a subtree was put into the root order.
enum Source {
    /// It is where the subtree was put.
    Root,
    /// It was there at this position.
    Old(int),
    /// It is below this layer of the subtree.
    Inner(LayerId),
}

spec fn source_spot(s: Set<LayerId>, i: int, q: Option<LayerId>, j: int) -> Source {
    match q {
        None => if j == i {
            Source::Root
        } else {
            Source::Old(if j < i { j } else { j - 1 })
        },
        Some(x) => if s.contains(x) {
            Source::Inner(x)
        } else {
            Source::Old(j)
        },
    }
}

proof fn lemma_spot_source(
    then: DocView,
    w: DocView,
    after: DocView,
    root: LayerId,
    s: Set<LayerId>,
    t: LayerSubtreeSnapshot,
    i: int,
    q: Option<LayerId>,
    j: int,
)
    requires
        tidy(then),
        grafted(then, w, root, s, t),
        0 <= i <= then.order.len(),
        after == (DocView {
            active: after.active,
            ..w.with_list(None, then.order.insert(i, root))
        }),
        spot(after, q, j),
    ensures
        match source_spot(s, i, q, j) {
            Source::Root => after.list(q)[j] == root && s.contains(root),
            Source::Old(k) => spot(then, q, k) && after.list(q)[j] == then.list(q)[k]
                && !s.contains(after.list(q)[j]) && visible(then, after.list(q)[j]),
            Source::Inner(x) => inner_spot(w, s, x, j) && after.list(q)[j] == w.kids(x)[j]
                && s.contains(after.list(q)[j]) && after.list(q)[j] != root,
        },
{
    match source_spot(s, i, q, j) {
        Source::Root => {},
        Source::Old(k) => {
            if let Some(x) = q {
                assert(w.has(x) <==> then.has(x) || s.contains(x));
                assert(then.has(x));
            }
            assert(spot(then, q, k));
            let y = then.list(q)[k];
            assert(visible(then, y));
            if s.contains(y) {
                assert(!then.has(y));
            }
        },
        Source::Inner(x) => {
            assert(inner_spot(w, s, x, j));
        },
    }
}

proof fn lemma_push_set(s: Seq<LayerId>, id: LayerId)
    ensures
        s.push(id).to_set() == s.to_set().insert(id),
{
    assert forall|x: LayerId| s.push(id).to_set().contains(x) <==> s.to_set().insert(id).contains(
        x,
    ) by {
        if s.contains(x) {
            let j = choose|j: int| 0 <= j < s.len() && s[j] == x;
            assert(s.push(id)[j] == x);
        }
        assert(s.push(id)[s.len() as int] == id);
    }
    assert(s.push(id).to_set() =~= s.to_set().insert(id));
}

/// Insert a snapshotted layer subtree into a destination document.
///
/// Applying a command only sees the destination document, so the source subtree is
/// captured up front by [`InsertLayerSubtreeCmd::new_from_source`]. The same
/// command performs the destination side of a copy and of a move between
/// documents.
///
/// Undo takes the inserted root out of the tree so redo can restore it with stable
/// ids; if its layers were dropped, a later redo inserts a fresh copy from the
/// stored snapshot.
pub struct InsertLayerSubtreeCmd {
    /// The subtree.
    pub snapshot: LayerSubtreeSnapshot,
    /// Where it goes in the root order, bottom to top.
    pub dest_index: usize,
    /// The inserted root, once the command was applied.
    pub inserted_root: Option<LayerId>,
    /// The inserted layers, once the command was applied.
    pub inserted_ids: Vec<LayerId>,
    /// The parent of the inserted root.
    pub parent: Option<LayerId>,
    /// The position of the inserted root.
    pub index: usize,
    /// The layers that undo took out.
    pub removed_ids: Vec<LayerId>,
    /// The active layer that was, once the command was applied.
    pub prior_active: Option<LayerId>,
}

impl InsertLayerSubtreeCmd {
    /// Snapshot `layer_id`'s subtree from `source` for later insertion at
    /// `dest_index`, a bottom-to-top index into the destination root order.
    ///
    /// Fails if a layer of the subtree is missing or is below itself.
    pub fn new_from_source(source: &Document, layer_id: LayerId, dest_index: usize) -> (r: Result<
        Self,
        OgreError,
    >)
        requires
            source.wf(),
        ensures
            match snapshot_error(source@, layer_id, Set::empty()) {
                Some(e) => r matches Err(x) && x == e,
                None => r matches Ok(c) && tree_wf(c.snapshot) && is_snapshot(
                    source@,
                    layer_id,
                    c.snapshot,
                ) && c.dest_index == dest_index && c.inserted_root is None
                    && c.inserted_ids@.len() == 0 && c.parent is None && c.removed_ids@.len() == 0
                    && c.prior_active is None,
            },
    {
        let mut path: IdSet = IdSet::new();
        match snapshot_subtree(source, layer_id, &mut path) {
            Ok(snapshot) => Ok(
                InsertLayerSubtreeCmd {
                    snapshot,
                    dest_index,
                    inserted_root: None,
                    inserted_ids: Vec::new(),
                    parent: None,
                    index: 0,
                    removed_ids: Vec::new(),
                    prior_active: None,
                },
            ),
            Err(e) => Err(e),
        }
    }

    /// The document with the subtree restored, after an undo.
    pub open spec fn reinserted(&self, v: DocView, root: LayerId) -> DocView {
        DocView {
            active: Some(root),
            ..restored(v, self.parent, self.index as int, root, self.removed_ids@)
        }
    }
}

/// `after` is `then` with the layers `ids` newly placed below `root`; the active
/// layer was `prior`.
pub open spec fn tree_added(
    root: LayerId,
    ids: Set<LayerId>,
    prior: Option<LayerId>,
    then: DocView,
    after: DocView,
) -> bool {
    &&& prior == then.active
    &&& after.layers.dom().finite()
    &&& exists|parent: Option<LayerId>, i: int| #[trigger]
        newly_placed(then, after, root, ids, parent, i)
}

impl Command for InsertLayerSubtreeCmd {
    open spec fn wf(&self) -> bool {
        tree_wf(self.snapshot) && self.inserted_ids@.no_duplicates()
    }

    open spec fn name(&self) -> Seq<char> {
        "Insert layer"@
    }

    open spec fn adds(&self) -> nat {
        nodes(self.snapshot)
    }

    open spec fn refs(&self) -> Set<LayerId> {
        self.inserted_ids@.to_set()
    }

    open spec fn reverts(&self, then: DocView, after: DocView) -> bool {
        self.inserted_root matches Some(root) && tree_added(
            root,
            self.inserted_ids@.to_set(),
            self.prior_active,
            then,
            after,
        )
    }

    open spec fn fits(&self, v: DocView) -> bool {
        self.inserted_root matches Some(root) && v.has(root) ==> tree_added(
            self.inserted_root->0,
            self.inserted_ids@.to_set(),
            v.active,
            v,
            self.reinserted(v, self.inserted_root->0),
        )
    }

    open spec fn spares(&self, v: DocView, keep: Set<LayerId>) -> bool {
        are_scraps(v, self.removed_ids@.to_set(), keep)
    }

    open spec fn cleans(&self, v: DocView, w: DocView) -> bool {
        all_scrapped(v, self.removed_ids@, w)
    }

    open spec fn undoes(&self, now: DocView, fin: DocView) -> bool {
        match self.inserted_root {
            Some(root) => softly_removed(
                now,
                root,
                self.prior_active,
                fin,
            ),
            None => fin == (DocView { active: self.prior_active, ..now }),
        }
    }

    open spec fn fickle(&self) -> bool {
        false
    }

    open spec fn does(&self, then: DocView, r: Result<(), OgreError>, after: DocView) -> bool {
        &&& r is Ok
        &&& if self.inserted_root is Some && then.has(self.inserted_root->0) {
            after == self.reinserted(then, self.inserted_root->0)
        } else {
            exists|root: LayerId, ids: Set<LayerId>, w: DocView| #[trigger]
                grafted(then, w, root, ids, self.snapshot) && after == (DocView {
                    active: Some(root),
                    ..w.with_list(None, put_at(then.order, self.dest_index as int, root))
                })
        }
    }

    fn label(&self) -> (r: &'static str) {
        "Insert layer"
    }

    fn apply(&mut self, doc: &mut Document) -> (r: Result<(), OgreError>)
        ensures
            final(self).prior_active == old(doc)@.active,
            final(self).inserted_root is Some,
            if old(self).inserted_root is Some && old(doc)@.has(old(self).inserted_root->0) {
                final(self).inserted_root == old(self).inserted_root
            } else {
                final(self).inserted_root == final(doc)@.active
            },
    {
        let ghost v = old(doc)@;
        let prior: Option<LayerId> = doc.active_layer();
        if let Some(root) = self.inserted_root {
            if doc.all_layers().contains_key(root) {
                doc.restore_layer_soft(self.parent, self.index, root, &self.removed_ids);
                doc.set_active(Some(root));
                self.prior_active = prior;
                proof {
                    if tidy(v) && old(self).fits(v) {
                        let ids = self.inserted_ids@.to_set();
                        let (parent, i) = choose|parent: Option<LayerId>, i: int| #[trigger]
                            newly_placed(v, doc@, root, ids, parent, i);
                        placing_keeps_owned(v, doc@, root, ids, parent, i);
                        placed_layers(v, doc@, root, ids, parent, i);
                    }
                }
                return Ok(());
            }
        }
        let mut ids: Vec<LayerId> = Vec::new();
        let (root, s): (LayerId, Ghost<Set<LayerId>>) = insert_subtree(
            doc,
            &self.snapshot,
            &mut ids,
        );
        let ghost w = doc@;
        proof {
            doc.lemma_ids();
            assert(Seq::<LayerId>::empty().to_set().union(s@) =~= s@);
        }
        let n: usize = doc.root_order().len();
        let index: usize = if self.dest_index <= n { self.dest_index } else { n };
        let done: Result<(), OgreError> = doc.insert_into_siblings(None, index, root);
        doc.set_active(Some(root));
        self.inserted_root = Some(root);
        self.inserted_ids = ids;
        self.parent = None;
        self.index = index;
        self.prior_active = prior;
        proof {
            assert(ids@.to_set() == s@);
            assert(lists_layers(Seq::empty(), v));
            assert(lists_layers(ids@, w));
            assert(grafted(v, w, self.inserted_root->0, self.inserted_ids@.to_set(), self.snapshot));
            if tidy(v) {
                lemma_graft_placed(v, w, doc@, root, s@, self.snapshot, index as int);
                assert(newly_placed(
                    v,
                    doc@,
                    root,
                    self.inserted_ids@.to_set(),
                    None,
                    index as int,
                ));
                placed_layers(v, doc@, root, s@, None, index as int);
            }
        }
        Ok(())
    }

    fn undo(&mut self, doc: &mut Document) {
        proof {
            doc.lemma_ids();
        }
        match self.inserted_root {
            Some(root) => {
                if let Some((parent, index)) = doc.sibling_index(root) {
                    self.parent = parent;
                    self.index = index;
                }
                self.removed_ids = take_out(doc, root, self.prior_active);
            },
            None => {
                doc.set_active(self.prior_active);
            },
        }
        proof {
            assert forall|then: DocView, after: DocView, keep: Set<LayerId>|
                #![trigger old(self).reverts(then, after), same_picture(then, doc@, keep)]
                old(self).reverts(then, after) && keep.subset_of(then.layers.dom()) && same_picture(
                    after,
                    old(doc)@,
                    keep.union(old(self).refs()),
                ) implies same_picture(then, doc@, keep) by {
                let root = self.inserted_root->0;
                let ids = self.inserted_ids@.to_set();
                let (parent, i) = choose|parent: Option<LayerId>, i: int| #[trigger]
                    newly_placed(then, after, root, ids, parent, i);
                placing_taken_back(then, after, old(doc)@, doc@, root, ids, parent, i, keep);
            }
        }
    }

    fn cleanup(&self, doc: &mut Document) {
        drop_scraps(doc, &self.removed_ids);
    }

    fn referenced_layers(&self) -> (r: Vec<LayerId>)
        ensures
            r@ == self.inserted_ids@,
    {
        copy_ids(&self.inserted_ids)
    }
}

} // verus!
