//! Inserting a layer keeps the tree whole.
use vstd::prelude::*;

use crate::document::{
    adoptable, all_unlisted, entered, inserted_above, named_children, placed_layers_sit_somewhere,
    unlisted, DocView,
};
use crate::layer::{LayerId, LayerView};
use crate::picture::{neat, owned, spot, tidy, visible};

verus! {

/// The list of `parent` in the tree holds `x`.
pub open spec fn holds(v: DocView, parent: Option<LayerId>, x: LayerId) -> bool {
    match parent {
        Some(p) => v.is_parent(p, x),
        None => v.order.contains(x),
    }
}

/// Layer `x` hangs in the tree, `n` levels below the root.
pub open spec fn hangs(v: DocView, x: LayerId, n: nat) -> bool
    decreases n,
{
    if n == 0 {
        v.order.contains(x)
    } else {
        exists|p: LayerId| #[trigger] v.is_parent(p, x) && hangs(v, p, (n - 1) as nat)
    }
}

/// Layer `a` is `n` levels above layer `x`; it is `x` itself if `n` is zero.
pub open spec fn climbs(v: DocView, x: LayerId, a: LayerId, n: nat) -> bool
    decreases n,
{
    if n == 0 {
        x == a
    } else {
        exists|c: LayerId| #[trigger] v.is_parent(a, c) && climbs(v, x, c, (n - 1) as nat)
    }
}

/// The tree holds every layer that is not taken out, exactly once: each is listed at one
/// place and hangs below the root.
pub open spec fn whole(v: DocView) -> bool {
    &&& neat(v)
    &&& forall|x: LayerId| #[trigger] visible(v, x) ==> exists|n: nat| #[trigger] hangs(v, x, n)
}

proof fn lemma_spot_holds(v: DocView, parent: Option<LayerId>, i: int)
    requires
        spot(v, parent, i),
    ensures
        holds(v, parent, v.list(parent)[i]),
{
    assert(v.list(parent).contains(v.list(parent)[i]));
}

proof fn lemma_held_spot(v: DocView, parent: Option<LayerId>, x: LayerId) -> (i: int)
    requires
        holds(v, parent, x),
    ensures
        spot(v, parent, i),
        v.list(parent)[i] == x,
{
    choose|i: int| 0 <= i < v.list(parent).len() && v.list(parent)[i] == x
}

/// Taking a layer out of its list leaves the others where they are.
proof fn lemma_unlisted(u: DocView, c: LayerId, w: DocView)
    requires
        neat(u),
        visible(u, c),
        unlisted(u, c, w),
    ensures
        neat(w),
        w.removed == u.removed,
        w.layers.dom() == u.layers.dom(),
        forall|x: LayerId| #[trigger] visible(w, x) == visible(u, x),
        forall|p: Option<LayerId>, x: LayerId| #[trigger]
            holds(w, p, x) <==> holds(u, p, x) && x != c,
{
    if u.placed(c) {
        let (at, i) = choose|at: Option<LayerId>, i: int| #[trigger]
            u.sits_at(c, at, i) && w == u.with_list(at, u.list(at).remove(i));
        if let Some(p) = at {
            assert(u.is_parent(p, c));
        }
        assert(spot(u, at, i));
        assert(w.layers.dom() =~= u.layers.dom());
        assert(w.list(at) == u.list(at).remove(i));
        assert forall|q: Option<LayerId>, j: int| #[trigger] spot(w, q, j) implies {
            let k = if q == at && j >= i { j + 1 } else { j };
            spot(u, q, k) && w.list(q)[j] == u.list(q)[k]
        } by {}
        assert forall|q: Option<LayerId>, j: int| #[trigger] spot(w, q, j) implies visible(
            w,
            w.list(q)[j],
        ) by {
            let k = if q == at && j >= i { j + 1 } else { j };
            assert(spot(u, q, k));
            assert(visible(u, u.list(q)[k]));
        }
        assert forall|p: Option<LayerId>, a: int, q: Option<LayerId>, b: int|
            (p != q || a != b) && #[trigger] spot(w, p, a) && #[trigger] spot(
                w,
                q,
                b,
            ) implies w.list(p)[a] != w.list(q)[b] by {
            let s = if p == at && a >= i { a + 1 } else { a };
            let t = if q == at && b >= i { b + 1 } else { b };
            assert(spot(u, p, s) && spot(u, q, t));
        }
        assert forall|q: Option<LayerId>, x: LayerId| #[trigger] holds(w, q, x) <==> holds(
            u,
            q,
            x,
        ) && x != c by {
            if holds(w, q, x) {
                let j = lemma_held_spot(w, q, x);
                let k = if q == at && j >= i { j + 1 } else { j };
                assert(spot(u, q, k));
                lemma_spot_holds(u, q, k);
                assert(u.list(q)[k] != u.list(at)[i]);
            }
            if holds(u, q, x) && x != c {
                let k = lemma_held_spot(u, q, x);
                let j = if q == at && k > i { k - 1 } else { k };
                assert(w.list(q)[j] == x);
                assert(w.list(q).contains(x));
            }
        }
    } else {
        assert forall|q: Option<LayerId>| !holds(u, q, c) by {
            if let Some(p) = q {
                assert(!u.is_parent(p, c));
            }
        }
    }
}

/// Taking layers out of their lists leaves the others where they are.
proof fn lemma_all_unlisted(v: DocView, ids: Seq<LayerId>, w: DocView)
    requires
        neat(v),
        all_unlisted(v, ids, w),
        forall|x: LayerId| #[trigger] ids.contains(x) ==> visible(v, x),
    ensures
        neat(w),
        w.removed == v.removed,
        w.layers.dom() == v.layers.dom(),
        forall|x: LayerId| #[trigger] visible(w, x) == visible(v, x),
        forall|p: Option<LayerId>, x: LayerId| #[trigger]
            holds(w, p, x) <==> holds(v, p, x) && !ids.contains(x),
    decreases ids.len(),
{
    if ids.len() > 0 {
        let less = ids.drop_last();
        let u = choose|u: DocView| all_unlisted(v, less, u) && #[trigger] unlisted(
            u,
            ids.last(),
            w,
        );
        assert forall|x: LayerId| #[trigger] ids.contains(x) <==> less.contains(x) || x
            == ids.last() by {
            if ids.contains(x) {
                let i = choose|i: int| 0 <= i < ids.len() && ids[i] == x;
                if i < less.len() {
                    assert(less[i] == x);
                }
            }
            if less.contains(x) {
                let i = choose|i: int| 0 <= i < less.len() && less[i] == x;
                assert(ids[i] == x);
            }
            assert(ids[ids.len() - 1] == ids.last());
        }
        assert forall|x: LayerId| #[trigger] less.contains(x) implies visible(v, x) by {
            assert(ids.contains(x));
        }
        lemma_all_unlisted(v, less, u);
        assert(ids.contains(ids.last()));
        lemma_unlisted(u, ids.last(), w);
        assert forall|p: Option<LayerId>, x: LayerId| #[trigger] holds(w, p, x) <==> holds(v, p, x)
            && !ids.contains(x) by {
            assert(holds(u, p, x) <==> holds(v, p, x) && !less.contains(x));
        }
        assert forall|x: LayerId| #[trigger] visible(w, x) == visible(v, x) by {
            assert(visible(u, x) == visible(v, x));
        }
    }
}

/// What is adopted is in the tree and named once.
proof fn lemma_adoptable(v: DocView, children: Seq<LayerId>)
    ensures
        adoptable(v, children).no_duplicates(),
        forall|x: LayerId| #[trigger]
            adoptable(v, children).contains(x) <==> children.contains(x) && visible(v, x),
    decreases children.len(),
{
    if children.len() > 0 {
        let less = children.drop_last();
        let c = children.last();
        let rest = adoptable(v, less);
        lemma_adoptable(v, less);
        assert forall|x: LayerId| #[trigger] children.contains(x) <==> less.contains(x) || x
            == c by {
            if children.contains(x) {
                let i = choose|i: int| 0 <= i < children.len() && children[i] == x;
                if i < less.len() {
                    assert(less[i] == x);
                }
            }
            if less.contains(x) {
                let i = choose|i: int| 0 <= i < less.len() && less[i] == x;
                assert(children[i] == x);
            }
            assert(children[children.len() - 1] == c);
        }
        assert forall|x: LayerId| rest.push(c).contains(x) <==> rest.contains(x) || x == c by {
            if rest.contains(x) {
                let i = choose|i: int| 0 <= i < rest.len() && rest[i] == x;
                assert(rest.push(c)[i] == x);
            }
            if rest.push(c).contains(x) {
                let i = choose|i: int| 0 <= i < rest.push(c).len() && rest.push(c)[i] == x;
                if i < rest.len() {
                    assert(rest[i] == x);
                }
            }
            assert(rest.push(c)[rest.len() as int] == c);
        }
        if !(less.contains(c) || v.removed.contains(c) || !v.has(c)) {
            assert(!rest.contains(c));
        }
        assert forall|x: LayerId| #[trigger] adoptable(v, children).contains(x)
            <==> children.contains(x) && visible(v, x) by {
            assert(rest.contains(x) <==> less.contains(x) && visible(v, x));
            assert(children.contains(x) <==> less.contains(x) || x == c);
            assert(rest.push(c).contains(x) <==> rest.contains(x) || x == c);
        }
    }
}

/// A layer that enters the arena brings its adopted children and changes no other list.
proof fn lemma_entered(v: DocView, l: LayerView, w: DocView, id: LayerId)
    requires
        tidy(v),
        !v.has(id),
        all_unlisted(v, adoptable(v, named_children(l)), w),
    ensures
        ({
            let kept = adoptable(v, named_children(l));
            let e = entered(v, l, w, id);
            &&& neat(e)
            &&& e.removed == v.removed
            &&& e.layers.dom() == v.layers.dom().insert(id)
            &&& forall|x: LayerId| #[trigger] visible(e, x) <==> visible(v, x) || x == id
            &&& forall|p: Option<LayerId>, x: LayerId| #[trigger]
                holds(e, p, x) <==> if p == Some(id) {
                    kept.contains(x)
                } else {
                    holds(v, p, x) && !kept.contains(x)
                }
            &&& e.kids(id) == kept
        }),
{
    let kept = adoptable(v, named_children(l));
    let e = entered(v, l, w, id);
    lemma_adoptable(v, named_children(l));
    lemma_all_unlisted(v, kept, w);
    assert(e.kids(id) =~= kept) by {
        if !(l.content is Group) {
            assert(kept =~= Seq::empty());
        }
    }
    assert(!w.has(id) && !w.removed.contains(id));
    assert(e.layers.dom() =~= v.layers.dom().insert(id));
    assert forall|x: LayerId| #[trigger] visible(e, x) <==> visible(v, x) || x == id by {
        assert(visible(w, x) == visible(v, x));
    }
    assert forall|p: Option<LayerId>, x: LayerId| #[trigger] holds(e, p, x) <==> if p == Some(id) {
        kept.contains(x)
    } else {
        holds(v, p, x) && !kept.contains(x)
    } by {
        if p != Some(id) {
            assert(holds(e, p, x) <==> holds(w, p, x));
        } else if kept.contains(x) {
            assert(l.content is Group);
        }
    }
    assert forall|p: Option<LayerId>, i: int| #[trigger] spot(e, p, i) && p
        != Some(id) implies spot(w, p, i) && e.list(p) == w.list(p) by {}
    assert forall|p: Option<LayerId>, i: int| #[trigger] spot(e, p, i) implies visible(
        e,
        e.list(p)[i],
    ) by {
        let x = e.list(p)[i];
        if p == Some(id) {
            assert(kept.contains(x));
            assert(visible(v, x));
        } else {
            assert(spot(w, p, i));
            assert(visible(w, x));
            assert(visible(v, x));
        }
    }
    assert forall|p: Option<LayerId>, i: int, q: Option<LayerId>, j: int|
        (p != q || i != j) && #[trigger] spot(e, p, i) && #[trigger] spot(e, q, j) implies e.list(
        p,
    )[i] != e.list(q)[j] by {
        lemma_spot_holds(e, p, i);
        lemma_spot_holds(e, q, j);
        if p != Some(id) && q != Some(id) {
            assert(spot(w, p, i) && spot(w, q, j));
        }
    }
}

/// What stands where once a layer was inserted.
proof fn lemma_inserted(
    v: DocView,
    l: LayerView,
    anchor: LayerId,
    w: DocView,
    id: LayerId,
    z: DocView,
    at: Option<LayerId>,
    i: int,
)
    requires
        tidy(v),
        !v.has(id),
        all_unlisted(v, adoptable(v, named_children(l)), w),
        entered(v, l, w, id).sits_at(anchor, at, i),
        z == entered(v, l, w, id).with_list(at, entered(v, l, w, id).list(at).insert(i + 1, id)),
    ensures
        tidy(z),
        forall|x: LayerId| #[trigger] visible(z, x) <==> visible(v, x) || x == id,
        forall|p: Option<LayerId>, x: LayerId| #[trigger]
            holds(z, p, x) <==> holds(entered(v, l, w, id), p, x) || (p == at && x == id),
        z.list(at)[i] == anchor,
        z.list(at)[i + 1] == id,
{
    let e = entered(v, l, w, id);
    lemma_entered(v, l, w, id);
    if let Some(p) = at {
        assert(e.is_parent(p, anchor));
    }
    assert(z.layers.dom() =~= e.layers.dom());
    let list = e.list(at);
    assert(z.list(at) == list.insert(i + 1, id));
    assert forall|p: Option<LayerId>| !holds(e, p, id) by {
        if holds(e, p, id) {
            let k = lemma_held_spot(e, p, id);
            if p == Some(id) {
                lemma_adoptable(v, named_children(l));
            } else {
                assert(holds(v, p, id));
                let m = lemma_held_spot(v, p, id);
                assert(visible(v, id));
            }
        }
    }
    assert forall|x: LayerId| #[trigger] visible(z, x) <==> visible(v, x) || x == id by {
        assert(visible(e, x) <==> visible(v, x) || x == id);
    }
    assert forall|q: Option<LayerId>, j: int| #[trigger] spot(z, q, j) && !(q == at && j == i
        + 1) implies {
        let k = if q == at && j > i { j - 1 } else { j };
        spot(e, q, k) && z.list(q)[j] == e.list(q)[k]
    } by {}
    assert forall|q: Option<LayerId>, j: int| #[trigger] spot(z, q, j) implies visible(
        z,
        z.list(q)[j],
    ) by {
        if q == at && j == i + 1 {
            assert(z.list(q)[j] == id);
            assert(visible(z, id) <==> visible(v, id) || id == id);
        } else {
            let k = if q == at && j > i { j - 1 } else { j };
            assert(spot(e, q, k));
            assert(visible(e, e.list(q)[k]));
        }
    }
    assert forall|p: Option<LayerId>, a: int, q: Option<LayerId>, b: int|
        (p != q || a != b) && #[trigger] spot(z, p, a) && #[trigger] spot(z, q, b) implies z.list(
        p,
    )[a] != z.list(q)[b] by {
        let s = if p == at && a > i { a - 1 } else { a };
        let t = if q == at && b > i { b - 1 } else { b };
        if p == at && a == i + 1 {
            assert(spot(e, q, t));
            lemma_spot_holds(e, q, t);
        } else if q == at && b == i + 1 {
            assert(spot(e, p, s));
            lemma_spot_holds(e, p, s);
        } else {
            assert(spot(e, p, s) && spot(e, q, t));
        }
    }
    assert forall|p: Option<LayerId>, x: LayerId| #[trigger] holds(z, p, x) <==> holds(e, p, x)
        || (p == at && x == id) by {
        if holds(z, p, x) && !(p == at && x == id) {
            let j = lemma_held_spot(z, p, x);
            let k = if p == at && j > i { j - 1 } else { j };
            assert(spot(e, p, k));
            lemma_spot_holds(e, p, k);
        }
        if holds(e, p, x) {
            let k = lemma_held_spot(e, p, x);
            let j = if p == at && k > i { k + 1 } else { k };
            assert(z.list(p)[j] == x);
            assert(z.list(p).contains(x));
        }
        if p == at && x == id {
            assert(z.list(p)[i + 1] == id);
            assert(z.list(p).contains(id));
        }
    }
    assert(neat(z));
    assert(owned(z));
}

/// Inserting a layer keeps a tidy tree tidy.
pub proof fn inserting_keeps_tidy(
    v: DocView,
    l: LayerView,
    anchor: LayerId,
    w: DocView,
    id: LayerId,
    z: DocView,
)
    requires
        tidy(v),
        inserted_above(v, l, anchor, w, id, z),
    ensures
        tidy(z),
{
    let e = entered(v, l, w, id);
    lemma_entered(v, l, w, id);
    if e.placed(anchor) {
        let (at, i) = choose|at: Option<LayerId>, i: int| #[trigger]
            e.sits_at(anchor, at, i) && z == e.with_list(at, e.list(at).insert(i + 1, id));
        lemma_inserted(v, l, anchor, w, id, z, at, i);
    }
}

/// A layer above which none is adopted hangs where it hung.
proof fn lemma_still_hangs(
    v: DocView,
    z: DocView,
    kept: Seq<LayerId>,
    anchor: LayerId,
    x: LayerId,
    k: nat,
    n: nat,
)
    requires
        forall|p: Option<LayerId>, y: LayerId| #[trigger]
            holds(v, p, y) && !kept.contains(y) ==> holds(z, p, y),
        forall|c: LayerId, m: nat| #[trigger] climbs(v, anchor, c, m) ==> !kept.contains(c),
        climbs(v, anchor, x, k),
        hangs(v, x, n),
    ensures
        hangs(z, x, n),
    decreases n,
{
    if n == 0 {
        assert(holds(v, None, x));
        assert(holds(z, None, x));
    } else {
        let p = choose|p: LayerId| #[trigger] v.is_parent(p, x) && hangs(v, p, (n - 1) as nat);
        assert(climbs(v, anchor, p, k + 1));
        lemma_still_hangs(v, z, kept, anchor, p, k + 1, (n - 1) as nat);
        assert(holds(v, Some(p), x));
        assert(holds(z, Some(p), x));
        assert(z.is_parent(p, x));
    }
}

/// Every layer hangs somewhere once its adopted ancestors do.
proof fn lemma_hangs_again(
    v: DocView,
    z: DocView,
    kept: Seq<LayerId>,
    d: nat,
    x: LayerId,
    n: nat,
) -> (m: nat)
    requires
        forall|p: Option<LayerId>, y: LayerId| #[trigger]
            holds(v, p, y) && !kept.contains(y) ==> holds(z, p, y),
        forall|c: LayerId| #[trigger] kept.contains(c) ==> hangs(z, c, d),
        hangs(v, x, n),
    ensures
        hangs(z, x, m),
    decreases n,
{
    if kept.contains(x) {
        d
    } else if n == 0 {
        assert(holds(v, None, x));
        assert(holds(z, None, x));
        0
    } else {
        let p = choose|p: LayerId| #[trigger] v.is_parent(p, x) && hangs(v, p, (n - 1) as nat);
        let m = lemma_hangs_again(v, z, kept, d, p, (n - 1) as nat);
        assert(holds(v, Some(p), x));
        assert(holds(z, Some(p), x));
        assert(z.is_parent(p, x));
        m + 1
    }
}

/// A layer that is inserted above `anchor` comes directly after it, and a group adopts
/// those of the children that it names which are in the tree, each once and in the order
/// of its list. If it names neither `anchor` nor a layer above it, the tree still holds
/// every layer exactly once.
pub proof fn inserting_keeps_the_tree_whole(
    v: DocView,
    l: LayerView,
    anchor: LayerId,
    w: DocView,
    id: LayerId,
    z: DocView,
)
    requires
        whole(v),
        owned(v),
        v.placed(anchor),
        inserted_above(v, l, anchor, w, id, z),
        forall|c: LayerId, n: nat| #[trigger]
            climbs(v, anchor, c, n) ==> !named_children(l).contains(c),
    ensures
        entered(v, l, w, id).placed(anchor),
        exists|at: Option<LayerId>, i: int|
            0 <= i && i + 1 < z.list(at).len() && #[trigger] z.list(at)[i] == anchor && z.list(at)[i
                + 1] == id,
        z.kids(id) == adoptable(v, named_children(l)),
        z.layers[id].id == id,
        forall|x: LayerId| #[trigger] visible(z, x) <==> visible(v, x) || x == id,
        whole(z),
        owned(z),
{
    let kept = adoptable(v, named_children(l));
    let e = entered(v, l, w, id);
    lemma_entered(v, l, w, id);
    lemma_adoptable(v, named_children(l));
    assert(visible(v, anchor));
    let d = choose|n: nat| #[trigger] hangs(v, anchor, n);
    assert(climbs(v, anchor, anchor, 0));
    assert(!kept.contains(anchor));
    placed_layers_sit_somewhere(v, anchor);
    let (p0, i0) = choose|p: Option<LayerId>, i: int| #[trigger] v.sits_at(anchor, p, i);
    assert(holds(v, p0, anchor)) by {
        assert(v.list(p0)[i0] == anchor);
    }
    assert(p0 != Some(id));
    assert(holds(e, p0, anchor));
    assert(visible(e, anchor));
    assert(e.placed(anchor));
    let (at, i) = choose|at: Option<LayerId>, i: int| #[trigger]
        e.sits_at(anchor, at, i) && z == e.with_list(at, e.list(at).insert(i + 1, id));
    lemma_inserted(v, l, anchor, w, id, z, at, i);
    assert(holds(e, at, anchor)) by {
        assert(e.list(at)[i] == anchor);
    }
    assert(at != Some(id));
    assert(z.layers[id] == e.layers[id]);
    assert forall|p: Option<LayerId>, y: LayerId| #[trigger]
        holds(v, p, y) && !kept.contains(y) implies holds(z, p, y) by {
        if p == Some(id) {
            assert(!v.has(id));
        }
        assert(holds(e, p, y));
    }
    assert forall|c: LayerId, m: nat| #[trigger] climbs(v, anchor, c, m) implies !kept.contains(
        c,
    ) by {
        assert(!named_children(l).contains(c));
    }
    lemma_still_hangs(v, z, kept, anchor, anchor, 0, d);
    let k = lemma_beside(z, anchor, id, at, d);
    assert forall|c: LayerId| #[trigger] kept.contains(c) implies hangs(z, c, k + 1) by {
        assert(holds(e, Some(id), c));
        assert(holds(z, Some(id), c));
        assert(z.is_parent(id, c));
    }
    assert forall|x: LayerId| #[trigger] visible(z, x) implies exists|n: nat| #[trigger]
        hangs(z, x, n) by {
        if x == id {
            assert(hangs(z, x, k));
        } else {
            assert(visible(v, x));
            let n = choose|n: nat| #[trigger] hangs(v, x, n);
            let m = lemma_hangs_again(v, z, kept, k + 1, x, n);
        }
    }
}

/// What stands in a list beside a layer that hangs in the tree hangs as deep.
proof fn lemma_beside(z: DocView, x: LayerId, y: LayerId, at: Option<LayerId>, n: nat) -> (m: nat)
    requires
        neat(z),
        holds(z, at, x),
        holds(z, at, y),
        hangs(z, x, n),
    ensures
        hangs(z, y, m),
{
    let i = lemma_held_spot(z, at, x);
    if n == 0 {
        assert(holds(z, None, x));
        let j = lemma_held_spot(z, None, x);
        assert(at == None::<LayerId>);
        0
    } else {
        let p = choose|p: LayerId| #[trigger] z.is_parent(p, x) && hangs(z, p, (n - 1) as nat);
        assert(holds(z, Some(p), x));
        let j = lemma_held_spot(z, Some(p), x);
        assert(at == Some(p));
        assert(z.is_parent(p, y));
        n
    }
}

} // verus!
