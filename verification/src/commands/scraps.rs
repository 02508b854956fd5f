//! Layers that commands take out of the tree and leave behind.
use vstd::prelude::*;

use crate::document::{
    active_outside, dropped, lemma_unlisted_dom, restored, subtree, subtree_error, unlisted, walk,
    DocView, Document,
};
use crate::layer::LayerId;
use crate::picture::{owned, pictures_chain, same_picture, shown, tidy};
use crate::placing::{
    leaf_is_newly_placed, newly_placed, placed_layers, placing_taken_back, subtree_facts,
    taken_out, walks_stay_within,
};

verus! {

/// What taking `id` out of the tree makes of `v`: nothing if that fails.
pub open spec fn softly_removed(v: DocView, id: LayerId, active: Option<LayerId>, fin: DocView) -> bool {
    if subtree_error(v, id) is None {
        taken_out(v, id, fin) && fin.active == active
    } else {
        fin == DocView { active, ..v }
    }
}

/// Take a layer out of the tree, if there is one to be taken out, and set the
/// active layer.
pub(crate) fn take_out(doc: &mut Document, id: LayerId, active: Option<LayerId>) -> (r: Vec<
    LayerId,
>)
    requires
        old(doc).wf(),
    ensures
        final(doc).wf(),
        final(doc).used() <= old(doc).used(),
        softly_removed(old(doc)@, id, active, final(doc)@),
        r@ == (if subtree_error(old(doc)@, id) is None {
            subtree(old(doc)@, id)
        } else {
            Seq::empty()
        }),
        owned(old(doc)@) ==> owned(final(doc)@),
{
    proof {
        doc.lemma_ids();
    }
    let r: Vec<LayerId> = match doc.remove_layer_soft(id) {
        Ok(ids) => ids,
        Err(_) => Vec::new(),
    };
    doc.set_active(active);
    proof {
        if subtree_error(old(doc)@, id) is None {
            let w = choose|w: DocView| #[trigger]
                unlisted(old(doc)@, id, w) && doc@ == (DocView {
                    active: doc@.active,
                    removed: w.removed.union(r@.to_set()),
                    ..w
                });
            lemma_unlisted_dom(old(doc)@, id, w);
            subtree_facts(old(doc)@, id);
            assert(owned(old(doc)@) ==> owned(doc@));
        }
    }
    r
}

/// `after` is `then` with the layer `id` without children, newly placed in the
/// tree; the active layer was `prior`.
pub open spec fn added(
    id: LayerId,
    prior: Option<LayerId>,
    then: DocView,
    after: DocView,
) -> bool {
    &&& prior == then.active
    &&& after.layers.dom().finite()
    &&& exists|parent: Option<LayerId>, i: int| #[trigger]
        newly_placed(then, after, id, Set::empty().insert(id), parent, i)
}

/// Taking an added layer out gives the picture back.
pub proof fn adding_taken_back(
    then: DocView,
    after: DocView,
    now: DocView,
    fin: DocView,
    id: LayerId,
    prior: Option<LayerId>,
    keep: Set<LayerId>,
)
    requires
        added(id, prior, then, after),
        now.layers.dom().finite(),
        keep.subset_of(then.layers.dom()),
        same_picture(after, now, keep.insert(id)),
        softly_removed(now, id, prior, fin),
    ensures
        same_picture(then, fin, keep),
        subtree_error(now, id) is None,
        subtree(now, id) == seq![id],
        now.placed(id),
{
    let ids = Set::<LayerId>::empty().insert(id);
    let (parent, i) = choose|parent: Option<LayerId>, i: int| #[trigger]
        newly_placed(then, after, id, ids, parent, i);
    assert(keep.insert(id) =~= keep.union(ids));
    placed_layers(then, after, id, ids, parent, i);
    let sub = subtree(after, id);
    let a = walk(after, id, Set::empty())->Ok_0;
    crate::document::lemma_walk_facts(after, id, Set::empty());
    assert(a.0.len() == 0) by {
        if a.0.len() > 0 {
            assert(a.0.contains(a.0[0]));
            assert(sub[0] == a.0[0]);
            assert(sub.to_set().contains(sub[0]));
        }
    }
    assert(sub =~= seq![id]);
    crate::picture::pictures_share_the_tree(after, now, keep.insert(id));
    placing_taken_back(then, after, now, fin, id, ids, parent, i, keep);
    crate::document::placed_layers_sit_somewhere(now, id);
}

/// Adding a layer loses none.
pub proof fn adding_keeps_layers(
    id: LayerId,
    prior: Option<LayerId>,
    then: DocView,
    after: DocView,
)
    requires
        added(id, prior, then, after),
    ensures
        after.has(id),
        forall|x: LayerId| #[trigger] then.has(x) ==> after.has(x),
{
    let ids = Set::<LayerId>::empty().insert(id);
    let (parent, i) = choose|parent: Option<LayerId>, i: int| #[trigger]
        newly_placed(then, after, id, ids, parent, i);
    placed_layers(then, after, id, ids, parent, i);
}

/// A taken-out layer without children can go back into the list of `parent`.
pub open spec fn can_return(v: DocView, id: LayerId, parent: Option<LayerId>) -> bool {
    &&& v.kids(id) == Seq::<LayerId>::empty()
    &&& parent matches Some(p) ==> v.is_group(p) && !v.removed.contains(p)
}

/// Put a taken-out layer back into the tree and make it active.
pub(crate) fn put_back_leaf(
    doc: &mut Document,
    parent: Option<LayerId>,
    index: usize,
    id: LayerId,
)
    requires
        old(doc).wf(),
    ensures
        final(doc).wf(),
        final(doc).used() <= old(doc).used(),
        final(doc)@ == (DocView {
            active: Some(id),
            ..restored(old(doc)@, parent, index as int, id, seq![id])
        }),
        tidy(old(doc)@) && old(doc)@.removed.contains(id) && can_return(old(doc)@, id, parent)
            ==> tidy(final(doc)@) && added(id, old(doc)@.active, old(doc)@, final(doc)@),
{
    let ids: Vec<LayerId> = vec![id];
    assert(ids@ =~= seq![id]);
    doc.restore_layer_soft(parent, index, id, &ids);
    doc.set_active(Some(id));
    proof {
        let v = old(doc)@;
        doc.lemma_ids();
        if tidy(v) && v.removed.contains(id) && can_return(v, id, parent) {
            let i = if index <= v.list(parent).len() {
                index as int
            } else {
                v.list(parent).len() as int
            };
            assert(v.removed.difference(seq![id].to_set()) =~= v.removed.remove(id)) by {
                assert(seq![id][0] == id);
            }
            assert(v.layers.insert(id, v.layers[id]) =~= v.layers);
            if let Some(p) = parent {
                assert(p != id);
            }
            leaf_is_newly_placed(v, doc@, id, parent, i);
        }
    }
}

/// Dropping the taken-out layer `id` turns `v` into `fin`: nothing happens if it is
/// not taken out or cannot be dropped.
pub open spec fn scrapped(v: DocView, id: LayerId, fin: DocView) -> bool {
    if v.removed.contains(id) && subtree_error(v, id) is None {
        exists|w: DocView| #[trigger]
            unlisted(v, id, w) && fin == dropped(
                w,
                subtree(v, id),
                active_outside(v, subtree(v, id)),
            )
    } else {
        fin == v
    }
}

/// Dropping taken-out layers, the last one first, turns `v` into `fin`.
pub open spec fn all_scrapped(v: DocView, ids: Seq<LayerId>, fin: DocView) -> bool
    decreases ids.len(),
{
    if ids.len() == 0 {
        fin == v
    } else {
        exists|m: DocView| #[trigger]
            scrapped(v, ids.last(), m) && all_scrapped(m, ids.drop_last(), fin)
    }
}

/// The layers `ids` can be dropped where they are taken out: none of those is to be
/// kept or active, and what is below them is taken out with them.
pub open spec fn are_scraps(v: DocView, ids: Set<LayerId>, keep: Set<LayerId>) -> bool {
    forall|x: LayerId| #[trigger]
        ids.contains(x) && v.removed.contains(x) && v.has(x) ==> {
            &&& !keep.contains(x)
            &&& v.active != Some(x)
            &&& forall|y: LayerId| #[trigger]
                v.kids(x).contains(y) && v.has(y) ==> ids.contains(y) && v.removed.contains(y)
        }
}

proof fn lemma_scrapped(
    v: DocView,
    id: LayerId,
    fin: DocView,
    ids: Set<LayerId>,
    keep: Set<LayerId>,
)
    requires
        v.layers.dom().finite(),
        ids.contains(id),
        scrapped(v, id, fin),
        are_scraps(v, ids, keep),
    ensures
        same_picture(v, fin, keep),
        are_scraps(fin, ids, keep),
{
    if v.removed.contains(id) && subtree_error(v, id) is None {
        let sub = subtree(v, id);
        let w = choose|w: DocView| #[trigger]
            unlisted(v, id, w) && fin == dropped(w, sub, active_outside(v, sub));
        assert(w == v);
        let s = Set::new(
            |x: LayerId| ids.contains(x) && v.removed.contains(x) && v.has(x),
        );
        assert forall|x: LayerId, y: LayerId|
            #![trigger s.contains(x), v.kids(x).contains(y)]
            s.contains(x) && v.kids(x).contains(y) && v.has(y) implies s.contains(y) by {}
        walks_stay_within(v, id, Set::empty(), s);
        assert forall|x: LayerId| #[trigger] sub.contains(x) implies s.contains(x) by {
            let a = walk(v, id, Set::empty())->Ok_0;
            let j = choose|j: int| 0 <= j < sub.len() && sub[j] == x;
            if j < a.0.len() {
                assert(a.0[j] == x);
                assert(a.0.contains(x));
            }
        }
        assert forall|x: LayerId| #[trigger] sub.to_set().contains(x) implies s.contains(x) by {
            assert(sub.contains(x));
        }
        assert(active_outside(v, sub) == v.active) by {
            if let Some(a) = v.active {
                if sub.contains(a) {
                    assert(s.contains(a));
                }
            }
        }
        assert forall|x: LayerId| #[trigger] shown(v, keep, x) == shown(fin, keep, x) by {
            if sub.to_set().contains(x) {
                assert(s.contains(x));
            }
        }
        assert forall|x: LayerId| #[trigger]
            ids.contains(x) && fin.removed.contains(x) && fin.has(x) implies {
            &&& !keep.contains(x)
            &&& fin.active != Some(x)
            &&& forall|y: LayerId| #[trigger]
                fin.kids(x).contains(y) && fin.has(y) ==> ids.contains(y) && fin.removed.contains(
                    y,
                )
        } by {
            assert(v.removed.contains(x) && v.has(x));
            assert(fin.kids(x) == v.kids(x));
        }
    }
}

/// Drop those of the layers that are taken out, the last one first.
pub(crate) fn drop_scraps(doc: &mut Document, ids: &Vec<LayerId>)
    requires
        old(doc).wf(),
    ensures
        final(doc).wf(),
        final(doc).used() <= old(doc).used(),
        all_scrapped(old(doc)@, ids@, final(doc)@),
        owned(old(doc)@) ==> owned(final(doc)@),
        forall|keep: Set<LayerId>|
            #![trigger same_picture(old(doc)@, final(doc)@, keep)]
            are_scraps(old(doc)@, ids@.to_set(), keep) ==> same_picture(
                old(doc)@,
                final(doc)@,
                keep,
            ),
{
    let mut i: usize = ids.len();
    let ghost v = doc@;
    assert(ids@.take(ids@.len() as int) =~= ids@);
    assert forall|fin: DocView| #[trigger]
        all_scrapped(doc@, ids@.take(i as int), fin) implies all_scrapped(v, ids@, fin) by {}
    while i > 0
        invariant
            i <= ids@.len(),
            doc.wf(),
            v == old(doc)@,
            doc.used() <= old(doc).used(),
            owned(v) ==> owned(doc@),
            forall|fin: DocView| #[trigger]
                all_scrapped(doc@, ids@.take(i as int), fin) ==> all_scrapped(v, ids@, fin),
            forall|keep: Set<LayerId>| #[trigger]
                are_scraps(v, ids@.to_set(), keep) ==> same_picture(v, doc@, keep) && are_scraps(
                    doc@,
                    ids@.to_set(),
                    keep,
                ),
        decreases i,
    {
        i = i - 1;
        let id: LayerId = ids[i];
        let ghost m = doc@;
        proof {
            doc.lemma_ids();
        }
        if doc.is_removed(id) {
            let gone = doc.remove_layer(id);
        }
        proof {
            assert(scrapped(m, id, doc@));
            if m.removed.contains(id) && subtree_error(m, id) is None {
                let w = choose|w: DocView| #[trigger]
                    unlisted(m, id, w) && doc@ == dropped(
                        w,
                        subtree(m, id),
                        active_outside(m, subtree(m, id)),
                    );
                lemma_unlisted_dom(m, id, w);
            }
            let now = ids@.take(i + 1);
            assert(now.drop_last() =~= ids@.take(i as int));
            assert(now.last() == id);
            assert forall|fin: DocView| #[trigger]
                all_scrapped(doc@, ids@.take(i as int), fin) implies all_scrapped(v, ids@, fin) by {
                assert(scrapped(m, now.last(), doc@));
                assert(all_scrapped(m, now, fin));
            }
            assert(ids@[i as int] == id);
            assert(ids@.contains(id));
            assert forall|keep: Set<LayerId>| #[trigger]
                are_scraps(v, ids@.to_set(), keep) implies same_picture(v, doc@, keep)
                && are_scraps(doc@, ids@.to_set(), keep) by {
                lemma_scrapped(m, id, doc@, ids@.to_set(), keep);
                pictures_chain(v, m, doc@, keep);
            }
        }
    }
    proof {
        assert(ids@.take(0) =~= Seq::empty());
        assert(all_scrapped(doc@, ids@.take(0), doc@));
    }
}

} // verus!
