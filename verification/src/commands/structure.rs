//! Commands that take layers out of the tree or move them within it.
use vstd::prelude::*;

use crate::buffer::{key, pixel_at};
use crate::commands::extracting::{with_maybe, with_maybe_seq, with_maybe_set};
use crate::commands::props::just;
use crate::commands::scraps::{all_scrapped, are_scraps, drop_scraps};
use crate::coord::{tile_of, IVec2};
use crate::document::{
    active_outside, last_or, lemma_walk_facts, lemma_walk_leaf, moved_in_list,
    placed_layers_sit_somewhere, restored, soft_removal_is_undone_by_restoring, subtree,
    subtree_error, unlisted, vacated, walk, DocView, Document,
};
use crate::error::OgreError;
use crate::history::Command;
use crate::kernel::Kernel;
use crate::layer::{Layer, LayerContent, LayerId};
use crate::ops::merge::{
    below_error, is_merge, merge_raster_layers, merged_layer, merged_px, merged_tiles, upper_error,
};
use crate::picture::{
    neat, one_layer_keeps_tidy, one_layer_put_back, owned, pictures_share_the_tree, same_picture,
    shown, spot, tidy, visible,
};
use crate::pixel::{clear_px, Rgba32F};
use crate::placing::{
    one_seat, removal_taken_back, removed_from, soft_removal_takes_out, subtree_facts, taken_out,
    walks_agree, walks_stay_visible,
};

verus! {

/// A copy of a list of identifiers.
pub(crate) fn copy_ids(ids: &Vec<LayerId>) -> (r: Vec<LayerId>)
    ensures
        r@ == ids@,
{
    let mut r: Vec<LayerId> = Vec::new();
    let mut i: usize = 0;
    while i < ids.len()
        invariant
            i <= ids@.len(),
            r@ == ids@.take(i as int),
        decreases ids@.len() - i,
    {
        r.push(ids[i]);
        assert(ids@.take(i + 1) =~= ids@.take(i as int).push(ids@[i as int]));
        i = i + 1;
    }
    assert(ids@.take(i as int) =~= ids@);
    r
}

/// Delete a layer (and its descendants if it is a group).
///
/// The layer subtree is detached from the tree and marked as removed, but it stays
/// in the layer arena so undo can restore it with the exact same [`LayerId`]. This
/// keeps every other command in the history stack that names this id valid after
/// an undo.
pub struct DeleteLayerCmd {
    /// The layer.
    pub id: LayerId,
    /// Its parent, once the command was applied.
    pub parent: Option<LayerId>,
    /// Its position, once the command was applied.
    pub index: usize,
    /// The layers that were taken out.
    pub removed_ids: Vec<LayerId>,
    /// The active layer that was, once the command was applied.
    pub prior_active: Option<LayerId>,
}

impl DeleteLayerCmd {
    /// Create a delete-layer command.
    pub fn new(id: LayerId) -> (r: Self)
        ensures
            r.id == id,
            r.parent is None,
            r.removed_ids@.len() == 0,
            r.prior_active is None,
    {
        DeleteLayerCmd { id, parent: None, index: 0, removed_ids: Vec::new(), prior_active: None }
    }
}

/// Why a layer cannot be deleted.
pub open spec fn delete_error(v: DocView, id: LayerId) -> Option<OgreError> {
    if !v.placed(id) {
        Some(OgreError::LayerNotFound(id))
    } else {
        subtree_error(v, id)
    }
}

/// What can be deleted can be deleted in every state that shows the same picture,
/// with the same layers below it.
proof fn deletable_alike(then: DocView, now: DocView, id: LayerId, keep: Set<LayerId>)
    requires
        same_picture(then, now, keep),
        neat(then),
        then.layers.dom().finite(),
        now.layers.dom().finite(),
        delete_error(then, id) is None,
    ensures
        delete_error(now, id) is None,
        subtree(now, id) == subtree(then, id),
{
    pictures_share_the_tree(then, now, keep);
    placed_layers_sit_somewhere(then, id);
    let (p, i) = choose|p: Option<LayerId>, i: int| #[trigger] then.sits_at(id, p, i);
    assert(now.sits_at(id, p, i));
    placed_layers_sit_somewhere(now, id);
    assert(visible(then, id));
    walks_stay_visible(then, id, Set::empty());
    let below = walk(then, id, Set::empty())->Ok_0.0;
    assert forall|x: LayerId| #[trigger] below.contains(x) implies now.has(x) && now.kids(x)
        == then.kids(x) by {
        assert(visible(then, x));
    }
    walks_agree(then, now, id, Set::empty());
}

/// Deleting does the same in two states that show the same picture.
pub(crate) proof fn deleted_alike(
    id: LayerId,
    then: DocView,
    after: DocView,
    now: DocView,
    fin: DocView,
    keep: Set<LayerId>,
)
    requires
        same_picture(then, now, keep),
        neat(then),
        then.layers.dom().finite(),
        now.layers.dom().finite(),
        delete_error(then, id) is None,
        taken_out(then, id, after),
        taken_out(now, id, fin),
        after.active == active_outside(then, subtree(then, id)),
        fin.active == active_outside(now, subtree(now, id)),
    ensures
        same_picture(after, fin, keep),
{
    deletable_alike(then, now, id, keep);
    pictures_share_the_tree(then, now, keep);
    let ids = subtree(then, id);
    subtree_facts(then, id);
    placed_layers_sit_somewhere(then, id);
    placed_layers_sit_somewhere(now, id);
    let v = choose|v: DocView| #[trigger]
        unlisted(then, id, v) && after == (DocView {
            active: after.active,
            removed: v.removed.union(ids.to_set()),
            ..v
        });
    let w = choose|w: DocView| #[trigger]
        unlisted(now, id, w) && fin == (DocView {
            active: fin.active,
            removed: w.removed.union(ids.to_set()),
            ..w
        });
    let (p, i) = choose|p: Option<LayerId>, i: int| #[trigger]
        then.sits_at(id, p, i) && v == then.with_list(p, then.list(p).remove(i));
    let (q, j) = choose|q: Option<LayerId>, j: int| #[trigger]
        now.sits_at(id, q, j) && w == now.with_list(q, now.list(q).remove(j));
    assert(now.sits_at(id, p, i));
    one_seat(now, id, p, i, q, j);
    assert(spot(then, p, i));
    assert(then.list(p) == now.list(p));
    assert forall|x: LayerId| #[trigger] shown(after, keep, x) == shown(fin, keep, x) by {
        assert(shown(then, keep, x) == shown(now, keep, x));
        if let Some(g) = p {
            assert(visible(then, g));
        }
        if ids.contains(x) {
            assert(visible(then, x));
        }
    }
}

impl DeleteLayerCmd {
    /// Applying the command turned `then` into `after`, and the command holds what was
    /// taken out, and where it stood.
    pub open spec fn deleted(&self, then: DocView, after: DocView) -> bool {
        let place = Some((self.parent, self.index));
        &&& self.removed_ids@ == subtree(then, self.id)
        &&& self.prior_active == then.active
        &&& then.sits_at(self.id, self.parent, self.index as int)
        &&& after == DocView {
            active: active_outside(then, self.removed_ids@),
            removed: then.removed.union(self.removed_ids@.to_set()),
            ..vacated(then, place)
        }
    }
}

/// Undoing a deletion right away gives the document back as it was: the lists, the
/// taken-out layers, the active layer and every layer. None of the deleted layers may
/// have been taken out before.
pub proof fn deleting_is_undone(cmd: DeleteLayerCmd, then: DocView, after: DocView, fin: DocView)
    requires
        cmd.deleted(then, after),
        then.removed.disjoint(subtree(then, cmd.id).to_set()),
        cmd.undoes(after, fin),
    ensures
        fin == then,
{
    assert(cmd.removed_ids@.len() > 0);
    soft_removal_is_undone_by_restoring(
        then,
        cmd.id,
        cmd.parent,
        cmd.index as int,
        cmd.removed_ids@,
        after.active,
    );
}

impl Command for DeleteLayerCmd {
    open spec fn wf(&self) -> bool {
        self.removed_ids@.no_duplicates()
    }

    open spec fn name(&self) -> Seq<char> {
        "Delete layer"@
    }

    open spec fn adds(&self) -> nat {
        0
    }

    open spec fn refs(&self) -> Set<LayerId> {
        self.removed_ids@.to_set()
    }

    open spec fn reverts(&self, then: DocView, after: DocView) -> bool {
        &&& removed_from(
            then,
            after,
            self.id,
            self.removed_ids@,
            self.parent,
            self.index as int,
        )
        &&& neat(then)
        &&& self.prior_active == then.active
    }

    open spec fn spares(&self, v: DocView, keep: Set<LayerId>) -> bool {
        are_scraps(v, self.removed_ids@.to_set(), keep)
    }

    open spec fn learns(&self) -> bool {
        false
    }

    open spec fn cleans(&self, v: DocView, w: DocView) -> bool {
        all_scrapped(v, self.removed_ids@, w)
    }

    open spec fn undoes(&self, now: DocView, fin: DocView) -> bool {
        fin == (if self.removed_ids@.len() == 0 {
            now
        } else {
            DocView {
                active: self.prior_active,
                ..restored(
                    now,
                    self.parent,
                    self.index as int,
                    self.id,
                    self.removed_ids@,
                )
            }
        })
    }

    open spec fn does(&self, then: DocView, r: Result<(), OgreError>, after: DocView) -> bool {
        &&& r is Err ==> after == then
        &&& match delete_error(then, self.id) {
            Some(e) => r == Err::<(), OgreError>(e),
            None => {
                &&& r is Ok
                &&& taken_out(then, self.id, after)
                &&& after.active == active_outside(then, subtree(then, self.id))
            },
        }
    }

    open spec fn steady(&self, then: DocView) -> bool {
        neat(then) && then.layers.dom().finite()
    }

    fn label(&self) -> (r: &'static str) {
        "Delete layer"
    }

    fn apply(&mut self, doc: &mut Document) -> (r: Result<(), OgreError>)
        ensures
            final(self).id == old(self).id,
            r is Ok ==> final(self).deleted(old(doc)@, final(doc)@),
    {
        proof {
            doc.lemma_ids();
            assert forall|then: DocView, after: DocView, keep: Set<LayerId>|
                #![trigger self.does(then, Ok(()), after), same_picture(then, doc@, keep)]
                self.steady(then) && self.does(then, Ok(()), after) && same_picture(
                    then,
                    doc@,
                    keep,
                ) implies delete_error(doc@, self.id) is None by {
                deletable_alike(then, doc@, self.id, keep);
            }
        }
        let prior: Option<LayerId> = doc.active_layer();
        let (parent, index): (Option<LayerId>, usize) = match doc.sibling_index(self.id) {
            Some(p) => p,
            None => {
                return Err(OgreError::LayerNotFound(self.id));
            },
        };
        let ids: Vec<LayerId> = match doc.remove_soft_at(self.id, Some((parent, index))) {
            Ok(ids) => ids,
            Err(e) => {
                return Err(e);
            },
        };
        self.prior_active = prior;
        self.parent = parent;
        self.index = index;
        self.removed_ids = ids;
        proof {
            let v = old(doc)@;
            assert(taken_out(v, self.id, doc@));
            lemma_walk_facts(v, self.id, Set::empty());
            assert(self.removed_ids@.no_duplicates()) by {
                let below = walk(v, self.id, Set::empty())->Ok_0.0;
                assert(self.removed_ids@ == below.push(self.id));
                assert forall|i: int| 0 <= i < below.len() implies below[i] != self.id by {
                    assert(below.contains(below[i]));
                }
            }
            old(doc).lemma_ids();
            if tidy(v) {
                soft_removal_takes_out(v, doc@, self.id, parent, index as int);
                if let Some(p) = parent {
                    assert(v.is_parent(p, self.id));
                }
                assert forall|x: LayerId| #[trigger] self.refs().contains(x) implies doc@.has(
                    x,
                ) by {
                    assert(self.removed_ids@.contains(x));
                    assert(visible(v, x));
                }
            }
            assert forall|then: DocView, after: DocView, keep: Set<LayerId>|
                #![trigger old(self).does(then, Ok(()), after), same_picture(then, v, keep)]
                old(self).steady(then) && old(self).does(then, Ok(()), after) && same_picture(
                    then,
                    v,
                    keep,
                ) implies same_picture(after, doc@, keep) by {
                deleted_alike(self.id, then, after, v, doc@, keep);
            }
        }
        Ok(())
    }

    fn undo(&mut self, doc: &mut Document)
        ensures
            *final(self) == *old(self),
    {
        if self.removed_ids.len() > 0 {
            doc.restore_layer_soft(self.parent, self.index, self.id, &self.removed_ids);
            doc.set_active(self.prior_active);
        }
        proof {
            assert(owned(old(doc)@) ==> owned(doc@)) by {
                if self.removed_ids@.len() > 0 {
                    lemma_restoring_keeps_owned(
                        old(doc)@,
                        self.parent,
                        self.index as int,
                        self.id,
                        self.removed_ids@,
                    );
                }
            }
            assert forall|then: DocView, after: DocView, keep: Set<LayerId>|
                #![trigger old(self).reverts(then, after), same_picture(then, doc@, keep)]
                old(self).reverts(then, after) && keep.subset_of(then.layers.dom()) && same_picture(
                    after,
                    old(doc)@,
                    keep.union(old(self).refs()),
                ) implies same_picture(then, doc@, keep) by {
                assert(self.removed_ids@.contains(self.id));
                removal_taken_back(
                    then,
                    after,
                    old(doc)@,
                    self.id,
                    self.removed_ids@,
                    self.parent,
                    self.index as int,
                    keep,
                );
            }
        }
    }

    fn cleanup(&self, doc: &mut Document) {
        drop_scraps(doc, &self.removed_ids);
    }

    fn referenced_layers(&self) -> (r: Vec<LayerId>)
        ensures
            r@ == self.removed_ids@,
    {
        copy_ids(&self.removed_ids)
    }
}

/// Restoring layers leaves only layers that exist taken out.
pub proof fn lemma_restoring_keeps_owned(
    v: DocView,
    parent: Option<LayerId>,
    index: int,
    id: LayerId,
    ids: Seq<LayerId>,
)
    ensures
        owned(v) ==> owned(restored(v, parent, index, id, ids)),
{
}

/// Move a layer to a new index within its current sibling list.
pub struct ReorderCmd {
    /// The layer.
    pub id: LayerId,
    /// Where it is to be.
    pub new_index: usize,
    /// Where it was, once the command was applied.
    pub old_index: Option<usize>,
    /// Where it went, once the command was applied.
    pub applied_index: Option<usize>,
}

impl ReorderCmd {
    /// Create a reorder command.
    pub fn new(id: LayerId, new_index: usize) -> (r: Self)
        ensures
            r == (ReorderCmd { id, new_index, old_index: None, applied_index: None }),
    {
        ReorderCmd { id, new_index, old_index: None, applied_index: None }
    }
}

/// A list with the entry at `from` moved to `to`.
pub open spec fn shifted_list(l: Seq<LayerId>, from: int, to: int) -> Seq<LayerId> {
    l.remove(from).insert(to, l[from])
}

proof fn lemma_shift_back(l: Seq<LayerId>, from: int, to: int)
    requires
        0 <= from < l.len(),
        0 <= to < l.len(),
    ensures
        shifted_list(shifted_list(l, from, to), to, from) == l,
        forall|k: int|
            0 <= k < l.len() ==> exists|j: int|
                0 <= j < l.len() && l[j] == #[trigger] shifted_list(l, from, to)[k],
{
    assert(shifted_list(shifted_list(l, from, to), to, from) =~= l);
    assert forall|k: int| 0 <= k < l.len() implies exists|j: int|
        0 <= j < l.len() && l[j] == #[trigger] shifted_list(l, from, to)[k] by {
        let j = source_index(from, to, k);
        assert(l[j] == shifted_list(l, from, to)[k]);
    }
}

/// Where the entry at `k` of a shifted list was before.
spec fn source_index(from: int, to: int, k: int) -> int {
    if k == to {
        from
    } else {
        let m = if k < to { k } else { k - 1 };
        if m < from { m } else { m + 1 }
    }
}

/// Moving a layer within its list keeps a tidy tree tidy.
pub proof fn moving_keeps_tidy(
    v: DocView,
    id: LayerId,
    parent: Option<LayerId>,
    from: int,
    to: int,
)
    requires
        tidy(v),
        v.sits_at(id, parent, from),
        0 <= to < v.list(parent).len(),
    ensures
        tidy(moved_in_list(v, id, parent, from, to)),
        moved_in_list(v, id, parent, from, to).sits_at(id, parent, to),
{
    let w = moved_in_list(v, id, parent, from, to);
    let l = v.list(parent);
    if let Some(p) = parent {
        assert(v.is_parent(p, id));
    }
    assert(w.list(parent) == shifted_list(l, from, to));
    assert forall|q: Option<LayerId>, j: int| #[trigger] spot(w, q, j) implies {
        let k = if q == parent { source_index(from, to, j) } else { j };
        spot(v, q, k) && w.list(q)[j] == v.list(q)[k]
    } by {}
    assert forall|q: Option<LayerId>, j: int| #[trigger] spot(w, q, j) implies visible(
        w,
        w.list(q)[j],
    ) by {
        let k = if q == parent { source_index(from, to, j) } else { j };
        assert(spot(v, q, k));
        assert(visible(v, v.list(q)[k]));
    }
    assert forall|p: Option<LayerId>, a: int, q: Option<LayerId>, b: int|
        (p != q || a != b) && #[trigger] spot(w, p, a) && #[trigger] spot(w, q, b) implies w.list(
        p,
    )[a] != w.list(q)[b] by {
        let s = if p == parent { source_index(from, to, a) } else { a };
        let t = if q == parent { source_index(from, to, b) } else { b };
        assert(spot(v, p, s) && spot(v, q, t));
    }
    assert(neat(w));
    assert(spot(w, parent, to));
    assert forall|j: int| 0 <= j < to implies w.list(parent)[j] != id by {
        assert(spot(w, parent, j));
    }
    match parent {
        Some(p) => {
            assert(w.kids(p)[to] == id);
            assert(w.is_parent(p, id));
        },
        None => {
            assert forall|q: LayerId| !(#[trigger] w.is_parent(q, id)) by {
                if w.is_parent(q, id) {
                    let j = choose|j: int| 0 <= j < w.kids(q).len() && w.kids(q)[j] == id;
                    assert(spot(w, Some(q), j));
                }
            }
        },
    }
}

/// `after` is `then` with `id` moved within its list from `from`.
pub open spec fn moved_from(then: DocView, after: DocView, id: LayerId, from: int) -> bool {
    &&& tidy(then)
    &&& exists|parent: Option<LayerId>, to: int| #[trigger]
        after.sits_at(id, parent, to) && then.sits_at(id, parent, from) && 0 <= to < then.list(
            parent,
        ).len() && after == moved_in_list(then, id, parent, from, to)
}

/// Reordering does the same in two states that show the same picture.
proof fn reordered_alike(
    cmd: ReorderCmd,
    then: DocView,
    after: DocView,
    now: DocView,
    r: Result<(), OgreError>,
    fin: DocView,
    keep: Set<LayerId>,
)
    requires
        cmd.does(then, Ok(()), after),
        cmd.does(now, r, fin),
        same_picture(then, now, keep),
        neat(then),
    ensures
        r is Ok,
        same_picture(after, fin, keep),
{
    pictures_share_the_tree(then, now, keep);
    let (p, i) = choose|p: Option<LayerId>, i: int| #[trigger]
        then.sits_at(cmd.id, p, i) && after == moved_in_list(
            then,
            cmd.id,
            p,
            i,
            last_or(cmd.new_index as int, then.list(p).len() as int),
        );
    assert(then.sits_at(cmd.id, p, i));
    assert(now.sits_at(cmd.id, p, i));
    placed_layers_sit_somewhere(now, cmd.id);
    let (q, j) = choose|q: Option<LayerId>, j: int| #[trigger]
        now.sits_at(cmd.id, q, j) && fin == moved_in_list(
            now,
            cmd.id,
            q,
            j,
            last_or(cmd.new_index as int, now.list(q).len() as int),
        );
    one_seat(now, cmd.id, p, i, q, j);
    assert(spot(then, p, i));
    assert(then.list(p) == now.list(p));
    assert forall|x: LayerId| #[trigger] shown(after, keep, x) == shown(fin, keep, x) by {
        assert(shown(then, keep, x) == shown(now, keep, x));
        if let Some(g) = p {
            assert(visible(then, g));
        }
    }
}

impl Command for ReorderCmd {
    open spec fn wf(&self) -> bool {
        true
    }

    open spec fn name(&self) -> Seq<char> {
        "Reorder layer"@
    }

    open spec fn adds(&self) -> nat {
        0
    }

    open spec fn refs(&self) -> Set<LayerId> {
        Set::empty().insert(self.id)
    }

    open spec fn reverts(&self, then: DocView, after: DocView) -> bool {
        self.old_index matches Some(from) && moved_from(then, after, self.id, from as int)
    }

    open spec fn learns(&self) -> bool {
        false
    }

    open spec fn undoes(&self, now: DocView, fin: DocView) -> bool {
        if self.old_index is Some && now.placed(self.id) {
            exists|parent: Option<LayerId>, i: int| #[trigger]
                now.sits_at(self.id, parent, i) && fin == moved_in_list(
                    now,
                    self.id,
                    parent,
                    i,
                    last_or(
                        self.old_index->0 as int,
                        now.list(parent).len() as int,
                    ),
                )
        } else {
            fin == now
        }
    }

    open spec fn does(&self, then: DocView, r: Result<(), OgreError>, after: DocView) -> bool {
        &&& r is Err ==> after == then
        &&& if then.placed(self.id) {
            &&& r is Ok
            &&& exists|parent: Option<LayerId>, i: int| #[trigger]
                then.sits_at(self.id, parent, i) && after == moved_in_list(
                    then,
                    self.id,
                    parent,
                    i,
                    last_or(self.new_index as int, then.list(parent).len() as int),
                )
        } else {
            r == Err::<(), OgreError>(OgreError::LayerNotFound(self.id))
        }
    }

    open spec fn steady(&self, then: DocView) -> bool {
        neat(then)
    }

    fn label(&self) -> (r: &'static str) {
        "Reorder layer"
    }

    fn apply(&mut self, doc: &mut Document) -> (r: Result<(), OgreError>) {
        proof {
            placed_layers_sit_somewhere(doc@, self.id);
            assert forall|then: DocView, after: DocView, keep: Set<LayerId>|
                #![trigger self.does(then, Ok(()), after), same_picture(then, doc@, keep)]
                self.steady(then) && self.does(then, Ok(()), after) && same_picture(
                    then,
                    doc@,
                    keep,
                ) implies doc@.placed(self.id) by {
                pictures_share_the_tree(then, doc@, keep);
                placed_layers_sit_somewhere(then, self.id);
                let (p, i) = choose|p: Option<LayerId>, i: int| #[trigger]
                    then.sits_at(self.id, p, i);
                assert(doc@.sits_at(self.id, p, i));
            }
        }
        let current: usize = match doc.sibling_index(self.id) {
            Some((_, i)) => i,
            None => {
                return Err(OgreError::LayerNotFound(self.id));
            },
        };
        let ghost v = doc@;
        if let Err(e) = doc.reorder(self.id, self.new_index) {
            return Err(e);
        }
        let applied: Option<usize> = match doc.sibling_index(self.id) {
            Some((_, i)) => Some(i),
            None => None,
        };
        self.old_index = Some(current);
        self.applied_index = applied;
        proof {
            let (parent, i) = choose|parent: Option<LayerId>, i: int| #[trigger]
                v.sits_at(self.id, parent, i) && doc@ == moved_in_list(
                    v,
                    self.id,
                    parent,
                    i,
                    last_or(self.new_index as int, v.list(parent).len() as int),
                );
            let to = last_or(self.new_index as int, v.list(parent).len() as int);
            assert(v.sits_at(old(self).id, parent, i));
            if tidy(v) {
                let (p, j) = choose|p: Option<LayerId>, j: int|
                    j == current && #[trigger] v.sits_at(self.id, p, j);
                one_seat(v, self.id, parent, i, p, j);
                moving_keeps_tidy(v, self.id, parent, i, to);
            }
            assert forall|then: DocView, after: DocView, keep: Set<LayerId>|
                #![trigger old(self).does(then, Ok(()), after), same_picture(then, v, keep)]
                old(self).steady(then) && old(self).does(then, Ok(()), after) && same_picture(
                    then,
                    v,
                    keep,
                ) implies same_picture(after, doc@, keep) by {
                reordered_alike(*old(self), then, after, v, Ok(()), doc@, keep);
            }
        }
        Ok(())
    }

    fn undo(&mut self, doc: &mut Document)
        ensures
            *final(self) == *old(self),
    {
        if let Some(index) = self.old_index {
            let done = doc.reorder(self.id, index);
        }
        proof {
            let now = old(doc)@;
            assert forall|then: DocView, after: DocView, keep: Set<LayerId>|
                #![trigger old(self).reverts(then, after), same_picture(then, doc@, keep)]
                old(self).reverts(then, after) && keep.subset_of(then.layers.dom()) && same_picture(
                    after,
                    now,
                    keep.union(old(self).refs()),
                ) implies same_picture(then, doc@, keep) by {
                let more = keep.union(old(self).refs());
                let from = self.old_index->0 as int;
                let (parent, to) = choose|parent: Option<LayerId>, to: int| #[trigger]
                    after.sits_at(self.id, parent, to) && then.sits_at(self.id, parent, from) && 0
                        <= to < then.list(parent).len() && after == moved_in_list(
                        then,
                        self.id,
                        parent,
                        from,
                        to,
                    );
                moving_keeps_tidy(then, self.id, parent, from, to);
                pictures_share_the_tree(after, now, more);
                placed_layers_sit_somewhere(now, self.id);
                assert(now.sits_at(self.id, parent, to));
                let (p, j) = choose|p: Option<LayerId>, j: int| #[trigger]
                    now.sits_at(self.id, p, j) && doc@ == moved_in_list(
                        now,
                        self.id,
                        p,
                        j,
                        last_or(from, now.list(p).len() as int),
                    );
                one_seat(now, self.id, parent, to, p, j);
                lemma_moved_back(then, after, now, doc@, self.id, parent, from, to, keep, more);
            }
        }
    }

    fn cleanup(&self, doc: &mut Document) {
    }

    fn referenced_layers(&self) -> (r: Vec<LayerId>)
        ensures
            r@ == seq![self.id],
    {
        just(self.id)
    }
}

proof fn lemma_moved_back(
    then: DocView,
    after: DocView,
    now: DocView,
    fin: DocView,
    id: LayerId,
    parent: Option<LayerId>,
    from: int,
    to: int,
    keep: Set<LayerId>,
    more: Set<LayerId>,
)
    requires
        then.sits_at(id, parent, from),
        after.sits_at(id, parent, to),
        now.sits_at(id, parent, to),
        0 <= to < then.list(parent).len(),
        after == moved_in_list(then, id, parent, from, to),
        same_picture(after, now, more),
        keep.subset_of(more),
        fin == moved_in_list(now, id, parent, to, last_or(from, now.list(parent).len() as int)),
    ensures
        same_picture(then, fin, keep),
{
    let l = then.list(parent);
    lemma_shift_back(l, from, to);
    pictures_share_the_tree(after, now, more);
    if let Some(p) = parent {
        assert(then.is_parent(p, id));
        assert(after.is_parent(p, id));
        assert(visible(after, p));
    }
    assert(after.list(parent) == shifted_list(l, from, to));
    assert(now.list(parent) == after.list(parent));
    assert(fin.list(parent) == l);
    assert forall|x: LayerId| #[trigger] shown(then, keep, x) == shown(fin, keep, x) by {
        assert(shown(after, more, x) == shown(now, more, x));
    }
}

/// Merge a layer down into the raster layer below it.
///
/// The command keeps the lower layer as it was and takes the upper one out of the
/// tree, so undo restores both. Fails if there is no layer below, either layer is
/// not raster or is locked, or the lower layer's blend is not normal.
pub struct MergeDownCmd<K> {
    /// The pixel arithmetic.
    pub kern: K,
    /// The layer that is merged.
    pub upper: LayerId,
    /// The layer below, once the command was applied.
    pub lower: Option<LayerId>,
    /// The layer below as it was, once the command was applied.
    pub old_lower: Option<Layer>,
    /// The parent of both, once the command was applied.
    pub upper_parent: Option<LayerId>,
    /// The position of the upper layer, once the command was applied.
    pub upper_index: usize,
    /// The layers that were taken out.
    pub removed_ids: Vec<LayerId>,
    /// The active layer that was, once the command was applied.
    pub prior_active: Option<LayerId>,
}

impl<K: Kernel> MergeDownCmd<K> {
    /// Create a merge-down command for `upper` (merged into the layer below).
    pub fn new(kern: K, upper: LayerId) -> (r: Self)
        ensures
            r.kern == kern,
            r.upper == upper,
            r.lower is None,
            r.old_lower is None,
            r.upper_parent is None,
            r.removed_ids@.len() == 0,
            r.prior_active is None,
    {
        MergeDownCmd {
            kern,
            upper,
            lower: None,
            old_lower: None,
            upper_parent: None,
            upper_index: 0,
            removed_ids: Vec::new(),
            prior_active: None,
        }
    }
}

/// `z` is the document with `upper` merged into `lower` and taken out of the tree.
pub open spec fn merged_softly<K: Kernel>(
    kern: &K,
    v: DocView,
    upper: LayerId,
    lower: LayerId,
    b: Map<(i32, i32), Seq<Rgba32F>>,
    z: DocView,
) -> bool {
    &&& is_merge(kern, v.layers[lower], v.layers[upper], b)
    &&& taken_out(v.with_layer(lower, merged_layer(v, lower, b)), upper, z)
    &&& z.active == active_outside(v, seq![upper])
}

/// Merging layer `upper` down in state `then` has the result `r` and leaves `after`.
pub open spec fn merges<K: Kernel>(
    kern: &K,
    upper: LayerId,
    then: DocView,
    r: Result<(), OgreError>,
    after: DocView,
) -> bool {
    &&& r is Err ==> after == then
    &&& match upper_error(then, upper) {
        Some(e) => r == Err::<(), OgreError>(e),
        None => exists|parent: Option<LayerId>, i: int| #[trigger]
            then.sits_at(upper, parent, i) && match below_error(
                then,
                upper,
                parent,
                i,
            ) {
                Some(e) => r == Err::<(), OgreError>(e),
                None => r is Ok && exists|b: Map<(i32, i32), Seq<Rgba32F>>| #[trigger]
                    merged_softly(
                        kern,
                        then,
                        upper,
                        then.list(parent)[i - 1],
                        b,
                        after,
                    ),
            },
    }
}

impl<K: Kernel + Send> Command for MergeDownCmd<K> {
    open spec fn wf(&self) -> bool {
        &&& self.kern.wf()
        &&& self.lower != Some(self.upper)
        &&& self.old_lower matches Some(l) ==> l.wf() && self.lower == Some(l@.id)
    }

    open spec fn name(&self) -> Seq<char> {
        "Merge Down"@
    }

    open spec fn adds(&self) -> nat {
        0
    }

    open spec fn refs(&self) -> Set<LayerId> {
        with_maybe_set(self.upper, self.lower)
    }

    open spec fn reverts(&self, then: DocView, after: DocView) -> bool {
        &&& self.lower matches Some(lower)
        &&& self.old_lower matches Some(l)
        &&& after.has(lower)
        &&& lower != self.upper
        &&& self.prior_active == then.active
        &&& self.removed_ids@ == seq![self.upper]
        &&& neat(then)
        &&& removed_from(
            then,
            after.with_layer(lower, l@),
            self.upper,
            self.removed_ids@,
            self.upper_parent,
            self.upper_index as int,
        )
    }

    open spec fn learns(&self) -> bool {
        false
    }

    open spec fn undoes(&self, now: DocView, fin: DocView) -> bool {
        fin == (DocView {
            active: self.prior_active,
            ..(match (self.lower, self.old_lower) {
                (Some(lower), Some(l)) => restored(
                    (if now.has(lower) {
                        now.with_layer(lower, l@)
                    } else {
                        now
                    }),
                    self.upper_parent,
                    self.upper_index as int,
                    self.upper,
                    self.removed_ids@,
                ),
                _ => now,
            })
        })
    }

    open spec fn does(&self, then: DocView, r: Result<(), OgreError>, after: DocView) -> bool {
        merges(&self.kern, self.upper, then, r, after)
    }

    fn label(&self) -> (r: &'static str) {
        "Merge Down"
    }

    fn apply(&mut self, doc: &mut Document) -> (r: Result<(), OgreError>) {
        let ghost v = doc@;
        let upper: LayerId = self.upper;
        match doc.layer(upper) {
            Ok(l) => {
                if !l.is_raster() {
                    return Err(OgreError::NotRaster);
                }
                if l.locked {
                    return Err(OgreError::LayerLocked(upper));
                }
            },
            Err(e) => {
                return Err(e);
            },
        }
        let (parent, index): (Option<LayerId>, usize) = match doc.sibling_index(upper) {
            Some(p) => p,
            None => {
                return Err(OgreError::LayerNotFound(upper));
            },
        };
        assert(v.sits_at(upper, parent, index as int));
        if index == 0 {
            return Err(OgreError::InvalidOperation("no layer below the target"));
        }
        let lower: LayerId = doc.sibling_at(parent, index - 1);
        let (old_lower, mut layer): (Layer, Layer) = match (doc.layer(lower), doc.layer(upper)) {
            (Ok(lo), Ok(up)) => match merge_raster_layers(&self.kern, lo, up) {
                Ok(merged) => {
                    let mut layer: Layer = Layer::new_raster(lo.name.as_str());
                    layer.id = lower;
                    proof {
                        assert(is_merge(&self.kern, lo@, up@, merged@)) by {
                            assert forall|q: IVec2| #[trigger] pixel_at(merged@, q) == (
                            if merged_tiles(lo@, up@).contains(key(tile_of(q))) {
                                merged_px(&self.kern, lo@, up@, q)
                            } else {
                                clear_px()
                            }) by {
                                assert(merged.at(q) == pixel_at(merged@, q));
                            }
                        }
                    }
                    layer.content = LayerContent::Raster { buffer: merged, mask: None };
                    (lo.clone(), layer)
                },
                Err(e) => {
                    return Err(e);
                },
            },
            (Err(e), _) => {
                return Err(e);
            },
            (_, Err(e)) => {
                return Err(e);
            },
        };
        let ghost b = layer@.content->Raster_buffer;
        assert(layer@ == merged_layer(v, lower, b));
        let prior: Option<LayerId> = doc.active_layer();
        match doc.layer_mut(lower) {
            Ok(l) => {
                *l = layer;
            },
            Err(_) => {},
        }
        let ghost u = doc@;
        proof {
            old(doc).lemma_ids();
            assert(u == v.with_layer(lower, merged_layer(v, lower, b)));
            assert(lower != upper);
            doc.lemma_ids();
            lemma_walk_leaf(u, upper);
        }
        let ids: Vec<LayerId> = match doc.remove_layer_soft(upper) {
            Ok(ids) => ids,
            Err(_) => Vec::new(),
        };
        self.lower = Some(lower);
        self.old_lower = Some(old_lower);
        self.upper_parent = parent;
        self.upper_index = index;
        self.removed_ids = ids;
        self.prior_active = prior;
        proof {
            assert(taken_out(u, upper, doc@));
            assert(merged_softly(&old(self).kern, v, upper, lower, b, doc@));
            assert(v.sits_at(old(self).upper, parent, index as int));
            if tidy(v) {
                lemma_merge_taken_apart(v, u, doc@, upper, lower, parent, index as int);
                if let Some(p) = parent {
                    assert(v.is_parent(p, upper));
                }
                let mid = doc@.with_layer(lower, v.layers[lower]);
                assert forall|x: LayerId| #[trigger] v.has(x) implies doc@.has(x) by {
                    assert(mid.has(x));
                }
            }
        }
        Ok(())
    }

    fn undo(&mut self, doc: &mut Document) {
        let ghost mut mid = doc@;
        if let Some(lower) = self.lower {
            if let Some(l) = &self.old_lower {
                if let Ok(slot) = doc.layer_mut(lower) {
                    *slot = l.clone();
                }
                proof {
                    mid = doc@;
                }
                doc.restore_layer_soft(
                    self.upper_parent,
                    self.upper_index,
                    self.upper,
                    &self.removed_ids,
                );
            }
        }
        doc.set_active(self.prior_active);
        proof {
            assert(owned(old(doc)@) ==> owned(doc@)) by {
                assert(owned(old(doc)@) ==> owned(mid));
                lemma_restoring_keeps_owned(
                    mid,
                    self.upper_parent,
                    self.upper_index as int,
                    self.upper,
                    self.removed_ids@,
                );
            }
            assert forall|then: DocView, after: DocView, keep: Set<LayerId>|
                #![trigger old(self).reverts(then, after), same_picture(then, doc@, keep)]
                old(self).reverts(then, after) && keep.subset_of(then.layers.dom()) && same_picture(
                    after,
                    old(doc)@,
                    keep.union(old(self).refs()),
                ) implies same_picture(then, doc@, keep) by {
                let lower = self.lower->0;
                let was = after.with_layer(lower, self.old_lower->0@);
                let ids = self.removed_ids@;
                assert(ids.to_set() =~= Set::empty().insert(self.upper)) by {
                    assert(ids[0] == self.upper);
                }
                assert(keep.union(old(self).refs()) =~= keep.union(ids.to_set()).insert(lower));
                assert(after.layers =~= was.layers.insert(lower, after.layers[lower]));
                one_layer_put_back(
                    was,
                    after,
                    old(doc)@,
                    lower,
                    keep.union(ids.to_set()),
                );
                removal_taken_back(
                    then,
                    was,
                    mid,
                    self.upper,
                    ids,
                    self.upper_parent,
                    self.upper_index as int,
                    keep,
                );
            }
        }
    }

    fn cleanup(&self, doc: &mut Document) {
    }

    fn referenced_layers(&self) -> (r: Vec<LayerId>)
        ensures
            r@ == with_maybe_seq(self.upper, self.lower),
    {
        with_maybe(self.upper, self.lower)
    }
}

/// A merge in a tidy tree: with the lower layer put back, the upper one was taken
/// out.
proof fn lemma_merge_taken_apart(
    v: DocView,
    u: DocView,
    z: DocView,
    upper: LayerId,
    lower: LayerId,
    parent: Option<LayerId>,
    i: int,
)
    requires
        tidy(v),
        v.layers.dom().finite(),
        u.layers.dom().finite(),
        v.has(lower),
        v.is_raster(upper),
        v.layers[lower].content is Raster,
        u.layers[lower].content is Raster,
        u == v.with_layer(lower, u.layers[lower]),
        lower != upper,
        v.sits_at(upper, parent, i),
        subtree(u, upper) == seq![upper],
        subtree_error(u, upper) is None,
        taken_out(u, upper, z),
    ensures
        removed_from(v, z.with_layer(lower, v.layers[lower]), upper, seq![upper], parent, i),
        tidy(z),
        z.has(lower),
{
    one_layer_keeps_tidy(v, u, lower);
    assert(u.sits_at(upper, parent, i)) by {
        match parent {
            Some(p) => {
                assert(v.is_parent(p, upper));
            },
            None => {
                assert forall|p: LayerId| !(#[trigger] u.is_parent(p, upper)) by {
                    assert(!v.is_parent(p, upper));
                }
            },
        }
    }
    soft_removal_takes_out(u, z, upper, parent, i);
    let back = z.with_layer(lower, v.layers[lower]);
    let w = v.with_list(parent, v.list(parent).remove(i));
    if let Some(p) = parent {
        assert(v.is_parent(p, upper));
        assert(p != lower);
    }
    assert(back.layers =~= w.layers);
    assert forall|x: LayerId| #[trigger] seq![upper].contains(x) implies visible(v, x) && parent
        != Some(x) by {
        assert(x == upper);
        if parent == Some(x) {
            assert(v.is_parent(x, upper));
        }
    }
    assert(seq![upper][0] == upper);
}

} // verus!
