//! Undo/redo history and the [`Command`] trait.
//!
//! All document mutations go through a [`Command`] that is pushed onto a
//! [`History`] stack.
use vstd::prelude::*;

use crate::arena::IdSet;
use crate::document::{DocView, Document};
use crate::error::OgreError;
use crate::layer::LayerId;
use crate::picture::{
    left_alone, owned, pictures_agree_with_themselves, pictures_chain, pictures_shrink,
    same_picture, shown, sustains, tidy,
};
use crate::selection::Selection;

verus! {

/// A single reversible document edit.
///
/// Commands are the only supported mutation path for a [`Document`]. Each command
/// applies its effect, captures enough information to undo it, and restores the
/// prior state when [`Command::undo`] is called.
///
/// Where a command does not say otherwise, it holds nothing, has no name and changes
/// nothing.
pub trait Command: Send {
    /// What the command holds is well formed.
    open spec fn wf(&self) -> bool {
        true
    }

    /// The label, as characters.
    open spec fn name(&self) -> Seq<char> {
        Seq::empty()
    }

    /// How many layers applying the command may add.
    open spec fn adds(&self) -> nat {
        0
    }

    /// The layers that undoing or redoing the command may need.
    open spec fn refs(&self) -> Set<LayerId> {
        Set::empty()
    }

    /// The command turned `then` into `after` and can turn it back.
    open spec fn reverts(&self, then: DocView, after: DocView) -> bool {
        then == after
    }

    /// The command can be applied in state `v` so that it can be undone: what it
    /// left behind when it was undone before, if it was, is as it was left.
    open spec fn fits(&self, v: DocView) -> bool {
        true
    }

    /// Cleaning up after the command in state `v` touches none of the layers in
    /// `keep` and nothing in the tree.
    open spec fn spares(&self, v: DocView, keep: Set<LayerId>) -> bool {
        true
    }

    /// Undoing the command turns `now` into `fin`.
    open spec fn undoes(&self, now: DocView, fin: DocView) -> bool {
        true
    }

    /// Cleaning up after the command turns `v` into `w`.
    open spec fn cleans(&self, v: DocView, w: DocView) -> bool {
        w == v
    }

    /// Applying the command in state `then` may have the result `r` and leave the
    /// document in state `after`.
    open spec fn does(&self, then: DocView, r: Result<(), OgreError>, after: DocView) -> bool {
        true
    }

    /// Applying or undoing the command may change what it does when it is applied
    /// again.
    open spec fn learns(&self) -> bool {
        true
    }

    /// A failed attempt may change what the command does when it is applied again.
    open spec fn fickle(&self) -> bool {
        self.learns()
    }

    /// Applied in a state that shows the picture of `then`, the command makes of it the
    /// picture that it makes of `then`.
    open spec fn steady(&self, then: DocView) -> bool {
        false
    }

    /// Human-readable label shown in the undo/redo menu.
    fn label(&self) -> (r: &'static str)
        ensures
            r@ == self.name(),
    ;

    /// Apply the command's effect to `doc`.
    ///
    /// On success the command stores what it needs to be undone later, the layers that
    /// it needs exist, and no layer is lost. A command that fails leaves the document as
    /// it is, but for layers that were added and taken out again.
    fn apply(&mut self, doc: &mut Document) -> (r: Result<(), OgreError>)
        requires
            old(self).wf(),
            old(doc).wf(),
            old(doc).room(old(self).adds()),
        ensures
            final(self).wf(),
            final(doc).wf(),
            final(doc).used() <= old(doc).used() + old(self).adds(),
            final(self).adds() == old(self).adds(),
            final(self).name() == old(self).name(),
            old(self).does(old(doc)@, r, final(doc)@),
            forall|then: DocView, after: DocView, keep: Set<LayerId>|
                #![trigger old(self).does(then, Ok(()), after), same_picture(then, old(doc)@, keep)]
                old(self).steady(then) && old(self).does(then, Ok(()), after) && same_picture(
                    then,
                    old(doc)@,
                    keep,
                ) ==> r is Ok && same_picture(after, final(doc)@, keep),
            !old(self).learns() ==> !final(self).learns(),
            forall|v: DocView|
                !old(self).learns() ==> #[trigger] final(self).steady(v) == old(self).steady(v),
            forall|v: DocView, q: Result<(), OgreError>, w: DocView|
                !old(self).learns() ==> #[trigger] final(self).does(v, q, w) == old(self).does(
                    v,
                    q,
                    w,
                ),
            r is Err && !old(self).fickle() ==> final(self).learns() == old(self).learns(),
            forall|v: DocView|
                r is Err && !old(self).fickle() ==> #[trigger] final(self).steady(v) == old(
                    self,
                ).steady(v),
            forall|v: DocView, q: Result<(), OgreError>, w: DocView|
                r is Err && !old(self).fickle() ==> #[trigger] final(self).does(v, q, w) == old(
                    self,
                ).does(v, q, w),
            tidy(old(doc)@) && old(self).fits(old(doc)@) ==> tidy(final(doc)@) && match r {
                Ok(_) => final(self).reverts(old(doc)@, final(doc)@) && sustains(
                    final(self).refs(),
                    old(doc)@,
                    final(doc)@,
                ),
                Err(_) => left_alone(old(doc)@, final(doc)@),
            },
    ;

    /// Undo the command's effect, restoring `doc` to the state before
    /// [`Command::apply`] was called.
    ///
    /// In a state that shows the same picture as the one that the command left
    /// behind, this gives the picture of the state before, with every taken-out
    /// layer that is to be kept.
    fn undo(&mut self, doc: &mut Document)
        requires
            old(self).wf(),
            old(doc).wf(),
        ensures
            final(self).wf(),
            final(doc).wf(),
            final(doc).used() <= old(doc).used(),
            final(self).adds() == old(self).adds(),
            final(self).name() == old(self).name(),
            old(self).undoes(old(doc)@, final(doc)@),
            !old(self).learns() ==> !final(self).learns(),
            forall|v: DocView|
                !old(self).learns() ==> #[trigger] final(self).steady(v) == old(self).steady(v),
            forall|v: DocView, q: Result<(), OgreError>, w: DocView|
                !old(self).learns() ==> #[trigger] final(self).does(v, q, w) == old(self).does(
                    v,
                    q,
                    w,
                ),
            owned(old(doc)@) ==> owned(final(doc)@),
            forall|then: DocView, after: DocView, keep: Set<LayerId>|
                #![trigger old(self).reverts(then, after), same_picture(then, final(doc)@, keep)]
                old(self).reverts(then, after) && keep.subset_of(then.layers.dom()) && same_picture(
                    after,
                    old(doc)@,
                    keep.union(old(self).refs()),
                ) ==> same_picture(then, final(doc)@, keep),
    ;

    /// Clean up any transient state before the command is dropped from history.
    ///
    /// This is called when a command is evicted from the undo stack due to the
    /// depth limit, or when the history is cleared. A command that leaves nothing behind
    /// does nothing here.
    fn cleanup(&self, doc: &mut Document)
        requires
            self.wf(),
            old(doc).wf(),
        ensures
            final(doc).wf(),
            final(doc).used() <= old(doc).used(),
            self.cleans(old(doc)@, final(doc)@),
            owned(old(doc)@) ==> owned(final(doc)@),
            forall|keep: Set<LayerId>|
                #![trigger same_picture(old(doc)@, final(doc)@, keep)]
                self.spares(old(doc)@, keep) ==> same_picture(old(doc)@, final(doc)@, keep),
    ;

    /// Try to absorb a new opacity change for `layer` into this command.
    ///
    /// Used while dragging an opacity slider so that a single drag produces
    /// exactly one history entry: what could be undone before can still be undone
    /// to the same state.
    fn coalesce_opacity(&mut self, doc: &mut Document, layer: LayerId, opacity: u32) -> (r: bool)
        requires
            old(self).wf(),
            old(doc).wf(),
        ensures
            final(self).wf(),
            final(doc).wf(),
            !r ==> final(doc)@ == old(doc)@,
            final(self).refs() == old(self).refs(),
            forall|x: LayerId| #[trigger] old(doc)@.has(x) ==> final(doc)@.has(x),
            forall|then: DocView| #[trigger]
                old(self).reverts(then, old(doc)@) ==> final(self).reverts(then, final(doc)@),
    {
        false
    }

    /// Coalesce a live selection update into this command instead of pushing a new
    /// history entry.
    fn coalesce_selection(&mut self, doc: &mut Document, selection: &Selection) -> (r: bool)
        requires
            old(self).wf(),
            old(doc).wf(),
            selection.wf(),
        ensures
            final(self).wf(),
            final(doc).wf(),
            !r ==> final(doc)@ == old(doc)@,
            final(self).refs() == old(self).refs(),
            forall|x: LayerId| #[trigger] old(doc)@.has(x) ==> final(doc)@.has(x),
            forall|then: DocView| #[trigger]
                old(self).reverts(then, old(doc)@) ==> final(self).reverts(then, final(doc)@),
    {
        false
    }

    /// The layer ids this command may need to access during undo or redo.
    ///
    /// This is used by [`History`] to avoid hard-removing a layer while a later
    /// command on the stack still references it.
    fn referenced_layers(&self) -> (r: Vec<LayerId>)
        requires
            self.wf(),
        ensures
            forall|id: LayerId| #[trigger] r@.contains(id) <==> self.refs().contains(id),
            r@.no_duplicates(),
    ;
}

/// Something that is held in a list.
pub struct Held<T> {
    /// What is held.
    pub cmd: T,
}

/// Hold something.
pub fn hold<T>(cmd: T) -> (r: Held<T>)
    ensures
        r.cmd == cmd,
{
    Held { cmd }
}

/// A command in a list of commands.
pub type Entry = Held<Box<dyn Command>>;

/// Two commands do the same.
pub open spec fn same_deed(a: Entry, b: Entry) -> bool {
    &&& a.cmd.learns() == b.cmd.learns()
    &&& forall|v: DocView| #[trigger] a.cmd.steady(v) == b.cmd.steady(v)
    &&& forall|v: DocView, r: Result<(), OgreError>, w: DocView| #[trigger]
        a.cmd.does(v, r, w) == b.cmd.does(v, r, w)
}

/// The layers that the first `n` commands may need.
pub open spec fn refs_before(cmds: Seq<Entry>, n: int) -> Set<LayerId>
    decreases n,
{
    if n <= 0 {
        Set::empty()
    } else {
        refs_before(cmds, n - 1).union(cmds[n - 1].cmd.refs())
    }
}

/// The same commands need the same layers.
pub proof fn lemma_refs_same(a: Seq<Entry>, b: Seq<Entry>, n: int)
    requires
        forall|j: int| 0 <= j < n ==> #[trigger] a[j] == b[j],
    ensures
        refs_before(a, n) == refs_before(b, n),
    decreases n,
{
    if n > 0 {
        lemma_refs_same(a, b, n - 1);
        assert(a[n - 1] == b[n - 1]);
    }
}

/// More commands need more layers.
pub proof fn lemma_refs(cmds: Seq<Entry>, m: int, n: int)
    requires
        0 <= m <= n,
    ensures
        refs_before(cmds, m).subset_of(refs_before(cmds, n)),
    decreases n,
{
    if m < n {
        lemma_refs(cmds, m, n - 1);
    }
}

/// The last of `n` commands may be left out, or the first: the others need no more
/// layers.
proof fn lemma_refs_tail(cmds: Seq<Entry>, n: int)
    requires
        0 < n <= cmds.len(),
    ensures
        refs_before(cmds.drop_first(), n - 1).subset_of(refs_before(cmds, n)),
    decreases n,
{
    if n > 1 {
        lemma_refs_tail(cmds, n - 1);
        assert(cmds.drop_first()[n - 2] == cmds[n - 1]);
    }
}

/// Every command is well formed.
pub open spec fn all_wf(cmds: Seq<Entry>) -> bool {
    forall|i: int| 0 <= i < cmds.len() ==> (#[trigger] cmds[i]).cmd.wf()
}

/// Command `i` turned `befores[i]` into `afters[i]`, and the next command started
/// from the same picture.
pub open spec fn recorded(
    cmds: Seq<Entry>,
    befores: Seq<DocView>,
    afters: Seq<DocView>,
    i: int,
) -> bool {
    &&& cmds[i].cmd.reverts(befores[i], afters[i])
    &&& sustains(cmds[i].cmd.refs(), befores[i], afters[i])
    &&& i + 1 < cmds.len() ==> same_picture(afters[i], befores[i + 1], refs_before(cmds, i + 1))
}

/// The commands led, one after the other, to a state that shows the picture of `v`:
/// each command turned a state before into one after.
pub open spec fn tracks(
    cmds: Seq<Entry>,
    befores: Seq<DocView>,
    afters: Seq<DocView>,
    v: DocView,
) -> bool {
    &&& befores.len() == cmds.len()
    &&& afters.len() == cmds.len()
    &&& forall|i: int| 0 <= i < cmds.len() ==> #[trigger] recorded(cmds, befores, afters, i)
    &&& cmds.len() > 0 ==> same_picture(
        afters.last(),
        v,
        refs_before(cmds, cmds.len() as int),
    )
}

/// The layers that earlier commands need exist where a command started.
proof fn lemma_needed_exist(
    cmds: Seq<Entry>,
    befores: Seq<DocView>,
    afters: Seq<DocView>,
    v: DocView,
    i: int,
)
    requires
        tracks(cmds, befores, afters, v),
        0 <= i < cmds.len(),
    ensures
        refs_before(cmds, i).subset_of(befores[i].layers.dom()),
    decreases i,
{
    if i > 0 {
        lemma_needed_exist(cmds, befores, afters, v, i - 1);
        assert(recorded(cmds, befores, afters, i - 1));
        let keep = refs_before(cmds, i);
        assert forall|x: LayerId| keep.contains(x) implies befores[i].layers.dom().contains(x) by {
            if refs_before(cmds, i - 1).contains(x) {
                assert(befores[i - 1].has(x));
                assert(afters[i - 1].has(x));
            } else {
                assert(cmds[i - 1].cmd.refs().contains(x));
            }
            assert(afters[i - 1].has(x));
            assert(shown(afters[i - 1], keep, x) == shown(befores[i], keep, x));
        }
    }
}

/// Taking the last command off a record leads back to where it started.
proof fn lemma_step_back(
    cmds: Seq<Entry>,
    befores: Seq<DocView>,
    afters: Seq<DocView>,
    v: DocView,
    w: DocView,
)
    requires
        cmds.len() > 0,
        tracks(cmds, befores, afters, v),
        same_picture(befores.last(), w, refs_before(cmds, cmds.len() - 1)),
    ensures
        tracks(cmds.drop_last(), befores.drop_last(), afters.drop_last(), w),
{
    let less = cmds.drop_last();
    let n = less.len() as int;
    lemma_refs_same(cmds, less, n);
    assert forall|i: int| 0 <= i < n implies #[trigger] recorded(
        less,
        befores.drop_last(),
        afters.drop_last(),
        i,
    ) by {
        assert(recorded(cmds, befores, afters, i));
        lemma_refs_same(cmds, less, i + 1);
    }
    if n > 0 {
        assert(recorded(cmds, befores, afters, n - 1));
        pictures_chain(afters[n - 1], befores[n], w, refs_before(cmds, n));
    }
}

/// One more command goes on a record.
proof fn lemma_step_on(
    cmds: Seq<Entry>,
    more: Seq<Entry>,
    befores: Seq<DocView>,
    afters: Seq<DocView>,
    then: DocView,
    after: DocView,
)
    requires
        tracks(cmds, befores, afters, then),
        more.len() == cmds.len() + 1,
        more.drop_last() == cmds,
        more.last().cmd.reverts(then, after),
        sustains(more.last().cmd.refs(), then, after),
    ensures
        tracks(more, befores.push(then), afters.push(after), after),
{
    let n = cmds.len() as int;
    lemma_refs_same(cmds, more, n);
    assert forall|i: int| 0 <= i < more.len() implies #[trigger] recorded(
        more,
        befores.push(then),
        afters.push(after),
        i,
    ) by {
        if i < n {
            assert(recorded(cmds, befores, afters, i));
            assert(more[i] == cmds[i]);
            lemma_refs_same(cmds, more, i + 1);
        }
    }
    pictures_agree_with_themselves(after, refs_before(more, n + 1));
}

/// The oldest command goes off a record.
proof fn lemma_forget_first(
    cmds: Seq<Entry>,
    befores: Seq<DocView>,
    afters: Seq<DocView>,
    v: DocView,
)
    requires
        cmds.len() > 0,
        tracks(cmds, befores, afters, v),
    ensures
        tracks(cmds.drop_first(), befores.drop_first(), afters.drop_first(), v),
{
    let less = cmds.drop_first();
    assert forall|i: int| 0 <= i < less.len() implies #[trigger] recorded(
        less,
        befores.drop_first(),
        afters.drop_first(),
        i,
    ) by {
        assert(recorded(cmds, befores, afters, i + 1));
        if i + 1 < less.len() {
            lemma_refs_tail(cmds, i + 2);
            pictures_shrink(
                afters[i + 1],
                befores[i + 2],
                refs_before(cmds, i + 2),
                refs_before(less, i + 1),
            );
        }
    }
    if less.len() > 0 {
        lemma_refs_tail(cmds, cmds.len() as int);
        pictures_shrink(
            afters.last(),
            v,
            refs_before(cmds, cmds.len() as int),
            refs_before(less, less.len() as int),
        );
    }
}

/// A record holds for every state that shows the picture.
proof fn lemma_same_record(
    cmds: Seq<Entry>,
    befores: Seq<DocView>,
    afters: Seq<DocView>,
    v: DocView,
    w: DocView,
)
    requires
        tracks(cmds, befores, afters, v),
        same_picture(v, w, refs_before(cmds, cmds.len() as int)),
    ensures
        tracks(cmds, befores, afters, w),
{
    if cmds.len() > 0 {
        pictures_chain(afters.last(), v, w, refs_before(cmds, cmds.len() as int));
    }
}

/// Cleaning up after the commands, in order, turns `v` into `w`.
pub open spec fn cleaned(cmds: Seq<Entry>, v: DocView, w: DocView) -> bool
    decreases cmds.len(),
{
    if cmds.len() == 0 {
        w == v
    } else {
        exists|m: DocView|
            cleaned(cmds.drop_last(), v, m) && #[trigger] cmds.last().cmd.cleans(m, w)
    }
}

/// Cleaning up after one more command.
pub proof fn lemma_cleaned_on(cmds: Seq<Entry>, i: int, v: DocView, m: DocView, w: DocView)
    requires
        0 <= i < cmds.len(),
        cleaned(cmds.take(i), v, m),
        cmds[i].cmd.cleans(m, w),
    ensures
        cleaned(cmds.take(i + 1), v, w),
{
    let more = cmds.take(i + 1);
    assert(more.drop_last() =~= cmds.take(i));
    assert(more.last() == cmds[i]);
    assert(more.last().cmd.cleans(m, w));
}

/// Cleaning up after a command, unless it shares one of the layers in `keep`, turns `v`
/// into `w`.
pub open spec fn dismissed(c: Entry, keep: Set<LayerId>, v: DocView, w: DocView) -> bool {
    if unneeded(c, keep) { c.cmd.cleans(v, w) } else { w == v }
}

/// Cleaning up after the commands, in order, but for those that share one of the layers
/// in `keep`, turns `v` into `w`.
pub open spec fn all_dismissed(
    cmds: Seq<Entry>,
    keep: Set<LayerId>,
    v: DocView,
    w: DocView,
) -> bool
    decreases cmds.len(),
{
    if cmds.len() == 0 {
        w == v
    } else {
        exists|m: DocView|
            all_dismissed(cmds.drop_last(), keep, v, m) && #[trigger] dismissed(
                cmds.last(),
                keep,
                m,
                w,
            )
    }
}

proof fn lemma_dismissed_on(
    cmds: Seq<Entry>,
    keep: Set<LayerId>,
    i: int,
    v: DocView,
    m: DocView,
    w: DocView,
)
    requires
        0 <= i < cmds.len(),
        all_dismissed(cmds.take(i), keep, v, m),
        dismissed(cmds[i], keep, m, w),
    ensures
        all_dismissed(cmds.take(i + 1), keep, v, w),
{
    let more = cmds.take(i + 1);
    assert(more.drop_last() =~= cmds.take(i));
    assert(more.last() == cmds[i]);
    assert(dismissed(more.last(), keep, m, w));
}

/// Command `c` shares none of the layers in `keep`.
pub open spec fn unneeded(c: Entry, keep: Set<LayerId>) -> bool {
    c.cmd.refs().disjoint(keep)
}

/// Cleaning up after those of the commands that share none of the layers in `keep`
/// leaves the picture of `v` alone, whatever else was cleaned up before.
pub open spec fn may_go(cmds: Seq<Entry>, v: DocView, keep: Set<LayerId>) -> bool {
    forall|i: int, w: DocView|
        0 <= i < cmds.len() && unneeded(cmds[i], keep) && same_picture(v, w, keep)
            ==> #[trigger] cmds[i].cmd.spares(w, keep)
}

/// The layers that the commands may need.
fn collect_refs(cmds: &Vec<Entry>) -> (r: IdSet)
    requires
        all_wf(cmds@),
    ensures
        r@ == refs_before(cmds@, cmds@.len() as int),
{
    let mut r: IdSet = IdSet::new();
    let mut i: usize = 0;
    while i < cmds.len()
        invariant
            all_wf(cmds@),
            i <= cmds@.len(),
            r@ == refs_before(cmds@, i as int),
        decreases cmds@.len() - i,
    {
        assert(cmds@[i as int].cmd.wf());
        let ids: Vec<LayerId> = cmds[i].cmd.referenced_layers();
        let ghost was = r@;
        let mut j: usize = 0;
        assert(ids@.take(0).to_set() =~= Set::empty());
        assert(was.union(ids@.take(0).to_set()) =~= was);
        while j < ids.len()
            invariant
                j <= ids@.len(),
                r@ == was.union(ids@.take(j as int).to_set()),
            decreases ids@.len() - j,
        {
            let fresh: bool = r.insert(ids[j]);
            proof {
                let t = ids@.take(j as int);
                assert(ids@.take(j + 1) =~= t.push(ids@[j as int]));
                assert forall|x: LayerId| ids@.take(j + 1).contains(x) <==> t.contains(x) || x
                    == ids@[j as int] by {
                    if t.contains(x) {
                        let k = choose|k: int| 0 <= k < t.len() && t[k] == x;
                        assert(ids@.take(j + 1)[k] == x);
                    }
                    assert(ids@.take(j + 1)[j as int] == ids@[j as int]);
                }
                assert(r@ =~= was.union(ids@.take(j + 1).to_set()));
            }
            j = j + 1;
        }
        proof {
            assert(ids@.take(j as int) =~= ids@);
            assert forall|x: LayerId| r@.contains(x) <==> refs_before(cmds@, i + 1).contains(x) by {
                assert(ids@.contains(x) <==> cmds@[i as int].cmd.refs().contains(x));
            }
            assert(r@ =~= refs_before(cmds@, i + 1));
        }
        i = i + 1;
    }
    r
}

/// Clean up after a command, unless a command that stays needs one of its layers.
fn cleanup_if_unreferenced(cmd: &Entry, remaining: &IdSet, doc: &mut Document)
    requires
        cmd.cmd.wf(),
        old(doc).wf(),
    ensures
        final(doc).wf(),
        final(doc).used() <= old(doc).used(),
        owned(old(doc)@) ==> owned(final(doc)@),
        dismissed(*cmd, remaining@, old(doc)@, final(doc)@),
        (unneeded(*cmd, remaining@) ==> cmd.cmd.spares(old(doc)@, remaining@)) ==> same_picture(
            old(doc)@,
            final(doc)@,
            remaining@,
        ),
{
    let refs: Vec<LayerId> = cmd.cmd.referenced_layers();
    let mut i: usize = 0;
    while i < refs.len()
        invariant
            i <= refs@.len(),
            doc.wf(),
            *doc == *old(doc),
            forall|x: LayerId| #[trigger] refs@.contains(x) <==> cmd.cmd.refs().contains(x),
            forall|j: int| 0 <= j < i ==> !remaining@.contains(#[trigger] refs@[j]),
        decreases refs@.len() - i,
    {
        if remaining.contains(refs[i]) {
            proof {
                assert(refs@.contains(refs@[i as int]));
                assert(!unneeded(*cmd, remaining@));
            }
            return ;
        }
        i = i + 1;
    }
    proof {
        assert(unneeded(*cmd, remaining@)) by {
            assert forall|x: LayerId|
                !(cmd.cmd.refs().contains(x) && remaining@.contains(x)) by {
                if cmd.cmd.refs().contains(x) {
                    assert(refs@.contains(x));
                    let j = choose|j: int| 0 <= j < refs@.len() && refs@[j] == x;
                    assert(!remaining@.contains(refs@[j]));
                }
            }
        }
    }
    cmd.cmd.cleanup(doc);
}

/// Clean up after commands, in order, but for those that need a layer that is to
/// remain.
fn cleanup_all(cmds: &Vec<Entry>, remaining: &IdSet, doc: &mut Document)
    requires
        all_wf(cmds@),
        old(doc).wf(),
    ensures
        final(doc).wf(),
        final(doc).used() <= old(doc).used(),
        owned(old(doc)@) ==> owned(final(doc)@),
        all_dismissed(cmds@, remaining@, old(doc)@, final(doc)@),
        may_go(cmds@, old(doc)@, remaining@) ==> same_picture(
            old(doc)@,
            final(doc)@,
            remaining@,
        ),
{
    let ghost v = doc@;
    let mut i: usize = 0;
    assert(cmds@.take(0) =~= Seq::empty());
    while i < cmds.len()
        invariant
            all_wf(cmds@),
            i <= cmds@.len(),
            v == old(doc)@,
            doc.wf(),
            doc.used() <= old(doc).used(),
            owned(v) ==> owned(doc@),
            all_dismissed(cmds@.take(i as int), remaining@, v, doc@),
            may_go(cmds@, v, remaining@) ==> same_picture(v, doc@, remaining@),
        decreases cmds@.len() - i,
    {
        let ghost d = doc@;
        assert(cmds@[i as int].cmd.wf());
        cleanup_if_unreferenced(&cmds[i], remaining, doc);
        proof {
            lemma_dismissed_on(cmds@, remaining@, i as int, v, d, doc@);
            if may_go(cmds@, v, remaining@) {
                if unneeded(cmds@[i as int], remaining@) {
                    assert(cmds@[i as int].cmd.spares(d, remaining@));
                }
                pictures_chain(v, d, doc@, remaining@);
            }
        }
        i = i + 1;
    }
    assert(cmds@.take(i as int) =~= cmds@);
}

/// An undo/redo stack for [`Command`]s.
///
/// `History` owns the commands that have been applied to a document. It supports
/// the classic push/undo/redo workflow and enforces an optional depth limit by
/// evicting the oldest command from the undo stack.
pub struct History {
    undo: Vec<Entry>,
    redo: Vec<Entry>,
    limit: usize,
}

impl History {
    /// The applied commands, oldest first.
    pub closed spec fn done(&self) -> Seq<Entry> {
        self.undo@
    }

    /// The undone commands, the next one to be redone last.
    pub closed spec fn undone(&self) -> Seq<Entry> {
        self.redo@
    }

    /// The undo depth limit; zero if there is none.
    pub closed spec fn depth(&self) -> usize {
        self.limit
    }

    /// Every command is well formed, and there are no more than the limit allows.
    pub open spec fn wf(&self) -> bool {
        &&& all_wf(self.done())
        &&& all_wf(self.undone())
        &&& self.depth() > 0 ==> self.done().len() + self.undone().len() <= self.depth()
    }

    /// Create an empty history with the given undo depth limit.
    ///
    /// A limit of `0` means unlimited undo.
    pub fn new(limit: usize) -> (r: Self)
        ensures
            r.wf(),
            r.done().len() == 0,
            r.undone().len() == 0,
            r.depth() == limit,
    {
        History { undo: Vec::new(), redo: Vec::new(), limit }
    }

    /// The commands that stay once one was pushed: the oldest one goes if the limit
    /// is exceeded.
    pub open spec fn is_pushed(&self, done: Seq<Entry>) -> bool {
        &&& done.len() > 0
        &&& done.drop_last() == (if self.is_full() {
            self.done().drop_first()
        } else {
            self.done()
        })
    }

    /// Pushing one more command exceeds the limit.
    pub open spec fn is_full(&self) -> bool {
        self.depth() > 0 && self.done().len() + 1 > self.depth()
    }

    /// Nothing that is evicted when a command that needs `refs` is pushed takes away
    /// what a command that stays needs.
    pub open spec fn evicts_scraps(&self, refs: Set<LayerId>, v: DocView) -> bool {
        let n = self.done().len() as int;
        &&& may_go(self.undone(), v, refs_before(self.done(), n).union(refs))
        &&& self.is_full() ==> may_go(
            self.done().take(1),
            v,
            refs_before(self.done().drop_first(), n - 1).union(refs),
        )
    }

    /// Pushing the last of `done` turns `v` into `w`: first the undone commands are cleaned
    /// up after, but for those that share a layer with the commands up to the new one, and
    /// where the limit is exceeded so is the oldest command, unless it shares a layer with
    /// those that stay.
    pub open spec fn evicts(&self, done: Seq<Entry>, v: DocView, w: DocView) -> bool {
        let n = self.done().len() as int;
        let needed = refs_before(self.done(), n).union(done.last().cmd.refs());
        exists|mid: DocView| #[trigger]
            all_dismissed(self.undone(), needed, v, mid) && if self.is_full() {
                dismissed(self.done()[0], refs_before(done, done.len() as int), mid, w)
            } else {
                w == mid
            }
    }

    /// Push a command that has already been applied onto the undo stack.
    ///
    /// This is used by batch operations and scripts that apply a group of
    /// subcommands incrementally but want to expose them as a single undo/redo
    /// entry. The redo stack is cleared and the depth limit is enforced exactly like
    /// [`History::do_command`].
    ///
    /// What could be undone can still be undone, and so can the new command. What is
    /// known of a command is known of its box where it is boxed in the call itself.
    pub fn push_applied(&mut self, doc: &mut Document, cmd: Box<dyn Command>)
        requires
            old(self).wf(),
            cmd.wf(),
            old(doc).wf(),
        ensures
            final(self).wf(),
            final(self).depth() == old(self).depth(),
            final(self).undone().len() == 0,
            old(self).is_pushed(final(self).done()),
            final(self).done().len() == (if old(self).is_full() {
                old(self).depth() as nat
            } else {
                old(self).done().len() + 1
            }),
            final(self).done().last().cmd == cmd,
            final(doc).wf(),
            final(doc).used() <= old(doc).used(),
            owned(old(doc)@) ==> owned(final(doc)@),
            old(self).evicts(final(self).done(), old(doc)@, final(doc)@),
            old(self).undone().len() == 0 && !old(self).is_full() ==> final(doc)@ == old(doc)@,
            old(self).evicts_scraps(cmd.refs(), old(doc)@) ==> same_picture(
                old(doc)@,
                final(doc)@,
                refs_before(final(self).done(), final(self).done().len() as int),
            ),
            forall|befores: Seq<DocView>, afters: Seq<DocView>, then: DocView|
                #![trigger tracks(old(self).done(), befores, afters, then)]
                tracks(old(self).done(), befores, afters, then) && cmd.reverts(then, old(doc)@)
                    && sustains(cmd.refs(), then, old(doc)@) && old(self).evicts_scraps(
                    cmd.refs(),
                    old(doc)@,
                ) ==> pushed_track(
                    final(self).done(),
                    befores.push(then),
                    afters.push(old(doc)@),
                    final(doc)@,
                ),
    {
        let entry = hold(cmd);
        self.push_entry(doc, entry);
    }

    /// Push a command, as [`History::push_applied`] does.
    fn push_entry(&mut self, doc: &mut Document, entry: Entry)
        requires
            old(self).wf(),
            entry.cmd.wf(),
            old(doc).wf(),
        ensures
            final(self).wf(),
            final(self).depth() == old(self).depth(),
            final(self).undone().len() == 0,
            old(self).is_pushed(final(self).done()),
            final(self).done().len() == (if old(self).is_full() {
                old(self).depth() as nat
            } else {
                old(self).done().len() + 1
            }),
            final(self).done().last().cmd == entry.cmd,
            final(doc).wf(),
            final(doc).used() <= old(doc).used(),
            owned(old(doc)@) ==> owned(final(doc)@),
            old(self).evicts(final(self).done(), old(doc)@, final(doc)@),
            old(self).undone().len() == 0 && !old(self).is_full() ==> final(doc)@ == old(doc)@,
            old(self).evicts_scraps(entry.cmd.refs(), old(doc)@) ==> same_picture(
                old(doc)@,
                final(doc)@,
                refs_before(final(self).done(), final(self).done().len() as int),
            ),
            forall|befores: Seq<DocView>, afters: Seq<DocView>, then: DocView|
                #![trigger tracks(old(self).done(), befores, afters, then)]
                tracks(old(self).done(), befores, afters, then) && entry.cmd.reverts(then, old(doc)@)
                    && sustains(entry.cmd.refs(), then, old(doc)@) && old(self).evicts_scraps(
                    entry.cmd.refs(),
                    old(doc)@,
                ) ==> pushed_track(
                    final(self).done(),
                    befores.push(then),
                    afters.push(old(doc)@),
                    final(doc)@,
                ),
    {
        let ghost v = doc@;
        let ghost c = entry.cmd;
        self.undo.push(entry);
        let ghost all = self.undo@;
        proof {
            assert(all.drop_last() =~= old(self).undo@);
            assert forall|i: int| 0 <= i < all.len() implies (#[trigger] all[i]).cmd.wf() by {
                if i < old(self).undo@.len() {
                    assert(old(self).undo@[i].cmd.wf());
                }
            }
        }
        let mut evicted: Vec<Entry> = Vec::new();
        std::mem::swap(&mut evicted, &mut self.redo);
        let remaining: IdSet = collect_refs(&self.undo);
        let over: bool = self.limit > 0 && self.undo.len() > self.limit;
        cleanup_all(&evicted, &remaining, doc);
        let ghost mid = doc@;
        if over {
            let oldest: Entry = self.undo.remove(0);
            proof {
                assert(self.undo@ =~= all.drop_first());
                assert(all_wf(self.undo@)) by {
                    assert forall|i: int| 0 <= i < self.undo@.len() implies (
                    #[trigger] self.undo@[i]).cmd.wf() by {
                        assert(self.undo@[i] == all[i + 1]);
                    }
                }
                assert(all[0].cmd.wf());
            }
            let rest: IdSet = collect_refs(&self.undo);
            cleanup_if_unreferenced(&oldest, &rest, doc);
        }
        proof {
            let was = old(self).undo@;
            let n = was.len() as int;
            let done = self.undo@;
            let keep = refs_before(done, done.len() as int);
            let wide = refs_before(all, n + 1);
            lemma_refs_same(was, all, n);
            assert(wide == refs_before(was, n).union(c.refs()));
            assert(done.last().cmd == c);
            assert(all_dismissed(old(self).undone(), wide, v, mid));
            if over {
                assert(done.drop_last() =~= was.drop_first());
                lemma_refs_same(was.drop_first(), done, n - 1);
                assert(keep == refs_before(was.drop_first(), n - 1).union(c.refs()));
                lemma_refs_tail(all, n + 1);
                assert(was.take(1)[0] == all[0]);
            }
            if old(self).evicts_scraps(c.refs(), v) {
                pictures_shrink(v, mid, wide, keep);
                if over {
                    if unneeded(was.take(1)[0], keep) {
                        assert(was.take(1)[0].cmd.spares(mid, keep));
                    }
                    pictures_chain(v, mid, doc@, keep);
                }
            }
            assert forall|befores: Seq<DocView>, afters: Seq<DocView>, then: DocView|
                #![trigger tracks(old(self).done(), befores, afters, then)]
                tracks(old(self).done(), befores, afters, then) && c.reverts(then, v) && sustains(
                    c.refs(),
                    then,
                    v,
                ) && old(self).evicts_scraps(c.refs(), v) implies pushed_track(
                self.done(),
                befores.push(then),
                afters.push(v),
                doc@,
            ) by {
                lemma_step_on(was, all, befores, afters, then, v);
                let b = befores.push(then);
                let a = afters.push(v);
                if over {
                    lemma_forget_first(all, b, a, v);
                    lemma_same_record(done, b.drop_first(), a.drop_first(), v, doc@);
                } else {
                    lemma_same_record(done, b, a, v, doc@);
                }
            }
        }
    }

    /// Apply `cmd` to `doc` and push it onto the undo stack.
    ///
    /// The document is left as the command makes it, but for what cleaning up after the
    /// dropped commands takes away. If the command succeeds, the redo stack is cleared.
    /// If the undo stack grows beyond the limit, the oldest command is dropped. If it
    /// fails, the document and the stacks stay as they are, but for layers that were
    /// added and taken out again.
    ///
    /// What could be undone can still be undone, and so can the new command, if
    /// nothing that is evicted takes away what it needs.
    pub fn do_command(&mut self, doc: &mut Document, cmd: Box<dyn Command>) -> (r: Result<
        (),
        OgreError,
    >)
        requires
            old(self).wf(),
            cmd.wf(),
            old(doc).wf(),
            old(doc).room(cmd.adds()),
        ensures
            final(self).wf(),
            final(self).depth() == old(self).depth(),
            final(doc).wf(),
            final(doc).used() <= old(doc).used() + cmd.adds(),
            match r {
                Ok(_) => {
                    &&& final(self).undone().len() == 0
                    &&& old(self).is_pushed(final(self).done())
                    &&& final(self).done().len() == (if old(self).is_full() {
                        old(self).depth() as nat
                    } else {
                        old(self).done().len() + 1
                    })
                    &&& final(self).done().last().cmd.adds() == cmd.adds()
                    &&& final(self).done().last().cmd.name() == cmd.name()
                    &&& forall|v: DocView, q: Result<(), OgreError>, w: DocView|
                        !cmd.learns() ==> #[trigger] final(self).done().last().cmd.does(v, q, w)
                            == cmd.does(v, q, w)
                    &&& !cmd.learns() ==> !final(self).done().last().cmd.learns()
                    &&& forall|v: DocView|
                        !cmd.learns() ==> #[trigger] final(self).done().last().cmd.steady(v)
                            == cmd.steady(v)
                    &&& exists|mid: DocView| #[trigger]
                        cmd.does(old(doc)@, r, mid) && old(self).evicts(
                            final(self).done(),
                            mid,
                            final(doc)@,
                        ) && (old(self).undone().len() == 0
                            && !old(self).is_full() ==> final(doc)@ == mid) && (tidy(old(doc)@)
                            && cmd.fits(old(doc)@) ==> owned(final(doc)@) && tidy(mid)
                            && old(self).goes_on(
                            final(self).done(),
                            old(doc)@,
                            mid,
                            final(doc)@,
                        ) && final(self).done().last().cmd.reverts(old(doc)@, mid))
                },
                Err(_) => {
                    &&& cmd.does(old(doc)@, r, final(doc)@)
                    &&& final(self).done() == old(self).done()
                    &&& final(self).undone() == old(self).undone()
                    &&& tidy(old(doc)@) && cmd.fits(old(doc)@) ==> left_alone(
                        old(doc)@,
                        final(doc)@,
                    ) && tidy(final(doc)@)
                },
            },
    {
        let mut entry = hold(cmd);
        let ghost v = doc@;
        let ghost sound = tidy(v) && entry.cmd.fits(v);
        let ghost c = entry.cmd;
        let res: Result<(), OgreError> = entry.cmd.apply(doc);
        if let Err(e) = res {
            return Err(e);
        }
        let ghost mid = doc@;
        self.push_entry(doc, entry);
        proof {
            assert(res->Ok_0 == ());
            assert(c.does(v, Ok(()), mid));
            if sound {
                assert(self.done().last().cmd.reverts(v, mid));
                assert(old(self).goes_on(self.done(), v, mid, doc@)) by {
                    assert forall|befores: Seq<DocView>, afters: Seq<DocView>|
                        #![trigger tracks(old(self).done(), befores, afters, v)]
                        tracks(old(self).done(), befores, afters, v) && old(self).evicts_scraps(
                            self.done().last().cmd.refs(),
                            mid,
                        ) implies pushed_track(
                        self.done(),
                        befores.push(v),
                        afters.push(mid),
                        doc@,
                    ) by {}
                }
            }
        }
        Ok(())
    }

    /// Pushing the last of `done`, which turned `then` into `mid`, keeps every record
    /// and adds to it, if nothing that is evicted takes away what a command needs.
    /// If nothing is evicted the document is left as the command made it.
    pub open spec fn goes_on(
        &self,
        done: Seq<Entry>,
        then: DocView,
        mid: DocView,
        fin: DocView,
    ) -> bool {
        &&& self.undone().len() == 0 && !self.is_full() ==> fin == mid
        &&& self.evicts_scraps(done.last().cmd.refs(), mid) ==> same_picture(
            mid,
            fin,
            refs_before(done, done.len() as int),
        )
        &&& forall|befores: Seq<DocView>, afters: Seq<DocView>|
            #![trigger tracks(self.done(), befores, afters, then)]
            tracks(self.done(), befores, afters, then) && self.evicts_scraps(
                done.last().cmd.refs(),
                mid,
            ) ==> pushed_track(done, befores.push(then), afters.push(mid), fin)
    }

    /// Borrow the top of the undo stack mutably.
    ///
    /// This is used by coalescing interactions (such as dragging an opacity slider)
    /// to update the most recent command in place instead of pushing a new one each
    /// time.
    pub fn undo_top_mut(&mut self) -> (r: Option<&mut Entry>)
        requires
            old(self).wf(),
        ensures
            r is Some <==> old(self).done().len() > 0,
            r matches Some(c) ==> {
                &&& *c == old(self).done().last()
                &&& final(self).done() == old(self).done().update(
                    old(self).done().len() - 1,
                    *final(c),
                )
                &&& final(self).undone() == old(self).undone()
                &&& final(self).depth() == old(self).depth()
                &&& final(c).cmd.wf() ==> final(self).wf()
            },
            r is None ==> *final(self) == *old(self),
    {
        let n: usize = self.undo.len();
        if n == 0 {
            return None;
        }
        Some(&mut self.undo[n - 1])
    }

    /// Undo the most recently applied command.
    ///
    /// Returns the label of the undone command, or `None` if the undo stack was
    /// empty.
    ///
    /// Where the record of the history led to the document, the document shows the
    /// picture of the state before that command, and the rest of the record leads to
    /// it.
    pub fn undo(&mut self, doc: &mut Document) -> (r: Option<&'static str>)
        requires
            old(self).wf(),
            old(doc).wf(),
        ensures
            final(self).wf(),
            final(self).depth() == old(self).depth(),
            final(doc).wf(),
            final(doc).used() <= old(doc).used(),
            owned(old(doc)@) ==> owned(final(doc)@),
            if old(self).done().len() == 0 {
                &&& r is None
                &&& final(doc)@ == old(doc)@
                &&& final(self).done() == old(self).done()
                &&& final(self).undone() == old(self).undone()
            } else {
                let n = old(self).done().len() - 1;
                &&& r matches Some(label) && label@ == old(self).done()[n].cmd.name()
                &&& final(self).done() == old(self).done().drop_last()
                &&& final(self).undone().len() == old(self).undone().len() + 1
                &&& final(self).undone().drop_last() == old(self).undone()
                &&& final(self).undone().last().cmd.adds() == old(self).done()[n].cmd.adds()
                &&& final(self).undone().last().cmd.name() == old(self).done()[n].cmd.name()
                &&& old(self).done()[n].cmd.undoes(old(doc)@, final(doc)@)
                &&& !old(self).done()[n].cmd.learns() ==> same_deed(
                    final(self).undone().last(),
                    old(self).done()[n],
                )
                &&& forall|befores: Seq<DocView>, afters: Seq<DocView>|
                    #![trigger tracks(old(self).done(), befores, afters, old(doc)@)]
                    tracks(old(self).done(), befores, afters, old(doc)@) ==> {
                        &&& same_picture(
                            befores[n],
                            final(doc)@,
                            refs_before(old(self).done(), n),
                        )
                        &&& tracks(
                            final(self).done(),
                            befores.drop_last(),
                            afters.drop_last(),
                            final(doc)@,
                        )
                    }
            },
    {
        let ghost was = self.undo@;
        let ghost v = doc@;
        let mut entry: Entry = match self.undo.pop() {
            Some(e) => e,
            None => {
                return None;
            },
        };
        let ghost n = was.len() - 1;
        proof {
            assert(was[n].cmd.wf());
            assert(entry == was[n]);
            assert forall|i: int| 0 <= i < self.undo@.len() implies (
            #[trigger] self.undo@[i]).cmd.wf() by {
                assert(was[i].cmd.wf());
            }
        }
        let label: &'static str = entry.cmd.label();
        entry.cmd.undo(doc);
        assert(!was[n].cmd.learns() ==> same_deed(entry, was[n]));
        self.redo.push(entry);
        proof {
            assert(self.redo@.drop_last() =~= old(self).redo@);
            assert forall|i: int| 0 <= i < self.redo@.len() implies (
            #[trigger] self.redo@[i]).cmd.wf() by {
                if i < old(self).redo@.len() {
                    assert(old(self).redo@[i].cmd.wf());
                }
            }
            assert forall|befores: Seq<DocView>, afters: Seq<DocView>|
                #![trigger tracks(old(self).done(), befores, afters, v)]
                tracks(old(self).done(), befores, afters, v) implies same_picture(
                befores[n],
                doc@,
                refs_before(was, n),
            ) && tracks(self.done(), befores.drop_last(), afters.drop_last(), doc@) by {
                let keep = refs_before(was, n);
                lemma_needed_exist(was, befores, afters, v, n);
                assert(recorded(was, befores, afters, n));
                assert(refs_before(was, n + 1) == keep.union(was[n].cmd.refs()));
                assert(was[n].cmd.reverts(befores[n], afters[n]));
                lemma_step_back(was, befores, afters, v, doc@);
            }
        }
        Some(label)
    }

    /// Redo the most recently undone command.
    ///
    /// Returns the label of the redone command, or `None` if the redo stack was empty
    /// or if re-applying the command failed.
    ///
    /// The command is applied to the document again; one that does not learn does what
    /// it did, and a steady one gives the picture back that it made; what others make
    /// looks the same (see [`crate::commands::repeating`]). What could be undone can
    /// still be undone, and so can the redone command.
    pub fn redo(&mut self, doc: &mut Document) -> (r: Option<&'static str>)
        requires
            old(self).wf(),
            old(doc).wf(),
            old(self).undone().len() > 0 ==> old(doc).room(old(self).undone().last().cmd.adds()),
        ensures
            final(self).wf(),
            final(self).depth() == old(self).depth(),
            final(doc).wf(),
            old(self).undone().len() == 0 ==> {
                &&& r is None
                &&& final(doc)@ == old(doc)@
                &&& final(self).done() == old(self).done()
                &&& final(self).undone() == old(self).undone()
            },
            old(self).undone().len() > 0 ==> {
                let cmd = old(self).undone().last();
                let sound = tidy(old(doc)@) && cmd.cmd.fits(old(doc)@);
                &&& final(doc).used() <= old(doc).used() + cmd.cmd.adds()
                &&& forall|then: DocView, after: DocView, keep: Set<LayerId>|
                    #![trigger cmd.cmd.does(then, Ok(()), after), same_picture(then, old(doc)@, keep)]
                    cmd.cmd.steady(then) && cmd.cmd.does(then, Ok(()), after) && same_picture(
                        then,
                        old(doc)@,
                        keep,
                    ) ==> r is Some && same_picture(after, final(doc)@, keep)
                &&& match r {
                    Some(label) => {
                        &&& label@ == cmd.cmd.name()
                        &&& cmd.cmd.does(old(doc)@, Ok(()), final(doc)@)
                        &&& !cmd.cmd.learns() ==> same_deed(final(self).done().last(), cmd)
                        &&& final(self).done().last().cmd.name() == cmd.cmd.name()
                        &&& final(self).done().last().cmd.adds() == cmd.cmd.adds()
                        &&& final(self).undone() == old(self).undone().drop_last()
                        &&& final(self).done().len() == old(self).done().len() + 1
                        &&& final(self).done().drop_last() == old(self).done()
                        &&& sound ==> tidy(final(doc)@)
                        &&& sound ==> final(self).done().last().cmd.reverts(
                            old(doc)@,
                            final(doc)@,
                        )
                        &&& forall|befores: Seq<DocView>, afters: Seq<DocView>|
                            #![trigger tracks(old(self).done(), befores, afters, old(doc)@)]
                            sound && tracks(old(self).done(), befores, afters, old(doc)@)
                                ==> tracks(
                                final(self).done(),
                                befores.push(old(doc)@),
                                afters.push(final(doc)@),
                                final(doc)@,
                            )
                    },
                    None => {
                        &&& exists|e: OgreError| #[trigger]
                            cmd.cmd.does(old(doc)@, Err(e), final(doc)@)
                        &&& !cmd.cmd.fickle() ==> same_deed(final(self).undone().last(), cmd)
                        &&& final(self).undone().last().cmd.name() == cmd.cmd.name()
                        &&& final(self).undone().last().cmd.adds() == cmd.cmd.adds()
                        &&& final(self).done() == old(self).done()
                        &&& final(self).undone().len() == old(self).undone().len()
                        &&& final(self).undone().drop_last() == old(self).undone().drop_last()
                        &&& sound ==> left_alone(old(doc)@, final(doc)@) && tidy(final(doc)@)
                    },
                }
            },
    {
        let ghost was = self.redo@;
        let ghost done = self.undo@;
        let ghost v = doc@;
        let mut entry: Entry = match self.redo.pop() {
            Some(e) => e,
            None => {
                return None;
            },
        };
        let ghost n = was.len() - 1;
        proof {
            assert(was[n].cmd.wf());
            assert(entry == was[n]);
            assert forall|i: int| 0 <= i < self.redo@.len() implies (
            #[trigger] self.redo@[i]).cmd.wf() by {
                assert(was[i].cmd.wf());
            }
        }
        let label: &'static str = entry.cmd.label();
        let ghost left = self.redo@;
        let ghost sound = tidy(v) && was[n].cmd.fits(v);
        let res: Result<(), OgreError> = entry.cmd.apply(doc);
        assert(!was[n].cmd.learns() ==> same_deed(entry, was[n]));
        if let Err(e) = res {
            self.redo.push(entry);
            assert(was[n].cmd.does(v, Err(e), doc@));
            proof {
                assert(self.redo@.drop_last() =~= left);
                assert forall|i: int| 0 <= i < self.redo@.len() implies (
                #[trigger] self.redo@[i]).cmd.wf() by {
                    if i < left.len() {
                        assert(left[i].cmd.wf());
                    }
                }
            }
            return None;
        }
        self.undo.push(entry);
        proof {
            assert(res->Ok_0 == ());
            assert(self.undo@.drop_last() =~= done);
            assert forall|i: int| 0 <= i < self.undo@.len() implies (
            #[trigger] self.undo@[i]).cmd.wf() by {
                if i < done.len() {
                    assert(done[i].cmd.wf());
                }
            }
            assert forall|befores: Seq<DocView>, afters: Seq<DocView>|
                #![trigger tracks(old(self).done(), befores, afters, v)]
                sound && tracks(old(self).done(), befores, afters, v) implies tracks(
                self.done(),
                befores.push(v),
                afters.push(doc@),
                doc@,
            ) by {
                lemma_step_on(done, self.undo@, befores, afters, v, doc@);
            }
        }
        Some(label)
    }

    /// Drop every command from both stacks.
    ///
    /// `doc` is the document the history applies to; it is passed to
    /// [`Command::cleanup`] so commands can reclaim transient state (such as taken-out
    /// layers) before they are dropped.
    pub fn clear(&mut self, doc: &mut Document)
        requires
            old(self).wf(),
            old(doc).wf(),
        ensures
            final(self).wf(),
            final(self).done().len() == 0,
            final(self).undone().len() == 0,
            final(self).depth() == old(self).depth(),
            final(doc).wf(),
            final(doc).used() <= old(doc).used(),
            exists|mid: DocView| #[trigger]
                cleaned(old(self).done(), old(doc)@, mid) && cleaned(
                    old(self).undone(),
                    mid,
                    final(doc)@,
                ),
            owned(old(doc)@) ==> owned(final(doc)@),
            forall|keep: Set<LayerId>|
                #![trigger same_picture(old(doc)@, final(doc)@, keep)]
                all_spare(old(self).done(), old(doc)@, keep) && all_spare(
                    old(self).undone(),
                    old(doc)@,
                    keep,
                ) ==> same_picture(old(doc)@, final(doc)@, keep),
    {
        let ghost v = doc@;
        clean(&self.undo, doc);
        let ghost mid = doc@;
        clean(&self.redo, doc);
        self.undo = Vec::new();
        self.redo = Vec::new();
        proof {
            assert(cleaned(old(self).done(), v, mid));
            assert forall|keep: Set<LayerId>|
                #![trigger same_picture(v, doc@, keep)]
                all_spare(old(self).done(), v, keep) && all_spare(
                    old(self).undone(),
                    v,
                    keep,
                ) implies same_picture(v, doc@, keep) by {
                assert(same_picture(v, mid, keep));
                assert forall|i: int, w: DocView|
                    0 <= i < old(self).undone().len() && same_picture(
                        mid,
                        w,
                        keep,
                    ) implies #[trigger] old(self).undone()[i].cmd.spares(w, keep) by {
                    pictures_chain(v, mid, w, keep);
                }
                assert(all_spare(old(self).undone(), mid, keep));
                assert(same_picture(mid, doc@, keep));
                pictures_chain(v, mid, doc@, keep);
            }
        }
    }

    /// Number of commands currently on the undo stack.
    pub fn undo_len(&self) -> (r: usize)
        ensures
            r == self.done().len(),
    {
        self.undo.len()
    }

    /// Number of commands currently on the redo stack.
    pub fn redo_len(&self) -> (r: usize)
        ensures
            r == self.undone().len(),
    {
        self.redo.len()
    }

    /// The configured undo depth limit.
    ///
    /// `0` means unlimited undo.
    pub fn limit(&self) -> (r: usize)
        ensures
            r == self.depth(),
    {
        self.limit
    }
}

/// Cleaning up after the commands leaves the picture of `v` alone, whatever else
/// was cleaned up before.
pub open spec fn all_spare(cmds: Seq<Entry>, v: DocView, keep: Set<LayerId>) -> bool {
    forall|i: int, w: DocView|
        0 <= i < cmds.len() && same_picture(v, w, keep) ==> #[trigger] cmds[i].cmd.spares(w, keep)
}

/// Clean up after commands, in order.
fn clean(cmds: &Vec<Entry>, doc: &mut Document)
    requires
        all_wf(cmds@),
        old(doc).wf(),
    ensures
        final(doc).wf(),
        final(doc).used() <= old(doc).used(),
        cleaned(cmds@, old(doc)@, final(doc)@),
        owned(old(doc)@) ==> owned(final(doc)@),
        forall|keep: Set<LayerId>|
            #![trigger same_picture(old(doc)@, final(doc)@, keep)]
            all_spare(cmds@, old(doc)@, keep) ==> same_picture(old(doc)@, final(doc)@, keep),
{
    let ghost v = doc@;
    let mut i: usize = 0;
    assert(cmds@.take(0) =~= Seq::empty());
    while i < cmds.len()
        invariant
            all_wf(cmds@),
            i <= cmds@.len(),
            v == old(doc)@,
            doc.wf(),
            doc.used() <= old(doc).used(),
            cleaned(cmds@.take(i as int), v, doc@),
            owned(v) ==> owned(doc@),
            forall|keep: Set<LayerId>| #[trigger]
                all_spare(cmds@, v, keep) ==> same_picture(v, doc@, keep),
        decreases cmds@.len() - i,
    {
        let ghost d = doc@;
        assert(cmds@[i as int].cmd.wf());
        cmds[i].cmd.cleanup(doc);
        proof {
            lemma_cleaned_on(cmds@, i as int, v, d, doc@);
            assert forall|keep: Set<LayerId>| #[trigger] all_spare(
                cmds@,
                v,
                keep,
            ) implies same_picture(v, doc@, keep) by {
                assert(cmds@[i as int].cmd.spares(d, keep));
                assert(same_picture(d, doc@, keep));
                pictures_chain(v, d, doc@, keep);
            }
        }
        i = i + 1;
    }
    assert(cmds@.take(i as int) =~= cmds@);
}

/// A record with the newest commands only.
pub open spec fn pushed_track(
    cmds: Seq<Entry>,
    befores: Seq<DocView>,
    afters: Seq<DocView>,
    v: DocView,
) -> bool {
    if befores.len() == cmds.len() {
        tracks(cmds, befores, afters, v)
    } else {
        tracks(cmds, befores.drop_first(), afters.drop_first(), v)
    }
}

/// Pushing a command keeps the newest commands, as many as the limit allows, and
/// leaves nothing to be redone.
///
/// The oldest command goes if the stack is full. It is cleaned up after if and only if
/// no command that stays needs a layer that it needs.
pub proof fn pushing_enforces_the_limit(before: History, after: History, v: DocView, w: DocView)
    requires
        before.wf(),
        after.wf(),
        after.depth() == before.depth(),
        after.undone().len() == 0,
        before.is_pushed(after.done()),
        before.evicts(after.done(), v, w),
    ensures
        after.done().len() == (if before.is_full() {
            before.depth() as nat
        } else {
            before.done().len() + 1
        }),
        before.depth() > 0 ==> after.done().len() + after.undone().len() <= before.depth(),
        forall|i: int|
            0 <= i < after.done().len() - 1 ==> #[trigger] after.done()[i] == before.done()[if before.is_full() {
                i + 1
            } else {
                i
            }],
        ({
            let needed = refs_before(before.done(), before.done().len() as int).union(
                after.done().last().cmd.refs(),
            );
            let kept = refs_before(after.done(), after.done().len() as int);
            exists|mid: DocView| #[trigger]
                all_dismissed(before.undone(), needed, v, mid) && if !before.is_full() {
                    w == mid
                } else if before.done()[0].cmd.refs().disjoint(kept) {
                    before.done()[0].cmd.cleans(mid, w)
                } else {
                    w == mid
                }
        }),
{
    assert(after.done().drop_last().len() == after.done().len() - 1);
    if before.is_full() {
        assert(before.done().drop_first().len() == before.done().len() - 1);
    }
    assert forall|i: int| 0 <= i < after.done().len() - 1 implies #[trigger] after.done()[i]
        == before.done()[if before.is_full() {
        i + 1
    } else {
        i
    }] by {
        assert(after.done()[i] == after.done().drop_last()[i]);
    }
}

} // verus!
