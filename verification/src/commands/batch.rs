//! Several commands as one.
use vstd::prelude::*;

use crate::document::{lists, DocView, Document};
use crate::error::OgreError;
use crate::history::{cleaned, hold, lemma_cleaned_on, refs_before, same_deed, Command, Entry};
use crate::layer::LayerId;
use crate::picture::{
    owned, pictures_agree_with_themselves, pictures_chain, pictures_share_the_tree, same_picture,
    sustains, tidy,
};

verus! {

/// A group of commands that are applied and undone as a single history entry.
///
/// This is used by scripts and macros that need to perform several document edits
/// while exposing only one undo/redo step to the user. If any command in the batch
/// fails, the commands that already succeeded are undone before the error is
/// returned, leaving the document in its original state.
pub struct BatchCmd {
    /// The label of the history entry.
    pub label: &'static str,
    /// The commands, first to last.
    pub commands: Vec<Entry>,
}

impl BatchCmd {
    /// Create an empty batch with the given undo/redo label.
    pub fn new(label: &'static str) -> (r: Self)
        ensures
            r.label == label,
            r.commands@.len() == 0,
            r.wf(),
    {
        BatchCmd { label, commands: Vec::new() }
    }

    /// Add a command to the end of the batch.
    pub fn push(&mut self, cmd: Box<dyn Command>)
        ensures
            final(self).label == old(self).label,
            final(self).commands@.len() == old(self).commands@.len() + 1,
            final(self).commands@.drop_last() == old(self).commands@,
            final(self).commands@.last().cmd == cmd,
            old(self).wf() && cmd.wf() ==> final(self).wf(),
    {
        let entry = hold(cmd);
        self.commands.push(entry);
        proof {
            assert(self.commands@.drop_last() =~= old(self).commands@);
            if old(self).wf() && cmd.wf() {
                assert forall|i: int| 0 <= i < self.commands@.len() implies (
                #[trigger] self.commands@[i]).cmd.wf() by {
                    if i < old(self).commands@.len() {
                        assert(old(self).commands@[i].cmd.wf());
                    }
                }
            }
        }
    }
}

/// How many layers the first `n` commands may add.
pub open spec fn adds_before(cmds: Seq<Entry>, n: int) -> nat
    decreases n,
{
    if n <= 0 {
        0
    } else {
        adds_before(cmds, n - 1) + cmds[n - 1].cmd.adds()
    }
}

/// A batch of commands that do the same does the same.
proof fn lemma_same_batch(a: BatchCmd, b: BatchCmd)
    requires
        a.commands@.len() == b.commands@.len(),
        forall|i: int|
            0 <= i < a.commands@.len() ==> alike(#[trigger] a.commands@[i], b.commands@[i]),
    ensures
        !b.learns() ==> !a.learns() && forall|v: DocView, r: Result<(), OgreError>, w: DocView|
         #[trigger]
            a.does(v, r, w) == b.does(v, r, w),
        !b.learns() ==> forall|v: DocView| #[trigger] a.steady(v) == b.steady(v),
{
    if !b.learns() {
        assert forall|i: int| 0 <= i < a.commands@.len() implies same_deed(
            #[trigger] a.commands@[i],
            b.commands@[i],
        ) by {
            assert(!b.commands@[i].cmd.learns());
            assert(alike(a.commands@[i], b.commands@[i]));
        }
        assert forall|i: int| 0 <= i < b.commands@.len() implies same_deed(
            #[trigger] b.commands@[i],
            a.commands@[i],
        ) by {
            assert(same_deed(a.commands@[i], b.commands@[i]));
        }
        lemma_same_runs(a, b);
        lemma_same_runs(b, a);
        assert forall|v: DocView, r: Result<(), OgreError>, w: DocView| #[trigger]
            a.does(v, r, w) == b.does(v, r, w) by {
            assert(b.does(v, r, w) ==> a.does(v, r, w));
        }
        lemma_same_steadiness(a, b);
        lemma_same_steadiness(b, a);
        assert forall|v: DocView| #[trigger] a.steady(v) == b.steady(v) by {
            assert(b.steady(v) ==> a.steady(v));
        }
    }
}

/// Commands that do the same are steady in the same states.
proof fn lemma_same_steadiness(a: BatchCmd, b: BatchCmd)
    requires
        a.commands@.len() == b.commands@.len(),
        forall|i: int|
            0 <= i < a.commands@.len() ==> same_deed(#[trigger] a.commands@[i], b.commands@[i]),
    ensures
        forall|v: DocView| #[trigger] a.steady(v) ==> b.steady(v),
{
    assert forall|v: DocView| #[trigger] a.steady(v) implies b.steady(v) by {
        assert forall|states: Seq<DocView>, i: int|
            i < b.commands@.len() && #[trigger] ran(b.commands@, states, i) && states[0]
                == v implies b.commands@[i].cmd.steady(states[i]) by {
            assert forall|j: int| 0 <= j < i implies #[trigger] runs(a.commands@, states, j) by {
                assert(runs(b.commands@, states, j));
                assert(same_deed(a.commands@[j], b.commands@[j]));
            }
            assert(ran(a.commands@, states, i));
            assert(same_deed(a.commands@[i], b.commands@[i]));
        }
    }
}

proof fn lemma_adds(cmds: Seq<Entry>, m: int, n: int)
    requires
        0 <= m <= n,
    ensures
        adds_before(cmds, m) <= adds_before(cmds, n),
    decreases n,
{
    if m < n {
        lemma_adds(cmds, m, n - 1);
    }
}

proof fn lemma_adds_same(a: Seq<Entry>, b: Seq<Entry>, n: int)
    requires
        forall|j: int| 0 <= j < n ==> (#[trigger] a[j]).cmd.adds() == b[j].cmd.adds(),
    ensures
        adds_before(a, n) == adds_before(b, n),
    decreases n,
{
    if n > 0 {
        lemma_adds_same(a, b, n - 1);
        assert(a[n - 1].cmd.adds() == b[n - 1].cmd.adds());
    }
}

/// Command `i` turned state `i` into the next.
pub open spec fn stepped(cmds: Seq<Entry>, states: Seq<DocView>, i: int) -> bool {
    cmds[i].cmd.reverts(states[i], states[i + 1]) && sustains(
        cmds[i].cmd.refs(),
        states[i],
        states[i + 1],
    )
}

/// The first `n` commands, in order, turned each state into the next.
pub open spec fn chained(cmds: Seq<Entry>, states: Seq<DocView>, n: int) -> bool {
    &&& states.len() == n + 1
    &&& n <= cmds.len()
    &&& forall|i: int| 0 <= i < n ==> #[trigger] stepped(cmds, states, i)
}

/// Applying the first `n` commands, in order, turns each state into the next.
pub open spec fn ran(cmds: Seq<Entry>, states: Seq<DocView>, n: int) -> bool {
    &&& states.len() == n + 1
    &&& 0 <= n <= cmds.len()
    &&& forall|i: int| 0 <= i < n ==> #[trigger] runs(cmds, states, i)
}

/// Applying command `i` turns state `i` into the next.
pub open spec fn runs(cmds: Seq<Entry>, states: Seq<DocView>, i: int) -> bool {
    cmds[i].cmd.does(states[i], Ok(()), states[i + 1])
}

/// Applying a command in state `v` fails with `e`.
pub open spec fn fails_in(entry: Entry, v: DocView, e: OgreError) -> bool {
    exists|w: DocView| #[trigger] entry.cmd.does(v, Err(e), w)
}

/// One command is another after it was applied or undone: both learn, or both do
/// the same.
pub open spec fn alike(a: Entry, b: Entry) -> bool {
    &&& a.cmd.learns() ==> b.cmd.learns()
    &&& !b.cmd.learns() ==> same_deed(a, b)
}

/// Commands that do the same turn the same states into the next.
proof fn lemma_same_runs(a: BatchCmd, b: BatchCmd)
    requires
        a.commands@.len() == b.commands@.len(),
        forall|i: int|
            0 <= i < a.commands@.len() ==> same_deed(#[trigger] a.commands@[i], b.commands@[i]),
    ensures
        forall|v: DocView, r: Result<(), OgreError>, w: DocView| #[trigger]
            a.does(v, r, w) ==> b.does(v, r, w),
{
    assert forall|v: DocView, r: Result<(), OgreError>, w: DocView| #[trigger]
        a.does(v, r, w) implies b.does(v, r, w) by {
        let states = choose|states: Seq<DocView>| #[trigger]
            ran(a.commands@, states, states.len() - 1) && states[0] == v && match r {
                Ok(_) => states.len() == a.commands@.len() + 1 && w == states.last(),
                Err(e) => states.len() <= a.commands@.len() && fails_in(
                    a.commands@[states.len() - 1],
                    states.last(),
                    e,
                ),
            };
        let n = states.len() - 1;
        assert forall|i: int| 0 <= i < n implies #[trigger] runs(b.commands@, states, i) by {
            assert(runs(a.commands@, states, i));
            assert(same_deed(a.commands@[i], b.commands@[i]));
        }
        assert(ran(b.commands@, states, n));
        if let Err(e) = r {
            assert(same_deed(a.commands@[n], b.commands@[n]));
            let x = choose|x: DocView| #[trigger] a.commands@[n].cmd.does(states[n], Err(e), x);
            assert(b.commands@[n].cmd.does(states[n], Err(e), x));
            assert(fails_in(b.commands@[n], states.last(), e));
        }
    }
}

/// What the commands need exists where they are to be undone, and no layer is lost
/// on the way.
proof fn lemma_chain_keeps(cmds: Seq<Entry>, states: Seq<DocView>, n: int, k: int)
    requires
        chained(cmds, states, n),
        0 <= k <= n,
    ensures
        refs_before(cmds, k).subset_of(states[k].layers.dom()),
        states[0].layers.dom().subset_of(states[k].layers.dom()),
    decreases k,
{
    if k > 0 {
        lemma_chain_keeps(cmds, states, n, k - 1);
        assert(stepped(cmds, states, k - 1));
        assert forall|x: LayerId| refs_before(cmds, k).contains(x) implies states[k].layers.dom().contains(
            x,
        ) by {
            if refs_before(cmds, k - 1).contains(x) {
                assert(states[k - 1].has(x));
                assert(states[k].has(x));
            } else {
                assert(cmds[k - 1].cmd.refs().contains(x));
                assert(states[k].has(x));
            }
        }
        assert forall|x: LayerId| states[0].layers.dom().contains(x) implies states[k].layers.dom().contains(
            x,
        ) by {
            assert(states[k - 1].has(x));
            assert(states[k].has(x));
        }
    } else {
        assert(refs_before(cmds, 0) =~= Set::empty());
    }
}

/// The commands can be undone from `now`, back to the picture of the first state.
pub open spec fn due(
    cmds: Seq<Entry>,
    now: DocView,
    states: Seq<DocView>,
    keep: Set<LayerId>,
) -> bool {
    let n = states.len() - 1;
    &&& states.len() > 0
    &&& chained(cmds, states, n)
    &&& keep.subset_of(states[0].layers.dom())
    &&& same_picture(states[n], now, keep.union(refs_before(cmds, n)))
}

/// Undoing the first `n` commands, the last one first, turns `now` into `fin`.
pub open spec fn taken_back(cmds: Seq<Entry>, n: int, now: DocView, fin: DocView) -> bool
    decreases n,
{
    if n <= 0 {
        fin == now
    } else {
        exists|m: DocView| #[trigger]
            cmds[n - 1].cmd.undoes(now, m) && taken_back(cmds, n - 1, m, fin)
    }
}

impl BatchCmd {
    /// Undo the first `n` commands, the last one first.
    fn take_back(&mut self, doc: &mut Document, n: usize)
        requires
            n <= old(self).commands@.len(),
            forall|i: int|
                0 <= i < old(self).commands@.len() ==> (#[trigger] old(self).commands@[i]).cmd.wf(),
            old(doc).wf(),
        ensures
            final(self).label == old(self).label,
            final(self).commands@.len() == old(self).commands@.len(),
            forall|i: int|
                0 <= i < final(self).commands@.len() ==> (
                #[trigger] final(self).commands@[i]).cmd.wf() && final(self).commands@[i].cmd.adds()
                    == old(self).commands@[i].cmd.adds(),
            forall|i: int|
                0 <= i < final(self).commands@.len() ==> alike(
                    #[trigger] final(self).commands@[i],
                    old(self).commands@[i],
                ),
            final(doc).wf(),
            final(doc).used() <= old(doc).used(),
            taken_back(old(self).commands@, n as int, old(doc)@, final(doc)@),
            owned(old(doc)@) ==> owned(final(doc)@),
            forall|states: Seq<DocView>, keep: Set<LayerId>|
                #![trigger due(old(self).commands@, old(doc)@, states, keep)]
                states.len() == n + 1 && due(old(self).commands@, old(doc)@, states, keep)
                    ==> same_picture(states[0], final(doc)@, keep),
    {
        let ghost cmds = self.commands@;
        let ghost d0 = doc@;
        let mut k: usize = n;
        while k > 0
            invariant
                k <= n <= cmds.len(),
                cmds == old(self).commands@,
                d0 == old(doc)@,
                self.label == old(self).label,
                self.commands@.len() == cmds.len(),
                doc.wf(),
                doc.used() <= old(doc).used(),
                forall|fin: DocView| #[trigger]
                    taken_back(cmds, k as int, doc@, fin) ==> taken_back(cmds, n as int, d0, fin),
                owned(d0) ==> owned(doc@),
                forall|i: int| 0 <= i < cmds.len() ==> (#[trigger] cmds[i]).cmd.wf(),
                forall|i: int|
                    0 <= i < cmds.len() ==> (#[trigger] self.commands@[i]).cmd.wf()
                        && self.commands@[i].cmd.adds() == cmds[i].cmd.adds(),
                forall|i: int| 0 <= i < k ==> #[trigger] self.commands@[i] == cmds[i],
                forall|i: int| 0 <= i < cmds.len() ==> alike(#[trigger] self.commands@[i], cmds[i]),
                forall|states: Seq<DocView>, keep: Set<LayerId>|
                    #![trigger due(cmds, d0, states, keep)]
                    states.len() == n + 1 && due(cmds, d0, states, keep) ==> same_picture(
                        states[k as int],
                        doc@,
                        keep.union(refs_before(cmds, k as int)),
                    ),
            decreases k,
        {
            let ghost prev = doc@;
            k = k - 1;
            let ghost cmd = self.commands@[k as int].cmd;
            assert(self.commands@[k as int] == cmds[k as int]);
            self.commands[k].cmd.undo(doc);
            proof {
                assert forall|fin: DocView| #[trigger]
                    taken_back(cmds, k as int, doc@, fin) implies taken_back(
                    cmds,
                    n as int,
                    d0,
                    fin,
                ) by {
                    assert(cmds[k as int].cmd.undoes(prev, doc@));
                    assert(taken_back(cmds, k + 1, prev, fin));
                }
                assert forall|states: Seq<DocView>, keep: Set<LayerId>|
                    #![trigger due(cmds, d0, states, keep)]
                    states.len() == n + 1 && due(cmds, d0, states, keep) implies same_picture(
                    states[k as int],
                    doc@,
                    keep.union(refs_before(cmds, k as int)),
                ) by {
                    let less = keep.union(refs_before(cmds, k as int));
                    lemma_chain_keeps(cmds, states, n as int, k as int);
                    assert(less.union(cmd.refs()) =~= keep.union(refs_before(cmds, k + 1)));
                    assert(stepped(cmds, states, k as int));
                    assert(less.subset_of(states[k as int].layers.dom()));
                }
            }
        }
        proof {
            assert(taken_back(cmds, 0, doc@, doc@));
            assert forall|states: Seq<DocView>, keep: Set<LayerId>|
                #![trigger due(cmds, d0, states, keep)]
                states.len() == n + 1 && due(cmds, d0, states, keep) implies same_picture(
                states[0],
                doc@,
                keep,
            ) by {
                assert(keep.union(refs_before(cmds, 0)) =~= keep);
            }
        }
    }
}

impl Command for BatchCmd {
    open spec fn wf(&self) -> bool {
        forall|i: int| 0 <= i < self.commands@.len() ==> (#[trigger] self.commands@[i]).cmd.wf()
    }

    open spec fn name(&self) -> Seq<char> {
        self.label@
    }

    open spec fn adds(&self) -> nat {
        adds_before(self.commands@, self.commands@.len() as int)
    }

    open spec fn refs(&self) -> Set<LayerId> {
        refs_before(self.commands@, self.commands@.len() as int)
    }

    open spec fn reverts(&self, then: DocView, after: DocView) -> bool {
        exists|states: Seq<DocView>| #[trigger]
            chained(self.commands@, states, self.commands@.len() as int) && states[0] == then
                && states[self.commands@.len() as int] == after
    }

    open spec fn fits(&self, v: DocView) -> bool {
        forall|states: Seq<DocView>, i: int|
            i < self.commands@.len() && #[trigger] ran(self.commands@, states, i) && states[0] == v
                ==> self.commands@[i].cmd.fits(states[i])
    }

    open spec fn spares(&self, v: DocView, keep: Set<LayerId>) -> bool {
        forall|i: int, w: DocView|
            0 <= i < self.commands@.len() && same_picture(v, w, keep)
                ==> #[trigger] self.commands@[i].cmd.spares(w, keep)
    }

    open spec fn undoes(&self, now: DocView, fin: DocView) -> bool {
        taken_back(self.commands@, self.commands@.len() as int, now, fin)
    }

    open spec fn cleans(&self, v: DocView, w: DocView) -> bool {
        cleaned(self.commands@, v, w)
    }

    open spec fn learns(&self) -> bool {
        exists|i: int| 0 <= i < self.commands@.len() && (#[trigger] self.commands@[i]).cmd.learns()
    }

    open spec fn does(&self, then: DocView, r: Result<(), OgreError>, after: DocView) -> bool {
        exists|states: Seq<DocView>| #[trigger]
            ran(self.commands@, states, states.len() - 1) && states[0] == then && match r {
                Ok(_) => states.len() == self.commands@.len() + 1 && after == states.last(),
                Err(e) => states.len() <= self.commands@.len() && fails_in(
                    self.commands@[states.len() - 1],
                    states.last(),
                    e,
                ),
            }
    }

    open spec fn steady(&self, then: DocView) -> bool {
        forall|states: Seq<DocView>, i: int|
            i < self.commands@.len() && #[trigger] ran(self.commands@, states, i) && states[0]
                == then ==> self.commands@[i].cmd.steady(states[i])
    }

    fn label(&self) -> (r: &'static str) {
        self.label
    }

    fn apply(&mut self, doc: &mut Document) -> (r: Result<(), OgreError>) {
        let n: usize = self.commands.len();
        let ghost cmds = self.commands@;
        let ghost v = doc@;
        let ghost sound = tidy(v) && self.fits(v);
        let ghost mut states: Seq<DocView> = seq![doc@];
        let mut i: usize = 0;
        while i < n
            invariant
                i <= n,
                n == cmds.len(),
                cmds == old(self).commands@,
                v == old(doc)@,
                sound == (tidy(v) && old(self).fits(v)),
                self.label == old(self).label,
                self.commands@.len() == n,
                doc.wf(),
                old(doc).room(adds_before(cmds, n as int)),
                doc.used() <= old(doc).used() + adds_before(cmds, i as int),
                forall|j: int|
                    0 <= j < n ==> (#[trigger] self.commands@[j]).cmd.wf()
                        && self.commands@[j].cmd.adds() == cmds[j].cmd.adds(),
                forall|j: int| i <= j < n ==> #[trigger] self.commands@[j] == cmds[j],
                forall|j: int| 0 <= j < n ==> alike(#[trigger] self.commands@[j], cmds[j]),
                states.len() == i + 1,
                states[0] == v,
                states[i as int] == doc@,
                ran(cmds, states, i as int),
                forall|was: Seq<DocView>, keep: Set<LayerId>|
                    #![trigger ran(cmds, was, n as int), same_picture(was[0], v, keep)]
                    old(self).steady(was[0]) && ran(cmds, was, n as int) && same_picture(
                        was[0],
                        v,
                        keep,
                    ) ==> same_picture(was[i as int], doc@, keep),
                sound ==> tidy(doc@) && chained(self.commands@, states, i as int),
            decreases n - i,
        {
            proof {
                lemma_adds(cmds, i + 1, n as int);
                assert(self.commands@[i as int] == cmds[i as int]);
                assert(sound ==> cmds[i as int].cmd.fits(doc@));
            }
            let ghost earlier = self.commands@;
            let ghost here = doc@;
            let res: Result<(), OgreError> = self.commands[i].cmd.apply(doc);
            proof {
                assert(forall|j: int| 0 <= j < i ==> #[trigger] self.commands@[j] == earlier[j]);
                assert(alike(self.commands@[i as int], cmds[i as int]));
                assert forall|j: int| 0 <= j < n implies alike(
                    #[trigger] self.commands@[j],
                    cmds[j],
                ) by {
                    if j != i {
                        assert(self.commands@[j] == earlier[j]);
                    }
                }
                assert forall|was: Seq<DocView>, keep: Set<LayerId>|
                    #![trigger ran(cmds, was, n as int), same_picture(was[0], v, keep)]
                    old(self).steady(was[0]) && ran(cmds, was, n as int) && same_picture(
                        was[0],
                        v,
                        keep,
                    ) implies res is Ok && same_picture(was[i + 1], doc@, keep) by {
                    let less = was.take(i + 1);
                    assert forall|j: int| 0 <= j < i implies #[trigger] runs(cmds, less, j) by {
                        assert(runs(cmds, was, j));
                    }
                    assert(ran(cmds, less, i as int));
                    assert(cmds[i as int].cmd.steady(less[i as int]));
                    assert(runs(cmds, was, i as int));
                    assert(cmds[i as int].cmd.does(was[i as int], Ok(()), was[i + 1]));
                    assert(same_picture(was[i as int], here, keep));
                }
            }
            if let Err(e) = res {
                let ghost failed = self.commands@;
                let ghost d = doc@;
                self.take_back(doc, i);
                proof {
                    assert(cmds[i as int].cmd.does(states[i as int], Err(e), d));
                    assert(fails_in(cmds[i as int], states.last(), e));
                    assert(ran(old(self).commands@, states, states.len() - 1));
                    assert forall|j: int| 0 <= j < n implies alike(
                        #[trigger] self.commands@[j],
                        cmds[j],
                    ) by {
                        assert(alike(self.commands@[j], failed[j]));
                        assert(alike(failed[j], cmds[j]));
                    }
                    lemma_same_batch(*self, *old(self));
                    lemma_adds_same(self.commands@, cmds, n as int);
                    if sound {
                        assert(chained(failed, states, i as int)) by {
                            assert forall|j: int| 0 <= j < i implies #[trigger] stepped(
                                failed,
                                states,
                                j,
                            ) by {
                                assert(stepped(earlier, states, j));
                                assert(failed[j] == earlier[j]);
                            }
                        }
                        assert forall|keep: Set<LayerId>|
                            keep.subset_of(v.layers.dom()) implies #[trigger] same_picture(
                            v,
                            doc@,
                            keep,
                        ) by {
                            lemma_chain_keeps(failed, states, i as int, i as int);
                            let more = keep.union(refs_before(failed, i as int));
                            assert(more.subset_of(states[i as int].layers.dom()));
                            assert(same_picture(states[i as int], d, more));
                            assert(due(failed, d, states, keep));
                        }
                        assert(Set::<LayerId>::empty().subset_of(v.layers.dom()));
                        pictures_share_the_tree(v, doc@, Set::empty());
                    }
                }
                return Err(e);
            }
            proof {
                let now = states.push(doc@);
                assert(res->Ok_0 == ());
                assert forall|j: int| 0 <= j < i + 1 implies #[trigger] runs(cmds, now, j) by {
                    if j < i {
                        assert(runs(cmds, states, j));
                    }
                }
                if sound {
                    assert forall|j: int| 0 <= j < i + 1 implies #[trigger] stepped(
                        self.commands@,
                        now,
                        j,
                    ) by {
                        if j < i {
                            assert(self.commands@[j] == earlier[j]);
                            assert(stepped(earlier, states, j));
                        }
                    }
                }
                states = now;
            }
            i = i + 1;
        }
        proof {
            assert(ran(old(self).commands@, states, states.len() - 1));
            lemma_same_batch(*self, *old(self));
            lemma_adds_same(self.commands@, cmds, n as int);
            if sound {
                assert(chained(self.commands@, states, self.commands@.len() as int));
                lemma_chain_keeps(self.commands@, states, n as int, n as int);
                assert forall|x: LayerId| #[trigger] self.refs().contains(x) implies doc@.has(
                    x,
                ) by {
                    assert(states[n as int].layers.dom().contains(x));
                }
                assert forall|x: LayerId| #[trigger] v.has(x) implies doc@.has(x) by {
                    assert(states[n as int].layers.dom().contains(x));
                }
            }
        }
        Ok(())
    }

    fn undo(&mut self, doc: &mut Document) {
        let n: usize = self.commands.len();
        self.take_back(doc, n);
        proof {
            lemma_same_batch(*self, *old(self));
            lemma_adds_same(self.commands@, old(self).commands@, n as int);
            assert forall|then: DocView, after: DocView, keep: Set<LayerId>|
                #![trigger old(self).reverts(then, after), same_picture(then, doc@, keep)]
                old(self).reverts(then, after) && keep.subset_of(then.layers.dom()) && same_picture(
                    after,
                    old(doc)@,
                    keep.union(old(self).refs()),
                ) implies same_picture(then, doc@, keep) by {
                let states = choose|states: Seq<DocView>| #[trigger]
                    chained(old(self).commands@, states, n as int) && states[0] == then
                        && states[n as int] == after;
                assert(due(old(self).commands@, old(doc)@, states, keep));
            }
        }
    }

    fn cleanup(&self, doc: &mut Document) {
        let mut i: usize = 0;
        let ghost v = doc@;
        proof {
            assert(self.commands@.take(0) =~= Seq::empty());
            assert forall|keep: Set<LayerId>| #[trigger] self.spares(v, keep) implies same_picture(
                v,
                doc@,
                keep,
            ) by {
                pictures_agree_with_themselves(v, keep);
            }
        }
        while i < self.commands.len()
            invariant
                self.wf(),
                i <= self.commands@.len(),
                v == old(doc)@,
                doc.wf(),
                doc.used() <= old(doc).used(),
                cleaned(self.commands@.take(i as int), v, doc@),
                owned(v) ==> owned(doc@),
                forall|keep: Set<LayerId>| #[trigger]
                    self.spares(v, keep) ==> same_picture(v, doc@, keep),
            decreases self.commands@.len() - i,
        {
            let ghost d = doc@;
            self.commands[i].cmd.cleanup(doc);
            proof {
                lemma_cleaned_on(self.commands@, i as int, v, d, doc@);
                assert forall|keep: Set<LayerId>| #[trigger] self.spares(
                    v,
                    keep,
                ) implies same_picture(v, doc@, keep) by {
                    assert(self.commands@[i as int].cmd.spares(d, keep));
                    assert(same_picture(d, doc@, keep));
                    pictures_chain(v, d, doc@, keep);
                }
            }
            i = i + 1;
        }
        assert(self.commands@.take(i as int) =~= self.commands@);
    }

    fn referenced_layers(&self) -> (r: Vec<LayerId>) {
        let mut out: Vec<LayerId> = Vec::new();
        let mut i: usize = 0;
        while i < self.commands.len()
            invariant
                self.wf(),
                i <= self.commands@.len(),
                out@.no_duplicates(),
                forall|x: LayerId| #[trigger]
                    out@.contains(x) <==> refs_before(self.commands@, i as int).contains(x),
            decreases self.commands@.len() - i,
        {
            let ids: Vec<LayerId> = self.commands[i].cmd.referenced_layers();
            let ghost was = out@;
            merge_ids(&mut out, &ids);
            proof {
                assert forall|x: LayerId| #[trigger]
                    out@.contains(x) <==> refs_before(self.commands@, i + 1).contains(x) by {
                    assert(was.contains(x) <==> refs_before(self.commands@, i as int).contains(x));
                    assert(ids@.contains(x) <==> self.commands@[i as int].cmd.refs().contains(x));
                }
            }
            i = i + 1;
        }
        out
    }
}

/// Add identifiers to a list, leaving out those it holds already.
fn merge_ids(out: &mut Vec<LayerId>, ids: &Vec<LayerId>)
    ensures
        forall|x: LayerId| #[trigger]
            final(out)@.contains(x) <==> old(out)@.contains(x) || ids@.contains(x),
        old(out)@.no_duplicates() ==> final(out)@.no_duplicates(),
{
    let ghost was = out@;
    let mut i: usize = 0;
    while i < ids.len()
        invariant
            i <= ids@.len(),
            was == old(out)@,
            was.no_duplicates() ==> out@.no_duplicates(),
            forall|x: LayerId| #[trigger]
                out@.contains(x) <==> was.contains(x) || ids@.take(i as int).contains(x),
        decreases ids@.len() - i,
    {
        let id: LayerId = ids[i];
        let ghost now = out@;
        if !lists(out, id) {
            out.push(id);
        }
        proof {
            assert forall|x: LayerId| #[trigger] out@.contains(x) <==> was.contains(x) || ids@.take(
                i + 1,
            ).contains(x) by {
                assert(now.contains(x) <==> was.contains(x) || ids@.take(i as int).contains(x));
                lemma_take_one_more(ids@, i as int, x);
                lemma_push_contains(now, id, x);
            }
        }
        i = i + 1;
    }
    assert(ids@.take(i as int) =~= ids@);
}

proof fn lemma_take_one_more(s: Seq<LayerId>, i: int, x: LayerId)
    requires
        0 <= i < s.len(),
    ensures
        s.take(i + 1).contains(x) <==> s.take(i).contains(x) || x == s[i],
{
    assert(s.take(i + 1) =~= s.take(i).push(s[i]));
    lemma_push_contains(s.take(i), s[i], x);
}

proof fn lemma_push_contains(s: Seq<LayerId>, id: LayerId, x: LayerId)
    ensures
        s.push(id).contains(x) <==> s.contains(x) || x == id,
{
    if s.contains(x) {
        let j = choose|j: int| 0 <= j < s.len() && s[j] == x;
        assert(s.push(id)[j] == x);
    }
    if s.push(id).contains(x) {
        let j = choose|j: int| 0 <= j < s.push(id).len() && s.push(id)[j] == x;
        if j < s.len() {
            assert(s[j] == x);
        }
    }
    assert(s.push(id)[s.len() as int] == id);
}

} // verus!
