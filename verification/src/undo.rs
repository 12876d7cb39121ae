//! The undo engine: the undo and redo stacks of every user in every file, the
//! recording of committed changes into events, and undo and redo themselves.

use vstd::prelude::*;
use crate::cache::{spec_prior_changes, ProjectionCache};
use crate::invert::{invert_changes, spec_invert, spec_queries};
use crate::model::{views, Change, ChangeSource, ChangeView, EntryView, Error, PendingChange, UndoEntry};
use crate::stacks::{StacksView, UndoEvent, UserStacks};
use crate::table::Table;

verus! {

/// What an undo event remembers of a committed change: its object, its offset
/// and the kind of its operation.
pub open spec fn spec_entry_of(change: ChangeView) -> EntryView {
    EntryView { obj_id: change.id, offset: change.offset, applied_op_kind: change.op.kind() }
}

/// The stacks of all users, by file and by user.
pub struct UndoEngine {
    files: Table<Table<UserStacks>>,
}

impl UndoEngine {
    /// No file and no user is listed twice, and no event is empty.
    pub closed spec fn wf(&self) -> bool {
        &&& self.files.wf()
        &&& forall|f: int| 0 <= f < self.files.values.len() ==> (#[trigger] self.files.values[f]).wf()
        &&& forall|f: int, u: int|
            0 <= f < self.files.values.len() && 0 <= u < self.files.values[f].values.len() ==> (
            #[trigger] self.files.values[f].values[u])@.wf()
    }

    /// No event on any stack is empty.
    pub proof fn lemma_no_empty_event(&self, file: Seq<char>, user: Seq<char>)
        requires
            self.wf(),
        ensures
            self.stacks(file, user).wf(),
    {
        if self.files.has(file) && self.files.value(file).has(user) {
            let f = self.files.slot(file);
            let u = self.files.values[f].slot(user);
            assert(self.files.values[f].values[u]@.wf());
        }
    }

    /// The stacks of a user in a file; empty ones where nothing was recorded.
    pub closed spec fn stacks(&self, file: Seq<char>, user: Seq<char>) -> StacksView {
        if self.files.has(file) && self.files.value(file).has(user) {
            self.files.value(file).value(user)@
        } else {
            StacksView::empty()
        }
    }

    /// Whether the stacks of a user in a file are held at the given positions.
    closed spec fn held_at(&self, file: Seq<char>, user: Seq<char>, f: int, u: int) -> bool {
        &&& self.files.has(file)
        &&& self.files.slot(file) == f
        &&& 0 <= f < self.files.values.len()
        &&& self.files.values[f].has(user)
        &&& self.files.values[f].slot(user) == u
        &&& 0 <= u < self.files.values[f].values.len()
    }

    /// Whether the engine differs from an earlier one in nothing but the
    /// stacks held at the given positions.
    closed spec fn touched_at(&self, earlier: &Self, f: int, u: int) -> bool {
        &&& self.files.keys@ == earlier.files.keys@
        &&& self.files.values.len() == earlier.files.values.len()
        &&& forall|g: int| 0 <= g < self.files.values.len() && g != f ==> self.files.values[g] == earlier.files.values[g]
        &&& self.files.values[f].keys@ == earlier.files.values[f].keys@
        &&& self.files.values[f].values.len() == earlier.files.values[f].values.len()
        &&& forall|v: int|
            0 <= v < self.files.values[f].values.len() && v != u ==> self.files.values[f].values[v]
                == earlier.files.values[f].values[v]
    }

    /// An engine that differs from an earlier one only in the stacks of one
    /// user in one file holds the same stacks for everyone else.
    proof fn lemma_touched(&self, earlier: &Self, file: Seq<char>, user: Seq<char>, f: int, u: int)
        requires
            earlier.wf(),
            self.touched_at(earlier, f, u),
            earlier.held_at(file, user, f, u),
            self.files.values[f].values[u]@.wf(),
        ensures
            self.wf(),
            self.held_at(file, user, f, u),
            self.stacks(file, user) == self.files.values[f].values[u]@,
            earlier.stacks(file, user) == earlier.files.values[f].values[u]@,
            forall|file2: Seq<char>, user2: Seq<char>|
                file2 != file || user2 != user ==> #[trigger] self.stacks(file2, user2) == earlier.stacks(
                    file2,
                    user2,
                ),
    {
        assert forall|key: Seq<char>| #[trigger] self.files.has(key) == earlier.files.has(key)
            && self.files.slot(key) == earlier.files.slot(key) by {
            self.files.lemma_same_keys(&earlier.files, key);
        }
        assert forall|key: Seq<char>| #[trigger] self.files.values[f].has(key) == earlier.files.values[f].has(key)
            && self.files.values[f].slot(key) == earlier.files.values[f].slot(key) by {
            self.files.values[f].lemma_same_keys(&earlier.files.values[f], key);
        }
        assert(self.files.wf()) by {
            assert forall|i: int, j: int| 0 <= i < j < self.files.keys.len() implies (
            #[trigger] self.files.keys[i])@ != (#[trigger] self.files.keys[j])@ by {
                assert(earlier.files.keys[i]@ != earlier.files.keys[j]@);
            }
        }
        assert(earlier.files.values[f].wf());
        assert(self.files.values[f].wf()) by {
            let now = self.files.values[f];
            let then = earlier.files.values[f];
            assert forall|i: int, j: int| 0 <= i < j < now.keys.len() implies (#[trigger] now.keys[i])@ != (
            #[trigger] now.keys[j])@ by {
                assert(then.keys[i]@ != then.keys[j]@);
            }
        }
        assert forall|g: int| 0 <= g < self.files.values.len() implies (#[trigger] self.files.values[g]).wf() by {
            if g != f {
                assert(earlier.files.values[g].wf());
            }
        }
        assert forall|g: int, v: int|
            0 <= g < self.files.values.len() && 0 <= v < self.files.values[g].values.len() implies (
        #[trigger] self.files.values[g].values[v])@.wf() by {
            if g != f {
                assert(self.files.values[g] == earlier.files.values[g]);
                assert(earlier.files.values[g].values[v]@.wf());
            } else if v != u {
                assert(self.files.values[f].values[v] == earlier.files.values[f].values[v]);
                assert(earlier.files.values[f].values[v]@.wf());
            }
        }
        assert forall|file2: Seq<char>, user2: Seq<char>| file2 != file || user2 != user implies #[trigger] self.stacks(
            file2,
            user2,
        ) == earlier.stacks(file2, user2) by {
            if self.files.has(file2) {
                let g = self.files.slot(file2);
                assert(0 <= g < self.files.keys.len() && self.files.keys[g]@ == file2);
                if g != f {
                    assert(self.files.values[g] == earlier.files.values[g]);
                } else {
                    assert(earlier.files.keys[f]@ == file);
                    if self.files.values[f].has(user2) {
                        let v = self.files.values[f].slot(user2);
                        assert(0 <= v < self.files.values[f].keys.len() && self.files.values[f].keys[v]@ == user2);
                        assert(earlier.files.values[f].keys[u]@ == user);
                    }
                }
            }
        }
    }

    /// An engine without stacks.
    pub fn new() -> (res: Self)
        ensures
            res.wf(),
            forall|file: Seq<char>, user: Seq<char>| res.stacks(file, user) == StacksView::empty(),
    {
        UndoEngine { files: Table::new() }
    }

    /// The positions of a user's stacks, which are made first where the user
    /// has none. What every user can undo and redo stays as it is.
    fn slots_of(&mut self, file: &str, user: &str) -> (at: (usize, usize))
        requires
            old(self).wf(),
        ensures
            final(self).wf(),
            final(self).held_at(file@, user@, at.0 as int, at.1 as int),
            forall|file2: Seq<char>, user2: Seq<char>| #[trigger]
                final(self).stacks(file2, user2) == old(self).stacks(file2, user2),
    {
        let f = self.files.slot_or_insert(file, Table::new());
        let ghost mid = *self;
        proof {
            assert forall|g: int| 0 <= g < self.files.values.len() implies (#[trigger] self.files.values[g]).wf() by {
                if old(self).files.has(file@) {
                    assert(old(self).files.values[g].wf());
                } else if g < f {
                    assert(self.files.values[g] == old(self).files.values[g]);
                    assert(old(self).files.values[g].wf());
                }
            }
            assert forall|file2: Seq<char>, user2: Seq<char>| #[trigger]
                self.stacks(file2, user2) == old(self).stacks(file2, user2) by {
                if file2 != file@ {
                    assert(self.files.has(file2) == old(self).files.has(file2));
                    if old(self).files.has(file2) {
                        let g = old(self).files.slot(file2);
                        assert(self.files.values[g] == old(self).files.values[g]);
                    }
                }
            }
        }
        let fresh = UserStacks::new();
        let u = self.files.values[f].slot_or_insert(user, fresh);
        proof {
            assert forall|key: Seq<char>| #[trigger] self.files.has(key) == mid.files.has(key) && self.files.slot(
                key,
            ) == mid.files.slot(key) by {
                self.files.lemma_same_keys(&mid.files, key);
            }
            assert(self.files.wf()) by {
                assert forall|i: int, j: int| 0 <= i < j < self.files.keys.len() implies (
                #[trigger] self.files.keys[i])@ != (#[trigger] self.files.keys[j])@ by {
                    assert(mid.files.keys[i]@ != mid.files.keys[j]@);
                }
            }
            assert forall|g: int| 0 <= g < self.files.values.len() implies (#[trigger] self.files.values[g]).wf() by {
                if g != f {
                    assert(self.files.values[g] == mid.files.values[g]);
                    assert(mid.files.values[g].wf());
                }
            }
            assert forall|file2: Seq<char>, user2: Seq<char>| #[trigger]
                self.stacks(file2, user2) == mid.stacks(file2, user2) by {
                if self.files.has(file2) {
                    let g = self.files.slot(file2);
                    if g != f {
                        assert(self.files.values[g] == mid.files.values[g]);
                    } else {
                        let now = self.files.values[f as int];
                        let then = mid.files.values[f as int];
                        if user2 != user@ {
                            assert(now.has(user2) == then.has(user2));
                            if then.has(user2) {
                                let v = then.slot(user2);
                                assert(0 <= v < then.keys.len());
                                if then.has(user@) {
                                    assert(now.values@ == then.values@);
                                } else {
                                    assert(now.values[v] == then.values[v]);
                                }
                            }
                        } else {
                            if then.has(user@) {
                                assert(now.values@ == then.values@);
                            }
                        }
                    }
                }
            }
        }
        (f, u)
    }

    /// Marks the beginning of an undo event for a user in a file: the user's
    /// next recorded change starts a new event.
    pub fn begin_undo_event(&mut self, file: &str, user: &str)
        requires
            old(self).wf(),
        ensures
            final(self).wf(),
            final(self).stacks(file@, user@) == old(self).stacks(file@, user@).begin(),
            forall|file2: Seq<char>, user2: Seq<char>|
                file2 != file@ || user2 != user@ ==> #[trigger] final(self).stacks(file2, user2) == old(
                    self,
                ).stacks(file2, user2),
    {
        let (f, u) = self.slots_of(file, user);
        let ghost mid = *self;
        self.files.values[f].values[u].begin();
        proof {
            assert(mid.stacks(file@, user@) == old(self).stacks(file@, user@));
            self.lemma_touched(&mid, file@, user@, f as int, u as int);
        }
    }

    /// Records a committed change of a file's stream in the stacks of the user
    /// who made it.
    pub fn record_change(&mut self, file: &str, change: &Change)
        requires
            old(self).wf(),
        ensures
            final(self).wf(),
            final(self).stacks(file@, change@.user) == old(self).stacks(file@, change@.user).record(
                spec_entry_of(change@),
                change@.source,
            ),
            forall|file2: Seq<char>, user2: Seq<char>|
                file2 != file@ || user2 != change@.user ==> #[trigger] final(self).stacks(file2, user2) == old(
                    self,
                ).stacks(file2, user2),
    {
        let (f, u) = self.slots_of(file, change.user.as_str());
        let ghost mid = *self;
        let entry = UndoEntry {
            obj_id: change.id.clone(),
            offset: change.offset,
            applied_op_kind: change.op.kind(),
        };
        self.files.values[f].values[u].record(entry, change.source);
        proof {
            assert(mid.stacks(file@, change@.user) == old(self).stacks(file@, change@.user));
            self.lemma_touched(&mid, file@, change@.user, f as int, u as int);
        }
    }

    /// A copy of the event that the user's next undo would take back.
    pub fn peek_undo(&self, file: &str, user: &str) -> (res: Result<UndoEvent, Error>)
        requires
            self.wf(),
        ensures
            match res {
                Ok(event) => self.stacks(file@, user@).undo.len() > 0 && views(event@) == self.stacks(
                    file@,
                    user@,
                ).undo.last(),
                Err(e) => e == Error::EmptyStack && self.stacks(file@, user@).undo.len() == 0,
            },
    {
        match self.files.find(file) {
            Some(f) => {
                assert(self.files.values[f as int].wf());
                match self.files.values[f].find(user) {
                    Some(u) => match self.files.values[f].values[u].top_undo() {
                        Some(event) => Ok(event),
                        None => Err(Error::EmptyStack),
                    },
                    None => Err(Error::EmptyStack),
                }
            },
            None => Err(Error::EmptyStack),
        }
    }

    /// A copy of the event that the user's next redo would bring back.
    pub fn peek_redo(&self, file: &str, user: &str) -> (res: Result<UndoEvent, Error>)
        requires
            self.wf(),
        ensures
            match res {
                Ok(event) => self.stacks(file@, user@).redo.len() > 0 && views(event@) == self.stacks(
                    file@,
                    user@,
                ).redo.last(),
                Err(e) => e == Error::EmptyStack && self.stacks(file@, user@).redo.len() == 0,
            },
    {
        match self.files.find(file) {
            Some(f) => {
                assert(self.files.values[f as int].wf());
                match self.files.values[f].find(user) {
                    Some(u) => match self.files.values[f].values[u].top_redo() {
                        Some(event) => Ok(event),
                        None => Err(Error::EmptyStack),
                    },
                    None => Err(Error::EmptyStack),
                }
            },
            None => Err(Error::EmptyStack),
        }
    }

    /// Takes the latest event off a user's undo stack. With nothing to undo
    /// it fails and nothing changes.
    pub fn pop_undo(&mut self, file: &str, user: &str) -> (res: Result<UndoEvent, Error>)
        requires
            old(self).wf(),
        ensures
            final(self).wf(),
            forall|file2: Seq<char>, user2: Seq<char>|
                file2 != file@ || user2 != user@ ==> #[trigger] final(self).stacks(file2, user2) == old(
                    self,
                ).stacks(file2, user2),
            match res {
                Ok(event) => {
                    &&& old(self).stacks(file@, user@).undo.len() > 0
                    &&& views(event@) == old(self).stacks(file@, user@).undo.last()
                    &&& final(self).stacks(file@, user@) == old(self).stacks(file@, user@).pop_undo()
                },
                Err(e) => {
                    &&& e == Error::EmptyStack
                    &&& old(self).stacks(file@, user@).undo.len() == 0
                    &&& final(self).stacks(file@, user@) == old(self).stacks(file@, user@)
                },
            },
    {
        let (f, u) = self.slots_of(file, user);
        let ghost mid = *self;
        let res = self.files.values[f].values[u].pop_undo();
        proof {
            assert(mid.stacks(file@, user@) == old(self).stacks(file@, user@));
            self.lemma_touched(&mid, file@, user@, f as int, u as int);
        }
        res
    }

    /// Takes the latest event off a user's redo stack. With nothing to redo
    /// it fails and nothing changes.
    pub fn pop_redo(&mut self, file: &str, user: &str) -> (res: Result<UndoEvent, Error>)
        requires
            old(self).wf(),
        ensures
            final(self).wf(),
            forall|file2: Seq<char>, user2: Seq<char>|
                file2 != file@ || user2 != user@ ==> #[trigger] final(self).stacks(file2, user2) == old(
                    self,
                ).stacks(file2, user2),
            match res {
                Ok(event) => {
                    &&& old(self).stacks(file@, user@).redo.len() > 0
                    &&& views(event@) == old(self).stacks(file@, user@).redo.last()
                    &&& final(self).stacks(file@, user@) == old(self).stacks(file@, user@).pop_redo()
                },
                Err(e) => {
                    &&& e == Error::EmptyStack
                    &&& old(self).stacks(file@, user@).redo.len() == 0
                    &&& final(self).stacks(file@, user@) == old(self).stacks(file@, user@)
                },
            },
    {
        let (f, u) = self.slots_of(file, user);
        let ghost mid = *self;
        let res = self.files.values[f].values[u].pop_redo();
        proof {
            assert(mid.stacks(file@, user@) == old(self).stacks(file@, user@));
            self.lemma_touched(&mid, file@, user@, f as int, u as int);
        }
        res
    }

    /// Takes the user's latest event off the undo stack and computes, from the
    /// states that the cache holds, the changes that take it back.
    pub fn undo_latest(&mut self, cache: &ProjectionCache, file: &str, user: &str) -> (res: Result<
        Vec<PendingChange>,
        Error,
    >)
        requires
            old(self).wf(),
            cache.wf(),
        ensures
            final(self).wf(),
            forall|file2: Seq<char>, user2: Seq<char>|
                file2 != file@ || user2 != user@ ==> #[trigger] final(self).stacks(file2, user2) == old(
                    self,
                ).stacks(file2, user2),
            match res {
                Ok(changes) => {
                    &&& old(self).stacks(file@, user@).undo.len() > 0
                    &&& final(self).stacks(file@, user@) == old(self).stacks(file@, user@).pop_undo()
                    &&& views(changes@) == spec_invert(
                        old(self).stacks(file@, user@).undo.last(),
                        spec_prior_changes(
                            cache.projection(file@),
                            spec_queries(old(self).stacks(file@, user@).undo.last()),
                        ),
                        user@,
                        ChangeSource::Undo,
                    )
                },
                Err(e) => {
                    &&& e == Error::EmptyStack
                    &&& old(self).stacks(file@, user@).undo.len() == 0
                    &&& final(self).stacks(file@, user@) == old(self).stacks(file@, user@)
                },
            },
    {
        match self.pop_undo(file, user) {
            Ok(event) => Ok(invert_changes(cache, file, user, ChangeSource::Undo, event)),
            Err(e) => Err(e),
        }
    }

    /// Takes the user's latest event off the redo stack and computes, from the
    /// states that the cache holds, the changes that bring it back.
    pub fn redo_latest(&mut self, cache: &ProjectionCache, file: &str, user: &str) -> (res: Result<
        Vec<PendingChange>,
        Error,
    >)
        requires
            old(self).wf(),
            cache.wf(),
        ensures
            final(self).wf(),
            forall|file2: Seq<char>, user2: Seq<char>|
                file2 != file@ || user2 != user@ ==> #[trigger] final(self).stacks(file2, user2) == old(
                    self,
                ).stacks(file2, user2),
            match res {
                Ok(changes) => {
                    &&& old(self).stacks(file@, user@).redo.len() > 0
                    &&& final(self).stacks(file@, user@) == old(self).stacks(file@, user@).pop_redo()
                    &&& views(changes@) == spec_invert(
                        old(self).stacks(file@, user@).redo.last(),
                        spec_prior_changes(
                            cache.projection(file@),
                            spec_queries(old(self).stacks(file@, user@).redo.last()),
                        ),
                        user@,
                        ChangeSource::Redo,
                    )
                },
                Err(e) => {
                    &&& e == Error::EmptyStack
                    &&& old(self).stacks(file@, user@).redo.len() == 0
                    &&& final(self).stacks(file@, user@) == old(self).stacks(file@, user@)
                },
            },
    {
        match self.pop_redo(file, user) {
            Ok(event) => Ok(invert_changes(cache, file, user, ChangeSource::Redo, event)),
            Err(e) => Err(e),
        }
    }
}

} // verus!
