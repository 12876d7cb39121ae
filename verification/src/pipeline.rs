//! The pipeline in one process: the change log, the projection cache that is
//! fed from it, and the undo engine that records what it commits. Every
//! operation either goes through as a whole or leaves everything as it was.

use vstd::prelude::*;
use crate::cache::{spec_prior_changes, ProjectionCache};
use crate::gateway::last_offset;
use crate::invert::{invert_changes, spec_invert, spec_queries};
use crate::log::{spec_commit, spec_log_in_order, spec_submit_error, ChangeLog};
use crate::model::{views, Change, ChangeSource, ChangeView, EntryView, Error, Offset, PendingChange, PendingView};
use crate::projection::{spec_apply_all, ProjectionView};
use crate::stacks::StacksView;
use crate::undo::{spec_entry_of, UndoEngine};

verus! {

/// The projection of a file whose whole log has been applied.
pub open spec fn spec_projection(log: Seq<ChangeView>) -> ProjectionView {
    spec_apply_all(ProjectionView::empty(), log)
}

/// A user's stacks after a run of the user's committed changes was recorded,
/// in the order given.
pub open spec fn spec_record_all(stacks: StacksView, changes: Seq<ChangeView>) -> StacksView
    decreases changes.len(),
{
    if changes.len() == 0 {
        stacks
    } else {
        spec_record_all(stacks, changes.drop_last()).record(
            spec_entry_of(changes.last()),
            changes.last().source,
        )
    }
}

/// The source that the changes of an undo, or of a redo, carry.
pub open spec fn spec_source(redo: bool) -> ChangeSource {
    if redo {
        ChangeSource::Redo
    } else {
        ChangeSource::Undo
    }
}

/// The stack that an undo, or a redo, takes its event from.
pub open spec fn spec_stack(stacks: StacksView, redo: bool) -> Seq<Seq<EntryView>> {
    if redo {
        stacks.redo
    } else {
        stacks.undo
    }
}

/// The stacks after an undo, or a redo, took its event.
pub open spec fn spec_popped(stacks: StacksView, redo: bool) -> StacksView {
    if redo {
        stacks.pop_redo()
    } else {
        stacks.pop_undo()
    }
}

/// The changes by which an undo, or a redo, takes back the event on top of its
/// stack, given the file's log.
pub open spec fn spec_retrace_changes(log: Seq<ChangeView>, stacks: StacksView, user: Seq<char>, redo: bool) -> Seq<
    PendingView,
> {
    let top = spec_stack(stacks, redo).last();
    spec_invert(
        top,
        spec_prior_changes(spec_projection(log), spec_queries(top)),
        user,
        spec_source(redo),
    )
}

/// The committed form of the changes by which an undo, or a redo, takes back
/// the event on top of its stack.
pub open spec fn spec_retrace_batch(log: Seq<ChangeView>, stacks: StacksView, user: Seq<char>, redo: bool) -> Seq<
    ChangeView,
> {
    spec_commit(spec_retrace_changes(log, stacks, user, redo), user, log.len() as int)
}

/// How an undo, or a redo, ends: with the latest offset of the file, or with
/// the reason why nothing was done.
///
/// Without an event there is nothing to take back. The changes that take the
/// event back are submitted against `base_offset` and may be refused by the
/// log. Where the history yields no change at all, no offset comes back.
pub open spec fn spec_retrace_result(
    accepting: bool,
    log: Seq<ChangeView>,
    stacks: StacksView,
    user: Seq<char>,
    base_offset: int,
    redo: bool,
) -> Result<int, Error> {
    if spec_stack(stacks, redo).len() == 0 {
        Err(Error::EmptyStack)
    } else {
        let changes = spec_retrace_changes(log, stacks, user, redo);
        match spec_submit_error(accepting, log.len() as int, base_offset, changes.len() as int) {
            Some(e) => Err(e),
            None => if changes.len() == 0 {
                Err(Error::OutOfRange)
            } else {
                Ok((log.len() + changes.len()) as int)
            },
        }
    }
}

/// How a submission ends: with the latest offset of the file, or with the
/// reason why nothing was done.
pub open spec fn spec_submit_result(accepting: bool, log: Seq<ChangeView>, base_offset: int, batch: int) -> Result<
    int,
    Error,
> {
    match spec_submit_error(accepting, log.len() as int, base_offset, batch) {
        Some(e) => Err(e),
        None => if batch == 0 {
            Err(Error::OutOfRange)
        } else {
            Ok((log.len() + batch) as int)
        },
    }
}

/// Whether an entry remembers a change that the log holds: the change with the
/// entry's offset is a change of `user` to the entry's object, of the entry's
/// kind.
pub open spec fn spec_entry_committed(log: Seq<ChangeView>, entry: EntryView, user: Seq<char>) -> bool {
    &&& 1 <= entry.offset <= log.len()
    &&& spec_entry_of(log[entry.offset - 1]) == entry
    &&& log[entry.offset - 1].user == user
}

/// Whether every entry of every event of a stack remembers a change that the
/// log holds.
pub open spec fn spec_stack_committed(log: Seq<ChangeView>, stack: Seq<Seq<EntryView>>, user: Seq<char>) -> bool {
    forall|i: int, j: int|
        0 <= i < stack.len() && 0 <= j < stack[i].len() ==> spec_entry_committed(
            log,
            #[trigger] stack[i][j],
            user,
        )
}

/// Whether every entry on a user's stacks remembers a change that the log
/// holds.
pub open spec fn spec_stacks_committed(log: Seq<ChangeView>, stacks: StacksView, user: Seq<char>) -> bool {
    &&& spec_stack_committed(log, stacks.undo, user)
    &&& spec_stack_committed(log, stacks.redo, user)
}

/// Entries that remember changes of a log remember them in a longer log.
pub proof fn lemma_committed_in_longer_log(
    log: Seq<ChangeView>,
    more: Seq<ChangeView>,
    stacks: StacksView,
    user: Seq<char>,
)
    requires
        spec_stacks_committed(log, stacks, user),
    ensures
        spec_stacks_committed(log + more, stacks, user),
{
    let longer = log + more;
    assert forall|i: int, j: int|
        0 <= i < stacks.undo.len() && 0 <= j < stacks.undo[i].len() implies spec_entry_committed(
        longer,
        #[trigger] stacks.undo[i][j],
        user,
    ) by {
        let entry = stacks.undo[i][j];
        assert(spec_entry_committed(log, entry, user));
        assert(longer[entry.offset - 1] == log[entry.offset - 1]);
    }
    assert forall|i: int, j: int|
        0 <= i < stacks.redo.len() && 0 <= j < stacks.redo[i].len() implies spec_entry_committed(
        longer,
        #[trigger] stacks.redo[i][j],
        user,
    ) by {
        let entry = stacks.redo[i][j];
        assert(spec_entry_committed(log, entry, user));
        assert(longer[entry.offset - 1] == log[entry.offset - 1]);
    }
}

/// A stack of entries that the log holds, extended by one more such entry, is
/// a stack of entries that the log holds.
proof fn lemma_extended_committed(
    log: Seq<ChangeView>,
    stack: Seq<Seq<EntryView>>,
    open: bool,
    entry: EntryView,
    user: Seq<char>,
)
    requires
        spec_stack_committed(log, stack, user),
        spec_entry_committed(log, entry, user),
    ensures
        spec_stack_committed(log, crate::stacks::spec_extend(stack, open, entry), user),
{
    let extended = crate::stacks::spec_extend(stack, open, entry);
    assert forall|i: int, j: int|
        0 <= i < extended.len() && 0 <= j < extended[i].len() implies spec_entry_committed(
        log,
        #[trigger] extended[i][j],
        user,
    ) by {
        if open && stack.len() > 0 {
            if i < stack.len() - 1 {
                assert(extended[i][j] == stack[i][j]);
            } else if j < stack.last().len() {
                assert(extended[i][j] == stack[stack.len() - 1][j]);
            }
        } else {
            if i < stack.len() {
                assert(extended[i][j] == stack[i][j]);
            }
        }
    }
}

/// Recording changes that the log holds keeps the stacks to entries that the
/// log holds.
pub proof fn lemma_recorded_committed(
    log: Seq<ChangeView>,
    stacks: StacksView,
    changes: Seq<ChangeView>,
    user: Seq<char>,
)
    requires
        spec_stacks_committed(log, stacks, user),
        forall|k: int|
            0 <= k < changes.len() ==> spec_entry_committed(log, spec_entry_of(#[trigger] changes[k]), user),
    ensures
        spec_stacks_committed(log, spec_record_all(stacks, changes), user),
    decreases changes.len(),
{
    if changes.len() > 0 {
        let before = changes.drop_last();
        assert forall|k: int| 0 <= k < before.len() implies spec_entry_committed(
            log,
            spec_entry_of(#[trigger] before[k]),
            user,
        ) by {
            assert(before[k] == changes[k]);
        }
        lemma_recorded_committed(log, stacks, before, user);
        let so_far = spec_record_all(stacks, before);
        let last = changes.last();
        assert(spec_entry_committed(log, spec_entry_of(changes[changes.len() - 1]), user));
        lemma_extended_committed(log, so_far.undo, so_far.undo_open, spec_entry_of(last), user);
        lemma_extended_committed(log, so_far.redo, so_far.redo_open, spec_entry_of(last), user);
    }
}

/// Taking an event off a stack keeps the stacks to entries that the log
/// holds.
pub proof fn lemma_popped_committed(log: Seq<ChangeView>, stacks: StacksView, user: Seq<char>, redo: bool)
    requires
        spec_stacks_committed(log, stacks, user),
        spec_stack(stacks, redo).len() > 0,
    ensures
        spec_stacks_committed(log, spec_popped(stacks, redo), user),
{
    let popped = spec_popped(stacks, redo);
    assert forall|i: int, j: int|
        0 <= i < popped.undo.len() && 0 <= j < popped.undo[i].len() implies spec_entry_committed(
        log,
        #[trigger] popped.undo[i][j],
        user,
    ) by {
        assert(popped.undo[i][j] == stacks.undo[i][j]);
    }
    assert forall|i: int, j: int|
        0 <= i < popped.redo.len() && 0 <= j < popped.redo[i].len() implies spec_entry_committed(
        log,
        #[trigger] popped.redo[i][j],
        user,
    ) by {
        assert(popped.redo[i][j] == stacks.redo[i][j]);
    }
}

/// Applying a run of changes and then another is applying the two runs in one.
pub proof fn lemma_apply_all_append(start: ProjectionView, first: Seq<ChangeView>, second: Seq<ChangeView>)
    ensures
        spec_apply_all(start, first + second) == spec_apply_all(spec_apply_all(start, first), second),
    decreases second.len(),
{
    if second.len() == 0 {
        assert(first + second =~= first);
    } else {
        lemma_apply_all_append(start, first, second.drop_last());
        assert((first + second).drop_last() =~= first + second.drop_last());
        assert((first + second).last() == second.last());
    }
}

/// The log, the cache and the undo engine of one process.
pub struct Pipeline {
    log: ChangeLog,
    cache: ProjectionCache,
    undo: UndoEngine,
}

impl Pipeline {
    /// The parts are well-formed, and the cache has applied every file's
    /// whole log.
    pub closed spec fn wf(&self) -> bool {
        &&& self.log.wf()
        &&& self.cache.wf()
        &&& self.undo.wf()
        &&& forall|file: Seq<char>| #[trigger]
            self.cache.projection(file) == spec_projection(self.log.log_of(file))
        &&& forall|file: Seq<char>, user: Seq<char>|
            spec_stacks_committed(self.log.log_of(file), #[trigger] self.undo.stacks(file, user), user)
    }

    /// The committed changes of a file, oldest first.
    pub closed spec fn log_of(&self, file: Seq<char>) -> Seq<ChangeView> {
        self.log.log_of(file)
    }

    /// Whether the log takes writes at present.
    pub closed spec fn accepting(&self) -> bool {
        self.log.accepting()
    }

    /// The projection of a file.
    pub closed spec fn projection(&self, file: Seq<char>) -> ProjectionView {
        self.cache.projection(file)
    }

    /// The stacks of a user in a file.
    pub closed spec fn stacks(&self, file: Seq<char>, user: Seq<char>) -> StacksView {
        self.undo.stacks(file, user)
    }

    /// The cache is never behind the log and never ahead of it: a file's
    /// projection is that of its whole log.
    pub proof fn lemma_in_sync(&self, file: Seq<char>)
        requires
            self.wf(),
        ensures
            self.projection(file) == spec_projection(self.log_of(file)),
    {
    }

    /// Every entry on every stack remembers a change that the log holds.
    pub proof fn lemma_entries_committed(&self, file: Seq<char>, user: Seq<char>)
        requires
            self.wf(),
        ensures
            spec_stacks_committed(self.log_of(file), self.stacks(file, user), user),
    {
    }

    /// Every file's log is in order: offsets count up from one without a gap.
    pub proof fn lemma_log_in_order(&self, file: Seq<char>)
        requires
            self.wf(),
        ensures
            spec_log_in_order(self.log_of(file)),
    {
        self.log.lemma_in_order(file);
    }

    /// A pipeline without history that takes writes.
    pub fn new() -> (res: Self)
        ensures
            res.wf(),
            res.accepting(),
            forall|file: Seq<char>| res.log_of(file) == Seq::<ChangeView>::empty(),
            forall|file: Seq<char>, user: Seq<char>| res.stacks(file, user) == StacksView::empty(),
    {
        Pipeline { log: ChangeLog::new(), cache: ProjectionCache::new(), undo: UndoEngine::new() }
    }

    /// Opens or closes the log for writes.
    pub fn set_accepting(&mut self, accepting: bool)
        requires
            old(self).wf(),
        ensures
            final(self).wf(),
            final(self).accepting() == accepting,
            forall|file: Seq<char>| final(self).log_of(file) == old(self).log_of(file),
            forall|file: Seq<char>, user: Seq<char>| final(self).stacks(file, user) == old(self).stacks(file, user),
    {
        self.log.set_accepting(accepting);
        proof {
            assert forall|file: Seq<char>| #[trigger]
                self.cache.projection(file) == spec_projection(self.log.log_of(file)) by {
                assert(old(self).cache.projection(file) == spec_projection(old(self).log.log_of(file)));
            }
        }
    }

    /// The cache, for queries.
    pub fn cache(&self) -> (res: &ProjectionCache)
        requires
            self.wf(),
        ensures
            res.wf(),
            forall|file: Seq<char>| res.projection(file) == self.projection(file),
    {
        &self.cache
    }

    /// The log, for reading.
    pub fn log(&self) -> (res: &ChangeLog)
        requires
            self.wf(),
        ensures
            res.wf(),
            res.accepting() == self.accepting(),
            forall|file: Seq<char>| res.log_of(file) == self.log_of(file),
    {
        &self.log
    }

    /// The undo engine, for reading.
    pub fn undo(&self) -> (res: &UndoEngine)
        requires
            self.wf(),
        ensures
            res.wf(),
            forall|file: Seq<char>, user: Seq<char>| res.stacks(file, user) == self.stacks(file, user),
    {
        &self.undo
    }

    /// Marks the beginning of an undo event for a user in a file.
    pub fn begin_undo_event(&mut self, file: &str, user: &str)
        requires
            old(self).wf(),
        ensures
            final(self).wf(),
            final(self).accepting() == old(self).accepting(),
            forall|other: Seq<char>| final(self).log_of(other) == old(self).log_of(other),
            final(self).stacks(file@, user@) == old(self).stacks(file@, user@).begin(),
            forall|file2: Seq<char>, user2: Seq<char>|
                file2 != file@ || user2 != user@ ==> #[trigger] final(self).stacks(file2, user2) == old(
                    self,
                ).stacks(file2, user2),
    {
        self.undo.begin_undo_event(file, user);
        proof {
            assert forall|f: Seq<char>| #[trigger]
                self.cache.projection(f) == spec_projection(self.log.log_of(f)) by {
                assert(old(self).cache.projection(f) == spec_projection(old(self).log.log_of(f)));
            }
        }
    }

    /// Hands the changes that the log has just committed for a file on to the
    /// cache and to the undo engine, in their order.
    fn publish(&mut self, file: &str, user: &str, committed: Vec<Change>)
        requires
            old(self).log.wf(),
            old(self).cache.wf(),
            old(self).undo.wf(),
            forall|i: int| 0 <= i < committed@.len() ==> (#[trigger] committed@[i])@.user == user@,
        ensures
            final(self).log == old(self).log,
            final(self).cache.wf(),
            final(self).undo.wf(),
            final(self).cache.projection(file@) == spec_apply_all(
                old(self).cache.projection(file@),
                views(committed@),
            ),
            forall|other: Seq<char>|
                other != file@ ==> final(self).cache.projection(other) == old(self).cache.projection(other),
            final(self).undo.stacks(file@, user@) == spec_record_all(
                old(self).undo.stacks(file@, user@),
                views(committed@),
            ),
            forall|file2: Seq<char>, user2: Seq<char>|
                file2 != file@ || user2 != user@ ==> #[trigger] final(self).undo.stacks(file2, user2) == old(
                    self,
                ).undo.stacks(file2, user2),
    {
        let ghost stream = views(committed@);
        let ghost run = committed@;
        for change in it: committed
            invariant
                it.seq() == run,
                stream == views(run),
                forall|k: int| 0 <= k < run.len() ==> (#[trigger] run[k])@.user == user@,
                self.log == old(self).log,
                self.cache.wf(),
                self.undo.wf(),
                self.cache.projection(file@) == spec_apply_all(
                    old(self).cache.projection(file@),
                    stream.take(it.index() as int),
                ),
                forall|other: Seq<char>|
                    other != file@ ==> self.cache.projection(other) == old(self).cache.projection(other),
                self.undo.stacks(file@, user@) == spec_record_all(
                    old(self).undo.stacks(file@, user@),
                    stream.take(it.index() as int),
                ),
                forall|file2: Seq<char>, user2: Seq<char>|
                    file2 != file@ || user2 != user@ ==> #[trigger] self.undo.stacks(file2, user2) == old(
                        self,
                    ).undo.stacks(file2, user2),
        {
            let ghost i = it.index() as int;
            let ghost before = self.undo;
            assert(change == run[i]);
            self.undo.record_change(file, &change);
            self.cache.apply(file, change);
            proof {
                assert(run[i]@.user == user@);
                assert(stream.take(i + 1).drop_last() =~= stream.take(i));
                assert(stream.take(i + 1).last() == stream[i]);
                assert forall|file2: Seq<char>, user2: Seq<char>|
                    file2 != file@ || user2 != user@ implies #[trigger] self.undo.stacks(file2, user2) == old(
                    self,
                ).undo.stacks(file2, user2) by {
                    assert(self.undo.stacks(file2, user2) == before.stacks(file2, user2));
                }
            }
        }
        proof {
            assert(stream.take(run.len() as int) =~= stream);
        }
    }

    /// Submits a batch of changes of a user against the offset that the user
    /// has seen last, and lets the cache and the undo engine see what was
    /// committed. Returns the latest offset of the file.
    pub fn submit_changes(&mut self, file: &str, user: &str, base_offset: Offset, changes: Vec<PendingChange>) -> (res:
        Result<Offset, Error>)
        requires
            old(self).wf(),
        ensures
            final(self).wf(),
            final(self).accepting() == old(self).accepting(),
            forall|any: Seq<char>| #[trigger] final(self).projection(any) == spec_projection(final(self).log_of(any)),
            forall|other: Seq<char>| other != file@ ==> final(self).log_of(other) == old(self).log_of(other),
            forall|file2: Seq<char>, user2: Seq<char>|
                file2 != file@ || user2 != user@ ==> #[trigger] final(self).stacks(file2, user2) == old(
                    self,
                ).stacks(file2, user2),
            match res {
                Ok(offset) => {
                    &&& spec_submit_result(
                        old(self).accepting(),
                        old(self).log_of(file@),
                        base_offset as int,
                        changes@.len() as int,
                    ) == Ok::<int, Error>(offset as int)
                    &&& final(self).log_of(file@) == old(self).log_of(file@) + spec_commit(
                        views(changes@),
                        user@,
                        old(self).log_of(file@).len() as int,
                    )
                    &&& final(self).stacks(file@, user@) == spec_record_all(
                        old(self).stacks(file@, user@),
                        spec_commit(views(changes@), user@, old(self).log_of(file@).len() as int),
                    )
                },
                Err(e) => {
                    &&& spec_submit_result(
                        old(self).accepting(),
                        old(self).log_of(file@),
                        base_offset as int,
                        changes@.len() as int,
                    ) == Err::<int, Error>(e)
                    &&& final(self).log_of(file@) == old(self).log_of(file@)
                    &&& final(self).stacks(file@, user@) == old(self).stacks(file@, user@)
                },
            },
    {
        let ghost pending = views(changes@);
        let ghost batch = spec_commit(pending, user@, old(self).log_of(file@).len() as int);
        match self.log.submit(file, user, base_offset, changes) {
            Ok(offsets) => {
                let committed = self.log.changes_after(file, base_offset);
                proof {
                    let log = old(self).log.log_of(file@);
                    assert(views(committed@) =~= batch) by {
                        assert((log + batch).subrange(log.len() as int, (log + batch).len() as int) =~= batch);
                    }
                    assert forall|i: int| 0 <= i < committed@.len() implies (#[trigger] committed@[i])@.user
                        == user@ by {
                        assert(views(committed@)[i] == batch[i]);
                    }
                }
                self.publish(file, user, committed);
                proof {
                    self.lemma_published(old(self), file@, user@, pending, old(self).undo.stacks(file@, user@));
                }
                last_offset(offsets)
            },
            Err(e) => Err(e),
        }
    }

    /// A pipeline whose parts were well-formed and in step, and whose log,
    /// cache and undo engine then took the same run of changes of one user in
    /// one file, is well-formed and in step.
    proof fn lemma_published(
        &self,
        earlier: &Self,
        file: Seq<char>,
        user: Seq<char>,
        pending: Seq<PendingView>,
        base: StacksView,
    )
        requires
            earlier.wf(),
            self.log.wf(),
            self.cache.wf(),
            self.undo.wf(),
            self.log.log_of(file) == earlier.log.log_of(file) + spec_commit(
                pending,
                user,
                earlier.log.log_of(file).len() as int,
            ),
            self.cache.projection(file) == spec_apply_all(
                earlier.cache.projection(file),
                spec_commit(pending, user, earlier.log.log_of(file).len() as int),
            ),
            forall|other: Seq<char>| other != file ==> self.log.log_of(other) == earlier.log.log_of(other),
            forall|other: Seq<char>|
                other != file ==> self.cache.projection(other) == earlier.cache.projection(other),
            spec_stacks_committed(earlier.log.log_of(file), base, user),
            self.undo.stacks(file, user) == spec_record_all(
                base,
                spec_commit(pending, user, earlier.log.log_of(file).len() as int),
            ),
            forall|file2: Seq<char>, user2: Seq<char>|
                file2 != file || user2 != user ==> #[trigger] self.undo.stacks(file2, user2)
                    == earlier.undo.stacks(file2, user2),
        ensures
            self.wf(),
    {
        let log = earlier.log.log_of(file);
        let batch = spec_commit(pending, user, log.len() as int);
        assert forall|f: Seq<char>| #[trigger] self.cache.projection(f) == spec_projection(self.log.log_of(f)) by {
            assert(earlier.cache.projection(f) == spec_projection(earlier.log.log_of(f)));
            if f == file {
                lemma_apply_all_append(ProjectionView::empty(), log, batch);
            }
        }
        assert forall|file2: Seq<char>, user2: Seq<char>|
            spec_stacks_committed(self.log.log_of(file2), #[trigger] self.undo.stacks(file2, user2), user2) by {
            assert(spec_stacks_committed(
                earlier.log.log_of(file2),
                earlier.undo.stacks(file2, user2),
                user2,
            ));
            if file2 == file {
                if user2 == user {
                    lemma_committed_in_longer_log(log, batch, base, user);
                    assert forall|k: int| 0 <= k < batch.len() implies spec_entry_committed(
                        log + batch,
                        spec_entry_of(#[trigger] batch[k]),
                        user,
                    ) by {
                        assert((log + batch)[log.len() + k] == batch[k]);
                    }
                    lemma_recorded_committed(log + batch, base, batch, user);
                } else {
                    lemma_committed_in_longer_log(log, batch, earlier.undo.stacks(file2, user2), user2);
                }
            }
        }
    }

    /// Takes back, or brings back, the latest event of a user: computes the
    /// changes from the cache, submits them, and only when they are committed
    /// takes the event off its stack and lets the cache and the undo engine
    /// see the new changes.
    fn retrace(&mut self, file: &str, user: &str, base_offset: Offset, redo: bool) -> (res: Result<
        Offset,
        Error,
    >)
        requires
            old(self).wf(),
        ensures
            final(self).wf(),
            final(self).accepting() == old(self).accepting(),
            forall|any: Seq<char>| #[trigger] final(self).projection(any) == spec_projection(final(self).log_of(any)),
            forall|other: Seq<char>| other != file@ ==> final(self).log_of(other) == old(self).log_of(other),
            forall|file2: Seq<char>, user2: Seq<char>|
                file2 != file@ || user2 != user@ ==> #[trigger] final(self).stacks(file2, user2) == old(
                    self,
                ).stacks(file2, user2),
            match res {
                Ok(offset) => {
                    &&& spec_retrace_result(
                        old(self).accepting(),
                        old(self).log_of(file@),
                        old(self).stacks(file@, user@),
                        user@,
                        base_offset as int,
                        redo,
                    ) == Ok::<int, Error>(offset as int)
                    &&& final(self).log_of(file@) == old(self).log_of(file@) + spec_retrace_batch(
                        old(self).log_of(file@),
                        old(self).stacks(file@, user@),
                        user@,
                        redo,
                    )
                    &&& final(self).stacks(file@, user@) == spec_record_all(
                        spec_popped(old(self).stacks(file@, user@), redo),
                        spec_retrace_batch(old(self).log_of(file@), old(self).stacks(file@, user@), user@, redo),
                    )
                },
                Err(e) => {
                    &&& spec_retrace_result(
                        old(self).accepting(),
                        old(self).log_of(file@),
                        old(self).stacks(file@, user@),
                        user@,
                        base_offset as int,
                        redo,
                    ) == Err::<int, Error>(e)
                    &&& final(self).log_of(file@) == old(self).log_of(file@)
                    &&& final(self).stacks(file@, user@) == old(self).stacks(file@, user@)
                },
            },
    {
        let peeked = if redo {
            self.undo.peek_redo(file, user)
        } else {
            self.undo.peek_undo(file, user)
        };
        let event = match peeked {
            Ok(event) => event,
            Err(e) => {
                return Err(e);
            },
        };
        let source = if redo {
            ChangeSource::Redo
        } else {
            ChangeSource::Undo
        };
        assert(self.cache.projection(file@) == spec_projection(self.log.log_of(file@)));
        let changes = invert_changes(&self.cache, file, user, source, event);
        let ghost inverse = views(changes@);
        let ghost batch = spec_commit(inverse, user@, old(self).log.log_of(file@).len() as int);
        let offsets = match self.log.submit(file, user, base_offset, changes) {
            Ok(offsets) => offsets,
            Err(e) => {
                return Err(e);
            },
        };
        if offsets.len() == 0 {
            proof {
                assert(batch =~= Seq::<ChangeView>::empty());
                assert(old(self).log.log_of(file@) + batch =~= old(self).log.log_of(file@));
                self.lemma_published(old(self), file@, user@, inverse, old(self).undo.stacks(file@, user@));
            }
            return Err(Error::OutOfRange);
        }
        let _taken = if redo {
            self.undo.pop_redo(file, user)
        } else {
            self.undo.pop_undo(file, user)
        };
        let committed = self.log.changes_after(file, base_offset);
        proof {
            let log = old(self).log.log_of(file@);
            assert(views(committed@) =~= batch) by {
                assert((log + batch).subrange(log.len() as int, (log + batch).len() as int) =~= batch);
            }
            assert forall|i: int| 0 <= i < committed@.len() implies (#[trigger] committed@[i])@.user == user@ by {
                assert(views(committed@)[i] == batch[i]);
            }
        }
        let ghost mid = self.undo;
        self.publish(file, user, committed);
        proof {
            assert forall|file2: Seq<char>, user2: Seq<char>|
                file2 != file@ || user2 != user@ implies #[trigger] self.undo.stacks(file2, user2) == old(
                self,
            ).undo.stacks(file2, user2) by {
                assert(self.undo.stacks(file2, user2) == mid.stacks(file2, user2));
            }
            let base = spec_popped(old(self).undo.stacks(file@, user@), redo);
            lemma_popped_committed(
                old(self).log.log_of(file@),
                old(self).undo.stacks(file@, user@),
                user@,
                redo,
            );
            self.lemma_published(old(self), file@, user@, inverse, base);
        }
        last_offset(offsets)
    }

    /// Undoes the latest event of a user in a file and returns the file's
    /// new latest offset. On an error nothing has changed.
    pub fn undo_latest(&mut self, file: &str, user: &str, base_offset: Offset) -> (res: Result<Offset, Error>)
        requires
            old(self).wf(),
        ensures
            final(self).wf(),
            final(self).accepting() == old(self).accepting(),
            forall|any: Seq<char>| #[trigger] final(self).projection(any) == spec_projection(final(self).log_of(any)),
            forall|other: Seq<char>| other != file@ ==> final(self).log_of(other) == old(self).log_of(other),
            forall|file2: Seq<char>, user2: Seq<char>|
                file2 != file@ || user2 != user@ ==> #[trigger] final(self).stacks(file2, user2) == old(
                    self,
                ).stacks(file2, user2),
            match res {
                Ok(offset) => {
                    &&& spec_retrace_result(
                        old(self).accepting(),
                        old(self).log_of(file@),
                        old(self).stacks(file@, user@),
                        user@,
                        base_offset as int,
                        false,
                    ) == Ok::<int, Error>(offset as int)
                    &&& final(self).log_of(file@) == old(self).log_of(file@) + spec_retrace_batch(
                        old(self).log_of(file@),
                        old(self).stacks(file@, user@),
                        user@,
                        false,
                    )
                    &&& final(self).stacks(file@, user@) == spec_record_all(
                        old(self).stacks(file@, user@).pop_undo(),
                        spec_retrace_batch(old(self).log_of(file@), old(self).stacks(file@, user@), user@, false),
                    )
                },
                Err(e) => {
                    &&& spec_retrace_result(
                        old(self).accepting(),
                        old(self).log_of(file@),
                        old(self).stacks(file@, user@),
                        user@,
                        base_offset as int,
                        false,
                    ) == Err::<int, Error>(e)
                    &&& final(self).log_of(file@) == old(self).log_of(file@)
                    &&& final(self).stacks(file@, user@) == old(self).stacks(file@, user@)
                },
            },
    {
        self.retrace(file, user, base_offset, false)
    }

    /// Redoes the latest undone event of a user in a file and returns the
    /// file's new latest offset. On an error nothing has changed.
    pub fn redo_latest(&mut self, file: &str, user: &str, base_offset: Offset) -> (res: Result<Offset, Error>)
        requires
            old(self).wf(),
        ensures
            final(self).wf(),
            final(self).accepting() == old(self).accepting(),
            forall|any: Seq<char>| #[trigger] final(self).projection(any) == spec_projection(final(self).log_of(any)),
            forall|other: Seq<char>| other != file@ ==> final(self).log_of(other) == old(self).log_of(other),
            forall|file2: Seq<char>, user2: Seq<char>|
                file2 != file@ || user2 != user@ ==> #[trigger] final(self).stacks(file2, user2) == old(
                    self,
                ).stacks(file2, user2),
            match res {
                Ok(offset) => {
                    &&& spec_retrace_result(
                        old(self).accepting(),
                        old(self).log_of(file@),
                        old(self).stacks(file@, user@),
                        user@,
                        base_offset as int,
                        true,
                    ) == Ok::<int, Error>(offset as int)
                    &&& final(self).log_of(file@) == old(self).log_of(file@) + spec_retrace_batch(
                        old(self).log_of(file@),
                        old(self).stacks(file@, user@),
                        user@,
                        true,
                    )
                    &&& final(self).stacks(file@, user@) == spec_record_all(
                        old(self).stacks(file@, user@).pop_redo(),
                        spec_retrace_batch(old(self).log_of(file@), old(self).stacks(file@, user@), user@, true),
                    )
                },
                Err(e) => {
                    &&& spec_retrace_result(
                        old(self).accepting(),
                        old(self).log_of(file@),
                        old(self).stacks(file@, user@),
                        user@,
                        base_offset as int,
                        true,
                    ) == Err::<int, Error>(e)
                    &&& final(self).log_of(file@) == old(self).log_of(file@)
                    &&& final(self).stacks(file@, user@) == old(self).stacks(file@, user@)
                },
            },
    {
        self.retrace(file, user, base_offset, true)
    }
}

} // verus!
