//! The change log authority: the one place that gives offsets to changes. Each
//! file has its own log; a batch is appended whole or not at all.

use vstd::prelude::*;
use crate::model::{views, Change, ChangeView, Error, Offset, PendingChange, PendingView};
use crate::table::Table;

verus! {

/// The logs of all files, and whether writes are taken at present.
pub struct ChangeLog {
    files: Table<Vec<Change>>,
    accepting: bool,
}

/// A log in which the change at each position carries that position, counted
/// from one, as its offset.
pub open spec fn spec_log_in_order(log: Seq<ChangeView>) -> bool {
    &&& log.len() <= i64::MAX
    &&& forall|i: int| 0 <= i < log.len() ==> (#[trigger] log[i]).offset == i + 1
}

/// Why a batch of `batch` changes, submitted against `base_offset`, is refused
/// by a file whose latest offset is `current`; `None` where it is taken.
///
/// A log that takes no writes refuses everything. A base offset behind the log
/// is a conflict, one ahead of it is unknown. A batch that would run past the
/// last offset there is cannot be written.
pub open spec fn spec_submit_error(accepting: bool, current: int, base_offset: int, batch: int) -> Option<
    Error,
> {
    if !accepting {
        Some(Error::Unavailable)
    } else if base_offset < current {
        Some(Error::OffsetConflict)
    } else if base_offset > current {
        Some(Error::NotFound)
    } else if current + batch > i64::MAX {
        Some(Error::Unavailable)
    } else {
        None
    }
}

/// The committed form of a batch: each change in its place, submitted by
/// `user`, with the offsets that follow `current` one by one.
pub open spec fn spec_commit(batch: Seq<PendingView>, user: Seq<char>, current: int) -> Seq<ChangeView> {
    Seq::new(
        batch.len(),
        |i: int|
            ChangeView {
                id: batch[i].id,
                user,
                offset: current + 1 + i,
                source: batch[i].source,
                op: batch[i].op,
            },
    )
}

/// The part of a log that lies after `offset`.
pub open spec fn spec_after(log: Seq<ChangeView>, offset: int) -> Seq<ChangeView> {
    if offset <= 0 {
        log
    } else if offset >= log.len() {
        Seq::empty()
    } else {
        log.subrange(offset, log.len() as int)
    }
}

impl ChangeLog {
    /// Every file's log is in order.
    pub closed spec fn wf(&self) -> bool {
        &&& self.files.wf()
        &&& forall|f: int|
            0 <= f < self.files.values.len() ==> spec_log_in_order(
                views((#[trigger] self.files.values[f])@),
            )
    }

    /// The committed changes of a file, oldest first; empty for a file that
    /// was never written.
    pub closed spec fn log_of(&self, file: Seq<char>) -> Seq<ChangeView> {
        if self.files.has(file) {
            views(self.files.value(file)@)
        } else {
            Seq::empty()
        }
    }

    /// Whether the log takes writes at present.
    pub closed spec fn accepting(&self) -> bool {
        self.accepting
    }

    /// The latest offset given out for a file; zero before the first change.
    pub open spec fn latest(&self, file: Seq<char>) -> int {
        self.log_of(file).len() as int
    }

    /// Every log is in order: offsets count up from one without a gap.
    pub proof fn lemma_in_order(&self, file: Seq<char>)
        requires
            self.wf(),
        ensures
            spec_log_in_order(self.log_of(file)),
    {
        if self.files.has(file) {
            let f = self.files.slot(file);
            assert(spec_log_in_order(views(self.files.values[f]@)));
        }
    }

    /// A log without files that takes writes.
    pub fn new() -> (res: Self)
        ensures
            res.wf(),
            res.accepting(),
            forall|file: Seq<char>| res.log_of(file) == Seq::<ChangeView>::empty(),
    {
        ChangeLog { files: Table::new(), accepting: true }
    }

    /// Opens or closes the log for writes. What is committed stays.
    pub fn set_accepting(&mut self, accepting: bool)
        requires
            old(self).wf(),
        ensures
            final(self).wf(),
            final(self).accepting() == accepting,
            forall|file: Seq<char>| final(self).log_of(file) == old(self).log_of(file),
    {
        self.accepting = accepting;
    }

    /// The latest offset given out for a file; zero before the first change.
    pub fn current_offset(&self, file: &str) -> (res: Offset)
        requires
            self.wf(),
        ensures
            res == self.latest(file@),
    {
        match self.files.find(file) {
            Some(f) => {
                assert(spec_log_in_order(views(self.files.values[f as int]@)));
                self.files.values[f].len() as i64
            },
            None => 0,
        }
    }

    /// Appends a batch to a file's log and returns the offsets it gave, one for
    /// each change and in the order of the batch. Every committed change
    /// carries `user`, who submits the batch. On an error nothing is appended.
    pub fn submit(&mut self, file: &str, user: &str, base_offset: Offset, changes: Vec<PendingChange>) -> (res:
        Result<Vec<Offset>, Error>)
        requires
            old(self).wf(),
        ensures
            final(self).wf(),
            final(self).accepting() == old(self).accepting(),
            forall|other: Seq<char>| other != file@ ==> final(self).log_of(other) == old(self).log_of(other),
            match res {
                Ok(offsets) => {
                    &&& spec_submit_error(
                        old(self).accepting(),
                        old(self).latest(file@),
                        base_offset as int,
                        changes@.len() as int,
                    ) is None
                    &&& offsets@.len() == changes@.len()
                    &&& forall|i: int|
                        0 <= i < offsets@.len() ==> (#[trigger] offsets@[i]) == old(self).latest(file@) + 1 + i
                    &&& forall|i: int, j: int|
                        0 <= i < j < offsets@.len() ==> (#[trigger] offsets@[i]) < (#[trigger] offsets@[j])
                    &&& final(self).log_of(file@) == old(self).log_of(file@) + spec_commit(
                        views(changes@),
                        user@,
                        old(self).latest(file@),
                    )
                },
                Err(e) => {
                    &&& spec_submit_error(
                        old(self).accepting(),
                        old(self).latest(file@),
                        base_offset as int,
                        changes@.len() as int,
                    ) == Some(e)
                    &&& *final(self) == *old(self)
                },
            },
    {
        let found = self.files.find(file);
        let current: i64 = match found {
            Some(f) => {
                assert(spec_log_in_order(views(self.files.values[f as int]@)));
                self.files.values[f].len() as i64
            },
            None => 0,
        };
        if !self.accepting {
            return Err(Error::Unavailable);
        }
        if base_offset < current {
            return Err(Error::OffsetConflict);
        }
        if base_offset > current {
            return Err(Error::NotFound);
        }
        if changes.len() as u64 > (i64::MAX - current) as u64 {
            return Err(Error::Unavailable);
        }
        let slot = self.files.slot_or_insert(file, Vec::new());
        let ghost opened = *self;
        let ghost before = views(self.files.values[slot as int]@);
        let ghost keys = self.files.keys@;
        let ghost values = self.files.values@;
        let ghost batch = views(changes@);
        assert(before =~= old(self).log_of(file@));
        let mut offsets: Vec<Offset> = Vec::new();
        let ghost count = changes@.len();
        let mut i: usize = 0;
        for pending in it: changes
            invariant
                i == it.index(),
                it.seq().len() == count,
                count <= usize::MAX,
                batch == views(it.seq()),
                slot < self.files.values.len(),
                self.files.keys@ == keys,
                self.files.values.len() == values.len(),
                self.files.wf(),
                self.accepting == old(self).accepting,
                forall|f: int| 0 <= f < values.len() && f != slot ==> self.files.values[f] == values[f],
                before.len() == current,
                current + count <= i64::MAX,
                offsets.len() == i,
                forall|j: int| 0 <= j < i ==> (#[trigger] offsets@[j]) == current + 1 + j,
                views(self.files.values[slot as int]@) == before + spec_commit(batch, user@, current as int).take(
                    i as int,
                ),
        {
            assert(pending == it.seq()[i as int]);
            let offset: i64 = current + 1 + i as i64;
            let change = Change {
                id: pending.id,
                user: user.to_owned(),
                offset,
                source: pending.source,
                op: pending.op,
            };
            let ghost so_far = views(self.files.values[slot as int]@);
            self.files.values[slot].push(change);
            offsets.push(offset);
            proof {
                let committed = spec_commit(batch, user@, current as int);
                assert(change@ == committed[i as int]);
                assert(views(self.files.values[slot as int]@) =~= so_far.push(change@));
                assert(committed.take(i as int + 1) =~= committed.take(i as int).push(committed[i as int]));
                assert(before + committed.take(i as int + 1) =~= (before + committed.take(
                    i as int,
                )).push(committed[i as int]));
            }
            i += 1;
        }
        proof {
            let committed = spec_commit(batch, user@, current as int);
            assert(committed.take(count as int) =~= committed);
            let log = views(self.files.values[slot as int]@);
            assert(spec_log_in_order(log)) by {
                assert(spec_log_in_order(before)) by {
                    if found is Some {
                        assert(spec_log_in_order(views(old(self).files.values[slot as int]@)));
                    }
                }
                assert forall|k: int| 0 <= k < log.len() implies (#[trigger] log[k]).offset == k + 1 by {
                    if k < before.len() {
                        assert(log[k] == before[k]);
                    } else {
                        assert(log[k] == committed[k - before.len()]);
                    }
                }
            }
            assert forall|f: int| 0 <= f < self.files.values.len() implies spec_log_in_order(
                views((#[trigger] self.files.values[f])@),
            ) by {
                if f != slot {
                    assert(self.files.values[f] == values[f]);
                    if found is Some {
                        assert(spec_log_in_order(views(old(self).files.values[f]@)));
                    } else {
                        assert(values[f] == old(self).files.values[f]);
                        assert(spec_log_in_order(views(old(self).files.values[f]@)));
                    }
                }
            }
            assert forall|other: Seq<char>| self.files.has(other) == opened.files.has(other) && self.files.slot(
                other,
            ) == opened.files.slot(other) by {
                self.files.lemma_same_keys(&opened.files, other);
            }
            assert forall|other: Seq<char>| other != file@ implies self.log_of(other) == old(self).log_of(
                other,
            ) by {
                assert(opened.files.has(other) == old(self).files.has(other));
                if old(self).files.has(other) {
                    let f = old(self).files.slot(other);
                    assert(self.files.values[f] == values[f]);
                }
            }
        }
        Ok(offsets)
    }

    /// The committed changes of a file that lie after `offset`, oldest first:
    /// what a consumer that has seen everything up to `offset` has yet to see.
    pub fn changes_after(&self, file: &str, offset: Offset) -> (res: Vec<Change>)
        requires
            self.wf(),
        ensures
            views(res@) == spec_after(self.log_of(file@), offset as int),
    {
        let mut res: Vec<Change> = Vec::new();
        match self.files.find(file) {
            Some(f) => {
                let log = &self.files.values[f];
                assert(spec_log_in_order(views(log@)));
                let start: usize = if offset <= 0 {
                    0
                } else if offset as u64 >= log.len() as u64 {
                    log.len()
                } else {
                    offset as usize
                };
                let mut i: usize = start;
                while i < log.len()
                    invariant
                        start <= i <= log.len(),
                        res.len() == i - start,
                        forall|j: int| 0 <= j < res.len() ==> (#[trigger] res@[j])@ == log@[start + j]@,
                    decreases log.len() - i,
                {
                    res.push(log[i].clone());
                    i += 1;
                }
                assert(views(res@) =~= spec_after(views(log@), offset as int));
            },
            None => {
                assert(views(res@) =~= Seq::<ChangeView>::empty());
            },
        }
        res
    }
}

} // verus!
