//! The history of one object: its committed changes, addressed by offset, and
//! the pointer to the change that was applied last.

use vstd::prelude::*;
use crate::model::{option_view, Change, ChangeOp, ChangeView, Offset, OpView};

verus! {

/// Whether `offset` is the greatest offset below `bound` that has a record.
pub open spec fn spec_is_latest_before(records: Map<int, ChangeView>, bound: int, offset: int) -> bool {
    &&& records.dom().contains(offset)
    &&& offset < bound
    &&& forall|other: int| #[trigger] records.dom().contains(other) && other < bound ==> other <= offset
}

/// The record with the greatest offset below `bound`, if there is one.
pub open spec fn spec_latest_before(records: Map<int, ChangeView>, bound: int) -> Option<ChangeView> {
    if exists|offset: int| spec_is_latest_before(records, bound, offset) {
        Some(records[choose|offset: int| spec_is_latest_before(records, bound, offset)])
    } else {
        None
    }
}

/// The greatest offset below a bound is the one that the query answers with.
pub proof fn lemma_latest_before_is(records: Map<int, ChangeView>, bound: int, offset: int)
    requires
        spec_is_latest_before(records, bound, offset),
    ensures
        spec_latest_before(records, bound) == Some(records[offset]),
{
    let chosen = choose|o: int| spec_is_latest_before(records, bound, o);
    assert(spec_is_latest_before(records, bound, chosen));
    assert(chosen <= offset);
    assert(offset <= chosen);
}

/// Where no record lies below the bound, the query answers with nothing.
pub proof fn lemma_latest_before_none(records: Map<int, ChangeView>, bound: int)
    requires
        forall|offset: int| #[trigger] records.dom().contains(offset) ==> offset >= bound,
    ensures
        spec_latest_before(records, bound) is None,
{
}

/// The committed changes of one object. There is at least one.
pub struct ObjectHistory {
    records: Vec<Change>,
    current: usize,
}

impl ObjectHistory {
    /// The history is not empty, all its records are of one object, no two
    /// have the same offset, and the latest pointer points at one of them.
    pub closed spec fn wf(&self) -> bool {
        &&& self.records.len() > 0
        &&& self.current < self.records.len()
        &&& forall|i: int| 0 <= i < self.records.len() ==> (#[trigger] self.records[i]).id@ == self.records[0].id@
        &&& forall|i: int, j: int|
            0 <= i < j < self.records.len() ==> (#[trigger] self.records[i]).offset != (
            #[trigger] self.records[j]).offset
    }

    /// The object that the history is of.
    pub closed spec fn id(&self) -> Seq<char> {
        self.records[0].id@
    }

    /// Whether a record with this offset is held, and where.
    closed spec fn held_at(&self, offset: int, i: int) -> bool {
        0 <= i < self.records.len() && self.records[i].offset == offset
    }

    /// The records, by offset.
    pub closed spec fn by_offset(&self) -> Map<int, ChangeView> {
        Map::new(
            |offset: int| exists|i: int| self.held_at(offset, i),
            |offset: int| self.records[choose|i: int| self.held_at(offset, i)]@,
        )
    }

    /// The operation that was applied last.
    pub closed spec fn latest(&self) -> OpView {
        self.records[self.current as int].op@
    }

    /// The record at a position is the one that its offset leads to.
    proof fn lemma_held(&self, i: int)
        requires
            self.wf(),
            0 <= i < self.records.len(),
        ensures
            self.by_offset().dom().contains(self.records[i].offset as int),
            self.by_offset()[self.records[i].offset as int] == self.records[i]@,
    {
        let offset = self.records[i].offset as int;
        assert(self.held_at(offset, i));
        let j = choose|j: int| self.held_at(offset, j);
        assert(self.held_at(offset, j));
        if i < j {
            assert(self.records[i].offset != self.records[j].offset);
        } else if j < i {
            assert(self.records[j].offset != self.records[i].offset);
        }
    }

    /// Every record is of this object and is filed under its own offset.
    pub proof fn lemma_records(&self, offset: int)
        requires
            self.wf(),
            self.by_offset().dom().contains(offset),
        ensures
            self.by_offset()[offset].offset == offset,
            self.by_offset()[offset].id == self.id(),
    {
        let i = choose|i: int| self.held_at(offset, i);
        assert(self.held_at(offset, i));
        self.lemma_held(i);
    }

    /// The history of an object of which one change is known.
    pub fn new(change: Change) -> (res: Self)
        ensures
            res.wf(),
            res.id() == change.id@,
            res.by_offset() == Map::<int, ChangeView>::empty().insert(change.offset as int, change@),
            res.latest() == change.op@,
    {
        let mut records: Vec<Change> = Vec::new();
        records.push(change);
        let res = ObjectHistory { records, current: 0 };
        proof {
            res.lemma_held(0);
            assert forall|offset: int| res.by_offset().dom().contains(offset) implies offset
                == change.offset by {
                let i = choose|i: int| res.held_at(offset, i);
                assert(res.held_at(offset, i));
            }
            assert(res.by_offset() =~= Map::<int, ChangeView>::empty().insert(
                change.offset as int,
                change@,
            ));
        }
        res
    }

    /// Files a change of this object under its offset, in place of an earlier
    /// record with the same offset if there is one, and points the latest
    /// pointer at it.
    pub fn record(&mut self, change: Change)
        requires
            old(self).wf(),
            change.id@ == old(self).id(),
        ensures
            final(self).wf(),
            final(self).id() == old(self).id(),
            final(self).by_offset() == old(self).by_offset().insert(change.offset as int, change@),
            final(self).latest() == change.op@,
    {
        let ghost offset = change.offset as int;
        let ghost view = change@;
        let mut i: usize = 0;
        while i < self.records.len()
            invariant
                i <= self.records.len(),
                *self == *old(self),
                old(self).wf(),
                change.id@ == old(self).id(),
                offset == change.offset,
                view == change@,
                forall|j: int| 0 <= j < i ==> (#[trigger] self.records[j]).offset != change.offset,
            decreases self.records.len() - i,
        {
            if self.records[i].offset == change.offset {
                self.records.set(i, change);
                self.current = i;
                proof {
                    assert(self.wf()) by {
                        assert forall|a: int, b: int| 0 <= a < b < self.records.len() implies (
                        #[trigger] self.records[a]).offset != (#[trigger] self.records[b]).offset by {
                            assert(old(self).records[a].offset != old(self).records[b].offset);
                        }
                        assert forall|a: int| 0 <= a < self.records.len() implies (
                        #[trigger] self.records[a]).id@ == self.records[0].id@ by {
                            assert(old(self).records[a].id@ == old(self).records[0].id@);
                        }
                    }
                    assert forall|o: int| #[trigger]
                        self.by_offset().dom().contains(o) == old(self).by_offset().insert(
                            offset,
                            view,
                        ).dom().contains(o) by {
                        if self.by_offset().dom().contains(o) {
                            let k = choose|k: int| self.held_at(o, k);
                            assert(self.held_at(o, k));
                            assert(old(self).held_at(o, k));
                        }
                        if old(self).by_offset().dom().contains(o) {
                            let k = choose|k: int| old(self).held_at(o, k);
                            assert(old(self).held_at(o, k));
                            assert(self.held_at(o, k));
                        }
                        if o == offset {
                            assert(self.held_at(o, i as int));
                        }
                    }
                    assert forall|o: int| #[trigger] self.by_offset().dom().contains(o) implies self.by_offset()[o]
                        == old(self).by_offset().insert(offset, view)[o] by {
                        let k = choose|k: int| self.held_at(o, k);
                        assert(self.held_at(o, k));
                        self.lemma_held(k);
                        if k != i {
                            assert(old(self).held_at(o, k));
                            old(self).lemma_held(k);
                            assert(old(self).records[k].offset != old(self).records[i as int].offset);
                        }
                    }
                    assert(self.by_offset() =~= old(self).by_offset().insert(offset, view));
                }
                return ;
            }
            i += 1;
        }
        self.records.push(change);
        self.current = self.records.len() - 1;
        proof {
            let last = self.records.len() - 1;
            assert(self.wf()) by {
                assert forall|a: int, b: int| 0 <= a < b < self.records.len() implies (
                #[trigger] self.records[a]).offset != (#[trigger] self.records[b]).offset by {
                    if b < last {
                        assert(old(self).records[a].offset != old(self).records[b].offset);
                    } else {
                        assert(old(self).records[a].offset != change.offset);
                    }
                }
                assert forall|a: int| 0 <= a < self.records.len() implies (#[trigger] self.records[a]).id@
                    == self.records[0].id@ by {
                    if a < last {
                        assert(old(self).records[a].id@ == old(self).records[0].id@);
                    }
                }
            }
            assert forall|o: int| #[trigger]
                self.by_offset().dom().contains(o) == old(self).by_offset().insert(
                    offset,
                    view,
                ).dom().contains(o) by {
                if self.by_offset().dom().contains(o) {
                    let k = choose|k: int| self.held_at(o, k);
                    assert(self.held_at(o, k));
                    if k < last {
                        assert(old(self).held_at(o, k));
                    }
                }
                if old(self).by_offset().dom().contains(o) {
                    let k = choose|k: int| old(self).held_at(o, k);
                    assert(old(self).held_at(o, k));
                    assert(self.held_at(o, k));
                }
                if o == offset {
                    assert(self.held_at(o, last));
                }
            }
            assert forall|o: int| #[trigger] self.by_offset().dom().contains(o) implies self.by_offset()[o]
                == old(self).by_offset().insert(offset, view)[o] by {
                let k = choose|k: int| self.held_at(o, k);
                assert(self.held_at(o, k));
                self.lemma_held(k);
                if k < last {
                    assert(old(self).held_at(o, k));
                    old(self).lemma_held(k);
                    assert(old(self).records[k].offset != change.offset);
                }
            }
            assert(self.by_offset() =~= old(self).by_offset().insert(offset, view));
        }
    }

    /// The record with the greatest offset strictly below `bound`.
    pub fn before(&self, bound: Offset) -> (res: Option<&Change>)
        requires
            self.wf(),
        ensures
            option_view(res) == spec_latest_before(self.by_offset(), bound as int),
    {
        let mut best: Option<usize> = None;
        let mut i: usize = 0;
        while i < self.records.len()
            invariant
                i <= self.records.len(),
                self.wf(),
                match best {
                    Some(b) => b < i && self.records[b as int].offset < bound && forall|j: int|
                        0 <= j < i && (#[trigger] self.records[j]).offset < bound ==> self.records[j].offset
                            <= self.records[b as int].offset,
                    None => forall|j: int| 0 <= j < i ==> (#[trigger] self.records[j]).offset >= bound,
                },
            decreases self.records.len() - i,
        {
            if self.records[i].offset < bound {
                let better = match best {
                    Some(b) => self.records[b].offset < self.records[i].offset,
                    None => true,
                };
                if better {
                    best = Some(i);
                }
            }
            i += 1;
        }
        match best {
            Some(b) => {
                proof {
                    let offset = self.records[b as int].offset as int;
                    self.lemma_held(b as int);
                    assert forall|other: int| #[trigger]
                        self.by_offset().dom().contains(other) && other < bound implies other <= offset by {
                        let k = choose|k: int| self.held_at(other, k);
                        assert(self.held_at(other, k));
                    }
                    lemma_latest_before_is(self.by_offset(), bound as int, offset);
                }
                Some(&self.records[b])
            },
            None => {
                proof {
                    assert forall|other: int| #[trigger]
                        self.by_offset().dom().contains(other) implies other >= bound by {
                        let k = choose|k: int| self.held_at(other, k);
                        assert(self.held_at(other, k));
                    }
                    lemma_latest_before_none(self.by_offset(), bound as int);
                }
                None
            },
        }
    }

    /// The operation that was applied last.
    pub fn latest_op(&self) -> (res: &ChangeOp)
        requires
            self.wf(),
        ensures
            res@ == self.latest(),
    {
        &self.records[self.current].op
    }
}

} // verus!
