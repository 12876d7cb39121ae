//! A small table from names to values, kept in insertion order. The files of
//! the log, the files of the cache and the stacks of the users are kept in such
//! tables.

use vstd::prelude::*;

verus! {

/// Names and their values, at matching positions.
pub struct Table<V> {
    pub keys: Vec<String>,
    pub values: Vec<V>,
}

impl<V> View for Table<V> {
    type V = Map<Seq<char>, V>;

    /// The table as a map from names to values.
    open spec fn view(&self) -> Map<Seq<char>, V> {
        Map::new(|key: Seq<char>| self.has(key), |key: Seq<char>| self.value(key))
    }
}

impl<V> Table<V> {
    /// Every name has a value, and no name occurs twice.
    pub open spec fn wf(&self) -> bool {
        &&& self.keys.len() == self.values.len()
        &&& forall|i: int, j: int|
            0 <= i < j < self.keys.len() ==> (#[trigger] self.keys[i])@ != (#[trigger] self.keys[j])@
    }

    /// Whether the name is in the table.
    pub open spec fn has(&self, key: Seq<char>) -> bool {
        exists|i: int| 0 <= i < self.keys.len() && (#[trigger] self.keys[i])@ == key
    }

    /// The position of a name that is in the table.
    pub open spec fn slot(&self, key: Seq<char>) -> int {
        choose|i: int| 0 <= i < self.keys.len() && (#[trigger] self.keys[i])@ == key
    }

    /// The value of a name that is in the table.
    pub open spec fn value(&self, key: Seq<char>) -> V {
        self.values[self.slot(key)]
    }

    /// In a well-formed table the position that holds a name is its slot.
    pub proof fn lemma_slot(&self, i: int)
        requires
            self.wf(),
            0 <= i < self.keys.len(),
        ensures
            self.has(self.keys[i]@),
            self.slot(self.keys[i]@) == i,
    {
        let key = self.keys[i]@;
        let j = self.slot(key);
        assert(0 <= j < self.keys.len() && self.keys[j]@ == key);
        if j < i {
            assert(self.keys[j]@ != self.keys[i]@);
        } else if i < j {
            assert(self.keys[i]@ != self.keys[j]@);
        }
    }

    /// Two tables with the same names find each name at the same position.
    pub proof fn lemma_same_keys(&self, other: &Self, key: Seq<char>)
        requires
            self.keys@ == other.keys@,
        ensures
            self.has(key) == other.has(key),
            self.slot(key) == other.slot(key),
    {
        assert(self.keys.len() == other.keys.len());
        assert forall|i: int| (0 <= i < self.keys.len() && (#[trigger] self.keys[i])@ == key) == (0 <= i
            < other.keys.len() && (#[trigger] other.keys[i])@ == key) by {}
        if self.has(key) {
            let i = self.slot(key);
            assert(0 <= i < other.keys.len() && other.keys[i]@ == key);
        }
        if other.has(key) {
            let i = other.slot(key);
            assert(0 <= i < self.keys.len() && self.keys[i]@ == key);
        }
        assert(self.slot(key) == other.slot(key)) by {
            assert((|i: int| 0 <= i < self.keys.len() && self.keys[i]@ == key) =~= (|i: int|
                0 <= i < other.keys.len() && other.keys[i]@ == key));
        }
    }

    /// A table that got one more name at its end finds the new name there
    /// and every other name where it was.
    pub proof fn lemma_one_more(&self, before: &Self, added: String, key: Seq<char>)
        requires
            self.wf(),
            before.wf(),
            self.keys@ == before.keys@.push(added),
        ensures
            key == added@ ==> self.has(key) && self.slot(key) == before.keys.len(),
            key != added@ ==> self.has(key) == before.has(key),
            key != added@ && before.has(key) ==> self.slot(key) == before.slot(key),
    {
        let last = before.keys.len() as int;
        assert(self.keys.len() == last + 1);
        assert(self.keys[last] == added);
        if key == added@ {
            self.lemma_slot(last);
        } else {
            if before.has(key) {
                let i = before.slot(key);
                assert(self.keys[i] == before.keys[i]);
                self.lemma_slot(i);
            }
            if self.has(key) {
                let i = self.slot(key);
                assert(i < last);
                assert(self.keys[i] == before.keys[i]);
            }
        }
    }

    /// A table that got one more name, not held before, at its end, with its
    /// value, holds every other name with the value that it had.
    proof fn lemma_one_more_of(&self, before: &Self, added: String, key: Seq<char>)
        requires
            before.wf(),
            !before.has(added@),
            self.keys@ == before.keys@.push(added),
            self.values@.len() == before.values@.len() + 1,
            forall|i: int| 0 <= i < before.values.len() ==> self.values[i] == before.values[i],
        ensures
            self.wf(),
            key == added@ ==> self.has(key) && self.value(key) == self.values[before.keys.len() as int],
            key != added@ ==> self.has(key) == before.has(key),
            key != added@ && before.has(key) ==> self.value(key) == before.value(key),
    {
        let last = before.keys.len() as int;
        assert(self.keys.len() == last + 1);
        assert(self.keys[last] == added);
        assert forall|i: int, j: int| 0 <= i < j < self.keys.len() implies (#[trigger] self.keys[i])@ != (
        #[trigger] self.keys[j])@ by {
            assert(self.keys[i] == before.keys[i]);
            if j < last {
                assert(self.keys[j] == before.keys[j]);
            }
        }
        self.lemma_one_more(before, added, key);
    }

    /// The empty table.
    pub fn new() -> (res: Self)
        ensures
            res.wf(),
            res@ == Map::<Seq<char>, V>::empty(),
            res.keys@.len() == 0,
            res.values@.len() == 0,
            forall|key: Seq<char>| !res.has(key),
    {
        let res = Table { keys: Vec::new(), values: Vec::new() };
        assert(res@ =~= Map::<Seq<char>, V>::empty());
        res
    }

    /// Looks a name up and gives its position.
    pub fn find(&self, key: &str) -> (res: Option<usize>)
        requires
            self.wf(),
        ensures
            match res {
                Some(i) => i < self.keys.len() && self.keys[i as int]@ == key@ && self.has(key@)
                    && self.slot(key@) == i,
                None => !self.has(key@),
            },
            res is Some <==> self@.dom().contains(key@),
    {
        let wanted = key.to_owned();
        let mut i: usize = 0;
        while i < self.keys.len()
            invariant
                i <= self.keys.len(),
                self.wf(),
                wanted@ == key@,
                forall|j: int| 0 <= j < i ==> (#[trigger] self.keys[j])@ != key@,
            decreases self.keys.len() - i,
        {
            if self.keys[i] == wanted {
                proof {
                    self.lemma_slot(i as int);
                }
                return Some(i);
            }
            i += 1;
        }
        None
    }

    /// Adds a name that the table does not hold yet, at the end.
    pub fn insert_new(&mut self, key: String, value: V) -> (slot: usize)
        requires
            old(self).wf(),
            !old(self).has(key@),
        ensures
            final(self).wf(),
            final(self)@ == old(self)@.insert(key@, value),
            final(self).keys@ == old(self).keys@.push(key),
            final(self).values@ == old(self).values@.push(value),
            slot == old(self).keys.len(),
            final(self).has(key@),
            final(self).slot(key@) == slot,
    {
        let slot = self.keys.len();
        self.keys.push(key);
        self.values.push(value);
        proof {
            assert forall|other: Seq<char>| #[trigger]
                self@.dom().contains(other) == old(self)@.insert(key@, value).dom().contains(other) by {
                self.lemma_one_more_of(old(self), key, other);
            }
            assert forall|other: Seq<char>| #[trigger] self@.dom().contains(other) implies self@[other] == old(
                self,
            )@.insert(key@, value)[other] by {
                self.lemma_one_more_of(old(self), key, other);
            }
            assert(self@ =~= old(self)@.insert(key@, value));
            assert forall|i: int, j: int| 0 <= i < j < self.keys.len() implies (
            #[trigger] self.keys[i])@ != (#[trigger] self.keys[j])@ by {
                if j < slot {
                    assert(old(self).keys[i]@ != old(self).keys[j]@);
                } else {
                    assert(old(self).keys[i]@ != key@);
                }
            }
            self.lemma_slot(slot as int);
        }
        slot
    }

    /// The position of a name, which is given `value` first if the table does
    /// not hold it yet. Every other name stays where it was.
    pub fn slot_or_insert(&mut self, key: &str, value: V) -> (slot: usize)
        requires
            old(self).wf(),
        ensures
            final(self).wf(),
            final(self)@ == if old(self)@.dom().contains(key@) {
                old(self)@
            } else {
                old(self)@.insert(key@, value)
            },
            slot < final(self).keys.len(),
            final(self).keys[slot as int]@ == key@,
            final(self).has(key@),
            final(self).slot(key@) == slot,
            old(self).has(key@) ==> final(self).keys@ == old(self).keys@ && final(self).values@ == old(
                self,
            ).values@,
            !old(self).has(key@) ==> slot == old(self).keys.len() && final(self).keys@.len() == slot + 1
                && final(self).keys@.drop_last() == old(self).keys@ && final(self).values@ == old(
                self,
            ).values@.push(value),
            forall|other: Seq<char>|
                other != key@ ==> (#[trigger] final(self).has(other)) == old(self).has(other) && (old(
                    self,
                ).has(other) ==> final(self).slot(other) == old(self).slot(other)),
    {
        match self.find(key) {
            Some(slot) => {
                proof {
                    assert(self@ =~= old(self)@);
                    assert forall|other: Seq<char>| other != key@ implies (#[trigger] self.has(other)) == old(
                        self,
                    ).has(other) && (old(self).has(other) ==> self.slot(other) == old(self).slot(other)) by {
                        self.lemma_same_keys(old(self), other);
                    }
                }
                slot
            },
            None => {
                let name = key.to_owned();
                let slot = self.insert_new(name, value);
                proof {
                    assert(self.keys@.drop_last() =~= old(self).keys@);
                    assert forall|other: Seq<char>| other != key@ implies (#[trigger] self.has(other)) == old(
                        self,
                    ).has(other) && (old(self).has(other) ==> self.slot(other) == old(self).slot(other)) by {
                        self.lemma_one_more(old(self), name, other);
                    }
                }
                slot
            },
        }
    }
}

} // verus!
