//! The projection of one file: the materialized view of its change stream. It
//! keeps every change under its object and offset, the latest state of every
//! object, and the latest offset that it has applied.

use vstd::prelude::*;
use crate::history::{spec_latest_before, ObjectHistory};
use crate::model::{option_view, views, Change, ChangeOp, ChangeView, Offset, OpView};
use crate::table::Table;

verus! {

/// What a projection holds, as mathematics.
pub struct ProjectionView {
    /// Every applied change, under its object and its offset.
    pub history: Map<(Seq<char>, int), ChangeView>,
    /// For every object that was ever changed, the operation applied last.
    pub latest: Map<Seq<char>, OpView>,
    /// The objects that were ever changed, in the order of their first change.
    pub order: Seq<Seq<char>>,
    /// The highest offset applied so far; none before the first change.
    pub latest_offset: Option<int>,
}

impl ProjectionView {
    /// The projection of a file without history.
    pub open spec fn empty() -> ProjectionView {
        ProjectionView { history: Map::empty(), latest: Map::empty(), order: Seq::empty(), latest_offset: None }
    }

    /// The projection after one more change: the change is filed under its
    /// object and offset, becomes the latest state of its object, and the
    /// latest offset moves up to the change's offset unless it is there or
    /// beyond already. An object that is changed for the first time joins the
    /// known objects at the end.
    pub open spec fn apply(self, change: ChangeView) -> ProjectionView {
        ProjectionView {
            history: self.history.insert((change.id, change.offset), change),
            latest: self.latest.insert(change.id, change.op),
            order: if self.latest.dom().contains(change.id) {
                self.order
            } else {
                self.order.push(change.id)
            },
            latest_offset: match self.latest_offset {
                Some(o) => if o >= change.offset {
                    Some(o)
                } else {
                    Some(change.offset)
                },
                None => Some(change.offset),
            },
        }
    }

    /// The changes of one object, by offset.
    pub open spec fn records_of(self, obj_id: Seq<char>) -> Map<int, ChangeView> {
        Map::new(|offset: int| self.history.dom().contains((obj_id, offset)), |offset: int| self.history[(obj_id, offset)])
    }

    /// The latest change of an object that was committed strictly before
    /// `offset`.
    pub open spec fn state_before(self, obj_id: Seq<char>, offset: int) -> Option<ChangeView> {
        spec_latest_before(self.records_of(obj_id), offset)
    }

    /// The representation of an object as committed strictly before `offset`:
    /// none where the object had no change yet or was deleted.
    pub open spec fn object_before(self, obj_id: Seq<char>, offset: int) -> Option<Seq<u8>> {
        match self.state_before(obj_id, offset) {
            Some(change) => change.op.representation(),
            None => None,
        }
    }

    /// The representation that an object has now: none where it never existed
    /// or is deleted.
    pub open spec fn object_now(self, obj_id: Seq<char>) -> Option<Seq<u8>> {
        if self.latest.dom().contains(obj_id) {
            self.latest[obj_id].representation()
        } else {
            None
        }
    }

    /// Whether an object exists now.
    pub open spec fn live(self, obj_id: Seq<char>) -> bool {
        self.object_now(obj_id) is Some
    }

    /// The objects among the first `n` known ones that exist now, in the order
    /// of their first change.
    pub open spec fn live_prefix(self, n: nat) -> Seq<Seq<char>>
        decreases n,
    {
        if n == 0 {
            Seq::empty()
        } else if self.live(self.order[n - 1]) {
            self.live_prefix((n - 1) as nat).push(self.order[n - 1])
        } else {
            self.live_prefix((n - 1) as nat)
        }
    }

    /// The objects that exist now, in the order of their first change.
    pub open spec fn live_list(self) -> Seq<Seq<char>> {
        self.live_prefix(self.order.len())
    }

    /// Whether the known objects are exactly those that have a latest state,
    /// each listed once.
    pub open spec fn ordered(self) -> bool {
        &&& forall|i: int, j: int| 0 <= i < j < self.order.len() ==> self.order[i] != self.order[j]
        &&& forall|obj_id: Seq<char>| self.order.contains(obj_id) <==> #[trigger] self.latest.dom().contains(obj_id)
    }

    /// Whether the latest offset is at or beyond the offset of every change
    /// that is filed.
    pub open spec fn covered(self) -> bool {
        forall|k: (Seq<char>, int)| #[trigger]
            self.history.dom().contains(k) ==> spec_not_behind(self.latest_offset, Some(k.1))
    }
}

/// The projection after a run of changes, applied in the order given.
pub open spec fn spec_apply_all(start: ProjectionView, changes: Seq<ChangeView>) -> ProjectionView
    decreases changes.len(),
{
    if changes.len() == 0 {
        start
    } else {
        spec_apply_all(start, changes.drop_last()).apply(changes.last())
    }
}

/// Whether one offset marker is at or beyond another; no marker is behind
/// every marker.
pub open spec fn spec_not_behind(later: Option<int>, earlier: Option<int>) -> bool {
    match earlier {
        None => true,
        Some(e) => match later {
            Some(l) => l >= e,
            None => false,
        },
    }
}

/// The latest offset of a projection never falls: after one more change,
/// whatever its offset, it is where it was or further, and it is at or beyond
/// the offset of the change.
pub proof fn lemma_latest_offset_never_falls(projection: ProjectionView, change: ChangeView)
    ensures
        spec_not_behind(projection.apply(change).latest_offset, projection.latest_offset),
        spec_not_behind(projection.apply(change).latest_offset, Some(change.offset)),
{
}

/// The known objects stay exactly those that have a latest state, each listed
/// once, when one more change is applied.
pub proof fn lemma_ordered_kept(projection: ProjectionView, change: ChangeView)
    requires
        projection.ordered(),
    ensures
        projection.apply(change).ordered(),
{
    let after = projection.apply(change);
    if projection.latest.dom().contains(change.id) {
        assert(projection.order.contains(change.id));
    } else {
        assert forall|i: int, j: int| 0 <= i < j < after.order.len() implies after.order[i] != after.order[j] by {
            if j == projection.order.len() {
                assert(projection.order[i] == after.order[i]);
                if after.order[i] == change.id {
                    assert(projection.order.contains(change.id));
                }
            }
        }
        assert forall|obj_id: Seq<char>| after.order.contains(obj_id) <==> #[trigger] after.latest.dom().contains(
            obj_id,
        ) by {
            if after.order.contains(obj_id) {
                let i = choose|i: int| 0 <= i < after.order.len() && after.order[i] == obj_id;
                if i < projection.order.len() {
                    assert(projection.order[i] == obj_id);
                    assert(projection.order.contains(obj_id));
                }
            }
            if after.latest.dom().contains(obj_id) {
                if obj_id == change.id {
                    assert(after.order[projection.order.len() as int] == obj_id);
                } else {
                    assert(projection.order.contains(obj_id));
                    let i = choose|i: int| 0 <= i < projection.order.len() && projection.order[i] == obj_id;
                    assert(after.order[i] == obj_id);
                }
            }
        }
    }
}

/// A projection without history knows no objects and files no change.
pub proof fn lemma_empty_projection()
    ensures
        ProjectionView::empty().ordered(),
        ProjectionView::empty().covered(),
{
    let empty = ProjectionView::empty();
    assert forall|obj_id: Seq<char>| empty.order.contains(obj_id) <==> #[trigger] empty.latest.dom().contains(
        obj_id,
    ) by {
        if empty.order.contains(obj_id) {
            let i = choose|i: int| 0 <= i < empty.order.len() && empty.order[i] == obj_id;
        }
    }
}

/// What the list of the first `n` known objects that exist now holds: each of
/// them once, and nothing else.
pub proof fn lemma_live_prefix(projection: ProjectionView, n: nat)
    requires
        projection.ordered(),
        n <= projection.order.len(),
    ensures
        forall|obj_id: Seq<char>|
            projection.live_prefix(n).contains(obj_id) <==> projection.live(obj_id) && exists|i: int|
                0 <= i < n && #[trigger] projection.order[i] == obj_id,
        forall|i: int, j: int|
            0 <= i < j < projection.live_prefix(n).len() ==> projection.live_prefix(n)[i]
                != projection.live_prefix(n)[j],
    decreases n,
{
    if n > 0 {
        let before = projection.live_prefix((n - 1) as nat);
        let now = projection.live_prefix(n);
        let last = projection.order[n - 1];
        lemma_live_prefix(projection, (n - 1) as nat);
        assert forall|obj_id: Seq<char>|
            now.contains(obj_id) <==> projection.live(obj_id) && exists|i: int|
                0 <= i < n && #[trigger] projection.order[i] == obj_id by {
            if now.contains(obj_id) {
                let k = choose|k: int| 0 <= k < now.len() && now[k] == obj_id;
                if k < before.len() {
                    assert(before[k] == obj_id);
                    assert(before.contains(obj_id));
                }
            }
            if projection.live(obj_id) && exists|i: int| 0 <= i < n && #[trigger] projection.order[i] == obj_id {
                let i = choose|i: int| 0 <= i < n && #[trigger] projection.order[i] == obj_id;
                if i < n - 1 {
                    assert(before.contains(obj_id));
                    let k = choose|k: int| 0 <= k < before.len() && before[k] == obj_id;
                    assert(now[k] == obj_id);
                } else {
                    assert(now[now.len() - 1] == obj_id);
                }
            }
        }
        assert forall|i: int, j: int| 0 <= i < j < now.len() implies now[i] != now[j] by {
            if j == before.len() {
                assert(now[i] == before[i]);
                if before[i] == last {
                    assert(before.contains(last));
                    let k = choose|k: int| 0 <= k < n - 1 && #[trigger] projection.order[k] == last;
                    assert(projection.order[k] != projection.order[n - 1]);
                }
            } else {
                assert(now[i] == before[i]);
                assert(now[j] == before[j]);
            }
        }
    } else {
        assert forall|obj_id: Seq<char>| !projection.live_prefix(0).contains(obj_id) by {
            if projection.live_prefix(0).contains(obj_id) {
                let k = choose|k: int| 0 <= k < projection.live_prefix(0).len() && projection.live_prefix(0)[k] == obj_id;
            }
        }
    }
}

/// The list of the objects that exist now holds each of them once, and
/// nothing else.
pub proof fn lemma_live_list(projection: ProjectionView)
    requires
        projection.ordered(),
    ensures
        forall|obj_id: Seq<char>| projection.live_list().contains(obj_id) <==> projection.live(obj_id),
        forall|i: int, j: int|
            0 <= i < j < projection.live_list().len() ==> projection.live_list()[i] != projection.live_list()[j],
{
    lemma_live_prefix(projection, projection.order.len());
    assert forall|obj_id: Seq<char>| projection.live_list().contains(obj_id) <==> projection.live(obj_id) by {
        if projection.live(obj_id) {
            assert(projection.latest.dom().contains(obj_id));
            assert(projection.order.contains(obj_id));
            let i = choose|i: int| 0 <= i < projection.order.len() && projection.order[i] == obj_id;
            assert(projection.order[i] == obj_id);
        }
    }
}

/// The latest offset of a projection stays at or beyond every filed change
/// when one more change is applied.
pub proof fn lemma_covered_kept(projection: ProjectionView, change: ChangeView)
    requires
        projection.covered(),
    ensures
        projection.apply(change).covered(),
{
    let after = projection.apply(change);
    assert forall|k: (Seq<char>, int)| #[trigger] after.history.dom().contains(k) implies spec_not_behind(
        after.latest_offset,
        Some(k.1),
    ) by {
        if k != (change.id, change.offset) {
            assert(projection.history.dom().contains(k));
        }
    }
}

/// The latest offset of a projection never falls over a run of changes.
pub proof fn lemma_latest_offset_never_falls_over(projection: ProjectionView, changes: Seq<ChangeView>)
    ensures
        spec_not_behind(spec_apply_all(projection, changes).latest_offset, projection.latest_offset),
    decreases changes.len(),
{
    if changes.len() > 0 {
        lemma_latest_offset_never_falls_over(projection, changes.drop_last());
        lemma_latest_offset_never_falls(spec_apply_all(projection, changes.drop_last()), changes.last());
    }
}

/// The projection of one file.
pub struct FileProjection {
    objects: Table<ObjectHistory>,
    latest_offset: Option<Offset>,
}

impl FileProjection {
    /// Every object has a well-formed history, filed under its own name, and
    /// the latest offset is at or beyond every offset that is filed.
    pub closed spec fn wf(&self) -> bool {
        &&& self.objects.wf()
        &&& forall|b: int|
            0 <= b < self.objects.values.len() ==> (#[trigger] self.objects.values[b]).wf()
                && self.objects.values[b].id() == self.objects.keys[b]@
        &&& self@.covered()
    }

    /// The changes of one object, by offset.
    closed spec fn records(&self, obj_id: Seq<char>) -> Map<int, ChangeView> {
        if self.objects.has(obj_id) {
            self.objects.value(obj_id).by_offset()
        } else {
            Map::empty()
        }
    }
}

impl View for FileProjection {
    type V = ProjectionView;

    closed spec fn view(&self) -> ProjectionView {
        ProjectionView {
            history: Map::new(
                |k: (Seq<char>, int)| self.records(k.0).dom().contains(k.1),
                |k: (Seq<char>, int)| self.records(k.0)[k.1],
            ),
            latest: Map::new(
                |obj_id: Seq<char>| self.objects.has(obj_id),
                |obj_id: Seq<char>| self.objects.value(obj_id).latest(),
            ),
            order: views(self.objects.keys@),
            latest_offset: match self.latest_offset {
                Some(o) => Some(o as int),
                None => None,
            },
        }
    }
}

impl FileProjection {
    /// Whether two projections hold the same of an object.
    closed spec fn same_object(&self, other: &Self, obj_id: Seq<char>) -> bool {
        &&& self.records(obj_id) == other.records(obj_id)
        &&& self.objects.has(obj_id) == other.objects.has(obj_id)
        &&& self.objects.has(obj_id) ==> self.objects.value(obj_id).latest() == other.objects.value(
            obj_id,
        ).latest()
    }

    /// The changes that the view holds for an object are those of its history.
    proof fn lemma_records(&self, obj_id: Seq<char>)
        ensures
            self@.records_of(obj_id) == self.records(obj_id),
    {
        assert(self@.records_of(obj_id) =~= self.records(obj_id));
    }

    /// The latest offset is at or beyond the offset of every change that the
    /// projection has applied.
    pub proof fn lemma_covered(&self)
        requires
            self.wf(),
        ensures
            self@.covered(),
    {
    }

    /// The known objects are exactly those that have a latest state, each
    /// listed once.
    pub proof fn lemma_ordered(&self)
        requires
            self.wf(),
        ensures
            self@.ordered(),
    {
        let order = self@.order;
        assert forall|i: int, j: int| 0 <= i < j < order.len() implies order[i] != order[j] by {
            assert(self.objects.keys[i]@ != self.objects.keys[j]@);
        }
        assert forall|obj_id: Seq<char>| order.contains(obj_id) <==> #[trigger] self@.latest.dom().contains(
            obj_id,
        ) by {
            if order.contains(obj_id) {
                let i = choose|i: int| 0 <= i < order.len() && order[i] == obj_id;
                assert(self.objects.keys[i]@ == obj_id);
            }
            if self.objects.has(obj_id) {
                let i = self.objects.slot(obj_id);
                assert(order[i] == obj_id);
            }
        }
    }

    /// Every change is filed under its own object and offset.
    pub proof fn lemma_filed(&self, obj_id: Seq<char>, offset: int)
        requires
            self.wf(),
            self@.history.dom().contains((obj_id, offset)),
        ensures
            self@.history[(obj_id, offset)].id == obj_id,
            self@.history[(obj_id, offset)].offset == offset,
    {
        let b = self.objects.slot(obj_id);
        assert(self.objects.values[b].wf());
        self.objects.values[b].lemma_records(offset);
    }

    /// The projection of a file without history.
    pub fn new() -> (res: Self)
        ensures
            res.wf(),
            res@ == ProjectionView::empty(),
    {
        let res = FileProjection { objects: Table::new(), latest_offset: None };
        proof {
            assert(res@.history =~= Map::<(Seq<char>, int), ChangeView>::empty());
            assert(res@.latest =~= Map::<Seq<char>, OpView>::empty());
            assert(res@.order =~= Seq::<Seq<char>>::empty());
        }
        res
    }

    /// Applies the next change of the stream.
    pub fn apply(&mut self, change: Change)
        requires
            old(self).wf(),
        ensures
            final(self).wf(),
            final(self)@ == old(self)@.apply(change@),
            spec_not_behind(final(self)@.latest_offset, old(self)@.latest_offset),
            spec_not_behind(final(self)@.latest_offset, Some(change.offset as int)),
    {
        let ghost applied = change@;
        let offset = change.offset;
        self.latest_offset = match self.latest_offset {
            Some(o) => if o >= offset {
                Some(o)
            } else {
                Some(offset)
            },
            None => Some(offset),
        };
        match self.objects.find(change.id.as_str()) {
            Some(b) => {
                self.objects.values[b].record(change);
                proof {
                    assert forall|obj_id: Seq<char>| obj_id != applied.id implies #[trigger] self.same_object(
                        old(self),
                        obj_id,
                    ) by {
                        self.objects.lemma_same_keys(&old(self).objects, obj_id);
                        if self.objects.has(obj_id) {
                            let other = self.objects.slot(obj_id);
                            assert(self.objects.keys[other]@ == obj_id);
                            assert(other != b);
                            assert(self.objects.values[other] == old(self).objects.values[other]);
                        }
                    }
                    self.objects.lemma_same_keys(&old(self).objects, applied.id);
                    assert(self.records(applied.id) == old(self).records(applied.id).insert(
                        applied.offset,
                        applied,
                    ));
                }
            },
            None => {
                let key = change.id.clone();
                let history = ObjectHistory::new(change);
                self.objects.insert_new(key, history);
                proof {
                    assert forall|obj_id: Seq<char>| obj_id != applied.id implies #[trigger] self.same_object(
                        old(self),
                        obj_id,
                    ) by {
                        self.objects.lemma_one_more(&old(self).objects, key, obj_id);
                        if self.objects.has(obj_id) {
                            let other = self.objects.slot(obj_id);
                            assert(self.objects.values[other] == old(self).objects.values[other]);
                        }
                    }
                    assert(old(self).records(applied.id) == Map::<int, ChangeView>::empty());
                    assert(self.records(applied.id) == old(self).records(applied.id).insert(
                        applied.offset,
                        applied,
                    ));
                }
            },
        }
        proof {
            let after = self@;
            let expected = old(self)@.apply(applied);
            assert(self.objects.has(applied.id));
            assert(self.objects.value(applied.id).latest() == applied.op);
            assert forall|k: (Seq<char>, int)| #[trigger]
                after.history.dom().contains(k) == expected.history.dom().contains(k) by {
                if k.0 != applied.id {
                    assert(self.same_object(old(self), k.0));
                }
            }
            assert forall|k: (Seq<char>, int)| #[trigger] after.history.dom().contains(k) implies after.history[k]
                == expected.history[k] by {
                if k.0 != applied.id {
                    assert(self.same_object(old(self), k.0));
                }
            }
            assert(after.history =~= expected.history);
            assert forall|obj_id: Seq<char>| #[trigger]
                after.latest.dom().contains(obj_id) == expected.latest.dom().contains(obj_id) by {
                if obj_id != applied.id {
                    assert(self.same_object(old(self), obj_id));
                }
            }
            assert forall|obj_id: Seq<char>| #[trigger] after.latest.dom().contains(obj_id) implies after.latest[obj_id]
                == expected.latest[obj_id] by {
                if obj_id != applied.id {
                    assert(self.same_object(old(self), obj_id));
                }
            }
            assert(after.latest =~= expected.latest);
            assert(after.order =~= expected.order);
            lemma_covered_kept(old(self)@, applied);
        }
    }

    /// The latest change of an object that was committed strictly before
    /// `offset`.
    pub fn state_before(&self, obj_id: &str, offset: Offset) -> (res: Option<&Change>)
        requires
            self.wf(),
        ensures
            option_view(res) == self@.state_before(obj_id@, offset as int),
    {
        proof {
            self.lemma_records(obj_id@);
        }
        match self.objects.find(obj_id) {
            Some(b) => self.objects.values[b].before(offset),
            None => {
                proof {
                    crate::history::lemma_latest_before_none(self.records(obj_id@), offset as int);
                }
                None
            },
        }
    }

    /// The highest offset applied so far; none before the first change.
    pub fn latest_offset(&self) -> (res: Option<Offset>)
        ensures
            self@.latest_offset == match res {
                Some(o) => Some(o as int),
                None => None,
            },
    {
        self.latest_offset
    }

    /// The objects that exist now, each once, in the order of their first
    /// change.
    pub fn live_ids(&self) -> (res: Vec<String>)
        requires
            self.wf(),
        ensures
            views(res@) == self@.live_list(),
            forall|i: int, j: int| 0 <= i < j < res.len() ==> (#[trigger] res[i])@ != (#[trigger] res[j])@,
            forall|obj_id: Seq<char>|
                self@.live(obj_id) <==> exists|i: int| 0 <= i < res.len() && (#[trigger] res[i])@ == obj_id,
    {
        let mut res: Vec<String> = Vec::new();
        let mut b: usize = 0;
        while b < self.objects.keys.len()
            invariant
                b <= self.objects.keys.len(),
                self.wf(),
                views(res@) == self@.live_prefix(b as nat),
            decreases self.objects.keys.len() - b,
        {
            assert(self.objects.values[b as int].wf());
            proof {
                self.objects.lemma_slot(b as int);
            }
            let is_live = match self.objects.values[b].latest_op() {
                ChangeOp::Delete => false,
                _ => true,
            };
            let ghost before = views(res@);
            if is_live {
                res.push(self.objects.keys[b].clone());
                assert(views(res@) =~= before.push(self.objects.keys[b as int]@));
            }
            b += 1;
        }
        proof {
            let list = self@.live_list();
            self.lemma_ordered();
            lemma_live_list(self@);
            assert forall|i: int, j: int| 0 <= i < j < res.len() implies (#[trigger] res[i])@ != (
            #[trigger] res[j])@ by {
                assert(list[i] == res[i]@ && list[j] == res[j]@);
            }
            assert forall|obj_id: Seq<char>|
                self@.live(obj_id) <==> exists|i: int| 0 <= i < res.len() && (#[trigger] res[i])@ == obj_id by {
                if self@.live(obj_id) {
                    assert(list.contains(obj_id));
                    let i = choose|i: int| 0 <= i < list.len() && list[i] == obj_id;
                    assert(res[i]@ == obj_id);
                }
                if exists|i: int| 0 <= i < res.len() && (#[trigger] res[i])@ == obj_id {
                    let i = choose|i: int| 0 <= i < res.len() && (#[trigger] res[i])@ == obj_id;
                    assert(list[i] == obj_id);
                    assert(list.contains(obj_id));
                }
            }
        }
        res
    }
}

} // verus!
