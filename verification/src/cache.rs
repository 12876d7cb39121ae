//! The projection cache: one projection for each file, fed from the ordered
//! change stream and read by point-in-time and latest queries. Reads never
//! alter it.

use vstd::prelude::*;
use crate::model::{
    option_view, option_views, views, Change, ChangeView, Error, ObjectAtOffset, ObjectRepresentation,
    Offset, QueryView,
};
use crate::projection::{
    lemma_empty_projection, lemma_latest_offset_never_falls_over, spec_apply_all, spec_not_behind,
    FileProjection, ProjectionView,
};
use crate::table::Table;

verus! {

/// The projections of all files that have history.
pub struct ProjectionCache {
    files: Table<FileProjection>,
}

/// The answers to a batch of point-in-time queries, as changes: for each key,
/// at its position, the latest change of the object from strictly before the
/// offset.
pub open spec fn spec_prior_changes(projection: ProjectionView, keys: Seq<QueryView>) -> Seq<
    Option<ChangeView>,
> {
    Seq::new(keys.len(), |i: int| projection.state_before(keys[i].obj_id, keys[i].offset))
}

/// The answers to a batch of point-in-time queries, as representations: for
/// each key, at its position, the object as committed strictly before the
/// offset.
pub open spec fn spec_objects(projection: ProjectionView, keys: Seq<QueryView>) -> Seq<Option<Seq<u8>>> {
    Seq::new(keys.len(), |i: int| projection.object_before(keys[i].obj_id, keys[i].offset))
}

impl ProjectionCache {
    /// Every file's projection is well-formed.
    pub closed spec fn wf(&self) -> bool {
        &&& self.files.wf()
        &&& forall|f: int| 0 <= f < self.files.values.len() ==> (#[trigger] self.files.values[f]).wf()
    }

    /// The projection of a file; the empty one for a file without history.
    pub closed spec fn projection(&self, file: Seq<char>) -> ProjectionView {
        if self.files.has(file) {
            self.files.value(file)@
        } else {
            ProjectionView::empty()
        }
    }

    /// The latest offset of a file is at or beyond the offset of every change
    /// that the cache has applied for the file.
    pub proof fn lemma_covered(&self, file: Seq<char>)
        requires
            self.wf(),
        ensures
            self.projection(file).covered(),
    {
        if self.files.has(file) {
            let f = self.files.slot(file);
            self.files.values[f].lemma_covered();
        }
    }

    /// The known objects of a file are exactly those that have a latest state,
    /// each listed once.
    pub proof fn lemma_ordered(&self, file: Seq<char>)
        requires
            self.wf(),
        ensures
            self.projection(file).ordered(),
    {
        if self.files.has(file) {
            let f = self.files.slot(file);
            self.files.values[f].lemma_ordered();
        } else {
            lemma_empty_projection();
        }
    }

    /// A cache without files.
    pub fn new() -> (res: Self)
        ensures
            res.wf(),
            forall|file: Seq<char>| res.projection(file) == ProjectionView::empty(),
    {
        ProjectionCache { files: Table::new() }
    }

    /// Applies the next change of a file's stream to the file's projection.
    pub fn apply(&mut self, file: &str, change: Change)
        requires
            old(self).wf(),
        ensures
            final(self).wf(),
            final(self).projection(file@) == old(self).projection(file@).apply(change@),
            forall|other: Seq<char>|
                other != file@ ==> final(self).projection(other) == old(self).projection(other),
            spec_not_behind(
                final(self).projection(file@).latest_offset,
                old(self).projection(file@).latest_offset,
            ),
    {
        match self.files.find(file) {
            Some(f) => {
                self.files.values[f].apply(change);
                proof {
                    self.files.lemma_same_keys(&old(self).files, file@);
                    assert forall|other: Seq<char>| other != file@ implies self.projection(other) == old(
                        self,
                    ).projection(other) by {
                        self.files.lemma_same_keys(&old(self).files, other);
                        if self.files.has(other) {
                            let o = self.files.slot(other);
                            assert(self.files.keys[o]@ == other);
                            assert(self.files.values[o] == old(self).files.values[o]);
                        }
                    }
                }
            },
            None => {
                let mut projection = FileProjection::new();
                projection.apply(change);
                let key = file.to_owned();
                self.files.insert_new(key, projection);
                proof {
                    assert forall|other: Seq<char>| other != file@ implies self.projection(other) == old(
                        self,
                    ).projection(other) by {
                        self.files.lemma_one_more(&old(self).files, key, other);
                        if self.files.has(other) {
                            let o = self.files.slot(other);
                            assert(self.files.values[o] == old(self).files.values[o]);
                        }
                    }
                }
            },
        }
    }

    /// Consumes a run of a file's change stream: applies every change, in the
    /// order received.
    pub fn update_cache(&mut self, file: &str, changes: Vec<Change>)
        requires
            old(self).wf(),
        ensures
            final(self).wf(),
            final(self).projection(file@) == spec_apply_all(old(self).projection(file@), views(changes@)),
            forall|other: Seq<char>|
                other != file@ ==> final(self).projection(other) == old(self).projection(other),
            spec_not_behind(
                final(self).projection(file@).latest_offset,
                old(self).projection(file@).latest_offset,
            ),
    {
        let ghost stream = views(changes@);
        let ghost run = changes@;
        for change in it: changes
            invariant
                stream == views(run),
                it.seq() == run,
                self.wf(),
                self.projection(file@) == spec_apply_all(old(self).projection(file@), stream.take(it.index() as int)),
                forall|other: Seq<char>| other != file@ ==> self.projection(other) == old(self).projection(other),
        {
            let ghost i = it.index() as int;
            assert(change == run[i]);
            self.apply(file, change);
            proof {
                assert(stream.take(i + 1).drop_last() =~= stream.take(i));
                assert(stream.take(i + 1).last() == stream[i]);
            }
        }
        proof {
            assert(stream.take(run.len() as int) =~= stream);
            lemma_latest_offset_never_falls_over(old(self).projection(file@), stream);
        }
    }

    /// Answers a batch of point-in-time queries with changes: for each key, at
    /// its position, the latest change of the object that was committed
    /// strictly before the offset, or nothing where there is none.
    pub fn get_prior_changes(&self, file: &str, obj_ids: &Vec<ObjectAtOffset>) -> (res: Vec<Option<Change>>)
        requires
            self.wf(),
        ensures
            res@.len() == obj_ids@.len(),
            option_views(res@) == spec_prior_changes(self.projection(file@), views(obj_ids@)),
    {
        let found = self.files.find(file);
        let mut res: Vec<Option<Change>> = Vec::new();
        let mut i: usize = 0;
        while i < obj_ids.len()
            invariant
                i <= obj_ids.len(),
                self.wf(),
                res.len() == i,
                match found {
                    Some(f) => f < self.files.values.len() && self.files.has(file@) && self.files.slot(file@)
                        == f,
                    None => !self.files.has(file@),
                },
                forall|j: int|
                    0 <= j < i ==> option_view(#[trigger] res[j]) == self.projection(file@).state_before(
                        obj_ids[j].obj_id@,
                        obj_ids[j].offset as int,
                    ),
            decreases obj_ids.len() - i,
        {
            let answer = match found {
                Some(f) => {
                    assert(self.files.values[f as int].wf());
                    match self.files.values[f].state_before(obj_ids[i].obj_id.as_str(), obj_ids[i].offset) {
                        Some(change) => Some(change.clone()),
                        None => None,
                    }
                },
                None => {
                    proof {
                        let empty = ProjectionView::empty();
                        assert(empty.records_of(obj_ids[i as int].obj_id@) =~= Map::<int, ChangeView>::empty());
                        crate::history::lemma_latest_before_none(
                            empty.records_of(obj_ids[i as int].obj_id@),
                            obj_ids[i as int].offset as int,
                        );
                    }
                    None
                },
            };
            res.push(answer);
            i += 1;
        }
        assert(option_views(res@) =~= spec_prior_changes(self.projection(file@), views(obj_ids@)));
        res
    }

    /// Answers a batch of point-in-time queries with representations: for each
    /// key, at its position, the object as committed strictly before the
    /// offset, or nothing where it did not exist then.
    pub fn get_objects(&self, file: &str, obj_ids: &Vec<ObjectAtOffset>) -> (res: Vec<
        Option<ObjectRepresentation>,
    >)
        requires
            self.wf(),
        ensures
            res@.len() == obj_ids@.len(),
            option_views(res@) == spec_objects(self.projection(file@), views(obj_ids@)),
    {
        let prior = self.get_prior_changes(file, obj_ids);
        let mut res: Vec<Option<ObjectRepresentation>> = Vec::new();
        let mut i: usize = 0;
        while i < prior.len()
            invariant
                i <= prior.len(),
                prior.len() == obj_ids.len(),
                option_views(prior@) == spec_prior_changes(self.projection(file@), views(obj_ids@)),
                res.len() == i,
                forall|j: int|
                    0 <= j < i ==> option_view(#[trigger] res[j]) == self.projection(file@).object_before(
                        obj_ids[j].obj_id@,
                        obj_ids[j].offset as int,
                    ),
            decreases prior.len() - i,
        {
            assert(option_views(prior@)[i as int] == option_view(prior[i as int]));
            assert(spec_prior_changes(self.projection(file@), views(obj_ids@))[i as int]
                == self.projection(file@).state_before(obj_ids[i as int].obj_id@, obj_ids[i as int].offset as int));
            let answer = match &prior[i] {
                Some(change) => match &change.op {
                    crate::model::ChangeOp::Add(r) => Some(r.clone()),
                    crate::model::ChangeOp::Modify(r) => Some(r.clone()),
                    crate::model::ChangeOp::Delete => None,
                },
                None => None,
            };
            res.push(answer);
            i += 1;
        }
        assert(option_views(res@) =~= spec_objects(self.projection(file@), views(obj_ids@)));
        res
    }

    /// The highest offset applied to a file's projection so far. A file
    /// without history is not found.
    pub fn get_latest_offset(&self, file: &str) -> (res: Result<Offset, Error>)
        requires
            self.wf(),
        ensures
            match res {
                Ok(offset) => self.projection(file@).latest_offset == Some(offset as int),
                Err(e) => e == Error::NotFound && self.projection(file@).latest_offset is None,
            },
    {
        match self.files.find(file) {
            Some(f) => match self.files.values[f].latest_offset() {
                Some(offset) => Ok(offset),
                None => Err(Error::NotFound),
            },
            None => Err(Error::NotFound),
        }
    }

    /// The objects of a file that exist now, each once, in the order of their
    /// first change. Every call starts anew; whoever hands the list on may do
    /// so piece by piece.
    pub fn get_latest_object_list(&self, file: &str) -> (res: Vec<String>)
        requires
            self.wf(),
        ensures
            views(res@) == self.projection(file@).live_list(),
            forall|i: int, j: int| 0 <= i < j < res.len() ==> (#[trigger] res[i])@ != (#[trigger] res[j])@,
            forall|obj_id: Seq<char>|
                self.projection(file@).live(obj_id) <==> exists|i: int|
                    0 <= i < res.len() && (#[trigger] res[i])@ == obj_id,
    {
        match self.files.find(file) {
            Some(f) => {
                assert(self.files.values[f as int].wf());
                self.files.values[f].live_ids()
            },
            None => {
                let res: Vec<String> = Vec::new();
                assert(views(res@) =~= ProjectionView::empty().live_list());
                res
            },
        }
    }
}

} // verus!
