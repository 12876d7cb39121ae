//! The inversion engine: from the entries of an undo event and the state of
//! each object just before its entry, the changes that take the event back.

use vstd::prelude::*;
use crate::cache::{spec_prior_changes, ProjectionCache};
use crate::model::{
    option_view, option_views, views, Change, ChangeOp, ChangeSource, ChangeView, EntryView, Error,
    ObjectAtOffset, OpView, PendingChange, PendingView, QueryView, UndoChangeKind, UndoEntry,
};

verus! {

/// The change that deletes an object on behalf of `user`.
pub open spec fn spec_delete_of(obj_id: Seq<char>, user: Seq<char>, source: ChangeSource) -> PendingView {
    PendingView { id: obj_id, user, source, op: OpView::Delete }
}

/// The inverse of one entry, given the latest record of its object from
/// strictly before the entry's offset.
///
/// With no such record the object is deleted, whatever the entry's kind. An
/// added object is deleted. A modified object gets its earlier representation
/// back. A deleted object, and one whose kind was never set, is added again
/// with its earlier representation. Where the earlier record is itself a
/// delete there is nothing to go back to, and no inverse.
pub open spec fn spec_invert_entry(
    entry: EntryView,
    prior: Option<ChangeView>,
    user: Seq<char>,
    source: ChangeSource,
) -> Option<PendingView> {
    match prior {
        None => Some(spec_delete_of(entry.obj_id, user, source)),
        Some(p) => match entry.applied_op_kind {
            UndoChangeKind::Add => Some(spec_delete_of(entry.obj_id, user, source)),
            UndoChangeKind::Modify => match p.op.representation() {
                Some(r) => Some(
                    PendingView { id: entry.obj_id, user, source, op: OpView::Modify(r) },
                ),
                None => None,
            },
            UndoChangeKind::Delete | UndoChangeKind::NotSet => match p.op.representation() {
                Some(r) => Some(PendingView { id: entry.obj_id, user, source, op: OpView::Add(r) }),
                None => None,
            },
        },
    }
}

/// The inverses of the first `n` entries, each paired with the prior state at
/// the same position, in entry order; entries without an inverse are left out.
pub open spec fn spec_invert_prefix(
    entries: Seq<EntryView>,
    previous: Seq<Option<ChangeView>>,
    user: Seq<char>,
    source: ChangeSource,
    n: nat,
) -> Seq<PendingView>
    decreases n,
{
    if n == 0 {
        Seq::empty()
    } else {
        let before = spec_invert_prefix(entries, previous, user, source, (n - 1) as nat);
        match spec_invert_entry(entries[n - 1], previous[n - 1], user, source) {
            Some(c) => before.push(c),
            None => before,
        }
    }
}

/// How many entries have a prior state at their position.
pub open spec fn spec_paired(entries: Seq<EntryView>, previous: Seq<Option<ChangeView>>) -> nat {
    if entries.len() <= previous.len() {
        entries.len()
    } else {
        previous.len()
    }
}

/// The inverse of a whole event: the inverses of all entries that have a prior
/// state at their position.
pub open spec fn spec_invert(
    entries: Seq<EntryView>,
    previous: Seq<Option<ChangeView>>,
    user: Seq<char>,
    source: ChangeSource,
) -> Seq<PendingView> {
    spec_invert_prefix(entries, previous, user, source, spec_paired(entries, previous))
}

/// Whether the history leaves nothing to go back to: the entry modified or
/// deleted an object, or has no kind, and the object was deleted before.
pub open spec fn spec_is_inconsistent(entry: EntryView, prior: Option<ChangeView>) -> bool {
    match prior {
        Some(p) => entry.applied_op_kind != UndoChangeKind::Add && p.op == OpView::Delete,
        None => false,
    }
}

/// The positions, among the first `n`, of the entries whose history is
/// inconsistent, in rising order.
pub open spec fn spec_dropped_prefix(
    entries: Seq<EntryView>,
    previous: Seq<Option<ChangeView>>,
    n: nat,
) -> Seq<int>
    decreases n,
{
    if n == 0 {
        Seq::empty()
    } else {
        let before = spec_dropped_prefix(entries, previous, (n - 1) as nat);
        if spec_is_inconsistent(entries[n - 1], previous[n - 1]) {
            before.push(n - 1)
        } else {
            before
        }
    }
}

/// The query keys for the prior states of the entries: for each entry its own
/// object and its own offset, in entry order.
pub open spec fn spec_queries(entries: Seq<EntryView>) -> Seq<QueryView> {
    Seq::new(entries.len(), |i: int| QueryView { obj_id: entries[i].obj_id, offset: entries[i].offset })
}

/// Builds the batch of query keys that asks, for each entry, for the state of
/// its object strictly before the entry's own offset.
pub fn previous_object_queries(entries: &Vec<UndoEntry>) -> (obj_ids: Vec<ObjectAtOffset>)
    ensures
        obj_ids@.len() == entries@.len(),
        views(obj_ids@) == spec_queries(views(entries@)),
{
    let mut obj_ids: Vec<ObjectAtOffset> = Vec::new();
    let mut i: usize = 0;
    while i < entries.len()
        invariant
            i <= entries.len(),
            obj_ids.len() == i,
            forall|j: int|
                0 <= j < i ==> (#[trigger] obj_ids[j])@ == (QueryView {
                    obj_id: entries[j].obj_id@,
                    offset: entries[j].offset as int,
                }),
        decreases entries.len() - i,
    {
        obj_ids.push(ObjectAtOffset { offset: entries[i].offset, obj_id: entries[i].obj_id.clone() });
        i += 1;
    }
    assert(views(obj_ids@) =~= spec_queries(views(entries@)));
    obj_ids
}

/// Inverts one entry against the prior state of its object. An entry whose
/// history leaves nothing to go back to fails as inconsistent.
pub fn invert_entry(
    user: &str,
    source: ChangeSource,
    entry: &UndoEntry,
    prior: &Option<Change>,
) -> (res: Result<PendingChange, Error>)
    ensures
        match res {
            Ok(c) => spec_invert_entry(entry@, option_view(*prior), user@, source) == Some(c@),
            Err(e) => e == Error::Inconsistent && spec_is_inconsistent(entry@, option_view(*prior)),
        },
        res is Err <==> spec_is_inconsistent(entry@, option_view(*prior)),
{
    match prior {
        None => Ok(
            PendingChange {
                id: entry.obj_id.clone(),
                user: user.to_owned(),
                source,
                op: ChangeOp::Delete,
            },
        ),
        Some(prev_change) => match entry.applied_op_kind {
            UndoChangeKind::Add => Ok(
                PendingChange {
                    id: entry.obj_id.clone(),
                    user: user.to_owned(),
                    source,
                    op: ChangeOp::Delete,
                },
            ),
            UndoChangeKind::Modify => match &prev_change.op {
                ChangeOp::Add(prev_object) => Ok(
                    PendingChange {
                        id: entry.obj_id.clone(),
                        user: user.to_owned(),
                        source,
                        op: ChangeOp::Modify(prev_object.clone()),
                    },
                ),
                ChangeOp::Modify(prev_object) => Ok(
                    PendingChange {
                        id: entry.obj_id.clone(),
                        user: user.to_owned(),
                        source,
                        op: ChangeOp::Modify(prev_object.clone()),
                    },
                ),
                ChangeOp::Delete => Err(Error::Inconsistent),
            },
            UndoChangeKind::Delete => match &prev_change.op {
                ChangeOp::Add(prev_object) => Ok(
                    PendingChange {
                        id: entry.obj_id.clone(),
                        user: user.to_owned(),
                        source,
                        op: ChangeOp::Add(prev_object.clone()),
                    },
                ),
                ChangeOp::Modify(prev_object) => Ok(
                    PendingChange {
                        id: entry.obj_id.clone(),
                        user: user.to_owned(),
                        source,
                        op: ChangeOp::Add(prev_object.clone()),
                    },
                ),
                ChangeOp::Delete => Err(Error::Inconsistent),
            },
            UndoChangeKind::NotSet => match &prev_change.op {
                ChangeOp::Add(prev_object) => Ok(
                    PendingChange {
                        id: entry.obj_id.clone(),
                        user: user.to_owned(),
                        source,
                        op: ChangeOp::Add(prev_object.clone()),
                    },
                ),
                ChangeOp::Modify(prev_object) => Ok(
                    PendingChange {
                        id: entry.obj_id.clone(),
                        user: user.to_owned(),
                        source,
                        op: ChangeOp::Add(prev_object.clone()),
                    },
                ),
                ChangeOp::Delete => Err(Error::Inconsistent),
            },
        },
    }
}

/// Inverts the entries of an event against the prior states at the same
/// positions. The inverses come in entry order; an inconsistent entry is left
/// out and the rest of the batch is still inverted.
pub fn invert_changes_inner(
    user: &str,
    source: ChangeSource,
    entries: Vec<UndoEntry>,
    previous: Vec<Option<Change>>,
) -> (inverted: Vec<PendingChange>)
    ensures
        views(inverted@) == spec_invert(views(entries@), option_views(previous@), user@, source),
{
    let mut inverted: Vec<PendingChange> = Vec::new();
    let paired = if entries.len() <= previous.len() {
        entries.len()
    } else {
        previous.len()
    };
    let mut i: usize = 0;
    while i < paired
        invariant
            i <= paired,
            paired == spec_paired(views(entries@), option_views(previous@)),
            paired <= entries.len(),
            paired <= previous.len(),
            views(inverted@) == spec_invert_prefix(
                views(entries@),
                option_views(previous@),
                user@,
                source,
                i as nat,
            ),
        decreases paired - i,
    {
        let ghost before = views(inverted@);
        match invert_entry(user, source, &entries[i], &previous[i]) {
            Ok(change) => {
                inverted.push(change);
                assert(views(inverted@) =~= before.push(change@));
            },
            Err(_) => {},
        }
        i += 1;
    }
    inverted
}

/// The positions of the entries that [`invert_changes_inner`] leaves out as
/// inconsistent, in rising order, for whoever keeps the record of them.
pub fn inconsistent_entries(entries: &Vec<UndoEntry>, previous: &Vec<Option<Change>>) -> (dropped:
    Vec<usize>)
    ensures
        dropped@.map_values(|p: usize| p as int) == spec_dropped_prefix(
            views(entries@),
            option_views(previous@),
            spec_paired(views(entries@), option_views(previous@)),
        ),
{
    let mut dropped: Vec<usize> = Vec::new();
    let paired = if entries.len() <= previous.len() {
        entries.len()
    } else {
        previous.len()
    };
    let mut i: usize = 0;
    while i < paired
        invariant
            i <= paired,
            paired <= entries.len(),
            paired <= previous.len(),
            dropped@.map_values(|p: usize| p as int) == spec_dropped_prefix(
                views(entries@),
                option_views(previous@),
                i as nat,
            ),
        decreases paired - i,
    {
        let ghost before = dropped@.map_values(|p: usize| p as int);
        let without_inverse = match &previous[i] {
            None => false,
            Some(prev_change) => match entries[i].applied_op_kind {
                UndoChangeKind::Add => false,
                _ => match &prev_change.op {
                    ChangeOp::Delete => true,
                    _ => false,
                },
            },
        };
        if without_inverse {
            dropped.push(i);
            assert(dropped@.map_values(|p: usize| p as int) =~= before.push(i as int));
        }
        i += 1;
    }
    dropped
}

/// Computes the changes that take an event back: asks the cache, in one batch,
/// for the state of each entry's object from strictly before the entry, and
/// inverts the entries against the answers.
pub fn invert_changes(
    cache: &ProjectionCache,
    file: &str,
    user: &str,
    source: ChangeSource,
    entries: Vec<UndoEntry>,
) -> (inverted: Vec<PendingChange>)
    requires
        cache.wf(),
    ensures
        views(inverted@) == spec_invert(
            views(entries@),
            spec_prior_changes(cache.projection(file@), spec_queries(views(entries@))),
            user@,
            source,
        ),
{
    let obj_ids = previous_object_queries(&entries);
    let previous = cache.get_prior_changes(file, &obj_ids);
    invert_changes_inner(user, source, entries, previous)
}

} // verus!
