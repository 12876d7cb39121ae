//! What holds of the pipeline as a whole: the cache never runs ahead of the
//! log, every row of the inversion table, and the round trip through undo and
//! redo.

use vstd::prelude::*;
use crate::cache::spec_prior_changes;
use crate::history::{lemma_latest_before_is, spec_is_latest_before};
use crate::invert::{
    spec_delete_of, spec_invert, spec_invert_entry, spec_invert_prefix, spec_is_inconsistent, spec_queries,
};
use crate::log::{spec_commit, spec_log_in_order};
use crate::model::{ChangeSource, ChangeView, EntryView, OpView, PendingView, UndoChangeKind};
use crate::pipeline::{
    spec_projection, spec_record_all, spec_retrace_batch, spec_retrace_changes, Pipeline,
};
use crate::stacks::StacksView;
use crate::undo::spec_entry_of;

verus! {

/// A projection that has applied nothing but changes of a file's log, in any
/// order and any number of times, has no latest offset beyond the highest
/// offset that the log has given out.
pub proof fn lemma_projection_never_ahead(log: Seq<ChangeView>, applied: Seq<ChangeView>)
    requires
        spec_log_in_order(log),
        forall|i: int| 0 <= i < applied.len() ==> log.contains(#[trigger] applied[i]),
    ensures
        match spec_projection(applied).latest_offset {
            Some(o) => o <= log.len(),
            None => applied.len() == 0,
        },
    decreases applied.len(),
{
    if applied.len() > 0 {
        assert forall|i: int| 0 <= i < applied.drop_last().len() implies log.contains(
            #[trigger] applied.drop_last()[i],
        ) by {
            assert(applied.drop_last()[i] == applied[i]);
        }
        lemma_projection_never_ahead(log, applied.drop_last());
        let last = applied.last();
        assert(log.contains(applied[applied.len() - 1]));
        let j = choose|j: int| 0 <= j < log.len() && log[j] == last;
        assert(log[j].offset == j + 1);
    }
}

/// What the projection of a whole log holds: the change with offset `o` is
/// filed under its object and `o`, nothing else is filed, and the latest
/// offset is the length of the log.
pub proof fn lemma_projection_of_log(log: Seq<ChangeView>)
    requires
        spec_log_in_order(log),
    ensures
        forall|id: Seq<char>, o: int| #[trigger]
            spec_projection(log).history.dom().contains((id, o)) <==> 1 <= o <= log.len() && log[o - 1].id
                == id,
        forall|id: Seq<char>, o: int| #[trigger]
            spec_projection(log).history.dom().contains((id, o)) ==> spec_projection(log).history[(id, o)]
                == log[o - 1],
        spec_projection(log).latest_offset == if log.len() == 0 {
            None
        } else {
            Some(log.len() as int)
        },
    decreases log.len(),
{
    if log.len() > 0 {
        let before = log.drop_last();
        assert(spec_log_in_order(before)) by {
            assert forall|i: int| 0 <= i < before.len() implies (#[trigger] before[i]).offset == i + 1 by {
                assert(before[i] == log[i]);
            }
        }
        lemma_projection_of_log(before);
        let last = log.last();
        assert(last.offset == log.len());
        assert forall|id: Seq<char>, o: int| #[trigger]
            spec_projection(log).history.dom().contains((id, o)) <==> 1 <= o <= log.len() && log[o - 1].id
                == id by {
            if 1 <= o < log.len() {
                assert(before[o - 1] == log[o - 1]);
            }
            if spec_projection(before).history.dom().contains((id, o)) {
                assert(before[o - 1] == log[o - 1]);
            }
        }
        assert forall|id: Seq<char>, o: int| #[trigger]
            spec_projection(log).history.dom().contains((id, o)) implies spec_projection(log).history[(id, o)]
            == log[o - 1] by {
            if (id, o) != (last.id, last.offset) {
                assert(spec_projection(before).history.dom().contains((id, o)));
                assert(before[o - 1] == log[o - 1]);
            }
        }
    }
}

/// In a pipeline the latest offset of a file's projection is the latest offset
/// that the log has given out for the file, and there is none before the
/// file's first change.
pub proof fn lemma_cache_follows_log(pipeline: Pipeline, file: Seq<char>)
    requires
        pipeline.wf(),
    ensures
        pipeline.projection(file).latest_offset == if pipeline.log_of(file).len() == 0 {
            None
        } else {
            Some(pipeline.log_of(file).len() as int)
        },
{
    pipeline.lemma_in_sync(file);
    pipeline.lemma_log_in_order(file);
    lemma_projection_of_log(pipeline.log_of(file));
}

/// In the projection of a whole log, the state of an object just before the
/// offset after the log's last change is that last change, if it is a change
/// of the object.
pub proof fn lemma_state_before_next(log: Seq<ChangeView>, id: Seq<char>)
    requires
        spec_log_in_order(log),
        log.len() > 0,
        log.last().id == id,
    ensures
        spec_projection(log).state_before(id, log.len() as int + 1) == Some(log.last()),
        spec_projection(log).object_now(id) == log.last().op.representation(),
{
    lemma_projection_of_log(log);
    let projection = spec_projection(log);
    let records = projection.records_of(id);
    let n = log.len() as int;
    assert(projection.history.dom().contains((id, n)));
    assert(records.dom().contains(n));
    assert forall|other: int| #[trigger] records.dom().contains(other) && other < n + 1 implies other <= n by {}
    assert(spec_is_latest_before(records, n + 1, n));
    lemma_latest_before_is(records, n + 1, n);
}

/// In the projection of a whole log, the state of an object just before the
/// offset of the log's last change is as it was without that change.
pub proof fn lemma_state_before_last(log: Seq<ChangeView>, id: Seq<char>)
    requires
        spec_log_in_order(log),
        log.len() > 0,
    ensures
        spec_projection(log).state_before(id, log.len() as int) == spec_projection(
            log.drop_last(),
        ).state_before(id, log.len() as int),
{
    let before = log.drop_last();
    assert(spec_log_in_order(before)) by {
        assert forall|i: int| 0 <= i < before.len() implies (#[trigger] before[i]).offset == i + 1 by {
            assert(before[i] == log[i]);
        }
    }
    lemma_projection_of_log(log);
    lemma_projection_of_log(before);
    let n = log.len() as int;
    let now = spec_projection(log).records_of(id);
    let then = spec_projection(before).records_of(id);
    assert forall|o: int| o < n implies (now.dom().contains(o) <==> then.dom().contains(o)) by {
        if 1 <= o < n {
            assert(before[o - 1] == log[o - 1]);
        }
    }
    assert forall|o: int| o < n && now.dom().contains(o) implies now[o] == then[o] by {
        assert(before[o - 1] == log[o - 1]);
    }
    assert forall|o: int| spec_is_latest_before(now, n, o) <==> spec_is_latest_before(then, n, o) by {
        if spec_is_latest_before(now, n, o) {
            assert forall|other: int| #[trigger] then.dom().contains(other) && other < n implies other <= o by {
                assert(now.dom().contains(other));
            }
        }
        if spec_is_latest_before(then, n, o) {
            assert forall|other: int| #[trigger] now.dom().contains(other) && other < n implies other <= o by {
                assert(then.dom().contains(other));
            }
        }
    }
    if exists|o: int| spec_is_latest_before(now, n, o) {
        let o = choose|o: int| spec_is_latest_before(now, n, o);
        assert(spec_is_latest_before(then, n, o));
        lemma_latest_before_is(now, n, o);
        lemma_latest_before_is(then, n, o);
    } else {
        assert forall|o: int| !spec_is_latest_before(then, n, o) by {
            if spec_is_latest_before(then, n, o) {
                assert(spec_is_latest_before(now, n, o));
            }
        }
    }
}

/// The inversion table, row by row. `p` is the latest change of the entry's
/// object from before the entry, `r` the representation that it left.
pub proof fn lemma_inversion_table(
    entry: EntryView,
    p: ChangeView,
    r: Seq<u8>,
    user: Seq<char>,
    source: ChangeSource,
)
    ensures
        // no prior state, any kind: the object is deleted
        spec_invert_entry(entry, None, user, source) == Some(spec_delete_of(entry.obj_id, user, source)),
        // an added object is deleted
        entry.applied_op_kind == UndoChangeKind::Add ==> spec_invert_entry(entry, Some(p), user, source)
            == Some(spec_delete_of(entry.obj_id, user, source)),
        // a modified object gets the earlier representation back
        entry.applied_op_kind == UndoChangeKind::Modify && (p.op == OpView::Add(r) || p.op
            == OpView::Modify(r)) ==> spec_invert_entry(entry, Some(p), user, source) == Some(
            PendingView { id: entry.obj_id, user, source, op: OpView::Modify(r) },
        ),
        // a modify after a delete has no inverse
        entry.applied_op_kind == UndoChangeKind::Modify && p.op == OpView::Delete ==> spec_invert_entry(
            entry,
            Some(p),
            user,
            source,
        ) is None,
        // a deleted object is added again with the earlier representation
        entry.applied_op_kind == UndoChangeKind::Delete && (p.op == OpView::Add(r) || p.op
            == OpView::Modify(r)) ==> spec_invert_entry(entry, Some(p), user, source) == Some(
            PendingView { id: entry.obj_id, user, source, op: OpView::Add(r) },
        ),
        // a delete after a delete has no inverse
        entry.applied_op_kind == UndoChangeKind::Delete && p.op == OpView::Delete ==> spec_invert_entry(
            entry,
            Some(p),
            user,
            source,
        ) is None,
        // a kind that was never set is handled as a delete
        entry.applied_op_kind == UndoChangeKind::NotSet && (p.op == OpView::Add(r) || p.op
            == OpView::Modify(r)) ==> spec_invert_entry(entry, Some(p), user, source) == Some(
            PendingView { id: entry.obj_id, user, source, op: OpView::Add(r) },
        ),
        entry.applied_op_kind == UndoChangeKind::NotSet && p.op == OpView::Delete ==> spec_invert_entry(
            entry,
            Some(p),
            user,
            source,
        ) is None,
{
}

/// An entry has no inverse exactly where its history is inconsistent.
pub proof fn lemma_no_inverse_iff_inconsistent(
    entry: EntryView,
    prior: Option<ChangeView>,
    user: Seq<char>,
    source: ChangeSource,
)
    ensures
        spec_invert_entry(entry, prior, user, source) is None <==> spec_is_inconsistent(entry, prior),
{
}

/// The inverses of the first `n` entries are at most `n`, and each carries
/// the acting user and the source that was asked for.
proof fn lemma_inverses_are_tagged_so_far(
    entries: Seq<EntryView>,
    previous: Seq<Option<ChangeView>>,
    user: Seq<char>,
    source: ChangeSource,
    n: nat,
)
    ensures
        spec_invert_prefix(entries, previous, user, source, n).len() <= n,
        forall|i: int|
            0 <= i < spec_invert_prefix(entries, previous, user, source, n).len() ==> (
            #[trigger] spec_invert_prefix(entries, previous, user, source, n)[i]).user == user
                && spec_invert_prefix(entries, previous, user, source, n)[i].source == source,
    decreases n,
{
    if n > 0 {
        lemma_inverses_are_tagged_so_far(entries, previous, user, source, (n - 1) as nat);
    }
}

/// An event has at most one inverse for each of its entries, and every inverse
/// carries the acting user and the source that was asked for.
pub proof fn lemma_inverses_are_tagged(
    entries: Seq<EntryView>,
    previous: Seq<Option<ChangeView>>,
    user: Seq<char>,
    source: ChangeSource,
)
    ensures
        spec_invert(entries, previous, user, source).len() <= entries.len(),
        forall|i: int|
            0 <= i < spec_invert(entries, previous, user, source).len() ==> (#[trigger] spec_invert(
                entries,
                previous,
                user,
                source,
            )[i]).user == user && spec_invert(entries, previous, user, source)[i].source == source,
{
    lemma_inverses_are_tagged_so_far(
        entries,
        previous,
        user,
        source,
        crate::invert::spec_paired(entries, previous),
    );
}

/// The inverse of an event of one entry.
proof fn lemma_invert_single(entry: EntryView, prior: Option<ChangeView>, user: Seq<char>, source: ChangeSource)
    ensures
        spec_invert(seq![entry], seq![prior], user, source) == match spec_invert_entry(
            entry,
            prior,
            user,
            source,
        ) {
            Some(c) => seq![c],
            None => Seq::<PendingView>::empty(),
        },
{
    reveal_with_fuel(spec_invert_prefix, 2);
    let entries = seq![entry];
    let previous = seq![prior];
    assert(spec_invert_prefix(entries, previous, user, source, 0) =~= Seq::<PendingView>::empty());
    match spec_invert_entry(entry, prior, user, source) {
        Some(c) => {
            assert(Seq::<PendingView>::empty().push(c) =~= seq![c]);
        },
        None => {},
    }
}

/// The stacks after one committed change was recorded.
proof fn lemma_record_single(stacks: StacksView, change: ChangeView)
    ensures
        spec_record_all(stacks, seq![change]) == stacks.record(spec_entry_of(change), change.source),
{
    reveal_with_fuel(spec_record_all, 2);
    assert(seq![change].drop_last() =~= Seq::<ChangeView>::empty());
}

/// A log in order, with the committed form of a batch behind it, is in order.
proof fn lemma_commit_in_order(log: Seq<ChangeView>, batch: Seq<PendingView>, user: Seq<char>)
    requires
        spec_log_in_order(log),
        log.len() + batch.len() <= i64::MAX,
    ensures
        spec_log_in_order(log + spec_commit(batch, user, log.len() as int)),
{
    let whole = log + spec_commit(batch, user, log.len() as int);
    assert forall|i: int| 0 <= i < whole.len() implies (#[trigger] whole[i]).offset == i + 1 by {
        if i < log.len() {
            assert(whole[i] == log[i]);
        } else {
            assert(whole[i] == spec_commit(batch, user, log.len() as int)[i - log.len()]);
        }
    }
}

/// The round trip: a change is submitted at the beginning of an event, the
/// event is undone at once, and the undo is redone at once. Then the object
/// is in the state in which the change had left it.
///
/// This is stated for a change to which the undo finds an inverse. A change
/// whose history leaves nothing to go back to has none; the undo then commits
/// nothing, and a redo would bring back whatever else was undone before.
pub proof fn lemma_undo_redo_round_trip(
    log: Seq<ChangeView>,
    stacks: StacksView,
    change: PendingView,
    user: Seq<char>,
)
    requires
        spec_log_in_order(log),
        log.len() + 3 <= i64::MAX,
        change.source == ChangeSource::Normal,
        ({
            let log1 = log + spec_commit(seq![change], user, log.len() as int);
            let stacks1 = spec_record_all(stacks.begin(), spec_commit(seq![change], user, log.len() as int));
            spec_retrace_changes(log1, stacks1, user, false).len() > 0
        }),
    ensures
        ({
            let batch1 = spec_commit(seq![change], user, log.len() as int);
            let log1 = log + batch1;
            let stacks1 = spec_record_all(stacks.begin(), batch1);
            let batch2 = spec_retrace_batch(log1, stacks1, user, false);
            let log2 = log1 + batch2;
            let stacks2 = spec_record_all(stacks1.pop_undo(), batch2);
            let log3 = log2 + spec_retrace_batch(log2, stacks2, user, true);
            spec_projection(log3).object_now(change.id) == spec_projection(log1).object_now(change.id)
        }),
{
    let n = log.len() as int;
    let id = change.id;
    // the change is committed and recorded as an event of its own
    let batch1 = spec_commit(seq![change], user, n);
    let c1 = batch1[0];
    assert(batch1 =~= seq![c1]);
    let log1 = log + batch1;
    lemma_commit_in_order(log, seq![change], user);
    assert(log1.last() == c1);
    lemma_record_single(stacks.begin(), c1);
    let stacks1 = spec_record_all(stacks.begin(), batch1);
    let e1 = spec_entry_of(c1);
    assert(stacks1.undo.last() =~= seq![e1]);
    lemma_state_before_next(log1, id);
    // the undo inverts that one entry
    let prior1 = spec_projection(log1).state_before(id, n + 1);
    assert(spec_queries(seq![e1]) =~= seq![crate::model::QueryView { obj_id: id, offset: n + 1 }]);
    assert(spec_prior_changes(spec_projection(log1), spec_queries(seq![e1])) =~= seq![prior1]);
    lemma_invert_single(e1, prior1, user, ChangeSource::Undo);
    let undo = spec_retrace_changes(log1, stacks1, user, false);
    let inverse = spec_invert_entry(e1, prior1, user, ChangeSource::Undo).unwrap();
    assert(undo =~= seq![inverse]);
    let batch2 = spec_commit(undo, user, log1.len() as int);
    let c2 = batch2[0];
    assert(batch2 =~= seq![c2]);
    let log2 = log1 + batch2;
    lemma_commit_in_order(log1, undo, user);
    assert(log2.last() == c2);
    assert(log2.drop_last() =~= log1);
    lemma_record_single(stacks1.pop_undo(), c2);
    let stacks2 = spec_record_all(stacks1.pop_undo(), batch2);
    let e2 = spec_entry_of(c2);
    assert(stacks2.redo.last() =~= seq![e2]);
    // the redo sees the change itself as the state before the undo
    lemma_state_before_last(log2, id);
    let prior2 = spec_projection(log2).state_before(id, n + 2);
    assert(prior2 == Some(c1)) by {
        assert(spec_projection(log1).state_before(id, log1.len() as int + 1) == Some(c1));
    }
    assert(spec_queries(seq![e2]) =~= seq![crate::model::QueryView { obj_id: id, offset: n + 2 }]);
    assert(spec_prior_changes(spec_projection(log2), spec_queries(seq![e2])) =~= seq![prior2]);
    lemma_invert_single(e2, prior2, user, ChangeSource::Redo);
    let redo = spec_retrace_changes(log2, stacks2, user, true);
    let batch3 = spec_commit(redo, user, log2.len() as int);
    let log3 = log2 + batch3;
    lemma_commit_in_order(log2, redo, user);
    lemma_state_before_next(log2, id);
    match spec_invert_entry(e2, prior2, user, ChangeSource::Redo) {
        Some(again) => {
            assert(redo =~= seq![again]);
            let c3 = batch3[0];
            assert(batch3 =~= seq![c3]);
            assert(log3.last() == c3);
            lemma_state_before_next(log3, id);
        },
        None => {
            assert(redo =~= Seq::<PendingView>::empty());
            assert(log3 =~= log2);
        },
    }
}

} // verus!
