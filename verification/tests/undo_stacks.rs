use change_pipeline::cache::ProjectionCache;
use change_pipeline::model::{
    Change, ChangeOp, ChangeSource, Error, ObjectRepresentation, PendingChange, UndoChangeKind,
    UndoEntry,
};
use change_pipeline::stacks::UserStacks;
use change_pipeline::undo::UndoEngine;

fn rep(bytes: &[u8]) -> ObjectRepresentation {
    ObjectRepresentation { data: bytes.to_vec() }
}

fn change(id: &str, user: &str, offset: i64, source: ChangeSource, op: ChangeOp) -> Change {
    Change { id: id.to_string(), user: user.to_string(), offset, source, op }
}

fn entry(id: &str, offset: i64, kind: UndoChangeKind) -> UndoEntry {
    UndoEntry { obj_id: id.to_string(), offset, applied_op_kind: kind }
}

#[test]
fn entries_between_two_beginnings_form_one_event() {
    let mut stacks = UserStacks::new();
    stacks.begin();
    stacks.record(entry("a", 1, UndoChangeKind::Add), ChangeSource::Normal);
    stacks.record(entry("b", 2, UndoChangeKind::Add), ChangeSource::Normal);
    stacks.begin();
    stacks.record(entry("a", 3, UndoChangeKind::Modify), ChangeSource::Normal);
    assert_eq!(stacks.undo_depth(), 2);
    assert_eq!(stacks.redo_depth(), 0);
    assert_eq!(stacks.pop_undo(), Ok(vec![entry("a", 3, UndoChangeKind::Modify)]));
    assert_eq!(
        stacks.pop_undo(),
        Ok(vec![entry("a", 1, UndoChangeKind::Add), entry("b", 2, UndoChangeKind::Add)])
    );
    assert_eq!(stacks.pop_undo(), Err(Error::EmptyStack));
}

#[test]
fn beginning_alone_puts_no_event_on_the_stack() {
    let mut stacks = UserStacks::new();
    stacks.begin();
    stacks.begin();
    assert_eq!(stacks.undo_depth(), 0);
    assert_eq!(stacks.top_undo(), None);
    assert_eq!(stacks.pop_undo(), Err(Error::EmptyStack));
}

#[test]
fn what_an_undo_commits_goes_to_the_redo_stack() {
    let mut stacks = UserStacks::new();
    stacks.begin();
    stacks.record(entry("a", 1, UndoChangeKind::Add), ChangeSource::Normal);
    stacks.pop_undo().unwrap();
    stacks.record(entry("a", 2, UndoChangeKind::Delete), ChangeSource::Undo);
    assert_eq!(stacks.undo_depth(), 0);
    assert_eq!(stacks.redo_depth(), 1);
    assert_eq!(stacks.top_redo(), Some(vec![entry("a", 2, UndoChangeKind::Delete)]));
    stacks.pop_redo().unwrap();
    stacks.record(entry("a", 3, UndoChangeKind::Add), ChangeSource::Redo);
    assert_eq!(stacks.undo_depth(), 1);
    assert_eq!(stacks.redo_depth(), 0);
    assert_eq!(stacks.top_undo(), Some(vec![entry("a", 3, UndoChangeKind::Add)]));
}

#[test]
fn undo_on_empty_stack_fails_and_leaves_both_stacks() {
    let mut engine = UndoEngine::new();
    engine.begin_undo_event("f", "ann");
    engine.record_change(
        "f",
        &change("a", "ann", 1, ChangeSource::Undo, ChangeOp::Delete),
    );
    assert_eq!(engine.pop_undo("f", "ann"), Err(Error::EmptyStack));
    assert_eq!(engine.peek_undo("f", "ann"), Err(Error::EmptyStack));
    assert_eq!(engine.peek_redo("f", "ann"), Ok(vec![entry("a", 1, UndoChangeKind::Delete)]));
    let cache = ProjectionCache::new();
    assert_eq!(engine.undo_latest(&cache, "f", "ann"), Err(Error::EmptyStack));
    assert_eq!(engine.peek_redo("f", "ann"), Ok(vec![entry("a", 1, UndoChangeKind::Delete)]));
    assert_eq!(engine.redo_latest(&cache, "f", "bob"), Err(Error::EmptyStack));
}

#[test]
fn users_and_files_have_stacks_of_their_own() {
    let mut engine = UndoEngine::new();
    engine.begin_undo_event("f", "ann");
    engine.record_change("f", &change("a", "ann", 1, ChangeSource::Normal, ChangeOp::Add(rep(&[1]))));
    engine.record_change("f", &change("b", "bob", 2, ChangeSource::Normal, ChangeOp::Add(rep(&[2]))));
    engine.record_change("g", &change("c", "ann", 1, ChangeSource::Normal, ChangeOp::Delete));
    assert_eq!(engine.peek_undo("f", "ann"), Ok(vec![entry("a", 1, UndoChangeKind::Add)]));
    assert_eq!(engine.peek_undo("f", "bob"), Ok(vec![entry("b", 2, UndoChangeKind::Add)]));
    assert_eq!(engine.peek_undo("g", "ann"), Ok(vec![entry("c", 1, UndoChangeKind::Delete)]));
    assert_eq!(engine.peek_undo("g", "bob"), Err(Error::EmptyStack));
    assert_eq!(engine.pop_undo("f", "ann"), Ok(vec![entry("a", 1, UndoChangeKind::Add)]));
    assert_eq!(engine.peek_undo("f", "bob"), Ok(vec![entry("b", 2, UndoChangeKind::Add)]));
}

#[test]
fn engine_inverts_the_popped_event_against_the_cache() {
    let mut cache = ProjectionCache::new();
    let mut engine = UndoEngine::new();
    let first = change("a", "ann", 1, ChangeSource::Normal, ChangeOp::Add(rep(&[1])));
    let second = change("a", "ann", 2, ChangeSource::Normal, ChangeOp::Modify(rep(&[2])));
    engine.begin_undo_event("f", "ann");
    engine.record_change("f", &first);
    cache.apply("f", first);
    engine.begin_undo_event("f", "ann");
    engine.record_change("f", &second);
    cache.apply("f", second);
    let inverse = engine.undo_latest(&cache, "f", "ann");
    assert_eq!(
        inverse,
        Ok(vec![PendingChange {
            id: String::from("a"),
            user: String::from("ann"),
            source: ChangeSource::Undo,
            op: ChangeOp::Modify(rep(&[1])),
        }])
    );
    assert_eq!(engine.peek_undo("f", "ann"), Ok(vec![entry("a", 1, UndoChangeKind::Add)]));
}
