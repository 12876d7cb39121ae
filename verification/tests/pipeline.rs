use change_pipeline::model::{
    Change, ChangeOp, ChangeSource, Error, ObjectAtOffset, ObjectRepresentation, PendingChange,
    UndoChangeKind, UndoEntry,
};
use change_pipeline::pipeline::Pipeline;

fn rep(bytes: &[u8]) -> ObjectRepresentation {
    ObjectRepresentation { data: bytes.to_vec() }
}

fn normal(id: &str, op: ChangeOp) -> PendingChange {
    PendingChange { id: id.to_string(), user: String::from("ann"), source: ChangeSource::Normal, op }
}

fn committed(id: &str, offset: i64, source: ChangeSource, op: ChangeOp) -> Change {
    Change { id: id.to_string(), user: String::from("ann"), offset, source, op }
}

fn now(pipeline: &Pipeline, id: &str) -> Option<ObjectRepresentation> {
    let latest = pipeline.cache().get_latest_offset("f").unwrap();
    let key = ObjectAtOffset { obj_id: id.to_string(), offset: latest + 1 };
    pipeline.cache().get_objects("f", &vec![key]).pop().unwrap()
}

fn step(pipeline: &mut Pipeline, base: i64, change: PendingChange) -> i64 {
    pipeline.begin_undo_event("f", "ann");
    pipeline.submit_changes("f", "ann", base, vec![change]).unwrap()
}

#[test]
fn undo_of_modify_restores_added_representation() {
    let mut pipeline = Pipeline::new();
    let at = step(&mut pipeline, 0, normal("o", ChangeOp::Add(rep(&[1]))));
    assert_eq!(at, 1);
    let at = step(&mut pipeline, at, normal("o", ChangeOp::Modify(rep(&[2]))));
    assert_eq!(at, 2);
    assert_eq!(pipeline.undo_latest("f", "ann", at), Ok(3));
    assert_eq!(
        pipeline.log().changes_after("f", 2),
        vec![committed("o", 3, ChangeSource::Undo, ChangeOp::Modify(rep(&[1])))]
    );
    assert_eq!(now(&pipeline, "o"), Some(rep(&[1])));
}

#[test]
fn undo_of_delete_adds_the_object_again() {
    let mut pipeline = Pipeline::new();
    let at = step(&mut pipeline, 0, normal("o", ChangeOp::Add(rep(&[1]))));
    let at = step(&mut pipeline, at, normal("o", ChangeOp::Delete));
    assert_eq!(now(&pipeline, "o"), None);
    assert_eq!(pipeline.undo_latest("f", "ann", at), Ok(3));
    assert_eq!(
        pipeline.log().changes_after("f", 2),
        vec![committed("o", 3, ChangeSource::Undo, ChangeOp::Add(rep(&[1])))]
    );
    assert_eq!(now(&pipeline, "o"), Some(rep(&[1])));
}

#[test]
fn undo_of_only_add_deletes_and_empties_the_stack() {
    let mut pipeline = Pipeline::new();
    let at = step(&mut pipeline, 0, normal("o", ChangeOp::Add(rep(&[1]))));
    assert_eq!(pipeline.undo_latest("f", "ann", at), Ok(2));
    assert_eq!(
        pipeline.log().changes_after("f", 1),
        vec![committed("o", 2, ChangeSource::Undo, ChangeOp::Delete)]
    );
    assert_eq!(pipeline.undo().peek_undo("f", "ann"), Err(Error::EmptyStack));
    assert_eq!(pipeline.undo_latest("f", "ann", 2), Err(Error::EmptyStack));
    assert_eq!(pipeline.log().current_offset("f"), 2);
    assert_eq!(
        pipeline.undo().peek_redo("f", "ann"),
        Ok(vec![UndoEntry {
            obj_id: String::from("o"),
            offset: 2,
            applied_op_kind: UndoChangeKind::Delete
        }])
    );
}

#[test]
fn undo_on_a_fresh_pipeline_fails_with_empty_stack() {
    let mut pipeline = Pipeline::new();
    assert_eq!(pipeline.undo_latest("f", "ann", 0), Err(Error::EmptyStack));
    assert_eq!(pipeline.redo_latest("f", "ann", 0), Err(Error::EmptyStack));
    assert_eq!(pipeline.log().current_offset("f"), 0);
    assert_eq!(pipeline.undo().peek_redo("f", "ann"), Err(Error::EmptyStack));
}

#[test]
fn round_trip_through_undo_and_redo_restores_the_change() {
    let cases = [
        (ChangeOp::Add(rep(&[7])), None),
        (ChangeOp::Modify(rep(&[8])), Some(rep(&[1]))),
        (ChangeOp::Delete, Some(rep(&[1]))),
    ];
    for (op, undone) in cases {
        let mut pipeline = Pipeline::new();
        let at = step(&mut pipeline, 0, normal("o", ChangeOp::Add(rep(&[1]))));
        let at = step(&mut pipeline, at, normal("o", op));
        let after_change = now(&pipeline, "o");
        let at = pipeline.undo_latest("f", "ann", at).unwrap();
        assert_eq!(now(&pipeline, "o"), undone);
        let at = pipeline.redo_latest("f", "ann", at).unwrap();
        assert_eq!(at, 4);
        assert_eq!(now(&pipeline, "o"), after_change);
        assert_eq!(pipeline.log().changes_after("f", 3)[0].source, ChangeSource::Redo);
    }
}

#[test]
fn redone_change_can_be_undone_again() {
    let mut pipeline = Pipeline::new();
    let at = step(&mut pipeline, 0, normal("o", ChangeOp::Add(rep(&[1]))));
    let at = pipeline.undo_latest("f", "ann", at).unwrap();
    let at = pipeline.redo_latest("f", "ann", at).unwrap();
    assert_eq!(now(&pipeline, "o"), Some(rep(&[1])));
    let at = pipeline.undo_latest("f", "ann", at).unwrap();
    assert_eq!(at, 4);
    assert_eq!(now(&pipeline, "o"), None);
}

#[test]
fn undo_against_a_stale_offset_is_a_conflict_and_changes_nothing() {
    let mut pipeline = Pipeline::new();
    let at = step(&mut pipeline, 0, normal("o", ChangeOp::Add(rep(&[1]))));
    let at = step(&mut pipeline, at, normal("o", ChangeOp::Modify(rep(&[2]))));
    assert_eq!(pipeline.undo_latest("f", "ann", at - 1), Err(Error::OffsetConflict));
    assert_eq!(pipeline.log().current_offset("f"), 2);
    assert_eq!(now(&pipeline, "o"), Some(rep(&[2])));
    assert_eq!(
        pipeline.undo().peek_undo("f", "ann"),
        Ok(vec![UndoEntry {
            obj_id: String::from("o"),
            offset: 2,
            applied_op_kind: UndoChangeKind::Modify
        }])
    );
    assert_eq!(pipeline.undo().peek_redo("f", "ann"), Err(Error::EmptyStack));
    assert_eq!(pipeline.undo_latest("f", "ann", at), Ok(3));
}

#[test]
fn undo_while_the_log_is_closed_is_unavailable_and_changes_nothing() {
    let mut pipeline = Pipeline::new();
    let at = step(&mut pipeline, 0, normal("o", ChangeOp::Add(rep(&[1]))));
    pipeline.set_accepting(false);
    assert_eq!(pipeline.undo_latest("f", "ann", at), Err(Error::Unavailable));
    assert_eq!(pipeline.submit_changes("f", "ann", at, vec![normal("p", ChangeOp::Delete)]), Err(Error::Unavailable));
    pipeline.set_accepting(true);
    assert_eq!(pipeline.undo_latest("f", "ann", at), Ok(2));
}

#[test]
fn undo_that_yields_no_change_reports_that_no_offset_came_back() {
    let mut pipeline = Pipeline::new();
    let at = step(&mut pipeline, 0, normal("o", ChangeOp::Add(rep(&[1]))));
    let at = step(&mut pipeline, at, normal("o", ChangeOp::Delete));
    let at = step(&mut pipeline, at, normal("o", ChangeOp::Delete));
    assert_eq!(at, 3);
    assert_eq!(pipeline.undo_latest("f", "ann", at), Err(Error::OutOfRange));
    assert_eq!(pipeline.log().current_offset("f"), 3);
    assert_eq!(
        pipeline.undo().peek_undo("f", "ann"),
        Ok(vec![UndoEntry {
            obj_id: String::from("o"),
            offset: 3,
            applied_op_kind: UndoChangeKind::Delete
        }])
    );
}

#[test]
fn empty_submission_reports_that_no_offset_came_back() {
    let mut pipeline = Pipeline::new();
    assert_eq!(pipeline.submit_changes("f", "ann", 0, Vec::new()), Err(Error::OutOfRange));
    assert_eq!(pipeline.log().current_offset("f"), 0);
}

#[test]
fn event_of_several_changes_is_undone_as_a_whole() {
    let mut pipeline = Pipeline::new();
    pipeline.begin_undo_event("f", "ann");
    let at = pipeline
        .submit_changes(
            "f",
            "ann",
            0,
            vec![normal("a", ChangeOp::Add(rep(&[1]))), normal("b", ChangeOp::Add(rep(&[2])))],
        )
        .unwrap();
    let at = pipeline.submit_changes("f", "ann", at, vec![normal("a", ChangeOp::Modify(rep(&[3])))]).unwrap();
    assert_eq!(at, 3);
    assert_eq!(pipeline.undo_latest("f", "ann", at), Ok(6));
    assert_eq!(
        pipeline.log().changes_after("f", 3),
        vec![
            committed("a", 4, ChangeSource::Undo, ChangeOp::Delete),
            committed("b", 5, ChangeSource::Undo, ChangeOp::Delete),
            committed("a", 6, ChangeSource::Undo, ChangeOp::Modify(rep(&[1]))),
        ]
    );
}

#[test]
fn cache_is_at_the_latest_offset_of_the_log() {
    let mut pipeline = Pipeline::new();
    assert_eq!(pipeline.cache().get_latest_offset("f"), Err(Error::NotFound));
    let mut at = 0;
    for i in 0..5u8 {
        at = step(&mut pipeline, at, normal("o", ChangeOp::Modify(rep(&[i]))));
        assert_eq!(pipeline.cache().get_latest_offset("f"), Ok(at));
        assert_eq!(pipeline.log().current_offset("f"), at);
    }
    assert_eq!(pipeline.cache().get_latest_object_list("f"), vec![String::from("o")]);
}
