use change_pipeline::invert::{
    inconsistent_entries, invert_changes_inner, invert_entry, previous_object_queries,
};
use change_pipeline::model::{
    Change, ChangeOp, ChangeSource, Error, ObjectAtOffset, ObjectRepresentation, PendingChange,
    UndoChangeKind, UndoEntry,
};

fn rep(bytes: &[u8]) -> ObjectRepresentation {
    ObjectRepresentation { data: bytes.to_vec() }
}

fn entry(id: &str, offset: i64, kind: UndoChangeKind) -> UndoEntry {
    UndoEntry { obj_id: id.to_string(), offset, applied_op_kind: kind }
}

fn prior(id: &str, offset: i64, op: ChangeOp) -> Option<Change> {
    Some(Change {
        id: id.to_string(),
        user: String::from("someone else"),
        offset,
        source: ChangeSource::Normal,
        op,
    })
}

fn pending(id: &str, source: ChangeSource, op: ChangeOp) -> PendingChange {
    PendingChange { id: id.to_string(), user: String::from("ann"), source, op }
}

const KINDS: [UndoChangeKind; 4] =
    [UndoChangeKind::Add, UndoChangeKind::Modify, UndoChangeKind::Delete, UndoChangeKind::NotSet];

#[test]
fn absent_prior_gives_delete_for_every_kind() {
    for kind in KINDS {
        let got = invert_entry("ann", ChangeSource::Undo, &entry("o1", 5, kind), &None);
        assert_eq!(got, Ok(pending("o1", ChangeSource::Undo, ChangeOp::Delete)));
    }
}

#[test]
fn added_object_is_deleted_whatever_came_before() {
    let e = entry("o1", 5, UndoChangeKind::Add);
    for op in [ChangeOp::Add(rep(&[1])), ChangeOp::Modify(rep(&[2])), ChangeOp::Delete] {
        let got = invert_entry("ann", ChangeSource::Undo, &e, &prior("o1", 4, op));
        assert_eq!(got, Ok(pending("o1", ChangeSource::Undo, ChangeOp::Delete)));
    }
}

#[test]
fn modified_object_gets_prior_representation_back() {
    let e = entry("o1", 5, UndoChangeKind::Modify);
    let after_add = invert_entry("ann", ChangeSource::Undo, &e, &prior("o1", 4, ChangeOp::Add(rep(&[1, 2]))));
    assert_eq!(after_add, Ok(pending("o1", ChangeSource::Undo, ChangeOp::Modify(rep(&[1, 2])))));
    let after_modify =
        invert_entry("ann", ChangeSource::Undo, &e, &prior("o1", 4, ChangeOp::Modify(rep(&[3]))));
    assert_eq!(after_modify, Ok(pending("o1", ChangeSource::Undo, ChangeOp::Modify(rep(&[3])))));
}

#[test]
fn modify_after_delete_is_inconsistent() {
    let e = entry("o1", 5, UndoChangeKind::Modify);
    let got = invert_entry("ann", ChangeSource::Undo, &e, &prior("o1", 4, ChangeOp::Delete));
    assert_eq!(got, Err(Error::Inconsistent));
}

#[test]
fn deleted_object_is_added_again() {
    let e = entry("o1", 5, UndoChangeKind::Delete);
    let after_add = invert_entry("ann", ChangeSource::Undo, &e, &prior("o1", 4, ChangeOp::Add(rep(&[9]))));
    assert_eq!(after_add, Ok(pending("o1", ChangeSource::Undo, ChangeOp::Add(rep(&[9])))));
    let after_modify =
        invert_entry("ann", ChangeSource::Undo, &e, &prior("o1", 4, ChangeOp::Modify(rep(&[8, 8]))));
    assert_eq!(after_modify, Ok(pending("o1", ChangeSource::Undo, ChangeOp::Add(rep(&[8, 8])))));
}

#[test]
fn double_delete_is_inconsistent() {
    let e = entry("o1", 5, UndoChangeKind::Delete);
    let got = invert_entry("ann", ChangeSource::Undo, &e, &prior("o1", 4, ChangeOp::Delete));
    assert_eq!(got, Err(Error::Inconsistent));
}

#[test]
fn kind_not_set_behaves_like_delete() {
    let e = entry("o1", 5, UndoChangeKind::NotSet);
    let after_add = invert_entry("ann", ChangeSource::Undo, &e, &prior("o1", 4, ChangeOp::Add(rep(&[9]))));
    assert_eq!(after_add, Ok(pending("o1", ChangeSource::Undo, ChangeOp::Add(rep(&[9])))));
    let after_modify =
        invert_entry("ann", ChangeSource::Undo, &e, &prior("o1", 4, ChangeOp::Modify(rep(&[7]))));
    assert_eq!(after_modify, Ok(pending("o1", ChangeSource::Undo, ChangeOp::Add(rep(&[7])))));
    let after_delete = invert_entry("ann", ChangeSource::Undo, &e, &prior("o1", 4, ChangeOp::Delete));
    assert_eq!(after_delete, Err(Error::Inconsistent));
}

#[test]
fn inverse_carries_source_and_acting_user() {
    let e = entry("o1", 5, UndoChangeKind::Add);
    let got = invert_entry("bob", ChangeSource::Redo, &e, &None).unwrap();
    assert_eq!(got.user, "bob");
    assert_eq!(got.source, ChangeSource::Redo);
    assert_eq!(got.id, "o1");
}

#[test]
fn batch_is_inverted_in_entry_order() {
    let entries = vec![
        entry("a", 3, UndoChangeKind::Add),
        entry("b", 4, UndoChangeKind::Modify),
        entry("c", 5, UndoChangeKind::Delete),
    ];
    let previous =
        vec![None, prior("b", 1, ChangeOp::Add(rep(&[1]))), prior("c", 2, ChangeOp::Modify(rep(&[2])))];
    let got = invert_changes_inner("ann", ChangeSource::Undo, entries, previous);
    assert_eq!(
        got,
        vec![
            pending("a", ChangeSource::Undo, ChangeOp::Delete),
            pending("b", ChangeSource::Undo, ChangeOp::Modify(rep(&[1]))),
            pending("c", ChangeSource::Undo, ChangeOp::Add(rep(&[2]))),
        ]
    );
}

#[test]
fn double_delete_is_dropped_and_rest_is_inverted() {
    let entries = vec![
        entry("a", 7, UndoChangeKind::Modify),
        entry("gone", 8, UndoChangeKind::Delete),
        entry("c", 9, UndoChangeKind::Add),
    ];
    let previous =
        vec![prior("a", 2, ChangeOp::Add(rep(&[5]))), prior("gone", 6, ChangeOp::Delete), None];
    let dropped = inconsistent_entries(&entries, &previous);
    assert_eq!(dropped, vec![1]);
    let got = invert_changes_inner("ann", ChangeSource::Undo, entries, previous);
    assert_eq!(
        got,
        vec![
            pending("a", ChangeSource::Undo, ChangeOp::Modify(rep(&[5]))),
            pending("c", ChangeSource::Undo, ChangeOp::Delete),
        ]
    );
}

#[test]
fn delete_of_object_that_never_existed_inverts_to_delete() {
    let entries = vec![entry("never", 8, UndoChangeKind::Delete)];
    let got = invert_changes_inner("ann", ChangeSource::Undo, entries, vec![None]);
    assert_eq!(got, vec![pending("never", ChangeSource::Undo, ChangeOp::Delete)]);
}

#[test]
fn entries_without_prior_state_are_not_inverted() {
    let entries = vec![entry("a", 3, UndoChangeKind::Add), entry("b", 4, UndoChangeKind::Add)];
    let got = invert_changes_inner("ann", ChangeSource::Undo, entries, vec![None]);
    assert_eq!(got, vec![pending("a", ChangeSource::Undo, ChangeOp::Delete)]);
    let none = invert_changes_inner("ann", ChangeSource::Undo, Vec::new(), vec![None, None]);
    assert!(none.is_empty());
}

#[test]
fn nothing_is_inconsistent_in_a_clean_batch() {
    let entries = vec![entry("a", 3, UndoChangeKind::Add), entry("b", 4, UndoChangeKind::Modify)];
    let previous = vec![prior("a", 1, ChangeOp::Delete), prior("b", 2, ChangeOp::Add(rep(&[1])))];
    assert!(inconsistent_entries(&entries, &previous).is_empty());
}

#[test]
fn queries_ask_for_each_entry_at_its_own_offset() {
    let entries = vec![entry("a", 3, UndoChangeKind::Add), entry("b", 10, UndoChangeKind::Delete)];
    let got = previous_object_queries(&entries);
    assert_eq!(
        got,
        vec![
            ObjectAtOffset { obj_id: String::from("a"), offset: 3 },
            ObjectAtOffset { obj_id: String::from("b"), offset: 10 },
        ]
    );
    assert!(previous_object_queries(&Vec::new()).is_empty());
}
