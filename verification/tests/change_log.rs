use change_pipeline::log::ChangeLog;
use change_pipeline::model::{
    Change, ChangeOp, ChangeSource, Error, ObjectRepresentation, PendingChange,
};

fn add(id: &str, bytes: &[u8]) -> PendingChange {
    PendingChange {
        id: id.to_string(),
        user: String::from("ann"),
        source: ChangeSource::Normal,
        op: ChangeOp::Add(ObjectRepresentation { data: bytes.to_vec() }),
    }
}

fn delete(id: &str) -> PendingChange {
    PendingChange {
        id: id.to_string(),
        user: String::from("ann"),
        source: ChangeSource::Normal,
        op: ChangeOp::Delete,
    }
}

#[test]
fn offsets_count_up_from_one_in_batch_order() {
    let mut log = ChangeLog::new();
    let offsets = log.submit("f", "ann", 0, vec![add("a", &[1]), add("b", &[2]), delete("a")]);
    assert_eq!(offsets, Ok(vec![1, 2, 3]));
    assert_eq!(log.current_offset("f"), 3);
    let more = log.submit("f", "bob", 3, vec![add("c", &[3])]);
    assert_eq!(more, Ok(vec![4]));
    assert_eq!(log.current_offset("f"), 4);
}

#[test]
fn offsets_are_strictly_increasing_and_as_many_as_changes() {
    let mut log = ChangeLog::new();
    let batch: Vec<PendingChange> = (0..20).map(|i| add(&format!("o{}", i), &[i as u8])).collect();
    let offsets = log.submit("f", "ann", 0, batch).unwrap();
    assert_eq!(offsets.len(), 20);
    for pair in offsets.windows(2) {
        assert!(pair[0] < pair[1]);
    }
}

#[test]
fn committed_changes_carry_submitter_offset_and_payload() {
    let mut log = ChangeLog::new();
    log.submit("f", "ann", 0, vec![add("a", &[1, 2])]).unwrap();
    log.submit("f", "bob", 1, vec![delete("a")]).unwrap();
    let all = log.changes_after("f", 0);
    assert_eq!(
        all,
        vec![
            Change {
                id: String::from("a"),
                user: String::from("ann"),
                offset: 1,
                source: ChangeSource::Normal,
                op: ChangeOp::Add(ObjectRepresentation { data: vec![1, 2] }),
            },
            Change {
                id: String::from("a"),
                user: String::from("bob"),
                offset: 2,
                source: ChangeSource::Normal,
                op: ChangeOp::Delete,
            },
        ]
    );
    assert_eq!(log.changes_after("f", 1).len(), 1);
    assert_eq!(log.changes_after("f", 1)[0].offset, 2);
    assert!(log.changes_after("f", 2).is_empty());
    assert!(log.changes_after("f", 99).is_empty());
    assert_eq!(log.changes_after("f", -5).len(), 2);
    assert!(log.changes_after("unknown", 0).is_empty());
}

#[test]
fn stale_base_offset_is_a_conflict_and_appends_nothing() {
    let mut log = ChangeLog::new();
    log.submit("f", "ann", 0, vec![add("a", &[1]), add("b", &[2])]).unwrap();
    assert_eq!(log.submit("f", "bob", 1, vec![add("c", &[3])]), Err(Error::OffsetConflict));
    assert_eq!(log.submit("f", "bob", 0, vec![add("c", &[3])]), Err(Error::OffsetConflict));
    assert_eq!(log.submit("f", "bob", -1, Vec::new()), Err(Error::OffsetConflict));
    assert_eq!(log.current_offset("f"), 2);
    assert_eq!(log.changes_after("f", 0).len(), 2);
}

#[test]
fn base_offset_ahead_of_the_log_is_not_found() {
    let mut log = ChangeLog::new();
    assert_eq!(log.submit("f", "ann", 1, vec![add("a", &[1])]), Err(Error::NotFound));
    assert_eq!(log.current_offset("f"), 0);
}

#[test]
fn closed_log_is_unavailable_and_keeps_what_it_has() {
    let mut log = ChangeLog::new();
    log.submit("f", "ann", 0, vec![add("a", &[1])]).unwrap();
    log.set_accepting(false);
    assert_eq!(log.submit("f", "ann", 1, vec![add("b", &[2])]), Err(Error::Unavailable));
    assert_eq!(log.submit("f", "ann", 0, vec![add("b", &[2])]), Err(Error::Unavailable));
    assert_eq!(log.current_offset("f"), 1);
    log.set_accepting(true);
    assert_eq!(log.submit("f", "ann", 1, vec![add("b", &[2])]), Ok(vec![2]));
}

#[test]
fn files_have_logs_of_their_own() {
    let mut log = ChangeLog::new();
    assert_eq!(log.submit("f", "ann", 0, vec![add("a", &[1]), add("b", &[1])]), Ok(vec![1, 2]));
    assert_eq!(log.submit("g", "ann", 0, vec![add("a", &[1])]), Ok(vec![1]));
    assert_eq!(log.current_offset("f"), 2);
    assert_eq!(log.current_offset("g"), 1);
    assert_eq!(log.current_offset("h"), 0);
}

#[test]
fn empty_batch_gives_no_offsets() {
    let mut log = ChangeLog::new();
    assert_eq!(log.submit("f", "ann", 0, Vec::new()), Ok(Vec::new()));
    assert_eq!(log.current_offset("f"), 0);
}
