use change_pipeline::cache::ProjectionCache;
use change_pipeline::model::{
    Change, ChangeOp, ChangeSource, Error, ObjectAtOffset, ObjectRepresentation,
};

fn rep(bytes: &[u8]) -> ObjectRepresentation {
    ObjectRepresentation { data: bytes.to_vec() }
}

fn change(id: &str, offset: i64, op: ChangeOp) -> Change {
    Change { id: id.to_string(), user: String::from("ann"), offset, source: ChangeSource::Normal, op }
}

fn key(id: &str, offset: i64) -> ObjectAtOffset {
    ObjectAtOffset { obj_id: id.to_string(), offset }
}

fn filled() -> ProjectionCache {
    let mut cache = ProjectionCache::new();
    cache.update_cache(
        "f",
        vec![
            change("a", 1, ChangeOp::Add(rep(&[1]))),
            change("b", 2, ChangeOp::Add(rep(&[2]))),
            change("a", 3, ChangeOp::Modify(rep(&[3]))),
            change("b", 4, ChangeOp::Delete),
            change("a", 5, ChangeOp::Modify(rep(&[5]))),
        ],
    );
    cache
}

#[test]
fn file_without_history_is_not_found() {
    let cache = ProjectionCache::new();
    assert_eq!(cache.get_latest_offset("f"), Err(Error::NotFound));
    assert_eq!(filled().get_latest_offset("other"), Err(Error::NotFound));
}

#[test]
fn latest_offset_follows_the_stream() {
    let mut cache = ProjectionCache::new();
    cache.apply("f", change("a", 1, ChangeOp::Add(rep(&[1]))));
    assert_eq!(cache.get_latest_offset("f"), Ok(1));
    cache.apply("f", change("a", 2, ChangeOp::Delete));
    assert_eq!(cache.get_latest_offset("f"), Ok(2));
    assert_eq!(filled().get_latest_offset("f"), Ok(5));
}

#[test]
fn latest_offset_never_falls() {
    let mut cache = ProjectionCache::new();
    let mut seen = 0;
    for offset in [3, 1, 7, 7, 2, 9, 4] {
        cache.apply("f", change("a", offset, ChangeOp::Modify(rep(&[offset as u8]))));
        let now = cache.get_latest_offset("f").unwrap();
        assert!(now >= seen);
        assert!(now >= offset);
        seen = now;
    }
    assert_eq!(seen, 9);
}

#[test]
fn objects_are_answered_as_committed_strictly_before_the_offset() {
    let cache = filled();
    let got = cache.get_objects(
        "f",
        &vec![key("a", 1), key("a", 2), key("a", 3), key("a", 4), key("a", 6), key("a", 100)],
    );
    assert_eq!(
        got,
        vec![None, Some(rep(&[1])), Some(rep(&[1])), Some(rep(&[3])), Some(rep(&[5])), Some(rep(&[5]))]
    );
}

#[test]
fn answers_keep_the_positions_of_the_keys() {
    let cache = filled();
    let keys = vec![key("b", 3), key("missing", 9), key("a", 4), key("b", 5), key("b", 2)];
    let got = cache.get_objects("f", &keys);
    assert_eq!(got.len(), keys.len());
    assert_eq!(got, vec![Some(rep(&[2])), None, Some(rep(&[3])), None, None]);
    assert!(cache.get_objects("f", &Vec::new()).is_empty());
}

#[test]
fn unknown_file_answers_every_key_with_nothing() {
    let cache = filled();
    let got = cache.get_objects("other", &vec![key("a", 9), key("b", 9)]);
    assert_eq!(got, vec![None, None]);
    let changes = cache.get_prior_changes("other", &vec![key("a", 9)]);
    assert_eq!(changes, vec![None]);
}

#[test]
fn prior_changes_show_the_delete_that_objects_hide() {
    let cache = filled();
    let got = cache.get_prior_changes("f", &vec![key("b", 5), key("b", 4), key("b", 2)]);
    assert_eq!(
        got,
        vec![Some(change("b", 4, ChangeOp::Delete)), Some(change("b", 2, ChangeOp::Add(rep(&[2])))), None]
    );
}

#[test]
fn live_objects_are_listed_once_and_deleted_ones_not() {
    let cache = filled();
    assert_eq!(cache.get_latest_object_list("f"), vec![String::from("a")]);
    assert!(cache.get_latest_object_list("other").is_empty());
    let mut more = filled();
    more.apply("f", change("b", 6, ChangeOp::Add(rep(&[6]))));
    more.apply("f", change("c", 7, ChangeOp::Add(rep(&[7]))));
    more.apply("f", change("a", 8, ChangeOp::Modify(rep(&[8]))));
    let ids = more.get_latest_object_list("f");
    assert_eq!(ids, vec![String::from("a"), String::from("b"), String::from("c")]);
    more.apply("f", change("a", 9, ChangeOp::Delete));
    assert_eq!(more.get_latest_object_list("f"), vec![String::from("b"), String::from("c")]);
    more.apply("f", change("a", 10, ChangeOp::Add(rep(&[1]))));
    assert_eq!(
        more.get_latest_object_list("f"),
        vec![String::from("a"), String::from("b"), String::from("c")]
    );
    assert_eq!(more.get_latest_object_list("f"), more.get_latest_object_list("f"));
}

#[test]
fn change_at_an_offset_already_held_takes_its_place() {
    let mut cache = filled();
    cache.apply("f", change("a", 3, ChangeOp::Modify(rep(&[33]))));
    let got = cache.get_objects("f", &vec![key("a", 4), key("a", 6)]);
    assert_eq!(got, vec![Some(rep(&[33])), Some(rep(&[5]))]);
    assert_eq!(cache.get_latest_offset("f"), Ok(5));
}

#[test]
fn files_are_projected_apart() {
    let mut cache = filled();
    cache.apply("g", change("a", 1, ChangeOp::Add(rep(&[42]))));
    assert_eq!(cache.get_latest_offset("g"), Ok(1));
    assert_eq!(cache.get_latest_offset("f"), Ok(5));
    assert_eq!(cache.get_objects("g", &vec![key("a", 2)]), vec![Some(rep(&[42]))]);
    assert_eq!(cache.get_objects("f", &vec![key("a", 2)]), vec![Some(rep(&[1]))]);
}
