use change_pipeline::gateway::{
    last_offset, object_additions, wall_requests, OpPrefixMsg, Prefix, WallApiMsg, WallMsg,
};
use change_pipeline::geometry::{to_point3msg, Point3ApiMsg, Point3Msg};
use change_pipeline::model::{ChangeOp, ChangeSource, Error, ObjectRepresentation, PendingChange};

#[test]
fn point_keeps_its_coordinates() {
    let got = to_point3msg(Some(Point3ApiMsg { x: 1.5f64, y: -2.0, z: 100.25 }));
    assert_eq!(got, Some(Point3Msg { x: 1.5f64, y: -2.0, z: 100.25 }));
}

#[test]
fn missing_point_stays_missing() {
    assert_eq!(to_point3msg::<f64>(None), None);
}

#[test]
fn prefix_is_taken_over_as_it_is() {
    let msg = OpPrefixMsg { file: String::from("f"), user: String::from("ann"), offset: 12 };
    assert_eq!(
        Prefix::new(Some(msg)),
        Ok(Prefix { file: String::from("f"), user: String::from("ann"), offset: 12 })
    );
}

#[test]
fn request_without_prefix_is_an_invalid_argument() {
    assert_eq!(Prefix::new(None), Err(Error::InvalidArgument));
}

#[test]
fn batch_ends_on_the_last_offset() {
    assert_eq!(last_offset(vec![4, 5, 6]), Ok(6));
    assert_eq!(last_offset(vec![1]), Ok(1));
}

#[test]
fn batch_without_offsets_is_out_of_range() {
    assert_eq!(last_offset(Vec::new()), Err(Error::OutOfRange));
}

#[test]
fn walls_are_paired_with_ids_in_order() {
    let walls = vec![
        WallApiMsg {
            first_pt: Some(Point3ApiMsg { x: 0.0f64, y: 0.0, z: 10.0 }),
            second_pt: Some(Point3ApiMsg { x: 100.0f64, y: 0.0, z: 10.0 }),
            width: 1.0,
            height: 10.0,
        },
        WallApiMsg { first_pt: None, second_pt: None, width: 2.0, height: 3.0 },
    ];
    let ids = vec![String::from("id-1"), String::from("id-2")];
    let got = wall_requests(&walls, &ids);
    assert_eq!(
        got,
        Ok(vec![
            WallMsg {
                id: String::from("id-1"),
                first_pt: Some(Point3Msg { x: 0.0f64, y: 0.0, z: 10.0 }),
                second_pt: Some(Point3Msg { x: 100.0f64, y: 0.0, z: 10.0 }),
                width: 1.0,
                height: 10.0,
            },
            WallMsg { id: String::from("id-2"), first_pt: None, second_pt: None, width: 2.0, height: 3.0 },
        ])
    );
}

#[test]
fn walls_without_an_id_each_are_an_invalid_argument() {
    let walls = vec![WallApiMsg::<f64> { first_pt: None, second_pt: None, width: 2.0, height: 3.0 }];
    assert_eq!(wall_requests(&walls, &Vec::new()), Err(Error::InvalidArgument));
    let none: Vec<WallApiMsg<f64>> = Vec::new();
    assert_eq!(wall_requests(&none, &vec![String::from("x")]), Err(Error::InvalidArgument));
    assert_eq!(wall_requests(&none, &Vec::new()), Ok(Vec::new()));
}

#[test]
fn made_objects_become_additions_under_their_ids() {
    let objects =
        vec![ObjectRepresentation { data: vec![1] }, ObjectRepresentation { data: vec![2, 2] }];
    let ids = vec![String::from("id-1"), String::from("id-2"), String::from("spare")];
    let got = object_additions(&objects, &ids, "ann");
    assert_eq!(
        got,
        vec![
            PendingChange {
                id: String::from("id-1"),
                user: String::from("ann"),
                source: ChangeSource::Normal,
                op: ChangeOp::Add(ObjectRepresentation { data: vec![1] }),
            },
            PendingChange {
                id: String::from("id-2"),
                user: String::from("ann"),
                source: ChangeSource::Normal,
                op: ChangeOp::Add(ObjectRepresentation { data: vec![2, 2] }),
            },
        ]
    );
}
