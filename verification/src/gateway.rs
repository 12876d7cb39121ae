//! What the gateway decides between its calls to the services: whether a
//! request carries its prefix, which offset a batch ended on, and how walls
//! and the objects made from them are paired with their ids.

use vstd::prelude::*;
use crate::geometry::{spec_point, to_point3msg, Point3ApiMsg, Point3Msg};
use crate::model::{
    views, ChangeOp, ChangeSource, Error, ObjectRepresentation, Offset, OpView, PendingChange,
    PendingView,
};

verus! {

/// The prefix of an operation as it arrives: the file, the acting user and
/// the offset that the user has seen last.
#[derive(Debug, PartialEq, Eq)]
pub struct OpPrefixMsg {
    pub file: String,
    pub user: String,
    pub offset: Offset,
}

/// The prefix of an operation, once it is known to be there.
#[derive(Debug, PartialEq, Eq)]
pub struct Prefix {
    pub file: String,
    pub user: String,
    pub offset: Offset,
}

impl Prefix {
    /// Takes the prefix out of a request. A request without one is malformed.
    pub fn new(prefix_opt: Option<OpPrefixMsg>) -> (res: Result<Prefix, Error>)
        ensures
            match prefix_opt {
                Some(prefix) => res == Ok::<Prefix, Error>(
                    Prefix { file: prefix.file, user: prefix.user, offset: prefix.offset },
                ),
                None => res == Err::<Prefix, Error>(Error::InvalidArgument),
            },
    {
        if let Some(prefix) = prefix_opt {
            Ok(Prefix { file: prefix.file, user: prefix.user, offset: prefix.offset })
        } else {
            Err(Error::InvalidArgument)
        }
    }
}

/// The offset that a batch ended on: the last of the offsets that came back
/// for it. A batch for which none came back has no such offset.
pub fn last_offset(offsets: Vec<Offset>) -> (res: Result<Offset, Error>)
    ensures
        match res {
            Ok(offset) => offsets@.len() > 0 && offset == offsets@.last(),
            Err(e) => e == Error::OutOfRange && offsets@.len() == 0,
        },
{
    let mut offsets = offsets;
    match offsets.pop() {
        Some(offset) => Ok(offset),
        None => Err(Error::OutOfRange),
    }
}

/// A wall as a client draws it.
#[derive(Debug, PartialEq)]
pub struct WallApiMsg<C> {
    pub first_pt: Option<Point3ApiMsg<C>>,
    pub second_pt: Option<Point3ApiMsg<C>>,
    pub width: C,
    pub height: C,
}

/// A wall as the geometry service is asked for it, under its new id.
#[derive(Debug, PartialEq)]
pub struct WallMsg<C> {
    pub id: String,
    pub first_pt: Option<Point3Msg<C>>,
    pub second_pt: Option<Point3Msg<C>>,
    pub width: C,
    pub height: C,
}

/// Whether a request is the given wall under the given id.
pub open spec fn spec_is_request<C>(request: WallMsg<C>, wall: WallApiMsg<C>, id: Seq<char>) -> bool {
    &&& request.id@ == id
    &&& request.first_pt == spec_point(wall.first_pt)
    &&& request.second_pt == spec_point(wall.second_pt)
    &&& request.width == wall.width
    &&& request.height == wall.height
}

/// Pairs each wall with the id at its position and turns it into a request to
/// the geometry service. Every wall needs an id of its own: with more or
/// fewer ids than walls the request is malformed.
pub fn wall_requests<C: Copy>(walls: &Vec<WallApiMsg<C>>, ids: &Vec<String>) -> (res: Result<
    Vec<WallMsg<C>>,
    Error,
>)
    ensures
        match res {
            Ok(requests) => {
                &&& walls@.len() == ids@.len()
                &&& requests@.len() == walls@.len()
                &&& forall|i: int|
                    0 <= i < requests@.len() ==> spec_is_request(#[trigger] requests@[i], walls@[i], ids@[i]@)
            },
            Err(e) => e == Error::InvalidArgument && walls@.len() != ids@.len(),
        },
{
    if walls.len() != ids.len() {
        return Err(Error::InvalidArgument);
    }
    let mut requests: Vec<WallMsg<C>> = Vec::new();
    let mut i: usize = 0;
    while i < walls.len()
        invariant
            i <= walls.len(),
            walls.len() == ids.len(),
            requests.len() == i,
            forall|j: int| 0 <= j < i ==> spec_is_request(#[trigger] requests@[j], walls@[j], ids@[j]@),
        decreases walls.len() - i,
    {
        let wall = &walls[i];
        let first_pt = match &wall.first_pt {
            Some(p) => to_point3msg(Some(Point3ApiMsg { x: p.x, y: p.y, z: p.z })),
            None => to_point3msg(None),
        };
        let second_pt = match &wall.second_pt {
            Some(p) => to_point3msg(Some(Point3ApiMsg { x: p.x, y: p.y, z: p.z })),
            None => to_point3msg(None),
        };
        requests.push(
            WallMsg { id: ids[i].clone(), first_pt, second_pt, width: wall.width, height: wall.height },
        );
        i += 1;
    }
    Ok(requests)
}

/// The changes that add freshly made objects: the object at each position
/// under the id at that position, as a normal change of `user`.
pub open spec fn spec_additions(objects: Seq<Seq<u8>>, ids: Seq<Seq<char>>, user: Seq<char>) -> Seq<
    PendingView,
> {
    Seq::new(
        if objects.len() <= ids.len() {
            objects.len()
        } else {
            ids.len()
        },
        |i: int|
            PendingView { id: ids[i], user, source: ChangeSource::Normal, op: OpView::Add(objects[i]) },
    )
}

/// Turns the objects that the geometry service made into the changes that add
/// them, each under the id at its position. Objects without an id, and ids
/// without an object, are left out.
pub fn object_additions(objects: &Vec<ObjectRepresentation>, ids: &Vec<String>, user: &str) -> (changes:
    Vec<PendingChange>)
    ensures
        views(changes@) == spec_additions(views(objects@), views(ids@), user@),
{
    let paired = if objects.len() <= ids.len() {
        objects.len()
    } else {
        ids.len()
    };
    let mut changes: Vec<PendingChange> = Vec::new();
    let mut i: usize = 0;
    while i < paired
        invariant
            i <= paired,
            paired <= objects.len(),
            paired <= ids.len(),
            changes.len() == i,
            forall|j: int|
                0 <= j < i ==> (#[trigger] changes@[j])@ == (PendingView {
                    id: ids@[j]@,
                    user: user@,
                    source: ChangeSource::Normal,
                    op: OpView::Add(objects@[j]@),
                }),
        decreases paired - i,
    {
        changes.push(
            PendingChange {
                id: ids[i].clone(),
                user: user.to_owned(),
                source: ChangeSource::Normal,
                op: ChangeOp::Add(objects[i].clone()),
            },
        );
        i += 1;
    }
    assert(views(changes@) =~= spec_additions(views(objects@), views(ids@), user@));
    changes
}

} // verus!
