//! Points as they cross the gateway, generic in the coordinate type.

use vstd::prelude::*;

verus! {

/// A point as received from a client.
#[derive(Debug, PartialEq)]
pub struct Point3ApiMsg<C> {
    pub x: C,
    pub y: C,
    pub z: C,
}

/// A point as handed to the geometry services.
#[derive(Debug, PartialEq)]
pub struct Point3Msg<C> {
    pub x: C,
    pub y: C,
    pub z: C,
}

/// The service-side point with the same three coordinates, in the same order.
pub open spec fn spec_point3msg<C>(pt: Point3ApiMsg<C>) -> Point3Msg<C> {
    Point3Msg { x: pt.x, y: pt.y, z: pt.z }
}

/// The service-side form of an optional point: a missing point stays missing.
pub open spec fn spec_point<C>(pt: Option<Point3ApiMsg<C>>) -> Option<Point3Msg<C>> {
    match pt {
        Some(p) => Some(spec_point3msg(p)),
        None => None,
    }
}

/// Converts an optional client point into the optional service point.
pub fn to_point3msg<C>(pt_opt: Option<Point3ApiMsg<C>>) -> (res: Option<Point3Msg<C>>)
    ensures
        res == spec_point(pt_opt),
{
    match pt_opt {
        Some(pt) => Some(Point3Msg { x: pt.x, y: pt.y, z: pt.z }),
        None => None,
    }
}

} // verus!
