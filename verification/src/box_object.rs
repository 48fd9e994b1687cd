//! The box: six rectangles, two across each axis.

use vstd::prelude::*;
use crate::aabb::AABB;
use crate::hit::HittableList;
use crate::rect::{XYRect, XZRect, YZRect};
use crate::vector::Vec3;

verus! {

/// One of the three kinds of rectangle.
#[derive(Clone, Copy, Debug, PartialEq, Eq, Structural)]
pub enum Rect {
    XY(XYRect),
    XZ(XZRect),
    YZ(YZRect),
}

/// A face of a box: a rectangle, and whether its normal is turned round so
/// that it points out of the box.
#[derive(Clone, Copy, Debug, PartialEq, Eq, Structural)]
pub struct Face {
    pub rect: Rect,
    pub flipped: bool,
}

/// A box between two corners.
pub struct BoxObject {
    pub p_min: Vec3,
    pub p_max: Vec3,
    pub faces: HittableList<Face>,
}

/// The six faces of the box between `p0` and `p1`: across each axis, the face
/// through `p1` as it is and the face through `p0` with its normal turned
/// round, each spanning the box along the two other axes.
pub open spec fn faces_of(p0: Vec3, p1: Vec3, material: usize) -> Seq<Face> {
    seq![
        Face {
            rect: Rect::XY(XYRect { x0: p0.0, y0: p0.1, x1: p1.0, y1: p1.1, k: p1.2, material }),
            flipped: false,
        },
        Face {
            rect: Rect::XY(XYRect { x0: p0.0, y0: p0.1, x1: p1.0, y1: p1.1, k: p0.2, material }),
            flipped: true,
        },
        Face {
            rect: Rect::XZ(XZRect { x0: p0.0, z0: p0.2, x1: p1.0, z1: p1.2, k: p1.1, material }),
            flipped: false,
        },
        Face {
            rect: Rect::XZ(XZRect { x0: p0.0, z0: p0.2, x1: p1.0, z1: p1.2, k: p0.1, material }),
            flipped: true,
        },
        Face {
            rect: Rect::YZ(YZRect { y0: p0.1, z0: p0.2, y1: p1.1, z1: p1.2, k: p1.0, material }),
            flipped: false,
        },
        Face {
            rect: Rect::YZ(YZRect { y0: p0.1, z0: p0.2, y1: p1.1, z1: p1.2, k: p0.0, material }),
            flipped: true,
        },
    ]
}

impl BoxObject {
    /// The box between `p0` and `p1`, all of one material.
    pub fn new(p0: Vec3, p1: Vec3, material: usize) -> (b: BoxObject)
        ensures
            b.p_min == p0,
            b.p_max == p1,
            b.faces.wf(),
            b.faces.list@ == faces_of(p0, p1, material),
    {
        let mut faces: HittableList<Face> = HittableList::new();
        faces.push(
            Face {
                rect: Rect::XY(XYRect::new(p0.0, p0.1, p1.0, p1.1, p1.2, material)),
                flipped: false,
            },
        );
        faces.push(
            Face {
                rect: Rect::XY(XYRect::new(p0.0, p0.1, p1.0, p1.1, p0.2, material)),
                flipped: true,
            },
        );
        faces.push(
            Face {
                rect: Rect::XZ(XZRect::new(p0.0, p0.2, p1.0, p1.2, p1.1, material)),
                flipped: false,
            },
        );
        faces.push(
            Face {
                rect: Rect::XZ(XZRect::new(p0.0, p0.2, p1.0, p1.2, p0.1, material)),
                flipped: true,
            },
        );
        faces.push(
            Face {
                rect: Rect::YZ(YZRect::new(p0.1, p0.2, p1.1, p1.2, p1.0, material)),
                flipped: false,
            },
        );
        faces.push(
            Face {
                rect: Rect::YZ(YZRect::new(p0.1, p0.2, p1.1, p1.2, p0.0, material)),
                flipped: true,
            },
        );
        proof {
            assert(faces.list@ =~= faces_of(p0, p1, material));
        }
        BoxObject { p_min: p0, p_max: p1, faces }
    }

    /// The box itself.
    pub fn bounding_box(&self) -> (b: AABB)
        ensures
            b.min == self.p_min,
            b.max == self.p_max,
    {
        AABB::new(&self.p_min, &self.p_max)
    }
}

} // verus!
