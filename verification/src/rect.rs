//! Axis-aligned rectangles: a rectangle lies in a plane of constant `z`, `y`
//! or `x`, and is bounded along the two other axes.

use vstd::prelude::*;
use crate::scalar::Scalar;

verus! {

/// A rectangle in the plane `z = k`.
#[derive(Clone, Copy, Debug, PartialEq, Eq, Structural)]
pub struct XYRect {
    pub x0: Scalar,
    pub y0: Scalar,
    pub x1: Scalar,
    pub y1: Scalar,
    pub k: Scalar,
    pub material: usize,
}

/// A rectangle in the plane `y = k`.
#[derive(Clone, Copy, Debug, PartialEq, Eq, Structural)]
pub struct XZRect {
    pub x0: Scalar,
    pub z0: Scalar,
    pub x1: Scalar,
    pub z1: Scalar,
    pub k: Scalar,
    pub material: usize,
}

/// A rectangle in the plane `x = k`.
#[derive(Clone, Copy, Debug, PartialEq, Eq, Structural)]
pub struct YZRect {
    pub y0: Scalar,
    pub z0: Scalar,
    pub y1: Scalar,
    pub z1: Scalar,
    pub k: Scalar,
    pub material: usize,
}

/// Whether the point `(a, b)` of a rectangle's plane lies in the rectangle
/// that spans `a0 ..= a1` and `b0 ..= b1`: it is outside along neither axis.
pub open spec fn spans(a0: Scalar, b0: Scalar, a1: Scalar, b1: Scalar, a: Scalar, b: Scalar) -> bool {
    !a.outside(a0, a1) && !b.outside(b0, b1)
}

impl XYRect {
    pub fn new(x0: Scalar, y0: Scalar, x1: Scalar, y1: Scalar, k: Scalar, material: usize) -> (r:
        XYRect)
        ensures
            r == (XYRect { x0, y0, x1, y1, k, material }),
    {
        XYRect { x0, y0, x1, y1, k, material }
    }

    /// Whether the point `(x, y)` of the plane lies in the rectangle.
    pub fn holds(&self, x: Scalar, y: Scalar) -> (inside: bool)
        ensures
            inside == spans(self.x0, self.y0, self.x1, self.y1, x, y),
    {
        !(x.lt(self.x0) || x.gt(self.x1) || y.lt(self.y0) || y.gt(self.y1))
    }
}

impl XZRect {
    pub fn new(x0: Scalar, z0: Scalar, x1: Scalar, z1: Scalar, k: Scalar, material: usize) -> (r:
        XZRect)
        ensures
            r == (XZRect { x0, z0, x1, z1, k, material }),
    {
        XZRect { x0, z0, x1, z1, k, material }
    }

    /// Whether the point `(x, z)` of the plane lies in the rectangle.
    pub fn holds(&self, x: Scalar, z: Scalar) -> (inside: bool)
        ensures
            inside == spans(self.x0, self.z0, self.x1, self.z1, x, z),
    {
        !(x.lt(self.x0) || x.gt(self.x1) || z.lt(self.z0) || z.gt(self.z1))
    }
}

impl YZRect {
    pub fn new(y0: Scalar, z0: Scalar, y1: Scalar, z1: Scalar, k: Scalar, material: usize) -> (r:
        YZRect)
        ensures
            r == (YZRect { y0, z0, y1, z1, k, material }),
    {
        YZRect { y0, z0, y1, z1, k, material }
    }

    /// Whether the point `(y, z)` of the plane lies in the rectangle.
    pub fn holds(&self, y: Scalar, z: Scalar) -> (inside: bool)
        ensures
            inside == spans(self.y0, self.z0, self.y1, self.z1, y, z),
    {
        !(y.lt(self.y0) || y.gt(self.y1) || z.lt(self.z0) || z.gt(self.z1))
    }
}

} // verus!
