//! Points, directions and rays, as triples of scalars.

use vstd::prelude::*;
use crate::scalar::Scalar;

verus! {

/// Three scalars: a point, a direction or a colour.
#[derive(Clone, Copy, Debug, PartialEq, Eq, Structural)]
pub struct Vec3(pub Scalar, pub Scalar, pub Scalar);

impl Vec3 {
    /// The component along axis `k` (0, 1 or 2).
    pub open spec fn at(self, k: int) -> Scalar {
        if k == 0 {
            self.0
        } else if k == 1 {
            self.1
        } else {
            self.2
        }
    }

    /// No component is a not-a-number pattern.
    pub open spec fn is_numeric(self) -> bool {
        !self.0.is_nan() && !self.1.is_nan() && !self.2.is_nan()
    }

    pub fn new(a: Scalar, b: Scalar, c: Scalar) -> (v: Vec3)
        ensures
            v == Vec3(a, b, c),
    {
        Vec3(a, b, c)
    }

    /// The component along axis `k`.
    pub fn get(&self, k: usize) -> (s: Scalar)
        requires
            k < 3,
        ensures
            s == self.at(k as int),
    {
        if k == 0 {
            self.0
        } else if k == 1 {
            self.1
        } else {
            self.2
        }
    }
}

/// A ray: where it starts, where it heads, and the instant at which it was cast.
#[derive(Clone, Copy, Debug, PartialEq, Eq, Structural)]
pub struct Ray {
    pub origin: Vec3,
    pub direction: Vec3,
    pub time: Scalar,
}

impl Ray {
    pub fn new(origin: Vec3, direction: Vec3, time: Scalar) -> (r: Ray)
        ensures
            r == (Ray { origin, direction, time }),
    {
        Ray { origin, direction, time }
    }
}

} // verus!
