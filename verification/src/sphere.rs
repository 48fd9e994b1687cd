//! Spheres: which of the two intersections of a ray with a sphere counts.

use vstd::prelude::*;
use crate::scalar::Scalar;
use crate::vector::Vec3;

verus! {

/// A sphere.
#[derive(Clone, Copy, Debug, PartialEq, Eq, Structural)]
pub struct Sphere {
    pub center: Vec3,
    pub radius: Scalar,
    pub material: usize,
}

/// A sphere whose centre moves in a straight line from one point at one
/// instant to another point at a later one.
#[derive(Clone, Copy, Debug, PartialEq, Eq, Structural)]
pub struct MovingSphere {
    pub center_start: Vec3,
    pub center_end: Vec3,
    pub time_start: Scalar,
    pub time_end: Scalar,
    pub radius: Scalar,
    pub material: usize,
}

impl Sphere {
    pub fn new(center: Vec3, radius: Scalar, material: usize) -> (s: Sphere)
        ensures
            s == (Sphere { center, radius, material }),
    {
        Sphere { center, radius, material }
    }
}

impl MovingSphere {
    pub fn new(
        center_start: Vec3,
        center_end: Vec3,
        time_start: Scalar,
        time_end: Scalar,
        radius: Scalar,
        material: usize,
    ) -> (s: MovingSphere)
        ensures
            s == (MovingSphere { center_start, center_end, time_start, time_end, radius, material }),
    {
        MovingSphere { center_start, center_end, time_start, time_end, radius, material }
    }
}

/// The root of the intersection equation that counts as the hit. Without a
/// positive discriminant there is none. Otherwise it is the smaller root
/// where that lies strictly between `t_min` and `t_max`, else the larger root
/// where that does, else none.
pub open spec fn root_of(
    discriminant: Scalar,
    smaller: Scalar,
    larger: Scalar,
    t_min: Scalar,
    t_max: Scalar,
) -> Option<Scalar> {
    if !(Scalar { bits: 0 }).less(discriminant) {
        None
    } else if smaller.strictly_between(t_min, t_max) {
        Some(smaller)
    } else if larger.strictly_between(t_min, t_max) {
        Some(larger)
    } else {
        None
    }
}

/// Chooses the root at which a ray hits a sphere.
pub fn pick_root(
    discriminant: Scalar,
    smaller: Scalar,
    larger: Scalar,
    t_min: Scalar,
    t_max: Scalar,
) -> (t: Option<Scalar>)
    ensures
        t == root_of(discriminant, smaller, larger, t_min, t_max),
{
    if discriminant.gt(Scalar::zero()) {
        if smaller.lt(t_max) && smaller.gt(t_min) {
            return Some(smaller);
        }
        if larger.lt(t_max) && larger.gt(t_min) {
            return Some(larger);
        }
    }
    None
}

} // verus!
