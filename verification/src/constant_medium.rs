//! Participating media: the stretch of a ray that runs inside a medium.

use vstd::prelude::*;
use crate::scalar::Scalar;

verus! {

/// A medium of constant density inside a boundary shape.
pub struct ConstantMedium<B, P> {
    pub boundary: B,
    pub density: Scalar,
    pub phase_function: P,
}

impl<B, P> ConstantMedium<B, P> {
    pub fn new(boundary: B, density: Scalar, phase_function: P) -> (m: Self)
        ensures
            m.boundary == boundary,
            m.density == density,
            m.phase_function == phase_function,
    {
        ConstantMedium { boundary, density, phase_function }
    }

    /// Whether a ray is scattered inside the medium: the free flight drawn
    /// for it is shorter than its stretch inside the boundary. A ray whose
    /// flight reaches the far side passes through.
    pub fn scatters_within(&self, flight: Scalar, stretch: Scalar) -> (inside: bool)
        ensures
            inside == flight.less(stretch),
    {
        flight.lt(stretch)
    }
}

/// The stretch inside the medium of a ray that enters the boundary at
/// `entry` and leaves it at `exit`, cut down to the range from `t_min` to
/// `t_max`: the entry is raised to `t_min`, the exit lowered to `t_max`, and
/// nothing is left where the entry is then not before the exit. An entry
/// behind the ray's origin is moved to the origin.
pub open spec fn segment_of(entry: Scalar, exit: Scalar, t_min: Scalar, t_max: Scalar) -> Option<
    (Scalar, Scalar),
> {
    let first = if entry.less(t_min) {
        t_min
    } else {
        entry
    };
    let last = if t_max.less(exit) {
        t_max
    } else {
        exit
    };
    if last.less_eq(first) {
        None
    } else if first.less(Scalar { bits: 0 }) {
        Some((Scalar { bits: 0 }, last))
    } else {
        Some((first, last))
    }
}

/// Cuts the stretch of a ray inside a medium down to the range of the query.
pub fn clip_segment(entry: Scalar, exit: Scalar, t_min: Scalar, t_max: Scalar) -> (segment: Option<
    (Scalar, Scalar),
>)
    ensures
        segment == segment_of(entry, exit, t_min, t_max),
{
    let mut first = entry;
    let mut last = exit;
    if first.lt(t_min) {
        first = t_min;
    }
    if last.gt(t_max) {
        last = t_max;
    }
    if first.ge(last) {
        return None;
    }
    if first.lt(Scalar::zero()) {
        first = Scalar::zero();
    }
    Some((first, last))
}

} // verus!
