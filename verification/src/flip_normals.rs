//! The shape that shows another shape with its normals turned round.

use vstd::prelude::*;
use crate::hit::HitRecord;
use crate::scalar::Scalar;
use crate::vector::{Ray, Vec3};

verus! {

/// A shape seen from its other side.
pub struct FlipNormals<T> {
    pub ptr: T,
}

/// The vector that points the other way.
pub open spec fn reversed(v: Vec3) -> Vec3 {
    Vec3(v.0.opposite(), v.1.opposite(), v.2.opposite())
}

/// A hit with its normal turned round, and nothing else changed.
pub open spec fn flipped<M>(hit: Option<HitRecord<M>>) -> Option<HitRecord<M>> {
    match hit {
        Some(rec) => Some(
            HitRecord {
                t: rec.t,
                u: rec.u,
                v: rec.v,
                p: rec.p,
                normal: reversed(rec.normal),
                mat: rec.mat,
            },
        ),
        None => None,
    }
}

/// Turning a hit round twice gives the hit back.
pub proof fn lemma_flipped_twice<M>(hit: Option<HitRecord<M>>)
    ensures
        flipped(flipped(hit)) == hit,
{
    if let Some(rec) = hit {
        assert(rec.normal.0.opposite().opposite() == rec.normal.0);
        assert(rec.normal.1.opposite().opposite() == rec.normal.1);
        assert(rec.normal.2.opposite().opposite() == rec.normal.2);
    }
}

impl<T> FlipNormals<T> {
    pub fn new(ptr: T) -> (f: Self)
        ensures
            f.ptr == ptr,
    {
        FlipNormals { ptr }
    }

    /// The hit of the shape inside, with its normal turned round.
    pub fn hit<M, S: Fn(&T, &Ray, Scalar, Scalar) -> Option<HitRecord<M>>>(
        &self,
        r: &Ray,
        t_min: Scalar,
        t_max: Scalar,
        probe: &S,
    ) -> (out: Option<HitRecord<M>>)
        requires
            call_requires(probe, (&self.ptr, r, t_min, t_max)),
        ensures
            exists|inner: Option<HitRecord<M>>| #[trigger]
                call_ensures(probe, (&self.ptr, r, t_min, t_max), inner) && out == flipped(inner),
    {
        let inner = probe(&self.ptr, r, t_min, t_max);
        let ghost seen = inner;
        let out = match inner {
            Some(rec) => Some(
                HitRecord::new(
                    rec.t,
                    rec.u,
                    rec.v,
                    rec.p,
                    Vec3::new(rec.normal.0.negated(), rec.normal.1.negated(), rec.normal.2.negated()),
                    rec.mat,
                ),
            ),
            None => None,
        };
        proof {
            assert(call_ensures(probe, (&self.ptr, r, t_min, t_max), seen) && out == flipped(seen));
        }
        out
    }
}

} // verus!
