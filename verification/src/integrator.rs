//! The radiance integrator: how far a path is followed, and what it returns.
//!
//! The integrator owns the decisions: whether the ray met anything, whether
//! the path may go on, and which values are combined. Intersection, emission,
//! scattering and the arithmetic on colours are the caller's.

use vstd::prelude::*;
use crate::hit::HitRecord;
use crate::scalar::{Scalar, MAX_BITS, ZERO_BITS};
use crate::vector::{Ray, Vec3};

verus! {

/// The number of bounces after which a path is followed no further.
pub const MAX_DEPTH: i32 = 50;

/// The bit pattern of `0.001`, the smallest ray parameter at which a hit
/// counts: nearer hits are the surface that the ray has just left.
pub const NEAR_BITS: u32 = 0x3a83_126fu32;

/// The lower end of the range in which hits are looked for.
pub open spec fn near() -> Scalar {
    Scalar { bits: NEAR_BITS }
}

/// The upper end of the range in which hits are looked for.
pub open spec fn far() -> Scalar {
    Scalar { bits: MAX_BITS }
}

/// The radiance of a ray that meets nothing.
pub open spec fn black() -> Vec3 {
    Vec3(Scalar { bits: ZERO_BITS }, Scalar { bits: ZERO_BITS }, Scalar { bits: ZERO_BITS })
}

/// What the integrator may return for ray `r` at depth `depth`.
///
/// The ray is intersected with the world between `near()` and `far()`. A ray
/// that meets nothing is black. At a hit, the material's emission is taken.
/// Below the depth limit the material is asked to scatter; where it does, the
/// scattered ray is followed one level deeper, and `blend` combines the
/// emission, the attenuation and what came back. Where the material does not
/// scatter, or the limit is reached, the emission alone is returned.
pub open spec fn traced<
    M,
    W: Fn(&Ray, Scalar, Scalar) -> Option<HitRecord<M>>,
    E: Fn(&HitRecord<M>) -> Vec3,
    S: Fn(&Ray, &HitRecord<M>) -> Option<(Vec3, Ray)>,
    K: Fn(Vec3, Vec3, Vec3) -> Vec3,
>(r: Ray, depth: int, world: &W, emit: &E, scatter: &S, blend: &K, out: Vec3) -> bool
    decreases MAX_DEPTH - depth,
{
    exists|found: Option<HitRecord<M>>| #[trigger]
        call_ensures(world, (&r, near(), far()), found) && match found {
            None => out == black(),
            Some(rec) => exists|emitted: Vec3| #[trigger]
                call_ensures(emit, (&rec,), emitted) && if depth < MAX_DEPTH {
                    exists|bounce: Option<(Vec3, Ray)>| #[trigger]
                        call_ensures(scatter, (&r, &rec), bounce) && match bounce {
                            Some((attenuation, scattered)) => exists|inner: Vec3|
                                traced(scattered, depth + 1, world, emit, scatter, blend, inner)
                                    && #[trigger] call_ensures(
                                    blend,
                                    (emitted, attenuation, inner),
                                    out,
                                ),
                            None => out == emitted,
                        }
                } else {
                    out == emitted
                },
        }
}

/// The radiance that arrives along a ray.
pub fn threaded_color<
    M,
    W: Fn(&Ray, Scalar, Scalar) -> Option<HitRecord<M>>,
    E: Fn(&HitRecord<M>) -> Vec3,
    S: Fn(&Ray, &HitRecord<M>) -> Option<(Vec3, Ray)>,
    K: Fn(Vec3, Vec3, Vec3) -> Vec3,
>(r: &Ray, depth: i32, world: &W, emit: &E, scatter: &S, blend: &K) -> (out: Vec3)
    requires
        forall|ray: Ray, lo: Scalar, hi: Scalar| #[trigger] call_requires(world, (&ray, lo, hi)),
        forall|rec: HitRecord<M>| #[trigger] call_requires(emit, (&rec,)),
        forall|ray: Ray, rec: HitRecord<M>| #[trigger] call_requires(scatter, (&ray, &rec)),
        forall|a: Vec3, b: Vec3, c: Vec3| #[trigger] call_requires(blend, (a, b, c)),
    ensures
        traced(*r, depth as int, world, emit, scatter, blend, out),
    decreases MAX_DEPTH - depth,
{
    let found = world(r, Scalar::from_bits(NEAR_BITS), Scalar::largest());
    let ghost seen = found;
    match found {
        Some(rec) => {
            let emitted = emit(&rec);
            if depth < MAX_DEPTH {
                let bounce = scatter(r, &rec);
                match bounce {
                    Some((attenuation, scattered)) => {
                        let inner = threaded_color(&scattered, depth + 1, world, emit, scatter, blend);
                        let out = blend(emitted, attenuation, inner);
                        proof {
                            assert(traced(scattered, depth + 1, world, emit, scatter, blend, inner));
                            assert(call_ensures(blend, (emitted, attenuation, inner), out));
                            assert(call_ensures(scatter, (r, &rec), bounce));
                            assert(call_ensures(emit, (&rec,), emitted));
                            assert(call_ensures(world, (r, near(), far()), seen));
                        }
                        out
                    },
                    None => {
                        proof {
                            assert(call_ensures(scatter, (r, &rec), bounce));
                            assert(call_ensures(emit, (&rec,), emitted));
                            assert(call_ensures(world, (r, near(), far()), seen));
                        }
                        emitted
                    },
                }
            } else {
                proof {
                    assert(call_ensures(emit, (&rec,), emitted));
                    assert(call_ensures(world, (r, near(), far()), seen));
                }
                emitted
            }
        },
        None => {
            proof {
                assert(call_ensures(world, (r, near(), far()), seen));
            }
            Vec3::new(Scalar::zero(), Scalar::zero(), Scalar::zero())
        },
    }
}

/// Light without a bounce: where no material scatters, a ray that meets a
/// surface returns what that surface emits there, unchanged, and a ray that
/// meets nothing returns black.
pub proof fn lemma_unscattered_light_is_emitted<
    M,
    W: Fn(&Ray, Scalar, Scalar) -> Option<HitRecord<M>>,
    E: Fn(&HitRecord<M>) -> Vec3,
    S: Fn(&Ray, &HitRecord<M>) -> Option<(Vec3, Ray)>,
    K: Fn(Vec3, Vec3, Vec3) -> Vec3,
>(r: Ray, depth: int, world: &W, emit: &E, scatter: &S, blend: &K, out: Vec3)
    requires
        forall|ray: Ray, rec: HitRecord<M>, bounce: Option<(Vec3, Ray)>| #[trigger]
            call_ensures(scatter, (&ray, &rec), bounce) ==> bounce is None,
        traced(r, depth, world, emit, scatter, blend, out),
    ensures
        exists|found: Option<HitRecord<M>>| #[trigger]
            call_ensures(world, (&r, near(), far()), found) && match found {
                None => out == black(),
                Some(rec) => call_ensures(emit, (&rec,), out),
            },
{
    let found = choose|found: Option<HitRecord<M>>| #[trigger]
        call_ensures(world, (&r, near(), far()), found) && match found {
            None => out == black(),
            Some(rec) => exists|emitted: Vec3| #[trigger]
                call_ensures(emit, (&rec,), emitted) && if depth < MAX_DEPTH {
                    exists|bounce: Option<(Vec3, Ray)>| #[trigger]
                        call_ensures(scatter, (&r, &rec), bounce) && match bounce {
                            Some((attenuation, scattered)) => exists|inner: Vec3|
                                traced(scattered, depth + 1, world, emit, scatter, blend, inner)
                                    && #[trigger] call_ensures(
                                    blend,
                                    (emitted, attenuation, inner),
                                    out,
                                ),
                            None => out == emitted,
                        }
                } else {
                    out == emitted
                },
        };
    assert(call_ensures(world, (&r, near(), far()), found));
    if let Some(rec) = found {
        let emitted = choose|emitted: Vec3| #[trigger]
            call_ensures(emit, (&rec,), emitted) && if depth < MAX_DEPTH {
                exists|bounce: Option<(Vec3, Ray)>| #[trigger]
                    call_ensures(scatter, (&r, &rec), bounce) && match bounce {
                        Some((attenuation, scattered)) => exists|inner: Vec3|
                            traced(scattered, depth + 1, world, emit, scatter, blend, inner)
                                && #[trigger] call_ensures(blend, (emitted, attenuation, inner), out),
                        None => out == emitted,
                    }
            } else {
                out == emitted
            };
        assert(out == emitted);
    }
}

} // verus!
