//! Materials: what is fixed of each when it is made, and the choices that
//! scattering takes.

use vstd::prelude::*;
use crate::hit::HitRecord;
use crate::scalar::{Scalar, ONE_BITS};
use crate::texture::ConstantTexture;
use crate::vector::{Ray, Vec3};

verus! {

/// A diffuse surface.
pub struct Lambertian<T> {
    pub albedo: T,
}

/// A mirror, the rougher the larger `fuzz`.
pub struct Metal<T> {
    pub albedo: T,
    pub fuzz: Scalar,
}

/// Glass and the like.
#[derive(Clone, Copy, Debug, PartialEq, Eq, Structural)]
pub struct Dielectric {
    pub ref_idx: Scalar,
}

/// A light.
pub struct DiffuseLight<T> {
    pub emit_tex: T,
}

/// The material of a medium, which scatters in all directions alike.
pub struct Isotropic<T> {
    pub albedo: T,
}

impl<T> Lambertian<T> {
    pub fn new(albedo: T) -> (m: Self)
        ensures
            m.albedo == albedo,
    {
        Lambertian { albedo }
    }
}

impl<T> Isotropic<T> {
    pub fn new(albedo: T) -> (m: Self)
        ensures
            m.albedo == albedo,
    {
        Isotropic { albedo }
    }
}

impl Dielectric {
    pub fn new(ref_idx: Scalar) -> (m: Dielectric)
        ensures
            m.ref_idx == ref_idx,
    {
        Dielectric { ref_idx }
    }

    /// Whether the ray arrives from inside the glass: its direction and the
    /// surface normal make a product above zero.
    pub fn arrives_from_inside(facing: Scalar) -> (inside: bool)
        ensures
            inside == (Scalar { bits: 0 }).less(facing),
    {
        facing.gt(Scalar::zero())
    }

    /// Whether refraction is possible: the discriminant of the refracted
    /// direction lies above zero. Where it does not, all light is reflected.
    pub fn can_refract(discriminant: Scalar) -> (possible: bool)
        ensures
            possible == (Scalar { bits: 0 }).less(discriminant),
    {
        discriminant.gt(Scalar::zero())
    }

    /// Whether a ray is refracted: refraction must be possible, and the
    /// reflectance must lie below the number drawn for this ray.
    pub fn refracts(can_refract: bool, reflect_prob: Scalar, sample: Scalar) -> (through: bool)
        ensures
            through == (can_refract && reflect_prob.less(sample)),
    {
        can_refract && reflect_prob.lt(sample)
    }
}

/// The roughness that a mirror is given: `fuzz` where that is below one, and
/// one otherwise.
pub open spec fn clamped_fuzz(fuzz: Scalar) -> Scalar {
    if fuzz.less(Scalar { bits: ONE_BITS }) {
        fuzz
    } else {
        Scalar { bits: ONE_BITS }
    }
}

impl<T> Metal<T> {
    /// A mirror whose roughness is at most one.
    pub fn new(albedo: T, fuzz: Scalar) -> (m: Self)
        ensures
            m.albedo == albedo,
            m.fuzz == clamped_fuzz(fuzz),
            !m.fuzz.is_nan(),
            m.fuzz.rank() <= ONE_BITS,
    {
        let clamped = if fuzz.lt(Scalar::one()) {
            fuzz
        } else {
            Scalar::one()
        };
        Metal { albedo, fuzz: clamped }
    }

    /// Whether a reflected ray leaves the surface: its direction and the
    /// surface normal make a product above zero. A ray that does not is
    /// absorbed.
    pub fn leaves_surface(&self, facing: Scalar) -> (out: bool)
        ensures
            out == (Scalar { bits: 0 }).less(facing),
    {
        facing.gt(Scalar::zero())
    }
}

impl<T> DiffuseLight<T> {
    pub fn new(emit_tex: T) -> (m: Self)
        ensures
            m.emit_tex == emit_tex,
    {
        DiffuseLight { emit_tex }
    }

    /// A light scatters nothing.
    pub fn scatter<M>(&self, r_in: &Ray, rec: &HitRecord<M>) -> (out: Option<(Vec3, Ray)>)
        ensures
            out is None,
    {
        None
    }
}

impl DiffuseLight<ConstantTexture> {
    /// What a light of one colour emits: that colour, wherever it is hit.
    pub fn emit(&self, u: Scalar, v: Scalar, p: &Vec3) -> (radiance: Vec3)
        ensures
            radiance == self.emit_tex.color,
    {
        self.emit_tex.value(u, v, p)
    }
}

} // verus!
