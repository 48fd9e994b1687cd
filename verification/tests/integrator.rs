use pathtracer::hit::HitRecord;
use pathtracer::integrator::{threaded_color, MAX_DEPTH};
use pathtracer::material::DiffuseLight;
use pathtracer::scalar::Scalar;
use pathtracer::texture::ConstantTexture;
use pathtracer::vector::{Ray, Vec3};
use std::cell::Cell;

fn integ_scalar(x: f32) -> Scalar {
    Scalar::from_bits(x.to_bits())
}

fn integ_value(s: Scalar) -> f32 {
    f32::from_bits(s.to_bits())
}

fn integ_point(x: f32, y: f32, z: f32) -> Vec3 {
    Vec3::new(integ_scalar(x), integ_scalar(y), integ_scalar(z))
}

fn integ_ray() -> Ray {
    Ray::new(integ_point(0.0, 0.0, 0.0), integ_point(0.0, 0.0, -1.0), integ_scalar(0.0))
}

fn integ_record(mat: usize) -> HitRecord<usize> {
    HitRecord::new(
        integ_scalar(1.0),
        integ_scalar(0.0),
        integ_scalar(0.0),
        integ_point(0.0, 0.0, -1.0),
        integ_point(0.0, 0.0, 1.0),
        mat,
    )
}

fn integ_blend(emitted: Vec3, attenuation: Vec3, inner: Vec3) -> Vec3 {
    let part = |e: Scalar, a: Scalar, i: Scalar| integ_scalar(integ_value(e) + integ_value(a) * integ_value(i));
    Vec3::new(
        part(emitted.0, attenuation.0, inner.0),
        part(emitted.1, attenuation.1, inner.1),
        part(emitted.2, attenuation.2, inner.2),
    )
}

#[test]
fn a_ray_that_meets_nothing_is_black() {
    let out = threaded_color(
        &integ_ray(),
        0,
        &|_r: &Ray, _lo: Scalar, _hi: Scalar| -> Option<HitRecord<usize>> { None },
        &|_rec: &HitRecord<usize>| -> Vec3 { panic!("nothing was hit") },
        &|_r: &Ray, _rec: &HitRecord<usize>| -> Option<(Vec3, Ray)> { panic!("nothing was hit") },
        &integ_blend,
    );
    assert_eq!(out, integ_point(0.0, 0.0, 0.0));
}

#[test]
fn hits_are_looked_for_from_a_little_way_off_to_the_largest_value() {
    let range = Cell::new((0.0f32, 0.0f32));
    threaded_color(
        &integ_ray(),
        0,
        &|_r: &Ray, lo: Scalar, hi: Scalar| -> Option<HitRecord<usize>> {
            range.set((integ_value(lo), integ_value(hi)));
            None
        },
        &|_rec: &HitRecord<usize>| integ_point(0.0, 0.0, 0.0),
        &|_r: &Ray, _rec: &HitRecord<usize>| -> Option<(Vec3, Ray)> { None },
        &integ_blend,
    );
    assert_eq!(range.get(), (0.001, f32::MAX));
}

#[test]
fn a_light_is_seen_at_exactly_its_colour() {
    let light = DiffuseLight::new(ConstantTexture::new(integ_point(4.0, 3.5, 0.1)));
    let blends = Cell::new(0);
    for depth in [0, 1, 49, 50] {
        let out = threaded_color(
            &integ_ray(),
            depth,
            &|_r: &Ray, _lo: Scalar, _hi: Scalar| Some(integ_record(0)),
            &|rec: &HitRecord<usize>| light.emit(rec.u, rec.v, &rec.p),
            &|r: &Ray, rec: &HitRecord<usize>| light.scatter(r, rec),
            &|e: Vec3, a: Vec3, i: Vec3| {
                blends.set(blends.get() + 1);
                integ_blend(e, a, i)
            },
        );
        assert_eq!(out, integ_point(4.0, 3.5, 0.1));
    }
    assert_eq!(blends.get(), 0);
}

#[test]
fn a_path_is_followed_to_the_depth_limit_and_no_further() {
    // every surface emits 1 and scatters with attenuation 1/2
    let probes = Cell::new(0);
    let scatters = Cell::new(0);
    let out = threaded_color(
        &integ_ray(),
        0,
        &|_r: &Ray, _lo: Scalar, _hi: Scalar| {
            probes.set(probes.get() + 1);
            Some(integ_record(0))
        },
        &|_rec: &HitRecord<usize>| integ_point(1.0, 1.0, 1.0),
        &|r: &Ray, _rec: &HitRecord<usize>| {
            scatters.set(scatters.get() + 1);
            Some((integ_point(0.5, 0.5, 0.5), *r))
        },
        &integ_blend,
    );
    assert_eq!(MAX_DEPTH, 50);
    assert_eq!(probes.get(), 51);
    assert_eq!(scatters.get(), 50);
    // 1 + 1/2 + ... + 1/2^50, which a single-precision value rounds to 2
    let mut expected = 1.0f32;
    for _ in 0..50 {
        expected = 1.0 + 0.5 * expected;
    }
    assert_eq!(out, integ_point(expected, expected, expected));
}

#[test]
fn at_the_depth_limit_no_scattering_is_asked_for() {
    for depth in [50, 51, 1000, i32::MAX] {
        let out = threaded_color(
            &integ_ray(),
            depth,
            &|_r: &Ray, _lo: Scalar, _hi: Scalar| Some(integ_record(0)),
            &|_rec: &HitRecord<usize>| integ_point(0.25, 0.5, 0.75),
            &|_r: &Ray, _rec: &HitRecord<usize>| -> Option<(Vec3, Ray)> {
                panic!("scattering at the depth limit")
            },
            &integ_blend,
        );
        assert_eq!(out, integ_point(0.25, 0.5, 0.75));
    }
}

#[test]
fn emission_and_attenuated_light_are_combined() {
    // surface 0 emits nothing and scatters with attenuation (0.5, 0.25, 1); surface 1 is a light
    let bounce = Cell::new(0);
    let out = threaded_color(
        &integ_ray(),
        0,
        &|_r: &Ray, _lo: Scalar, _hi: Scalar| {
            let n = bounce.get();
            bounce.set(n + 1);
            Some(integ_record(if n == 0 { 0 } else { 1 }))
        },
        &|rec: &HitRecord<usize>| {
            if rec.mat == 1 {
                integ_point(8.0, 8.0, 8.0)
            } else {
                integ_point(0.0, 0.0, 0.0)
            }
        },
        &|r: &Ray, rec: &HitRecord<usize>| {
            if rec.mat == 1 {
                None
            } else {
                Some((integ_point(0.5, 0.25, 1.0), *r))
            }
        },
        &integ_blend,
    );
    assert_eq!(out, integ_point(4.0, 2.0, 8.0));
}
