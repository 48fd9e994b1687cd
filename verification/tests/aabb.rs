use pathtracer::aabb::{bounding_extents, slab_test, surrounding_box, Slab, AABB};
use pathtracer::hit::enclose_all;
use pathtracer::scalar::Scalar;
use pathtracer::vector::{Ray, Vec3};

fn aabb_scalar(x: f32) -> Scalar {
    Scalar::from_bits(x.to_bits())
}

fn aabb_point(x: f32, y: f32, z: f32) -> Vec3 {
    Vec3::new(aabb_scalar(x), aabb_scalar(y), aabb_scalar(z))
}

fn aabb_box(lo: (f32, f32, f32), hi: (f32, f32, f32)) -> AABB {
    AABB::new(&aabb_point(lo.0, lo.1, lo.2), &aabb_point(hi.0, hi.1, hi.2))
}

fn aabb_value(s: Scalar) -> f32 {
    f32::from_bits(s.to_bits())
}

fn aabb_crossings(b: &AABB, origin: (f32, f32, f32), dir: (f32, f32, f32)) -> (Slab, Slab, Slab) {
    let slab = |lo: Scalar, hi: Scalar, o: f32, d: f32| Slab {
        a: aabb_scalar((aabb_value(lo) - o) / d),
        b: aabb_scalar((aabb_value(hi) - o) / d),
    };
    (
        slab(b.min.0, b.max.0, origin.0, dir.0),
        slab(b.min.1, b.max.1, origin.1, dir.1),
        slab(b.min.2, b.max.2, origin.2, dir.2),
    )
}

fn aabb_hit(b: &AABB, origin: (f32, f32, f32), dir: (f32, f32, f32), t_min: f32, t_max: f32) -> bool {
    let (x, y, z) = aabb_crossings(b, origin, dir);
    b.hit(&x, &y, &z, aabb_scalar(t_min), aabb_scalar(t_max))
}

#[test]
fn new_stores_the_corners_as_given() {
    let b = aabb_box((3.0, 2.0, 1.0), (0.0, 0.0, 0.0));
    assert_eq!(b.min, aabb_point(3.0, 2.0, 1.0));
    assert_eq!(b.max, aabb_point(0.0, 0.0, 0.0));
    assert_eq!(b.min.get(0), aabb_scalar(3.0));
    assert_eq!(b.min.get(1), aabb_scalar(2.0));
    assert_eq!(b.min.get(2), aabb_scalar(1.0));
}

#[test]
fn ray_new_stores_its_parts() {
    let r = Ray::new(aabb_point(1.0, 2.0, 3.0), aabb_point(0.0, 0.0, -1.0), aabb_scalar(0.25));
    assert_eq!(r.origin, aabb_point(1.0, 2.0, 3.0));
    assert_eq!(r.direction, aabb_point(0.0, 0.0, -1.0));
    assert_eq!(r.time, aabb_scalar(0.25));
}

#[test]
fn surrounding_box_takes_the_extremes() {
    let a = aabb_box((0.0, -1.0, 2.0), (1.0, 1.0, 3.0));
    let b = aabb_box((-2.0, 0.0, 2.5), (0.5, 4.0, 2.75));
    let s = surrounding_box(&a, &b);
    assert_eq!(s, aabb_box((-2.0, -1.0, 2.0), (1.0, 4.0, 3.0)));
    assert_eq!(surrounding_box(&b, &a), s);
}

#[test]
fn slab_test_hits_a_box_in_front() {
    let b = aabb_box((-1.0, -1.0, -3.0), (1.0, 1.0, -2.0));
    assert!(aabb_hit(&b, (0.0, 0.0, 0.0), (0.0, 0.0, -1.0), 0.001, f32::MAX));
    // the box lies behind the ray
    assert!(!aabb_hit(&b, (0.0, 0.0, 0.0), (0.0, 0.0, 1.0), 0.001, f32::MAX));
    // the ray passes beside the box
    assert!(!aabb_hit(&b, (5.0, 0.0, 0.0), (0.0, 0.0, -1.0), 0.001, f32::MAX));
    // the range ends before the box
    assert!(!aabb_hit(&b, (0.0, 0.0, 0.0), (0.0, 0.0, -1.0), 0.001, 1.5));
    // a skew ray through the box
    assert!(aabb_hit(&b, (0.0, 0.0, 0.0), (0.1, 0.2, -1.0), 0.001, f32::MAX));
}

#[test]
fn slab_test_rejects_a_degenerate_interval() {
    let one = Slab { a: aabb_scalar(1.0), b: aabb_scalar(1.0) };
    let wide = Slab { a: aabb_scalar(-10.0), b: aabb_scalar(10.0) };
    assert!(!slab_test(&one, &wide, &wide, aabb_scalar(0.0), aabb_scalar(5.0)));
    assert!(slab_test(&wide, &wide, &wide, aabb_scalar(0.0), aabb_scalar(5.0)));
    // a range whose ends meet is given up too
    assert!(!slab_test(&wide, &wide, &wide, aabb_scalar(5.0), aabb_scalar(5.0)));
}

#[test]
fn slab_test_lets_a_pair_of_not_a_number_crossings_pass() {
    // a ray in the plane of a flat box, parallel to it: both crossings are 0/0
    let nan = Slab { a: aabb_scalar(f32::NAN), b: aabb_scalar(f32::NAN) };
    let wide = Slab { a: aabb_scalar(-10.0), b: aabb_scalar(10.0) };
    assert!(slab_test(&nan, &wide, &wide, aabb_scalar(0.0), aabb_scalar(5.0)));
    // one crossing not a number and the other infinite: the ray is rejected
    let half = Slab { a: aabb_scalar(f32::NAN), b: aabb_scalar(f32::INFINITY) };
    assert!(!slab_test(&half, &wide, &wide, aabb_scalar(0.0), aabb_scalar(5.0)));
}

#[test]
fn slab_test_handles_a_ray_parallel_to_an_axis() {
    let b = aabb_box((-1.0, -1.0, -3.0), (1.0, 1.0, -2.0));
    // direction has two zero components: crossings are infinite there
    assert!(aabb_hit(&b, (0.5, 0.5, 0.0), (0.0, 0.0, -1.0), 0.001, f32::MAX));
    assert!(!aabb_hit(&b, (1.5, 0.5, 0.0), (0.0, 0.0, -1.0), 0.001, f32::MAX));
}

#[test]
fn surrounding_box_is_hit_where_either_box_is() {
    let boxes = [
        aabb_box((-1.0, -1.0, -3.0), (1.0, 1.0, -2.0)),
        aabb_box((2.0, 2.0, -6.0), (3.0, 4.0, -5.0)),
        aabb_box((-4.0, 0.0, 1.0), (-3.0, 0.5, 2.0)),
    ];
    let dirs = [
        (0.0, 0.0, -1.0),
        (0.4, 0.5, -1.0),
        (-1.0, 0.1, 0.4),
        (1.0, 1.0, 1.0),
        (0.3, -0.2, -0.9),
        (-0.7, 0.05, 0.3),
    ];
    let mut seen_hit = false;
    for a in boxes.iter() {
        for b in boxes.iter() {
            let s = surrounding_box(a, b);
            for d in dirs.iter() {
                let either = aabb_hit(a, (0.0, 0.0, 0.0), *d, 0.001, f32::MAX)
                    || aabb_hit(b, (0.0, 0.0, 0.0), *d, 0.001, f32::MAX);
                if either {
                    seen_hit = true;
                    assert!(aabb_hit(&s, (0.0, 0.0, 0.0), *d, 0.001, f32::MAX));
                }
            }
        }
    }
    assert!(seen_hit);
}

#[test]
fn bounding_extents_of_points() {
    let points = vec![
        aabb_point(1.0, 5.0, -1.0),
        aabb_point(-2.0, 3.0, 0.0),
        aabb_point(0.0, 9.0, -4.0),
    ];
    assert_eq!(bounding_extents(&points), aabb_box((-2.0, 3.0, -4.0), (1.0, 9.0, 0.0)));
}

#[test]
fn bounding_extents_of_nothing_is_the_inverted_box() {
    let b = bounding_extents(&Vec::new());
    let max = f32::MAX;
    let min = f32::MIN;
    assert_eq!(b, aabb_box((max, max, max), (min, min, min)));
}

#[test]
fn enclose_all_needs_every_box() {
    let a = aabb_box((0.0, 0.0, 0.0), (1.0, 1.0, 1.0));
    let b = aabb_box((-1.0, 2.0, 0.5), (0.5, 3.0, 4.0));
    assert_eq!(enclose_all(&vec![]), None);
    assert_eq!(enclose_all(&vec![Some(a)]), Some(a));
    assert_eq!(enclose_all(&vec![None]), None);
    assert_eq!(enclose_all(&vec![Some(a), None]), None);
    assert_eq!(enclose_all(&vec![None, Some(a)]), None);
    assert_eq!(
        enclose_all(&vec![Some(a), Some(b)]),
        Some(aabb_box((-1.0, 0.0, 0.0), (1.0, 3.0, 4.0)))
    );
}

#[test]
fn ray_in_the_plane_of_a_flat_box_can_miss_the_box_around_it() {
    // a box without thickness along x, and a ray that runs inside its plane:
    // both crossings along x are 0/0, and the test lets them pass
    let flat = aabb_box((0.0, 0.0, 0.0), (0.0, 1.0, 1.0));
    let cube = aabb_box((0.0, 0.0, 0.0), (1.0, 1.0, 1.0));
    let (origin, dir) = ((0.0, 0.5, -1.0), (0.0, 0.0, 1.0));
    assert!(aabb_hit(&flat, origin, dir, 0.001, f32::MAX));
    // around both boxes, one crossing is 0/0 and the other infinite: rejected
    let around = surrounding_box(&flat, &cube);
    assert_eq!(around, cube);
    assert!(!aabb_hit(&around, origin, dir, 0.001, f32::MAX));
}

#[test]
fn box_with_its_low_corner_above_its_high_corner_is_never_hit() {
    let inverted = aabb_box((1.0, 1.0, 1.0), (-1.0, -1.0, -1.0));
    let (origin, dir) = ((-5.0, -5.0, -5.0), (1.0, 1.0, 1.0));
    // the crossings are 6 and 4 on each axis, and the slab test alone would pass
    let (x, y, z) = aabb_crossings(&inverted, origin, dir);
    assert!(slab_test(&x, &y, &z, aabb_scalar(0.0), aabb_scalar(f32::MAX)));
    assert!(!aabb_hit(&inverted, origin, dir, 0.0, f32::MAX));
    // the same box the right way round is hit
    let upright = aabb_box((-1.0, -1.0, -1.0), (1.0, 1.0, 1.0));
    assert!(aabb_hit(&upright, origin, dir, 0.0, f32::MAX));
    // one axis the wrong way round is enough
    let twisted = aabb_box((-1.0, 1.0, -1.0), (1.0, -1.0, 1.0));
    assert!(!aabb_hit(&twisted, origin, dir, 0.0, f32::MAX));
    // and so is a corner that is no number
    let broken = aabb_box((-1.0, f32::NAN, -1.0), (1.0, 1.0, 1.0));
    assert!(!aabb_hit(&broken, origin, dir, 0.0, f32::MAX));
    // the box before any point has been taken in is hit by nothing
    assert!(!aabb_hit(&bounding_extents(&Vec::new()), origin, dir, 0.0, f32::MAX));
}

#[test]
fn ray_along_an_axis_hits_the_box_around_a_box_that_it_hits() {
    // rays with two zero components, from inside, beside and on the planes of the boxes
    let boxes = [
        aabb_box((-1.0, -1.0, -3.0), (1.0, 1.0, -2.0)),
        aabb_box((0.0, 0.0, -6.0), (3.0, 4.0, -5.0)),
        aabb_box((-4.0, 0.0, -9.0), (1.0, 0.5, -8.0)),
        aabb_box((0.5, -2.0, -1.5), (0.5, 3.0, -1.0)),
    ];
    let origins = [(0.0, 0.0, 0.0), (0.5, 0.5, 0.0), (1.0, 1.0, 0.0), (-1.0, 0.0, 0.0), (3.0, 4.0, 1.0)];
    let dirs = [(0.0, 0.0, -1.0), (0.0, -0.0, -1.0), (-0.0, 0.0, -2.0)];
    let mut seen = 0;
    for a in boxes.iter() {
        for b in boxes.iter() {
            let around = surrounding_box(a, b);
            for &o in origins.iter() {
                for &d in dirs.iter() {
                    // a flat box that holds the ray is what the law leaves out
                    let flat = (a.min.0 == a.max.0 && aabb_value(a.min.0) == o.0)
                        || (a.min.1 == a.max.1 && aabb_value(a.min.1) == o.1);
                    if !flat && aabb_hit(a, o, d, 0.001, f32::MAX) {
                        seen += 1;
                        assert!(aabb_hit(&around, o, d, 0.001, f32::MAX));
                    }
                }
            }
        }
    }
    assert!(seen > 10);
}
