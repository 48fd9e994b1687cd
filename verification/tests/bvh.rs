use pathtracer::aabb::{surrounding_box, Slab, AABB};
use pathtracer::bvh_node::{halve_along, BVHNode, BvhChild};
use pathtracer::hit::{nearer, HitRecord, HittableList};
use pathtracer::scalar::Scalar;
use pathtracer::vector::{Ray, Vec3};

fn bvh_scalar(x: f32) -> Scalar {
    Scalar::from_bits(x.to_bits())
}

fn bvh_value(s: Scalar) -> f32 {
    f32::from_bits(s.to_bits())
}

fn bvh_point(x: f32, y: f32, z: f32) -> Vec3 {
    Vec3::new(bvh_scalar(x), bvh_scalar(y), bvh_scalar(z))
}

fn bvh_coords(v: &Vec3) -> [f32; 3] {
    [bvh_value(v.0), bvh_value(v.1), bvh_value(v.2)]
}

/// Spheres of a small scene: centre and radius.
fn bvh_spheres() -> Vec<([f32; 3], f32)> {
    vec![
        ([0.0, 0.0, -1.0], 0.5),
        ([0.0, -100.5, -1.0], 100.0),
        ([1.0, 0.0, -1.0], 0.5),
        ([-1.0, 0.0, -1.0], 0.5),
        ([0.3, 0.4, -2.5], 0.7),
        ([-2.0, 1.0, -4.0], 1.0),
        ([2.5, 0.5, -3.0], 0.25),
    ]
}

fn bvh_boxes(spheres: &[([f32; 3], f32)]) -> Vec<AABB> {
    spheres
        .iter()
        .map(|(c, r)| {
            AABB::new(&bvh_point(c[0] - r, c[1] - r, c[2] - r), &bvh_point(c[0] + r, c[1] + r, c[2] + r))
        })
        .collect()
}

fn bvh_sphere_hit(
    sphere: &([f32; 3], f32),
    id: usize,
    r: &Ray,
    t_min: Scalar,
    t_max: Scalar,
) -> Option<HitRecord<usize>> {
    let (o, d) = (bvh_coords(&r.origin), bvh_coords(&r.direction));
    let (c, radius) = (sphere.0, sphere.1);
    let oc = [o[0] - c[0], o[1] - c[1], o[2] - c[2]];
    let dot = |a: [f32; 3], b: [f32; 3]| a[0] * b[0] + a[1] * b[1] + a[2] * b[2];
    let a = dot(d, d);
    let b = dot(oc, d);
    let cc = dot(oc, oc) - radius * radius;
    let disc = b * b - a * cc;
    let smaller = (-b - disc.sqrt()) / a;
    let larger = (-b + disc.sqrt()) / a;
    let t = pathtracer::sphere::pick_root(
        bvh_scalar(disc),
        bvh_scalar(smaller),
        bvh_scalar(larger),
        t_min,
        t_max,
    )?;
    let tv = bvh_value(t);
    let p = [o[0] + tv * d[0], o[1] + tv * d[1], o[2] + tv * d[2]];
    let n = [(p[0] - c[0]) / radius, (p[1] - c[1]) / radius, (p[2] - c[2]) / radius];
    Some(HitRecord::new(
        t,
        bvh_scalar(0.0),
        bvh_scalar(0.0),
        bvh_point(p[0], p[1], p[2]),
        bvh_point(n[0], n[1], n[2]),
        id,
    ))
}

fn bvh_crossings(b: &AABB, r: &Ray) -> (Slab, Slab, Slab) {
    let (o, d) = (bvh_coords(&r.origin), bvh_coords(&r.direction));
    let (lo, hi) = (bvh_coords(&b.min), bvh_coords(&b.max));
    let slab = |k: usize| Slab {
        a: bvh_scalar((lo[k] - o[k]) / d[k]),
        b: bvh_scalar((hi[k] - o[k]) / d[k]),
    };
    (slab(0), slab(1), slab(2))
}

fn bvh_leaves(node: &BVHNode, out: &mut Vec<usize>) {
    for child in [&node.left, &node.right] {
        match child {
            BvhChild::Shape(id) => out.push(*id),
            BvhChild::Node(inner) => bvh_leaves(inner, out),
        }
    }
}

fn bvh_check_boxes(node: &BVHNode, boxes: &Vec<AABB>) {
    for child in [&node.left, &node.right] {
        if let BvhChild::Node(inner) = child {
            bvh_check_boxes(inner, boxes);
        }
    }
    let expected = surrounding_box(&node.left.bounding_box(boxes), &node.right.bounding_box(boxes));
    assert_eq!(node.bbox, expected);
    assert_eq!(node.bounding_box(), expected);
}

#[test]
fn hierarchy_over_one_shape_names_it_twice() {
    let boxes = bvh_boxes(&bvh_spheres()[..1]);
    let node = BVHNode::new(&boxes);
    assert!(matches!(node.left, BvhChild::Shape(0)));
    assert!(matches!(node.right, BvhChild::Shape(0)));
    assert_eq!(node.bbox, boxes[0]);
}

#[test]
fn hierarchy_over_two_shapes_holds_both_in_order() {
    let boxes = bvh_boxes(&bvh_spheres()[2..4]);
    for _ in 0..20 {
        let node = BVHNode::new(&boxes);
        let mut leaves = Vec::new();
        bvh_leaves(&node, &mut leaves);
        leaves.sort();
        assert_eq!(leaves, vec![0, 1]);
        assert_eq!(node.bbox, surrounding_box(&boxes[0], &boxes[1]));
    }
}

#[test]
fn hierarchy_holds_every_shape_and_boxes_its_children() {
    let boxes = bvh_boxes(&bvh_spheres());
    for _ in 0..20 {
        let node = BVHNode::new(&boxes);
        let mut leaves = Vec::new();
        bvh_leaves(&node, &mut leaves);
        leaves.sort();
        leaves.dedup();
        assert_eq!(leaves, (0..boxes.len()).collect::<Vec<usize>>());
        bvh_check_boxes(&node, &boxes);
    }
}

#[test]
fn halve_along_orders_by_the_low_corner() {
    let boxes = bvh_boxes(&bvh_spheres());
    // low corners along x: -0.5, -100, 0.5, -1.5, -0.4, -3, 2.25
    let (first, second) = halve_along(vec![0, 1, 2, 3, 4, 5, 6], &boxes, 0);
    assert_eq!(first, vec![1, 5, 3]);
    assert_eq!(second, vec![0, 4, 2, 6]);
    // along z: -1.5, -101, -1.5, -1.5, -3.2, -5, -3.25
    let (first, second) = halve_along(vec![6, 5, 4, 1], &boxes, 2);
    assert_eq!(first, vec![1, 5]);
    assert_eq!(second, vec![6, 4]);
    // shapes 0, 2 and 3 are equal along z: they keep their order
    let (first, second) = halve_along(vec![3, 0, 2], &boxes, 2);
    assert_eq!((first, second), (vec![3], vec![0, 2]));
    let (first, second) = halve_along(vec![2, 4, 3, 0], &boxes, 2);
    assert_eq!((first, second), (vec![4, 2], vec![3, 0]));
    let (first, second) = halve_along(vec![3], &boxes, 1);
    assert_eq!(first, Vec::<usize>::new());
    assert_eq!(second, vec![3]);
}

#[test]
fn nearer_prefers_the_smaller_parameter() {
    let rec = |t: f32, id: usize| {
        HitRecord::new(
            bvh_scalar(t),
            bvh_scalar(0.0),
            bvh_scalar(0.0),
            bvh_point(0.0, 0.0, 0.0),
            bvh_point(0.0, 0.0, 1.0),
            id,
        )
    };
    assert_eq!(nearer(Some(rec(1.0, 1)), Some(rec(2.0, 2))).map(|h| h.mat), Some(1));
    assert_eq!(nearer(Some(rec(3.0, 1)), Some(rec(2.0, 2))).map(|h| h.mat), Some(2));
    // at the same parameter the right one is taken
    assert_eq!(nearer(Some(rec(2.0, 1)), Some(rec(2.0, 2))).map(|h| h.mat), Some(2));
    assert_eq!(nearer(Some(rec(1.0, 1)), None).map(|h| h.mat), Some(1));
    assert_eq!(nearer(None, Some(rec(2.0, 2))).map(|h| h.mat), Some(2));
    assert_eq!(nearer::<usize>(None, None).map(|h| h.mat), None);
}

#[test]
fn traversal_agrees_with_a_scan_of_all_shapes() {
    let spheres = bvh_spheres();
    let boxes = bvh_boxes(&spheres);
    let mut list: HittableList<usize> = HittableList::new();
    for id in 0..spheres.len() {
        list.push(id);
    }
    assert_eq!(list.size, spheres.len());
    let (t_min, t_max) = (bvh_scalar(0.001), bvh_scalar(f32::MAX));
    let mut hits = 0;
    let mut misses = 0;
    for round in 0..5 {
        let node = BVHNode::new(&boxes);
        for i in 0..40 {
            for j in 0..20 {
                let dir = bvh_point(
                    -2.0 + 0.1 * (i as f32) + 0.013 * (round as f32),
                    -1.0 + 0.1 * (j as f32),
                    -1.0,
                );
                let ray = Ray::new(bvh_point(0.0, 0.0, 0.0), dir, bvh_scalar(0.0));
                let by_tree = node.hit(
                    &ray,
                    t_min,
                    t_max,
                    &|b: &AABB, r: &Ray| bvh_crossings(b, r),
                    &|id: usize, r: &Ray, lo: Scalar, hi: Scalar| {
                        bvh_sphere_hit(&spheres[id], id, r, lo, hi)
                    },
                );
                let by_scan = list.hit(
                    &ray,
                    t_min,
                    t_max,
                    &|id: &usize, r: &Ray, lo: Scalar, hi: Scalar| {
                        bvh_sphere_hit(&spheres[*id], *id, r, lo, hi)
                    },
                );
                match (by_tree, by_scan) {
                    (None, None) => misses += 1,
                    (Some(a), Some(b)) => {
                        hits += 1;
                        assert_eq!(a.t, b.t);
                    },
                    (a, b) => panic!(
                        "tree {:?}, scan {:?}",
                        a.map(|h| h.mat),
                        b.map(|h| h.mat)
                    ),
                }
            }
        }
    }
    assert!(hits > 0 && misses > 0);
}

#[test]
fn traversal_tests_both_children_once_the_box_is_hit() {
    let spheres = bvh_spheres();
    let boxes = bvh_boxes(&spheres[..2]);
    let node = BVHNode::new(&boxes);
    let probed = std::cell::RefCell::new(Vec::new());
    let ray = Ray::new(bvh_point(0.0, 0.0, 0.0), bvh_point(0.0, 0.0, -1.0), bvh_scalar(0.0));
    let out = node.hit(
        &ray,
        bvh_scalar(0.001),
        bvh_scalar(f32::MAX),
        &|b: &AABB, r: &Ray| bvh_crossings(b, r),
        &|id: usize, r: &Ray, lo: Scalar, hi: Scalar| {
            probed.borrow_mut().push(id);
            bvh_sphere_hit(&spheres[id], id, r, lo, hi)
        },
    );
    assert_eq!(out.map(|h| (h.mat, h.t)), Some((0, bvh_scalar(0.5))));
    let mut seen = probed.into_inner();
    seen.sort();
    assert_eq!(seen, vec![0, 1]);
}

#[test]
fn traversal_probes_no_shape_once_the_box_is_missed() {
    let spheres = bvh_spheres();
    let boxes = bvh_boxes(&spheres[2..4]);
    let node = BVHNode::new(&boxes);
    let ray = Ray::new(bvh_point(0.0, 0.0, 0.0), bvh_point(0.0, 1.0, 0.0), bvh_scalar(0.0));
    let out = node.hit(
        &ray,
        bvh_scalar(0.001),
        bvh_scalar(f32::MAX),
        &|b: &AABB, r: &Ray| bvh_crossings(b, r),
        &|_id: usize, _r: &Ray, _lo: Scalar, _hi: Scalar| -> Option<HitRecord<usize>> {
            panic!("a shape was probed behind a box that the ray misses")
        },
    );
    assert!(out.is_none());
}

#[test]
fn list_scan_lowers_the_bound_with_every_hit() {
    let mut list: HittableList<f32> = HittableList::new();
    for t in [5.0f32, 7.0, 3.0, 4.0, 1.0, 2.0] {
        list.push(t);
    }
    let bounds = std::cell::RefCell::new(Vec::new());
    let ray = Ray::new(bvh_point(0.0, 0.0, 0.0), bvh_point(0.0, 0.0, -1.0), bvh_scalar(0.0));
    let out = list.hit(
        &ray,
        bvh_scalar(0.001),
        bvh_scalar(6.0),
        &|t: &f32, _r: &Ray, lo: Scalar, hi: Scalar| {
            bounds.borrow_mut().push(bvh_value(hi));
            if bvh_scalar(*t).is_strictly_between(lo, hi) {
                Some(HitRecord::new(
                    bvh_scalar(*t),
                    bvh_scalar(0.0),
                    bvh_scalar(0.0),
                    bvh_point(0.0, 0.0, 0.0),
                    bvh_point(0.0, 0.0, 1.0),
                    *t as usize,
                ))
            } else {
                None
            }
        },
    );
    assert_eq!(out.map(|h| h.mat), Some(1));
    assert_eq!(bounds.into_inner(), vec![6.0, 5.0, 5.0, 3.0, 3.0, 1.0]);
}

#[test]
fn list_scan_of_nothing_misses() {
    let list: HittableList<usize> = HittableList::new();
    let ray = Ray::new(bvh_point(0.0, 0.0, 0.0), bvh_point(0.0, 0.0, -1.0), bvh_scalar(0.0));
    let out = list.hit(
        &ray,
        bvh_scalar(0.001),
        bvh_scalar(6.0),
        &|_s: &usize, _r: &Ray, _lo: Scalar, _hi: Scalar| -> Option<HitRecord<usize>> { None },
    );
    assert!(out.is_none());
}

#[test]
fn traversal_passes_by_a_node_whose_box_is_the_wrong_way_round() {
    let boxes = bvh_boxes(&bvh_spheres()[..1]);
    let mut node = BVHNode::new(&boxes);
    let ray = Ray::new(bvh_point(0.0, 0.0, 0.0), bvh_point(0.0, 0.0, -1.0), bvh_scalar(0.0));
    let probe = |id: usize, r: &Ray, lo: Scalar, hi: Scalar| bvh_sphere_hit(&bvh_spheres()[id], id, r, lo, hi);
    let cross = |b: &AABB, r: &Ray| bvh_crossings(b, r);
    assert!(node.hit(&ray, bvh_scalar(0.001), bvh_scalar(f32::MAX), &cross, &probe).is_some());
    node.bbox = AABB::new(&node.bbox.max, &node.bbox.min);
    assert!(node.hit(&ray, bvh_scalar(0.001), bvh_scalar(f32::MAX), &cross, &probe).is_none());
}
