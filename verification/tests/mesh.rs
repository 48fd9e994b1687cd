use pathtracer::aabb::AABB;
use pathtracer::scalar::Scalar;
use pathtracer::scene::{
    face_corners, face_fragment_in, fields, line_kind, parse_face_fragment, parse_unsigned,
    LineKind,
};
use pathtracer::triangle::{Triangle, TriangleMesh};
use pathtracer::vector::Vec3;

fn mesh_point(x: f32, y: f32, z: f32) -> Vec3 {
    Vec3::new(
        Scalar::from_bits(x.to_bits()),
        Scalar::from_bits(y.to_bits()),
        Scalar::from_bits(z.to_bits()),
    )
}

fn mesh_square() -> TriangleMesh {
    let vertices = vec![
        mesh_point(0.0, 0.0, 0.0),
        mesh_point(1.0, 0.0, 0.0),
        mesh_point(1.0, 1.0, -2.0),
        mesh_point(0.0, 1.0, 0.5),
    ];
    let normals = vec![mesh_point(0.0, 0.0, 1.0), mesh_point(0.0, 1.0, 0.0)];
    TriangleMesh::new(2, vertices, normals, vec![1, 2, 3, 1, 3, 4], vec![1, 1, 1, 2, 2, 2])
}

#[test]
fn face_fragment_of_one_number_names_vertex_and_normal() {
    assert_eq!(parse_face_fragment("7"), Some((7, 0, 7)));
    assert_eq!(parse_face_fragment("0"), Some((0, 0, 0)));
    assert_eq!(parse_face_fragment("+12"), Some((12, 0, 12)));
    assert_eq!(parse_face_fragment("007"), Some((7, 0, 7)));
}

#[test]
fn face_fragment_of_three_parts() {
    assert_eq!(parse_face_fragment("1/2/3"), Some((1, 2, 3)));
    assert_eq!(parse_face_fragment("10/20/30"), Some((10, 20, 30)));
    assert_eq!(parse_face_fragment("4//6"), Some((4, 0, 6)));
    assert_eq!(parse_face_fragment("4/x/6"), Some((4, 0, 6)));
    assert_eq!(parse_face_fragment("4/-1/6"), Some((4, 0, 6)));
}

#[test]
fn face_fragment_of_another_shape_is_none() {
    assert_eq!(parse_face_fragment(""), None);
    assert_eq!(parse_face_fragment("a"), None);
    assert_eq!(parse_face_fragment("-1"), None);
    assert_eq!(parse_face_fragment("+"), None);
    assert_eq!(parse_face_fragment("1/2"), None);
    assert_eq!(parse_face_fragment("1/2/3/4"), None);
    assert_eq!(parse_face_fragment("/2/3"), None);
    assert_eq!(parse_face_fragment("1/2/"), None);
    assert_eq!(parse_face_fragment("1 "), None);
    assert_eq!(parse_face_fragment("1.5"), None);
    assert_eq!(parse_face_fragment("١"), None);
}

#[test]
fn numbers_agree_with_the_standard_reading() {
    let texts = [
        "0", "1", "42", "+42", "-42", "", "+", "-", "4 2", " 42", "42 ", "0042", "4_2", "0x10",
        "18446744073709551615", "18446744073709551616", "99999999999999999999999", "1e3",
        "+0", "++1", "4294967295", "4294967296",
    ];
    for text in texts.iter() {
        let bytes = text.as_bytes();
        assert_eq!(parse_unsigned(bytes, 0, bytes.len()), text.parse::<usize>().ok(), "{:?}", text);
    }
}

#[test]
fn numbers_are_read_from_the_range_given() {
    let bytes = "ab123cd".as_bytes();
    assert_eq!(parse_unsigned(bytes, 2, 5), Some(123));
    assert_eq!(parse_unsigned(bytes, 2, 4), Some(12));
    assert_eq!(parse_unsigned(bytes, 1, 5), None);
    assert_eq!(parse_unsigned(bytes, 3, 3), None);
    assert_eq!(face_fragment_in("f 1/2/3 4".as_bytes(), 2, 7), Some((1, 2, 3)));
}

#[test]
fn line_kinds_go_by_the_first_two_bytes() {
    assert_eq!(line_kind("v 1.0 2.0 3.0"), LineKind::Vertex);
    assert_eq!(line_kind("vn 0.0 1.0 0.0"), LineKind::Normal);
    assert_eq!(line_kind("vnx"), LineKind::Normal);
    assert_eq!(line_kind("f 1 2 3"), LineKind::Face);
    assert_eq!(line_kind("vt 0.5 0.5"), LineKind::Other);
    assert_eq!(line_kind("# comment"), LineKind::Other);
    assert_eq!(line_kind(""), LineKind::Other);
    assert_eq!(line_kind("v"), LineKind::Other);
    assert_eq!(line_kind("f"), LineKind::Other);
    assert_eq!(line_kind(" v 1 2 3"), LineKind::Other);
}

#[test]
fn fields_are_what_follows_the_keyword() {
    assert_eq!(fields("f 1 2 3".as_bytes()), vec![(2, 3), (4, 5), (6, 7)]);
    assert_eq!(fields("v  1.5   -2 ".as_bytes()), vec![(3, 6), (9, 11)]);
    assert_eq!(fields("f".as_bytes()), vec![]);
    assert_eq!(fields("".as_bytes()), vec![]);
    assert_eq!(fields("f ".as_bytes()), vec![]);
    assert_eq!(fields(" a b".as_bytes()), vec![(1, 2), (3, 4)]);
    // fields agree with splitting at spaces, passing over the first piece and empty ones
    for line in ["f 1/2/3 4/5/6  7/8/9", "v 1 2 3", "x", "  ", "vn  0 1 0 ", "f 1//2\t3"].iter() {
        let expected: Vec<&str> = line.split(" ").skip(1).filter(|p| !p.is_empty()).collect();
        let found: Vec<&str> = fields(line.as_bytes()).iter().map(|&(a, b)| &line[a..b]).collect();
        assert_eq!(found, expected);
    }
}

#[test]
fn face_corners_of_a_line() {
    assert_eq!(face_corners("f 1 2 3"), Some(vec![(1, 0, 1), (2, 0, 2), (3, 0, 3)]));
    assert_eq!(
        face_corners("f 1/2/3  4//6 7/8/9"),
        Some(vec![(1, 2, 3), (4, 0, 6), (7, 8, 9)])
    );
    assert_eq!(face_corners("f"), Some(vec![]));
    assert_eq!(face_corners("f 1 2 x"), None);
    assert_eq!(face_corners("f 1/2 3 4"), None);
}

#[test]
fn mesh_gives_its_triangles_in_order_counted_from_zero() {
    let mesh = mesh_square();
    assert!(mesh.is_complete());
    let mut it = mesh.iter();
    let first = it.next().unwrap();
    assert_eq!(first.v_index, [0, 1, 2]);
    assert_eq!(first.n_index, [0, 0, 0]);
    let second = it.next().unwrap();
    assert_eq!(second.v_index, [0, 2, 3]);
    assert_eq!(second.n_index, [1, 1, 1]);
    assert!(it.next().is_none());
    assert!(it.next().is_none());
    assert_eq!(it.cnt, 2);
}

#[test]
fn mesh_with_an_index_out_of_its_tables_is_not_complete() {
    let mut mesh = mesh_square();
    mesh.v_index[4] = 0;
    assert!(!mesh.is_complete());
    let mut mesh = mesh_square();
    mesh.v_index[4] = 5;
    assert!(!mesh.is_complete());
    let mut mesh = mesh_square();
    mesh.n_index[0] = 3;
    assert!(!mesh.is_complete());
    let mut mesh = mesh_square();
    mesh.n_triangles = 3;
    assert!(!mesh.is_complete());
    let mut mesh = mesh_square();
    mesh.n_triangles = usize::MAX;
    assert!(!mesh.is_complete());
    let mut mesh = mesh_square();
    mesh.n_index.pop();
    assert!(!mesh.is_complete());
    // what is listed beyond the last triangle is not looked at
    let mut mesh = mesh_square();
    mesh.v_index.push(0);
    mesh.n_index.push(77);
    assert!(mesh.is_complete());
    mesh.n_triangles = 1;
    mesh.v_index[5] = 99;
    assert!(mesh.is_complete());
    let mut it = mesh.iter();
    assert_eq!(it.next().map(|t| t.v_index), Some([0, 1, 2]));
    assert!(it.next().is_none());
}

#[test]
fn mesh_takes_in_face_entries() {
    let mut mesh = TriangleMesh::new(0, vec![], vec![], vec![], vec![]);
    mesh.add_face(&face_corners("f 1/9/4 2/9/5 3/9/6").unwrap());
    mesh.add_face(&face_corners("f 7 8 9").unwrap());
    assert_eq!(mesh.n_triangles, 2);
    assert_eq!(mesh.v_index, vec![1, 2, 3, 7, 8, 9]);
    assert_eq!(mesh.n_index, vec![4, 5, 6, 7, 8, 9]);
}

#[test]
fn triangle_box_spans_its_corners() {
    let mesh = mesh_square();
    let t = Triangle::new(0, 2, 3, 0, 0, 0);
    let bare = AABB::new(&mesh_point(0.0, 0.0, -2.0), &mesh_point(1.0, 1.0, 0.5));
    assert_eq!(t.extent(&mesh.vertices), bare);
    // the corners differ along every axis: the pad is not used
    let padded = AABB::new(&mesh_point(-9.0, -9.0, -9.0), &mesh_point(9.0, 9.0, 9.0));
    assert_eq!(t.bounding_box(&mesh.vertices, &padded), bare);
}

fn mesh_flat() -> (Triangle, Vec<Vec3>) {
    (
        Triangle::new(0, 1, 2, 0, 0, 0),
        vec![mesh_point(0.0, 0.0, 0.0), mesh_point(1.0, 0.0, 0.0), mesh_point(0.0, 1.0, 0.0)],
    )
}

#[test]
fn flat_triangle_gets_a_box_with_thickness() {
    let (t, vertices) = mesh_flat();
    assert_eq!(
        t.extent(&vertices),
        AABB::new(&mesh_point(0.0, 0.0, 0.0), &mesh_point(1.0, 1.0, 0.0))
    );
    let padded = AABB::new(&mesh_point(-0.0001, -0.0001, -0.0001), &mesh_point(1.0001, 1.0001, 0.0001));
    assert_eq!(
        t.bounding_box(&vertices, &padded),
        AABB::new(&mesh_point(0.0, 0.0, -0.0001), &mesh_point(1.0, 1.0, 0.0001))
    );
}

#[test]
fn flat_triangle_with_a_pad_that_does_not_count_reaches_to_the_neighbouring_values() {
    let (t, vertices) = mesh_flat();
    let s = |bits: u32| Scalar::from_bits(bits);
    let expected = AABB::new(
        &Vec3::new(s(0), s(0), s(0x8000_0001)),
        &Vec3::new(s(1.0f32.to_bits()), s(1.0f32.to_bits()), s(1)),
    );
    for pad in [
        AABB::new(&mesh_point(0.0, 0.0, 0.0), &mesh_point(1.0, 1.0, 0.0)),
        AABB::new(&mesh_point(0.0, 0.0, -1.0), &mesh_point(1.0, 1.0, 0.0)),
        AABB::new(&mesh_point(0.0, 0.0, 0.0), &mesh_point(1.0, 1.0, 1.0)),
        AABB::new(&mesh_point(0.0, 0.0, 1.0), &mesh_point(1.0, 1.0, -1.0)),
        AABB::new(&mesh_point(0.0, 0.0, f32::NAN), &mesh_point(1.0, 1.0, f32::NAN)),
    ] {
        assert_eq!(t.bounding_box(&vertices, &pad), expected);
    }
}

#[test]
fn box_of_a_flat_triangle_is_hit_by_a_ray_that_the_triangle_accepts() {
    let (t, vertices) = mesh_flat();
    let padded = AABB::new(&mesh_point(-0.0001, -0.0001, -0.0001), &mesh_point(1.0001, 1.0001, 0.0001));
    let b = t.bounding_box(&vertices, &padded);
    // the ray from (0.25, 0.25, 1) along (0, 0, -1) meets the triangle at t = 1
    let (origin, dir) = ([0.25f32, 0.25, 1.0], [0.0f32, 0.0, -1.0]);
    let val = |s: Scalar| f32::from_bits(s.to_bits());
    let s = |x: f32| Scalar::from_bits(x.to_bits());
    let (lo, hi) = ([val(b.min.0), val(b.min.1), val(b.min.2)], [val(b.max.0), val(b.max.1), val(b.max.2)]);
    let slab = |k: usize| pathtracer::aabb::Slab {
        a: s((lo[k] - origin[k]) / dir[k]),
        b: s((hi[k] - origin[k]) / dir[k]),
    };
    assert!(b.hit(&slab(0), &slab(1), &slab(2), s(0.001), s(f32::MAX)));
    assert!(mesh_crossing(-1.0, 0.25, 0.25, 1.0, -1.0).is_hit(s(0.001), s(f32::MAX)));
    // the bare extent of the corners is missed
    let bare = t.extent(&vertices);
    let (lo, hi) = ([0.0f32, 0.0, val(bare.min.2)], [1.0f32, 1.0, val(bare.max.2)]);
    let slab = |k: usize| pathtracer::aabb::Slab {
        a: s((lo[k] - origin[k]) / dir[k]),
        b: s((hi[k] - origin[k]) / dir[k]),
    };
    assert!(!bare.hit(&slab(0), &slab(1), &slab(2), s(0.001), s(f32::MAX)));
}

fn mesh_crossing(det: f32, u: f32, v: f32, t: f32, facing: f32) -> pathtracer::triangle::Crossing {
    let s = |x: f32| Scalar::from_bits(x.to_bits());
    pathtracer::triangle::Crossing {
        determinant: s(det),
        u: s(u),
        v: s(v),
        sum: s(u + v),
        t: s(t),
        facing: s(facing),
    }
}

#[test]
fn triangle_thresholds_are_the_bits_of_their_values() {
    assert_eq!(pathtracer::triangle::EPSILON_BITS, 0.00001f32.to_bits());
    assert_eq!(pathtracer::triangle::MINUS_EPSILON_BITS, (-0.00001f32).to_bits());
}

#[test]
fn triangle_crossing_is_a_hit_only_from_the_front_and_inside() {
    let s = |x: f32| Scalar::from_bits(x.to_bits());
    let (lo, hi) = (s(0.001), s(f32::MAX));
    assert!(mesh_crossing(1.0, 0.25, 0.25, 2.0, -1.0).is_hit(lo, hi));
    assert!(mesh_crossing(-1.0, 0.25, 0.25, 2.0, -1.0).is_hit(lo, hi));
    // on an edge, at a corner and at the ends of the range
    assert!(mesh_crossing(1.0, 0.0, 1.0, 2.0, -1.0).is_hit(lo, hi));
    assert!(mesh_crossing(1.0, 0.5, 0.5, 0.001, -1.0).is_hit(lo, hi));
    assert!(mesh_crossing(1.0, 0.5, 0.5, f32::MAX, -1.0).is_hit(lo, hi));
    // at the threshold itself the ray does not run along the plane
    assert!(mesh_crossing(0.00001, 0.25, 0.25, 2.0, -1.0).is_hit(lo, hi));
    assert!(mesh_crossing(-0.00001, 0.25, 0.25, 2.0, -1.0).is_hit(lo, hi));
    // along the plane
    assert!(!mesh_crossing(0.0, 0.25, 0.25, 2.0, -1.0).is_hit(lo, hi));
    assert!(!mesh_crossing(0.000009, 0.25, 0.25, 2.0, -1.0).is_hit(lo, hi));
    assert!(!mesh_crossing(-0.000009, 0.25, 0.25, 2.0, -1.0).is_hit(lo, hi));
    // outside the triangle
    assert!(!mesh_crossing(1.0, -0.1, 0.25, 2.0, -1.0).is_hit(lo, hi));
    assert!(!mesh_crossing(1.0, 0.25, -0.1, 2.0, -1.0).is_hit(lo, hi));
    assert!(!mesh_crossing(1.0, 0.75, 0.5, 2.0, -1.0).is_hit(lo, hi));
    // outside the range
    assert!(!mesh_crossing(1.0, 0.25, 0.25, 0.0005, -1.0).is_hit(lo, hi));
    assert!(!mesh_crossing(1.0, 0.25, 0.25, -2.0, -1.0).is_hit(lo, hi));
    assert!(!mesh_crossing(1.0, 0.25, 0.25, 2.0, -1.0).is_hit(lo, s(1.5)));
    // from behind, or edge on
    assert!(!mesh_crossing(1.0, 0.25, 0.25, 2.0, 1.0).is_hit(lo, hi));
    assert!(!mesh_crossing(1.0, 0.25, 0.25, 2.0, 0.0).is_hit(lo, hi));
}
