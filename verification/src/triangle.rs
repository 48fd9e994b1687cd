//! Triangles of a mesh, by the positions of their corners in the mesh's
//! tables.

use vstd::prelude::*;
use crate::aabb::AABB;
use crate::scalar::{fmax, fmin, Scalar, ONE_BITS};
use crate::vector::Vec3;

verus! {

/// A triangle: for each corner, where its vertex and its normal are found in
/// the tables of the mesh (counted from zero).
#[derive(Clone, Copy, Debug)]
pub struct Triangle {
    pub v_index: [usize; 3],
    pub n_index: [usize; 3],
}

/// The box that takes, axis by axis, the smallest and the largest component
/// of three points.
pub open spec fn box_of_corners(a: Vec3, b: Vec3, c: Vec3) -> AABB {
    AABB {
        min: Vec3(
            Scalar::fmin_of(a.0, Scalar::fmin_of(b.0, c.0)),
            Scalar::fmin_of(a.1, Scalar::fmin_of(b.1, c.1)),
            Scalar::fmin_of(a.2, Scalar::fmin_of(b.2, c.2)),
        ),
        max: Vec3(
            Scalar::fmax_of(a.0, Scalar::fmax_of(b.0, c.0)),
            Scalar::fmax_of(a.1, Scalar::fmax_of(b.1, c.1)),
            Scalar::fmax_of(a.2, Scalar::fmax_of(b.2, c.2)),
        ),
    }
}

proof fn lemma_extremes_of_three(a: Scalar, b: Scalar, c: Scalar)
    requires
        !a.is_nan(),
        !b.is_nan(),
        !c.is_nan(),
    ensures
        ({
            let low = Scalar::fmin_of(a, Scalar::fmin_of(b, c));
            let high = Scalar::fmax_of(a, Scalar::fmax_of(b, c));
            &&& !low.is_nan() && !high.is_nan()
            &&& low.rank() <= a.rank() <= high.rank()
            &&& low.rank() <= b.rank() <= high.rank()
            &&& low.rank() <= c.rank() <= high.rank()
            &&& (low == a || low == b || low == c)
            &&& (high == a || high == b || high == c)
        }),
{
}

proof fn lemma_box_of_corners_along(a: Vec3, b: Vec3, c: Vec3, k: int)
    requires
        a.is_numeric(),
        b.is_numeric(),
        c.is_numeric(),
        0 <= k < 3,
    ensures
        ({
            let low = box_of_corners(a, b, c).min.at(k);
            let high = box_of_corners(a, b, c).max.at(k);
            &&& !low.is_nan() && !high.is_nan()
            &&& low.rank() <= a.at(k).rank() <= high.rank()
            &&& low.rank() <= b.at(k).rank() <= high.rank()
            &&& low.rank() <= c.at(k).rank() <= high.rank()
            &&& (low == a.at(k) || low == b.at(k) || low == c.at(k))
            &&& (high == a.at(k) || high == b.at(k) || high == c.at(k))
        }),
{
    lemma_extremes_of_three(a.at(k), b.at(k), c.at(k));
}

/// The box of three points that are numbers is well-formed, holds the three
/// points, and touches one of them on each of its six sides.
pub proof fn lemma_box_of_corners_is_tight(a: Vec3, b: Vec3, c: Vec3)
    requires
        a.is_numeric(),
        b.is_numeric(),
        c.is_numeric(),
    ensures
        box_of_corners(a, b, c).wf(),
        box_of_corners(a, b, c).holds(a),
        box_of_corners(a, b, c).holds(b),
        box_of_corners(a, b, c).holds(c),
        forall|k: int|
            0 <= k < 3 ==> {
                let low = #[trigger] box_of_corners(a, b, c).min.at(k);
                low == a.at(k) || low == b.at(k) || low == c.at(k)
            },
        forall|k: int|
            0 <= k < 3 ==> {
                let high = #[trigger] box_of_corners(a, b, c).max.at(k);
                high == a.at(k) || high == b.at(k) || high == c.at(k)
            },
{
    let whole = box_of_corners(a, b, c);
    lemma_box_of_corners_along(a, b, c, 0);
    lemma_box_of_corners_along(a, b, c, 1);
    lemma_box_of_corners_along(a, b, c, 2);
    assert(whole.min.is_numeric() && whole.max.is_numeric()) by {
        assert(whole.min.0 == whole.min.at(0) && whole.min.1 == whole.min.at(1) && whole.min.2
            == whole.min.at(2));
        assert(whole.max.0 == whole.max.at(0) && whole.max.1 == whole.max.at(1) && whole.max.2
            == whole.max.at(2));
    }
    assert forall|k: int| 0 <= k < 3 implies #[trigger] whole.min.at(k).rank() <= whole.max.at(
        k,
    ).rank() by {
        lemma_box_of_corners_along(a, b, c, k);
    }
    assert forall|k: int| 0 <= k < 3 implies {
        &&& #[trigger] whole.min.at(k).rank() <= a.at(k).rank() <= whole.max.at(k).rank()
        &&& whole.min.at(k).rank() <= b.at(k).rank() <= whole.max.at(k).rank()
        &&& whole.min.at(k).rank() <= c.at(k).rank() <= whole.max.at(k).rank()
    } by {
        lemma_box_of_corners_along(a, b, c, k);
    }
    assert forall|k: int| 0 <= k < 3 implies {
        let low = #[trigger] whole.min.at(k);
        low == a.at(k) || low == b.at(k) || low == c.at(k)
    } by {
        lemma_box_of_corners_along(a, b, c, k);
    }
    assert forall|k: int| 0 <= k < 3 implies {
        let high = #[trigger] whole.max.at(k);
        high == a.at(k) || high == b.at(k) || high == c.at(k)
    } by {
        lemma_box_of_corners_along(a, b, c, k);
    }
}

/// The bit pattern of `0.00001`: a ray whose determinant with a triangle lies
/// strictly between minus this and this runs along the triangle's plane.
pub const EPSILON_BITS: u32 = 0x3727_c5acu32;

/// The bit pattern of `-0.00001`.
pub const MINUS_EPSILON_BITS: u32 = 0xb727_c5acu32;

/// What is computed of a ray and a triangle before a hit is accepted: the
/// determinant of the system, the two barycentric weights and their sum, the
/// ray parameter, and the product of the interpolated normal with the ray's
/// direction.
#[derive(Clone, Copy, Debug, PartialEq, Eq, Structural)]
pub struct Crossing {
    pub determinant: Scalar,
    pub u: Scalar,
    pub v: Scalar,
    pub sum: Scalar,
    pub t: Scalar,
    pub facing: Scalar,
}

impl Crossing {
    /// Whether the crossing is a hit. It is none where the ray runs along the
    /// plane, where a weight is below zero or their sum above one, where the
    /// parameter lies outside the range, or where the normal does not oppose
    /// the ray: a triangle is seen from one side only.
    pub open spec fn counts(self, t_min: Scalar, t_max: Scalar) -> bool {
        &&& !self.determinant.strictly_between(
            Scalar { bits: MINUS_EPSILON_BITS },
            Scalar { bits: EPSILON_BITS },
        )
        &&& !self.u.less(Scalar { bits: 0 })
        &&& !self.v.less(Scalar { bits: 0 })
        &&& !(Scalar { bits: ONE_BITS }).less(self.sum)
        &&& !self.t.outside(t_min, t_max)
        &&& !(Scalar { bits: 0 }).less_eq(self.facing)
    }

    /// Decides whether a crossing is a hit.
    pub fn is_hit(&self, t_min: Scalar, t_max: Scalar) -> (hit: bool)
        ensures
            hit == self.counts(t_min, t_max),
    {
        let a = self.determinant;
        if a.gt(Scalar::from_bits(MINUS_EPSILON_BITS)) && a.lt(Scalar::from_bits(EPSILON_BITS)) {
            return false;
        }
        if self.u.lt(Scalar::zero()) {
            return false;
        }
        if self.v.lt(Scalar::zero()) || self.sum.gt(Scalar::one()) {
            return false;
        }
        if self.t.lt(t_min) || self.t.gt(t_max) {
            return false;
        }
        !self.facing.ge(Scalar::zero())
    }
}

impl Triangle {
    /// Both index triples point into tables of the given lengths.
    pub open spec fn within(self, n_vertices: int, n_normals: int) -> bool {
        &&& forall|k: int| 0 <= k < 3 ==> (#[trigger] self.v_index@[k]) < n_vertices
        &&& forall|k: int| 0 <= k < 3 ==> (#[trigger] self.n_index@[k]) < n_normals
    }

    pub fn new(v0: usize, v1: usize, v2: usize, n0: usize, n1: usize, n2: usize) -> (t: Triangle)
        ensures
            t.v_index@ == seq![v0, v1, v2],
            t.n_index@ == seq![n0, n1, n2],
    {
        let t = Triangle { v_index: [v0, v1, v2], n_index: [n0, n1, n2] };
        proof {
            assert(t.v_index@ =~= seq![v0, v1, v2]);
            assert(t.n_index@ =~= seq![n0, n1, n2]);
        }
        t
    }

    /// The extent of the three corners: the box that just holds them. Along
    /// an axis on which the corners agree it has no thickness.
    pub fn extent(&self, vertices: &Vec<Vec3>) -> (b: AABB)
        requires
            forall|k: int| 0 <= k < 3 ==> (#[trigger] self.v_index@[k]) < vertices@.len(),
        ensures
            b == box_of_corners(
                vertices@[self.v_index@[0] as int],
                vertices@[self.v_index@[1] as int],
                vertices@[self.v_index@[2] as int],
            ),
    {
        assert(self.v_index@[0] < vertices@.len());
        assert(self.v_index@[1] < vertices@.len());
        assert(self.v_index@[2] < vertices@.len());
        let a = vertices[self.v_index[0]];
        let b = vertices[self.v_index[1]];
        let c = vertices[self.v_index[2]];
        let min = Vec3::new(
            fmin(a.0, fmin(b.0, c.0)),
            fmin(a.1, fmin(b.1, c.1)),
            fmin(a.2, fmin(b.2, c.2)),
        );
        let max = Vec3::new(
            fmax(a.0, fmax(b.0, c.0)),
            fmax(a.1, fmax(b.1, c.1)),
            fmax(a.2, fmax(b.2, c.2)),
        );
        AABB::new(&min, &max)
    }

    /// The box around the three corners. Along an axis on which the corners
    /// differ it is their extent. Along an axis on which they agree, the box
    /// reaches beyond them on both sides: as far as `padded` does where that
    /// lies strictly beyond them, and else to the neighbouring values.
    ///
    /// Of corners that are finite, the box holds the extent of the corners
    /// and has thickness along every axis.
    pub fn bounding_box(&self, vertices: &Vec<Vec3>, padded: &AABB) -> (b: AABB)
        requires
            forall|k: int| 0 <= k < 3 ==> (#[trigger] self.v_index@[k]) < vertices@.len(),
        ensures
            b == thick_box(
                box_of_corners(
                    vertices@[self.v_index@[0] as int],
                    vertices@[self.v_index@[1] as int],
                    vertices@[self.v_index@[2] as int],
                ),
                *padded,
            ),
            corners_are_finite(
                vertices@[self.v_index@[0] as int],
                vertices@[self.v_index@[1] as int],
                vertices@[self.v_index@[2] as int],
            ) ==> {
                &&& b.wf()
                &&& b.encloses(
                    box_of_corners(
                        vertices@[self.v_index@[0] as int],
                        vertices@[self.v_index@[1] as int],
                        vertices@[self.v_index@[2] as int],
                    ),
                )
                &&& forall|k: int| 0 <= k < 3 ==> #[trigger] b.min.at(k).rank() < b.max.at(k).rank()
            },
    {
        let bare = self.extent(vertices);
        let x = thicken(bare.min.0, bare.max.0, padded.min.0, padded.max.0);
        let y = thicken(bare.min.1, bare.max.1, padded.min.1, padded.max.1);
        let z = thicken(bare.min.2, bare.max.2, padded.min.2, padded.max.2);
        let b = AABB::new(&Vec3::new(x.0, y.0, z.0), &Vec3::new(x.1, y.1, z.1));
        proof {
            let p = vertices@[self.v_index@[0] as int];
            let q = vertices@[self.v_index@[1] as int];
            let r = vertices@[self.v_index@[2] as int];
            if corners_are_finite(p, q, r) {
                lemma_thick_box_has_thickness(p, q, r, *padded);
            }
        }
        b
    }
}

/// The three corners are numbers, and none of their components is infinite.
pub open spec fn corners_are_finite(a: Vec3, b: Vec3, c: Vec3) -> bool {
    forall|k: int|
        0 <= k < 3 ==> (#[trigger] a.at(k)).is_finite() && b.at(k).is_finite() && c.at(k).is_finite()
}

/// The stretch from `lo` to `hi`, given thickness where it has none: it is
/// left as it is where `lo < hi`; else it becomes the stretch from `pad_lo`
/// to `pad_hi` where that lies strictly beyond it on both sides, and else
/// the stretch between the neighbouring values.
pub open spec fn thickened(lo: Scalar, hi: Scalar, pad_lo: Scalar, pad_hi: Scalar) -> (Scalar, Scalar) {
    if lo.less(hi) {
        (lo, hi)
    } else if pad_lo.less(lo) && hi.less(pad_hi) {
        (pad_lo, pad_hi)
    } else {
        (lo.below(), hi.above())
    }
}

/// The box `bare`, given thickness along every axis on which it has none.
pub open spec fn thick_box(bare: AABB, padded: AABB) -> AABB {
    AABB {
        min: Vec3(
            thickened(bare.min.0, bare.max.0, padded.min.0, padded.max.0).0,
            thickened(bare.min.1, bare.max.1, padded.min.1, padded.max.1).0,
            thickened(bare.min.2, bare.max.2, padded.min.2, padded.max.2).0,
        ),
        max: Vec3(
            thickened(bare.min.0, bare.max.0, padded.min.0, padded.max.0).1,
            thickened(bare.min.1, bare.max.1, padded.min.1, padded.max.1).1,
            thickened(bare.min.2, bare.max.2, padded.min.2, padded.max.2).1,
        ),
    }
}

/// Gives a stretch thickness where it has none.
pub fn thicken(lo: Scalar, hi: Scalar, pad_lo: Scalar, pad_hi: Scalar) -> (out: (Scalar, Scalar))
    ensures
        out == thickened(lo, hi, pad_lo, pad_hi),
        lo.is_finite() && hi.is_finite() && lo.rank() <= hi.rank() ==> {
            &&& !out.0.is_nan()
            &&& !out.1.is_nan()
            &&& out.0.rank() <= lo.rank()
            &&& hi.rank() <= out.1.rank()
            &&& out.0.rank() < out.1.rank()
        },
{
    if lo.lt(hi) {
        (lo, hi)
    } else if pad_lo.lt(lo) && hi.lt(pad_hi) {
        (pad_lo, pad_hi)
    } else {
        (lo.next_down(), hi.next_up())
    }
}

proof fn lemma_thickened(lo: Scalar, hi: Scalar, pad_lo: Scalar, pad_hi: Scalar)
    requires
        lo.is_finite(),
        hi.is_finite(),
        lo.rank() <= hi.rank(),
    ensures
        ({
            let out = thickened(lo, hi, pad_lo, pad_hi);
            &&& !out.0.is_nan()
            &&& !out.1.is_nan()
            &&& out.0.rank() <= lo.rank()
            &&& hi.rank() <= out.1.rank()
            &&& out.0.rank() < out.1.rank()
        }),
{
}

/// The thick box of three finite corners is well-formed, holds the extent of
/// the corners, and has thickness along every axis.
pub proof fn lemma_thick_box_has_thickness(a: Vec3, b: Vec3, c: Vec3, padded: AABB)
    requires
        corners_are_finite(a, b, c),
    ensures
        thick_box(box_of_corners(a, b, c), padded).wf(),
        thick_box(box_of_corners(a, b, c), padded).encloses(box_of_corners(a, b, c)),
        forall|k: int|
            0 <= k < 3 ==> #[trigger] thick_box(box_of_corners(a, b, c), padded).min.at(k).rank()
                < thick_box(box_of_corners(a, b, c), padded).max.at(k).rank(),
{
    let bare = box_of_corners(a, b, c);
    let thick = thick_box(bare, padded);
    assert(a.at(0).is_finite() && a.at(1).is_finite() && a.at(2).is_finite());
    assert(b.at(0).is_finite() && c.at(0).is_finite());
    assert(a.is_numeric() && b.is_numeric() && c.is_numeric()) by {
        assert(a.at(0) == a.0 && a.at(1) == a.1 && a.at(2) == a.2);
        assert(b.at(0) == b.0 && b.at(1) == b.1 && b.at(2) == b.2);
        assert(c.at(0) == c.0 && c.at(1) == c.1 && c.at(2) == c.2);
        assert(b.at(1).is_finite() && b.at(2).is_finite());
        assert(c.at(1).is_finite() && c.at(2).is_finite());
    }
    lemma_box_of_corners_is_tight(a, b, c);
    assert forall|k: int| 0 <= k < 3 implies {
        &&& !thick.min.at(k).is_nan()
        &&& !thick.max.at(k).is_nan()
        &&& #[trigger] thick.min.at(k).rank() <= bare.min.at(k).rank()
        &&& bare.max.at(k).rank() <= thick.max.at(k).rank()
        &&& thick.min.at(k).rank() < thick.max.at(k).rank()
    } by {
        let lo = bare.min.at(k);
        let hi = bare.max.at(k);
        assert(lo == a.at(k) || lo == b.at(k) || lo == c.at(k));
        assert(hi == a.at(k) || hi == b.at(k) || hi == c.at(k));
        assert(a.at(k).is_finite() && b.at(k).is_finite() && c.at(k).is_finite());
        assert(lo.rank() <= hi.rank());
        lemma_thickened(lo, hi, padded.min.at(k), padded.max.at(k));
    }
    assert(thick.min.is_numeric() && thick.max.is_numeric()) by {
        assert(thick.min.0 == thick.min.at(0) && thick.min.1 == thick.min.at(1) && thick.min.2
            == thick.min.at(2));
        assert(thick.max.0 == thick.max.at(0) && thick.max.1 == thick.max.at(1) && thick.max.2
            == thick.max.at(2));
    }
    assert forall|k: int| 0 <= k < 3 implies #[trigger] thick.min.at(k).rank() <= thick.max.at(
        k,
    ).rank() by {
        assert(thick.min.at(k).rank() <= bare.min.at(k).rank());
    }
}

/// A mesh: two tables, of vertices and of normals, and for each corner of
/// each triangle the places of its vertex and its normal in them, counted
/// from one as mesh files do.
pub struct TriangleMesh {
    pub n_triangles: usize,
    pub vertices: Vec<Vec3>,
    pub normals: Vec<Vec3>,
    pub v_index: Vec<usize>,
    pub n_index: Vec<usize>,
}

impl TriangleMesh {
    /// There are three corners listed for every triangle, and each of those
    /// corners names a vertex and a normal that the tables hold. (What is
    /// listed beyond the last triangle is not looked at.)
    pub open spec fn wf(self) -> bool {
        &&& 3 * self.n_triangles <= self.v_index@.len()
        &&& 3 * self.n_triangles <= self.n_index@.len()
        &&& forall|k: int|
            0 <= k < 3 * self.n_triangles ==> 1 <= (#[trigger] self.v_index@[k])
                <= self.vertices@.len()
        &&& forall|k: int|
            0 <= k < 3 * self.n_triangles ==> 1 <= (#[trigger] self.n_index@[k])
                <= self.normals@.len()
    }

    /// Triangle number `i`, its indices counted from zero.
    pub open spec fn triangle_at(self, i: int) -> (Seq<usize>, Seq<usize>) {
        (
            seq![
                (self.v_index@[3 * i] - 1) as usize,
                (self.v_index@[3 * i + 1] - 1) as usize,
                (self.v_index@[3 * i + 2] - 1) as usize,
            ],
            seq![
                (self.n_index@[3 * i] - 1) as usize,
                (self.n_index@[3 * i + 1] - 1) as usize,
                (self.n_index@[3 * i + 2] - 1) as usize,
            ],
        )
    }

    /// Stores the tables as given.
    pub fn new(
        n_triangles: usize,
        vertices: Vec<Vec3>,
        normals: Vec<Vec3>,
        v_index: Vec<usize>,
        n_index: Vec<usize>,
    ) -> (mesh: TriangleMesh)
        ensures
            mesh.n_triangles == n_triangles,
            mesh.vertices@ == vertices@,
            mesh.normals@ == normals@,
            mesh.v_index@ == v_index@,
            mesh.n_index@ == n_index@,
    {
        TriangleMesh { n_triangles, vertices, normals, v_index, n_index }
    }

    /// Takes in one face entry: the vertex and the normal of each of its
    /// corners are appended to the two lists of indices, and the face is
    /// counted as one triangle.
    pub fn add_face(&mut self, corners: &Vec<(usize, usize, usize)>)
        requires
            old(self).n_triangles < usize::MAX,
        ensures
            final(self).n_triangles == old(self).n_triangles + 1,
            final(self).vertices == old(self).vertices,
            final(self).normals == old(self).normals,
            final(self).v_index@ == old(self).v_index@ + corners@.map_values(
                |c: (usize, usize, usize)| c.0,
            ),
            final(self).n_index@ == old(self).n_index@ + corners@.map_values(
                |c: (usize, usize, usize)| c.2,
            ),
    {
        let mut k: usize = 0;
        while k < corners.len()
            invariant
                k <= corners@.len(),
                self.n_triangles == old(self).n_triangles,
                self.vertices == old(self).vertices,
                self.normals == old(self).normals,
                self.v_index@ == old(self).v_index@ + corners@.take(k as int).map_values(
                    |c: (usize, usize, usize)| c.0,
                ),
                self.n_index@ == old(self).n_index@ + corners@.take(k as int).map_values(
                    |c: (usize, usize, usize)| c.2,
                ),
            decreases corners@.len() - k,
        {
            let (v, _, n) = corners[k];
            self.v_index.push(v);
            self.n_index.push(n);
            proof {
                let first = |c: (usize, usize, usize)| c.0;
                let third = |c: (usize, usize, usize)| c.2;
                assert(corners@.take(k + 1) =~= corners@.take(k as int).push(corners@[k as int]));
                assert(corners@.take(k + 1).map_values(first) =~= corners@.take(
                    k as int,
                ).map_values(first).push(v));
                assert(corners@.take(k + 1).map_values(third) =~= corners@.take(
                    k as int,
                ).map_values(third).push(n));
                assert(self.v_index@ =~= old(self).v_index@ + corners@.take(k + 1).map_values(
                    first,
                ));
                assert(self.n_index@ =~= old(self).n_index@ + corners@.take(k + 1).map_values(
                    third,
                ));
            }
            k += 1;
        }
        proof {
            assert(corners@.take(k as int) =~= corners@);
        }
        self.n_triangles = self.n_triangles + 1;
    }

    /// Whether the mesh is well-formed, so that its triangles can be listed.
    pub fn is_complete(&self) -> (ok: bool)
        ensures
            ok == self.wf(),
    {
        // taking the length tells that it fits a `usize`
        let listed: usize = self.v_index.len();
        if self.n_triangles > usize::MAX / 3 {
            return false;
        }
        let corners: usize = 3 * self.n_triangles;
        if self.v_index.len() < corners || self.n_index.len() < corners {
            return false;
        }
        let mut k: usize = 0;
        while k < corners
            invariant
                k <= corners,
                corners == 3 * self.n_triangles,
                corners <= self.v_index@.len(),
                corners <= self.n_index@.len(),
                forall|j: int|
                    0 <= j < k ==> 1 <= (#[trigger] self.v_index@[j]) <= self.vertices@.len(),
                forall|j: int|
                    0 <= j < k ==> 1 <= (#[trigger] self.n_index@[j]) <= self.normals@.len(),
            decreases corners - k,
        {
            if self.v_index[k] < 1 || self.v_index[k] > self.vertices.len() {
                return false;
            }
            if self.n_index[k] < 1 || self.n_index[k] > self.normals.len() {
                return false;
            }
            k += 1;
        }
        true
    }

    /// A cursor on the first triangle.
    pub fn iter<'a>(&'a self) -> (it: TriangleMeshIterator<'a>)
        ensures
            it.cnt == 0,
            *it.inner == *self,
    {
        TriangleMeshIterator { cnt: 0, inner: self }
    }
}

/// A cursor over the triangles of a mesh.
pub struct TriangleMeshIterator<'a> {
    pub cnt: usize,
    pub inner: &'a TriangleMesh,
}

impl<'a> TriangleMeshIterator<'a> {
    /// The triangle under the cursor, and the cursor moved on; nothing once
    /// all triangles have been given.
    pub fn next(&mut self) -> (item: Option<Triangle>)
        requires
            old(self).inner.wf(),
        ensures
            final(self).inner == old(self).inner,
            old(self).cnt >= old(self).inner.n_triangles ==> item is None && final(self).cnt == old(
                self,
            ).cnt,
            old(self).cnt < old(self).inner.n_triangles ==> {
                &&& item is Some
                &&& final(self).cnt == old(self).cnt + 1
                &&& (item->0.v_index@, item->0.n_index@) == old(self).inner.triangle_at(
                    old(self).cnt as int,
                )
                &&& item->0.within(
                    old(self).inner.vertices@.len() as int,
                    old(self).inner.normals@.len() as int,
                )
            },
    {
        if self.cnt >= self.inner.n_triangles {
            None
        } else {
            // taking the length tells that it fits a `usize`
            let listed: usize = self.inner.v_index.len();
            let base: usize = self.cnt * 3;
            let triangle = Triangle::new(
                self.inner.v_index[base] - 1,
                self.inner.v_index[base + 1] - 1,
                self.inner.v_index[base + 2] - 1,
                self.inner.n_index[base] - 1,
                self.inner.n_index[base + 1] - 1,
                self.inner.n_index[base + 2] - 1,
            );
            self.cnt += 1;
            Some(triangle)
        }
    }
}

} // verus!
