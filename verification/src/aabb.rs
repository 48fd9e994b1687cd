//! Axis-aligned bounding boxes: merging, and the test of a ray against a box.

use vstd::prelude::*;
use crate::scalar::{fmax, fmin, Scalar, INFINITY_BITS, MAX_BITS, MIN_BITS};
use crate::vector::Vec3;

verus! {

/// An axis-aligned box, by its two extreme corners.
#[derive(Clone, Copy, Debug, PartialEq, Eq, Structural)]
pub struct AABB {
    pub min: Vec3,
    pub max: Vec3,
}

/// The two parameters at which a ray crosses the pair of planes that bound a
/// box along one axis.
#[derive(Clone, Copy, Debug, PartialEq, Eq, Structural)]
pub struct Slab {
    pub a: Scalar,
    pub b: Scalar,
}

impl Slab {
    /// The smaller crossing.
    pub open spec fn near(self) -> Scalar {
        Scalar::fmin_of(self.a, self.b)
    }

    /// The larger crossing.
    pub open spec fn far(self) -> Scalar {
        Scalar::fmax_of(self.a, self.b)
    }

    /// Neither crossing is a not-a-number pattern.
    pub open spec fn is_numeric(self) -> bool {
        !self.a.is_nan() && !self.b.is_nan()
    }
}

impl AABB {
    /// Every corner component is a number, and `min` is at most `max` along
    /// each axis.
    pub open spec fn wf(self) -> bool {
        &&& self.min.is_numeric()
        &&& self.max.is_numeric()
        &&& forall|k: int| 0 <= k < 3 ==> #[trigger] self.min.at(k).rank() <= self.max.at(k).rank()
    }

    /// Along each axis, `min <= max`: the low corner is not above the high
    /// one, and no component is a pattern that is no number.
    pub open spec fn is_ordered(self) -> bool {
        forall|k: int| 0 <= k < 3 ==> (#[trigger] self.min.at(k)).less_eq(self.max.at(k))
    }

    /// A box is ordered exactly where it is well-formed.
    pub proof fn lemma_wf_is_ordered(self)
        ensures
            self.wf() <==> self.is_ordered(),
    {
        if self.wf() {
            assert forall|k: int| 0 <= k < 3 implies (#[trigger] self.min.at(k)).less_eq(
                self.max.at(k),
            ) by {
                assert(self.min.at(k).rank() <= self.max.at(k).rank());
            }
        }
        if self.is_ordered() {
            assert(self.min.at(0).less_eq(self.max.at(0)));
            assert(self.min.at(1).less_eq(self.max.at(1)));
            assert(self.min.at(2).less_eq(self.max.at(2)));
            assert forall|k: int| 0 <= k < 3 implies #[trigger] self.min.at(k).rank()
                <= self.max.at(k).rank() by {
                assert(self.min.at(k).less_eq(self.max.at(k)));
            }
        }
    }

    /// Every point of `inner` lies in `self`.
    pub open spec fn encloses(self, inner: AABB) -> bool {
        forall|k: int|
            0 <= k < 3 ==> {
                &&& #[trigger] self.min.at(k).rank() <= inner.min.at(k).rank()
                &&& inner.max.at(k).rank() <= self.max.at(k).rank()
            }
    }

    /// The point `p` lies in `self`.
    pub open spec fn holds(self, p: Vec3) -> bool {
        forall|k: int|
            0 <= k < 3 ==> {
                &&& #[trigger] self.min.at(k).rank() <= p.at(k).rank()
                &&& p.at(k).rank() <= self.max.at(k).rank()
            }
    }

    /// Stores the corners as given; that `a` is below `b` is the caller's affair.
    pub fn new(a: &Vec3, b: &Vec3) -> (r: AABB)
        ensures
            r.min == *a,
            r.max == *b,
    {
        AABB { min: *a, max: *b }
    }
}

/// The box whose low corner takes the smaller and whose high corner takes the
/// larger component of the two boxes, axis by axis.
pub open spec fn surrounding(box0: AABB, box1: AABB) -> AABB {
    AABB {
        min: Vec3(
            Scalar::fmin_of(box0.min.0, box1.min.0),
            Scalar::fmin_of(box0.min.1, box1.min.1),
            Scalar::fmin_of(box0.min.2, box1.min.2),
        ),
        max: Vec3(
            Scalar::fmax_of(box0.max.0, box1.max.0),
            Scalar::fmax_of(box0.max.1, box1.max.1),
            Scalar::fmax_of(box0.max.2, box1.max.2),
        ),
    }
}

/// The smallest box around two boxes.
pub fn surrounding_box(box0: &AABB, box1: &AABB) -> (r: AABB)
    ensures
        r == surrounding(*box0, *box1),
{
    let small = Vec3::new(
        fmin(box0.min.0, box1.min.0),
        fmin(box0.min.1, box1.min.1),
        fmin(box0.min.2, box1.min.2),
    );
    let big = Vec3::new(
        fmax(box0.max.0, box1.max.0),
        fmax(box0.max.1, box1.max.1),
        fmax(box0.max.2, box1.max.2),
    );
    AABB::new(&small, &big)
}

/// The box around two well-formed boxes is well-formed, encloses both, and is
/// enclosed by every box that encloses both.
pub proof fn lemma_surrounding_is_least(box0: AABB, box1: AABB, other: AABB)
    requires
        box0.wf(),
        box1.wf(),
    ensures
        surrounding(box0, box1).wf(),
        surrounding(box0, box1).encloses(box0),
        surrounding(box0, box1).encloses(box1),
        other.encloses(box0) && other.encloses(box1) ==> other.encloses(surrounding(box0, box1)),
{
    let s = surrounding(box0, box1);
    assert forall|k: int| 0 <= k < 3 implies {
        &&& #[trigger] s.min.at(k).rank() <= box0.min.at(k).rank()
        &&& s.min.at(k).rank() <= box1.min.at(k).rank()
        &&& box0.max.at(k).rank() <= s.max.at(k).rank()
        &&& box1.max.at(k).rank() <= s.max.at(k).rank()
        &&& s.min.at(k).rank() <= s.max.at(k).rank()
        &&& (s.min.at(k) == box0.min.at(k) || s.min.at(k) == box1.min.at(k))
        &&& (s.max.at(k) == box0.max.at(k) || s.max.at(k) == box1.max.at(k))
    } by {
        assert(box0.min.at(k).rank() <= box0.max.at(k).rank());
        assert(box1.min.at(k).rank() <= box1.max.at(k).rank());
    }
    if other.encloses(box0) && other.encloses(box1) {
        assert forall|k: int| 0 <= k < 3 implies {
            &&& #[trigger] other.min.at(k).rank() <= s.min.at(k).rank()
            &&& s.max.at(k).rank() <= other.max.at(k).rank()
        } by {
            assert(other.min.at(k).rank() <= box0.min.at(k).rank());
            assert(other.min.at(k).rank() <= box1.min.at(k).rank());
            assert(s.min.at(k).rank() <= box0.min.at(k).rank());
        }
    }
}

/// A box that encloses a box encloses what that box encloses.
pub proof fn lemma_encloses_is_transitive(outer: AABB, middle: AABB, inner: AABB)
    requires
        outer.encloses(middle),
        middle.encloses(inner),
    ensures
        outer.encloses(inner),
{
    assert forall|k: int| 0 <= k < 3 implies {
        &&& #[trigger] outer.min.at(k).rank() <= inner.min.at(k).rank()
        &&& inner.max.at(k).rank() <= outer.max.at(k).rank()
    } by {
        assert(outer.min.at(k).rank() <= middle.min.at(k).rank());
        assert(middle.min.at(k).rank() <= inner.min.at(k).rank());
    }
}

/// The interval `(lo, hi)` after one slab has been taken into account: the
/// lower end can only rise to the near crossing, the upper end only fall to
/// the far one.
pub open spec fn narrowed(lo: Scalar, hi: Scalar, s: Slab) -> (Scalar, Scalar) {
    (Scalar::fmax_of(s.near(), lo), Scalar::fmin_of(s.far(), hi))
}

/// Whether the interval `(t_min, t_max)` survives the three slabs, taken in
/// the order x, y, z: it is given up as soon as its upper end is at most its
/// lower end.
pub open spec fn slabs_overlap(x: Slab, y: Slab, z: Slab, t_min: Scalar, t_max: Scalar) -> bool {
    let (l0, h0) = narrowed(t_min, t_max, x);
    let (l1, h1) = narrowed(l0, h0, y);
    let (l2, h2) = narrowed(l1, h1, z);
    !h0.less_eq(l0) && !h1.less_eq(l1) && !h2.less_eq(l2)
}

/// The slab test of a ray against a box, on the six crossing parameters of
/// the ray with the box's planes.
pub fn slab_test(x: &Slab, y: &Slab, z: &Slab, t_min: Scalar, t_max: Scalar) -> (hit: bool)
    ensures
        hit == slabs_overlap(*x, *y, *z, t_min, t_max),
{
    let mut t0 = fmin(x.a, x.b);
    let mut t1 = fmax(x.a, x.b);
    let mut lo = fmax(t0, t_min);
    let mut hi = fmin(t1, t_max);
    if hi.le(lo) {
        return false;
    }
    t0 = fmin(y.a, y.b);
    t1 = fmax(y.a, y.b);
    lo = fmax(t0, lo);
    hi = fmin(t1, hi);
    if hi.le(lo) {
        return false;
    }
    t0 = fmin(z.a, z.b);
    t1 = fmax(z.a, z.b);
    lo = fmax(t0, lo);
    hi = fmin(t1, hi);
    if hi.le(lo) {
        return false;
    }
    true
}

impl AABB {
    /// Whether a ray hits the box, from the six parameters at which the ray
    /// crosses the planes of the box. A box whose low corner lies above its
    /// high corner along some axis, or that holds a component which is no
    /// number, is hit by no ray; any other box is hit where the slab test
    /// passes.
    pub fn hit(&self, x: &Slab, y: &Slab, z: &Slab, t_min: Scalar, t_max: Scalar) -> (hit: bool)
        ensures
            hit == (self.is_ordered() && slabs_overlap(*x, *y, *z, t_min, t_max)),
    {
        proof {
            assert(self.min.0 == self.min.at(0) && self.min.1 == self.min.at(1) && self.min.2
                == self.min.at(2));
            assert(self.max.0 == self.max.at(0) && self.max.1 == self.max.at(1) && self.max.2
                == self.max.at(2));
        }
        if !(self.min.0.le(self.max.0) && self.min.1.le(self.max.1) && self.min.2.le(self.max.2)) {
            return false;
        }
        slab_test(x, y, z, t_min, t_max)
    }
}

/// Where all eight values are numbers, the test says whether some parameter
/// lies strictly above `t_min` and every near crossing, and strictly below
/// `t_max` and every far crossing: whether the largest lower end is below the
/// smallest upper end.
pub proof fn lemma_slab_test_is_interval_overlap(
    x: Slab,
    y: Slab,
    z: Slab,
    t_min: Scalar,
    t_max: Scalar,
)
    requires
        x.is_numeric(),
        y.is_numeric(),
        z.is_numeric(),
        !t_min.is_nan(),
        !t_max.is_nan(),
    ensures
        slabs_overlap(x, y, z, t_min, t_max) <==> {
            &&& t_min.rank() < t_max.rank()
            &&& forall|s: Slab, u: Slab|
                (s == x || s == y || s == z) && (u == x || u == y || u == z) ==> {
                    &&& #[trigger] s.near().rank() < #[trigger] u.far().rank()
                    &&& s.near().rank() < t_max.rank()
                    &&& t_min.rank() < u.far().rank()
                }
        },
{
}

/// The bit pattern of minus infinity.
pub const MINUS_INFINITY_BITS: u32 = 0xff80_0000u32;

/// The crossing computation of a ray that runs along an axis, up it or down
/// it: it gives a number for every number, and it keeps the order of the
/// coordinates or reverses it.
pub open spec fn crossing_is_monotone(c: spec_fn(Scalar) -> Scalar) -> bool {
    &&& forall|s: Scalar| !s.is_nan() ==> !(#[trigger] c(s)).is_nan()
    &&& {
        ||| forall|s: Scalar, u: Scalar|
            !s.is_nan() && !u.is_nan() && s.rank() <= u.rank() ==> (#[trigger] c(s)).rank() <= (
            #[trigger] c(u)).rank()
        ||| forall|s: Scalar, u: Scalar|
            !s.is_nan() && !u.is_nan() && s.rank() <= u.rank() ==> (#[trigger] c(s)).rank() >= (
            #[trigger] c(u)).rank()
    }
}

/// The crossing computation of a ray that does not move along an axis and
/// stands at rank `at` on it: a plane on one side of the ray is crossed at
/// minus infinity, a plane on the other side at plus infinity, and for the
/// plane through the ray the computation gives no number.
pub open spec fn crossing_is_parallel(c: spec_fn(Scalar) -> Scalar, at: int) -> bool {
    ||| forall|s: Scalar|
        !s.is_nan() ==> {
            &&& s.rank() < at ==> (#[trigger] c(s)).bits == MINUS_INFINITY_BITS
            &&& s.rank() > at ==> c(s).bits == INFINITY_BITS
            &&& s.rank() == at ==> c(s).is_nan()
        }
    ||| forall|s: Scalar|
        !s.is_nan() ==> {
            &&& s.rank() < at ==> (#[trigger] c(s)).bits == INFINITY_BITS
            &&& s.rank() > at ==> c(s).bits == MINUS_INFINITY_BITS
            &&& s.rank() == at ==> c(s).is_nan()
        }
}

/// The box has no extent along axis `k`, and lies at rank `at` there.
pub open spec fn is_flat_at(b: AABB, k: int, at: int) -> bool {
    b.min.at(k).rank() == at && b.max.at(k).rank() == at
}

/// What the laws below ask of a ray's crossing computation along axis `k`
/// and of the box `b`: the ray moves along the axis; or it does not, stands
/// at rank `at`, and the box is not a flat one that holds the ray.
pub open spec fn crossing_suits(c: spec_fn(Scalar) -> Scalar, at: int, b: AABB, k: int) -> bool {
    crossing_is_monotone(c) || (crossing_is_parallel(c, at) && !is_flat_at(b, k, at))
}

/// The slab of a box along axis `k`, for a ray whose crossings along that axis
/// are computed by `c`.
pub open spec fn slab_of(b: AABB, k: int, c: spec_fn(Scalar) -> Scalar) -> Slab {
    Slab { a: c(b.min.at(k)), b: c(b.max.at(k)) }
}

/// Whether a ray whose crossings are computed by `cx`, `cy`, `cz` hits the
/// box `b`.
pub open spec fn box_is_hit(
    b: AABB,
    cx: spec_fn(Scalar) -> Scalar,
    cy: spec_fn(Scalar) -> Scalar,
    cz: spec_fn(Scalar) -> Scalar,
    t_min: Scalar,
    t_max: Scalar,
) -> bool {
    b.is_ordered() && slabs_overlap(
        slab_of(b, 0, cx),
        slab_of(b, 1, cy),
        slab_of(b, 2, cz),
        t_min,
        t_max,
    )
}

/// The interval from `lo_o` to `hi_o` is no narrower than the one from
/// `lo_i` to `hi_i`: each end is the same, or lies further out.
pub open spec fn no_narrower(lo_o: Scalar, hi_o: Scalar, lo_i: Scalar, hi_i: Scalar) -> bool {
    &&& lo_o == lo_i || (!lo_o.is_nan() && !lo_i.is_nan() && lo_o.rank() <= lo_i.rank())
    &&& hi_o == hi_i || (!hi_o.is_nan() && !hi_i.is_nan() && hi_i.rank() <= hi_o.rank())
}

/// Along one axis: where the interval survives the slab of the inner box, a
/// wider interval survives the slab of the outer box, and stays the wider.
proof fn lemma_axis_widens(
    inner: AABB,
    outer: AABB,
    k: int,
    c: spec_fn(Scalar) -> Scalar,
    at: int,
    lo_i: Scalar,
    hi_i: Scalar,
    lo_o: Scalar,
    hi_o: Scalar,
)
    requires
        0 <= k < 3,
        inner.wf(),
        outer.wf(),
        outer.encloses(inner),
        crossing_suits(c, at, inner, k),
        no_narrower(lo_o, hi_o, lo_i, hi_i),
        !narrowed(lo_i, hi_i, slab_of(inner, k, c)).1.less_eq(
            narrowed(lo_i, hi_i, slab_of(inner, k, c)).0,
        ),
    ensures
        no_narrower(
            narrowed(lo_o, hi_o, slab_of(outer, k, c)).0,
            narrowed(lo_o, hi_o, slab_of(outer, k, c)).1,
            narrowed(lo_i, hi_i, slab_of(inner, k, c)).0,
            narrowed(lo_i, hi_i, slab_of(inner, k, c)).1,
        ),
        !narrowed(lo_o, hi_o, slab_of(outer, k, c)).1.less_eq(
            narrowed(lo_o, hi_o, slab_of(outer, k, c)).0,
        ),
{
    let il = inner.min.at(k);
    let ih = inner.max.at(k);
    let ol = outer.min.at(k);
    let oh = outer.max.at(k);
    assert(ol.rank() <= il.rank());
    assert(il.rank() <= ih.rank());
    assert(ih.rank() <= oh.rank());
    assert(!il.is_nan() && !ih.is_nan() && !ol.is_nan() && !oh.is_nan()) by {
        assert(inner.min.0 == inner.min.at(0) && inner.min.1 == inner.min.at(1) && inner.min.2
            == inner.min.at(2));
        assert(inner.max.0 == inner.max.at(0) && inner.max.1 == inner.max.at(1) && inner.max.2
            == inner.max.at(2));
        assert(outer.min.0 == outer.min.at(0) && outer.min.1 == outer.min.at(1) && outer.min.2
            == outer.min.at(2));
        assert(outer.max.0 == outer.max.at(0) && outer.max.1 == outer.max.at(1) && outer.max.2
            == outer.max.at(2));
    }
    if crossing_is_monotone(c) {
        assert(!c(il).is_nan() && !c(ih).is_nan() && !c(ol).is_nan() && !c(oh).is_nan());
        if forall|s: Scalar, u: Scalar|
            !s.is_nan() && !u.is_nan() && s.rank() <= u.rank() ==> (#[trigger] c(s)).rank() <= (
            #[trigger] c(u)).rank() {
            assert(c(ol).rank() <= c(il).rank());
            assert(c(il).rank() <= c(ih).rank());
            assert(c(ih).rank() <= c(oh).rank());
            assert(c(ol).rank() <= c(oh).rank());
        } else {
            assert(c(ol).rank() >= c(il).rank());
            assert(c(il).rank() >= c(ih).rank());
            assert(c(ih).rank() >= c(oh).rank());
            assert(c(ol).rank() >= c(oh).rank());
        }
    } else {
        lemma_parallel_slab(il, ih, c, at, lo_i, hi_i);
        lemma_parallel_slab(ol, oh, c, at, lo_o, hi_o);
    }
}

/// A ray that does not move along an axis: the slab between `low` and `high`
/// leaves the interval as it is where the ray stands strictly between the
/// two planes or in the upper one, and gives it up where the ray stands
/// outside them or in the lower one alone.
proof fn lemma_parallel_slab(
    low: Scalar,
    high: Scalar,
    c: spec_fn(Scalar) -> Scalar,
    at: int,
    lo: Scalar,
    hi: Scalar,
)
    requires
        !low.is_nan(),
        !high.is_nan(),
        low.rank() <= high.rank(),
        crossing_is_parallel(c, at),
    ensures
        ({
            let slab = Slab { a: c(low), b: c(high) };
            let after = narrowed(lo, hi, slab);
            if low.rank() < at <= high.rank() || (low.rank() == at && high.rank() == at) {
                after == (lo, hi)
            } else {
                after.1.less_eq(after.0) || lo.is_nan() || hi.is_nan()
            }
        }),
{
    let a = c(low);
    let b = c(high);
    assert(low.rank() < at ==> a.bits == MINUS_INFINITY_BITS || a.bits == INFINITY_BITS);
    assert(high.rank() > at ==> b.bits == MINUS_INFINITY_BITS || b.bits == INFINITY_BITS);
}

/// A ray that hits a well-formed box hits every well-formed box that encloses
/// it. This holds of a ray whose crossings are monotone along an axis, and of
/// a ray that does not move along an axis, where the inner box is not a flat
/// one that holds the ray.
pub proof fn lemma_enclosing_box_is_hit(
    inner: AABB,
    outer: AABB,
    cx: spec_fn(Scalar) -> Scalar,
    cy: spec_fn(Scalar) -> Scalar,
    cz: spec_fn(Scalar) -> Scalar,
    ax: int,
    ay: int,
    az: int,
    t_min: Scalar,
    t_max: Scalar,
)
    requires
        inner.wf(),
        outer.wf(),
        outer.encloses(inner),
        crossing_suits(cx, ax, inner, 0),
        crossing_suits(cy, ay, inner, 1),
        crossing_suits(cz, az, inner, 2),
        box_is_hit(inner, cx, cy, cz, t_min, t_max),
    ensures
        box_is_hit(outer, cx, cy, cz, t_min, t_max),
{
    outer.lemma_wf_is_ordered();
    let (li0, hi0) = narrowed(t_min, t_max, slab_of(inner, 0, cx));
    let (lo0, ho0) = narrowed(t_min, t_max, slab_of(outer, 0, cx));
    lemma_axis_widens(inner, outer, 0, cx, ax, t_min, t_max, t_min, t_max);
    let (li1, hi1) = narrowed(li0, hi0, slab_of(inner, 1, cy));
    let (lo1, ho1) = narrowed(lo0, ho0, slab_of(outer, 1, cy));
    lemma_axis_widens(inner, outer, 1, cy, ay, li0, hi0, lo0, ho0);
    lemma_axis_widens(inner, outer, 2, cz, az, li1, hi1, lo1, ho1);
}

/// The ray hits the box, and ray and box are such as the laws speak of.
pub open spec fn is_hit_regularly(
    b: AABB,
    cx: spec_fn(Scalar) -> Scalar,
    cy: spec_fn(Scalar) -> Scalar,
    cz: spec_fn(Scalar) -> Scalar,
    ax: int,
    ay: int,
    az: int,
    t_min: Scalar,
    t_max: Scalar,
) -> bool {
    &&& box_is_hit(b, cx, cy, cz, t_min, t_max)
    &&& crossing_suits(cx, ax, b, 0)
    &&& crossing_suits(cy, ay, b, 1)
    &&& crossing_suits(cz, az, b, 2)
}

/// The box test is conservative under merging: a ray that hits either of two
/// well-formed boxes hits the box around both. This holds of the rays of the
/// law above; the box that is hit must not be a flat one that holds a ray
/// which does not move along the axis of its flatness.
pub proof fn lemma_surrounding_box_is_conservative(
    box0: AABB,
    box1: AABB,
    cx: spec_fn(Scalar) -> Scalar,
    cy: spec_fn(Scalar) -> Scalar,
    cz: spec_fn(Scalar) -> Scalar,
    ax: int,
    ay: int,
    az: int,
    t_min: Scalar,
    t_max: Scalar,
)
    requires
        box0.wf(),
        box1.wf(),
        is_hit_regularly(box0, cx, cy, cz, ax, ay, az, t_min, t_max) || is_hit_regularly(
            box1,
            cx,
            cy,
            cz,
            ax,
            ay,
            az,
            t_min,
            t_max,
        ),
    ensures
        box_is_hit(surrounding(box0, box1), cx, cy, cz, t_min, t_max),
{
    lemma_surrounding_is_least(box0, box1, box0);
    if is_hit_regularly(box0, cx, cy, cz, ax, ay, az, t_min, t_max) {
        lemma_enclosing_box_is_hit(
            box0,
            surrounding(box0, box1),
            cx,
            cy,
            cz,
            ax,
            ay,
            az,
            t_min,
            t_max,
        );
    } else {
        lemma_enclosing_box_is_hit(
            box1,
            surrounding(box0, box1),
            cx,
            cy,
            cz,
            ax,
            ay,
            az,
            t_min,
            t_max,
        );
    }
}

/// The box before any point has been taken in: its low corner at the largest
/// finite value, its high corner at the smallest.
pub open spec fn inverted_box() -> AABB {
    AABB {
        min: Vec3(Scalar { bits: MAX_BITS }, Scalar { bits: MAX_BITS }, Scalar { bits: MAX_BITS }),
        max: Vec3(Scalar { bits: MIN_BITS }, Scalar { bits: MIN_BITS }, Scalar { bits: MIN_BITS }),
    }
}

/// The box `b`, stretched to take in the point `p`: a corner component gives
/// way where the point's lies strictly beyond it.
pub open spec fn stretched(b: AABB, p: Vec3) -> AABB {
    AABB {
        min: Vec3(
            Scalar::fmin_of(p.0, b.min.0),
            Scalar::fmin_of(p.1, b.min.1),
            Scalar::fmin_of(p.2, b.min.2),
        ),
        max: Vec3(
            Scalar::fmax_of(p.0, b.max.0),
            Scalar::fmax_of(p.1, b.max.1),
            Scalar::fmax_of(p.2, b.max.2),
        ),
    }
}

/// The extents of a list of points: the inverted box, stretched by each point
/// in turn.
pub open spec fn extents_of(points: Seq<Vec3>) -> AABB
    decreases points.len(),
{
    if points.len() == 0 {
        inverted_box()
    } else {
        stretched(extents_of(points.drop_last()), points.last())
    }
}

/// The componentwise extents of a list of points, such as the corners of a
/// box after a rotation.
pub fn bounding_extents(points: &Vec<Vec3>) -> (b: AABB)
    ensures
        b == extents_of(points@),
{
    let mut min = Vec3::new(Scalar::largest(), Scalar::largest(), Scalar::largest());
    let mut max = Vec3::new(Scalar::smallest(), Scalar::smallest(), Scalar::smallest());
    let mut i: usize = 0;
    while i < points.len()
        invariant
            i <= points@.len(),
            (AABB { min, max }) == extents_of(points@.take(i as int)),
        decreases points@.len() - i,
    {
        let p = points[i];
        proof {
            assert(points@.take(i + 1).drop_last() =~= points@.take(i as int));
        }
        min = Vec3::new(fmin(p.0, min.0), fmin(p.1, min.1), fmin(p.2, min.2));
        max = Vec3::new(fmax(p.0, max.0), fmax(p.1, max.1), fmax(p.2, max.2));
        i += 1;
    }
    proof {
        assert(points@.take(i as int) =~= points@);
    }
    AABB::new(&min, &max)
}

proof fn lemma_stretched_along(b: AABB, p: Vec3, k: int)
    requires
        0 <= k < 3,
        b.min.is_numeric(),
        b.max.is_numeric(),
        p.is_numeric(),
    ensures
        ({
            let s = stretched(b, p);
            &&& !s.min.at(k).is_nan() && !s.max.at(k).is_nan()
            &&& s.min.at(k).rank() <= p.at(k).rank() <= s.max.at(k).rank()
            &&& s.min.at(k).rank() <= b.min.at(k).rank()
            &&& b.max.at(k).rank() <= s.max.at(k).rank()
        }),
{
}

/// The extents of points that are numbers hold every one of the points. Of
/// one point or more, they are a well-formed box.
pub proof fn lemma_extents_hold_every_point(points: Seq<Vec3>, i: int)
    requires
        0 <= i < points.len(),
        forall|k: int| 0 <= k < points.len() ==> (#[trigger] points[k]).is_numeric(),
    ensures
        extents_of(points).wf(),
        extents_of(points).holds(points[i]),
    decreases points.len(),
{
    let rest = points.drop_last();
    let b = extents_of(rest);
    let p = points.last();
    let s = extents_of(points);
    assert(forall|k: int| 0 <= k < rest.len() ==> rest[k] == points[k]);
    lemma_extents_are_numeric(rest);
    lemma_stretched_along(b, p, 0);
    lemma_stretched_along(b, p, 1);
    lemma_stretched_along(b, p, 2);
    assert(s.min.0 == s.min.at(0) && s.min.1 == s.min.at(1) && s.min.2 == s.min.at(2));
    assert(s.max.0 == s.max.at(0) && s.max.1 == s.max.at(1) && s.max.2 == s.max.at(2));
    assert forall|k: int| 0 <= k < 3 implies #[trigger] s.min.at(k).rank() <= s.max.at(k).rank() by {
        lemma_stretched_along(b, p, k);
    }
    if i < points.len() - 1 {
        lemma_extents_hold_every_point(rest, i);
        assert forall|k: int| 0 <= k < 3 implies {
            &&& #[trigger] s.min.at(k).rank() <= points[i].at(k).rank()
            &&& points[i].at(k).rank() <= s.max.at(k).rank()
        } by {
            lemma_stretched_along(b, p, k);
            assert(b.min.at(k).rank() <= points[i].at(k).rank());
        }
    } else {
        assert forall|k: int| 0 <= k < 3 implies {
            &&& #[trigger] s.min.at(k).rank() <= points[i].at(k).rank()
            &&& points[i].at(k).rank() <= s.max.at(k).rank()
        } by {
            lemma_stretched_along(b, p, k);
        }
    }
}

proof fn lemma_extents_are_numeric(points: Seq<Vec3>)
    requires
        forall|k: int| 0 <= k < points.len() ==> (#[trigger] points[k]).is_numeric(),
    ensures
        extents_of(points).min.is_numeric(),
        extents_of(points).max.is_numeric(),
    decreases points.len(),
{
    if points.len() > 0 {
        let rest = points.drop_last();
        assert(forall|k: int| 0 <= k < rest.len() ==> rest[k] == points[k]);
        lemma_extents_are_numeric(rest);
        let b = extents_of(rest);
        let p = points.last();
        let s = stretched(b, p);
        lemma_stretched_along(b, p, 0);
        lemma_stretched_along(b, p, 1);
        lemma_stretched_along(b, p, 2);
        assert(s.min.0 == s.min.at(0) && s.min.1 == s.min.at(1) && s.min.2 == s.min.at(2));
        assert(s.max.0 == s.max.at(0) && s.max.1 == s.max.at(1) && s.max.2 == s.max.at(2));
    }
}

} // verus!
