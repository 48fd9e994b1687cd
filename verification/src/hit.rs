//! Hit records, the choice between two of them, and the flat list of shapes.

use vstd::prelude::*;
use crate::aabb::{surrounding, surrounding_box, AABB};
use crate::scalar::Scalar;
use crate::vector::{Ray, Vec3};

verus! {

/// Where a ray met a surface: the ray parameter, the surface coordinates, the
/// point, the normal there, and a handle to the surface's material.
pub struct HitRecord<M> {
    pub t: Scalar,
    pub u: Scalar,
    pub v: Scalar,
    pub p: Vec3,
    pub normal: Vec3,
    pub mat: M,
}

impl<M> HitRecord<M> {
    pub fn new(t: Scalar, u: Scalar, v: Scalar, p: Vec3, normal: Vec3, mat: M) -> (rec: Self)
        ensures
            rec == (HitRecord { t, u, v, p, normal, mat }),
    {
        HitRecord { t, u, v, p, normal, mat }
    }
}

/// Of two outcomes, the hit with the smaller parameter; the right one where
/// the left is not strictly nearer; the only one where one missed.
pub open spec fn nearer_of<M>(left: Option<HitRecord<M>>, right: Option<HitRecord<M>>) -> Option<
    HitRecord<M>,
> {
    match (left, right) {
        (Some(l), Some(r)) => if l.t.less(r.t) {
            Some(l)
        } else {
            Some(r)
        },
        (Some(l), None) => Some(l),
        (None, r) => r,
    }
}

/// Chooses between the outcomes of two intersection tests.
pub fn nearer<M>(left: Option<HitRecord<M>>, right: Option<HitRecord<M>>) -> (out: Option<
    HitRecord<M>,
>)
    ensures
        out == nearer_of(left, right),
{
    match left {
        Some(left_rec) => match right {
            Some(right_rec) => {
                if left_rec.t.lt(right_rec.t) {
                    Some(left_rec)
                } else {
                    Some(right_rec)
                }
            },
            None => Some(left_rec),
        },
        None => right,
    }
}

/// A flat list of shapes.
pub struct HittableList<T> {
    pub list: Vec<T>,
    pub size: usize,
}

/// What a scan of `list` from position `from` on may return, when the nearest
/// hit so far is `best`, at parameter `closest`: each shape is probed with the
/// upper bound `closest`, and a hit replaces `best` and lowers the bound to
/// its own parameter.
pub open spec fn scan_yields<T, M, S: Fn(&T, &Ray, Scalar, Scalar) -> Option<HitRecord<M>>>(
    list: Seq<T>,
    from: int,
    r: &Ray,
    t_min: Scalar,
    closest: Scalar,
    best: Option<HitRecord<M>>,
    probe: &S,
    out: Option<HitRecord<M>>,
) -> bool
    decreases list.len() - from,
{
    if from < 0 || from >= list.len() {
        out == best
    } else {
        exists|found: Option<HitRecord<M>>| #[trigger]
            call_ensures(probe, (&list[from], r, t_min, closest), found) && match found {
                Some(rec) => scan_yields(list, from + 1, r, t_min, rec.t, found, probe, out),
                None => scan_yields(list, from + 1, r, t_min, closest, best, probe, out),
            }
    }
}

/// The box around all the boxes of a list, taken from the left; none where
/// the list is empty or some shape has no box.
pub open spec fn enclosing_all(boxes: Seq<Option<AABB>>) -> Option<AABB>
    decreases boxes.len(),
{
    if boxes.len() == 0 {
        None
    } else if boxes.len() == 1 {
        boxes[0]
    } else {
        match (enclosing_all(boxes.drop_last()), boxes.last()) {
            (Some(so_far), Some(next)) => Some(surrounding(next, so_far)),
            _ => None,
        }
    }
}

impl<T> HittableList<T> {
    /// `size` counts the shapes.
    pub open spec fn wf(self) -> bool {
        self.size == self.list@.len()
    }

    pub fn new() -> (l: Self)
        ensures
            l.list@.len() == 0,
            l.wf(),
    {
        HittableList { list: Vec::new(), size: 0 }
    }

    /// Appends a shape.
    pub fn push(&mut self, hitable: T)
        ensures
            final(self).list@ == old(self).list@.push(hitable),
            final(self).wf(),
    {
        self.list.push(hitable);
        let n: usize = self.list.len();
        self.size = n;
    }

    /// The nearest hit of a ray with the shapes of the list: the shapes are
    /// probed in order, each only for hits nearer than the nearest so far.
    pub fn hit<M, S: Fn(&T, &Ray, Scalar, Scalar) -> Option<HitRecord<M>>>(
        &self,
        r: &Ray,
        t_min: Scalar,
        t_max: Scalar,
        probe: &S,
    ) -> (out: Option<HitRecord<M>>)
        requires
            forall|i: int, bound: Scalar|
                0 <= i < self.list@.len() ==> #[trigger] call_requires(
                    probe,
                    (&self.list@[i], r, t_min, bound),
                ),
        ensures
            scan_yields(self.list@, 0, r, t_min, t_max, None, probe, out),
    {
        let mut closest_so_far = t_max;
        let mut rec: Option<HitRecord<M>> = None;
        let mut i: usize = 0;
        while i < self.list.len()
            invariant
                i <= self.list@.len(),
                forall|k: int, bound: Scalar|
                    0 <= k < self.list@.len() ==> #[trigger] call_requires(
                        probe,
                        (&self.list@[k], r, t_min, bound),
                    ),
                forall|out: Option<HitRecord<M>>|
                    scan_yields(self.list@, i as int, r, t_min, closest_so_far, rec, probe, out)
                        ==> scan_yields(self.list@, 0, r, t_min, t_max, None, probe, out),
            decreases self.list@.len() - i,
        {
            let ghost before_closest = closest_so_far;
            let ghost before_rec = rec;
            let found = probe(&self.list[i], r, t_min, closest_so_far);
            let ghost witness = found;
            match found {
                Some(x) => {
                    closest_so_far = x.t;
                    rec = Some(x);
                },
                None => {},
            }
            proof {
                assert forall|out: Option<HitRecord<M>>|
                    scan_yields(
                        self.list@,
                        i + 1,
                        r,
                        t_min,
                        closest_so_far,
                        rec,
                        probe,
                        out,
                    ) implies scan_yields(self.list@, 0, r, t_min, t_max, None, probe, out) by {
                    assert(call_ensures(
                        probe,
                        (&self.list@[i as int], r, t_min, before_closest),
                        witness,
                    ));
                    assert(scan_yields(
                        self.list@,
                        i as int,
                        r,
                        t_min,
                        before_closest,
                        before_rec,
                        probe,
                        out,
                    ));
                }
            }
            i += 1;
        }
        rec
    }
}

/// The box around a list of shapes, from the box of each: none where the
/// list is empty or some shape has none.
pub fn enclose_all(boxes: &Vec<Option<AABB>>) -> (out: Option<AABB>)
    ensures
        out == enclosing_all(boxes@),
{
    if boxes.len() < 1 {
        return None;
    }
    let mut so_far: AABB = match boxes[0] {
        Some(b) => b,
        None => {
            proof {
                lemma_enclosing_all_needs_every_box(boxes@, 0);
            }
            return None;
        },
    };
    let mut i: usize = 1;
    while i < boxes.len()
        invariant
            1 <= i <= boxes@.len(),
            enclosing_all(boxes@.take(i as int)) == Some(so_far),
        decreases boxes@.len() - i,
    {
        proof {
            assert(boxes@.take(i + 1).drop_last() =~= boxes@.take(i as int));
        }
        match boxes[i] {
            Some(b) => {
                so_far = surrounding_box(&b, &so_far);
            },
            None => {
                proof {
                    lemma_enclosing_all_needs_every_box(boxes@, i as int);
                }
                return None;
            },
        }
        i += 1;
    }
    proof {
        assert(boxes@.take(i as int) =~= boxes@);
    }
    Some(so_far)
}

/// A list in which some shape has no box has none.
pub proof fn lemma_enclosing_all_needs_every_box(boxes: Seq<Option<AABB>>, i: int)
    requires
        0 <= i < boxes.len(),
        boxes[i] is None,
    ensures
        enclosing_all(boxes) is None,
    decreases boxes.len(),
{
    if boxes.len() > 1 && i < boxes.len() - 1 {
        lemma_enclosing_all_needs_every_box(boxes.drop_last(), i);
    }
}

/// The box of a list of well-formed boxes is well-formed and encloses each.
pub proof fn lemma_enclosing_all_encloses(boxes: Seq<Option<AABB>>, i: int)
    requires
        0 <= i < boxes.len(),
        forall|k: int| 0 <= k < boxes.len() ==> (#[trigger] boxes[k]) is Some && boxes[k]->0.wf(),
    ensures
        enclosing_all(boxes) is Some,
        enclosing_all(boxes)->0.wf(),
        enclosing_all(boxes)->0.encloses(boxes[i]->0),
    decreases boxes.len(),
{
    if boxes.len() > 1 {
        let rest = boxes.drop_last();
        let last = boxes.last()->0;
        assert(forall|k: int| 0 <= k < rest.len() ==> rest[k] == boxes[k]);
        lemma_enclosing_all_encloses(rest, 0);
        let so_far = enclosing_all(rest)->0;
        crate::aabb::lemma_surrounding_is_least(last, so_far, last);
        if i < boxes.len() - 1 {
            lemma_enclosing_all_encloses(rest, i);
            assert(so_far.encloses(boxes[i]->0));
            let whole = surrounding(last, so_far);
            assert(whole.encloses(so_far));
            assert forall|k: int| 0 <= k < 3 implies {
                &&& #[trigger] whole.min.at(k).rank() <= boxes[i]->0.min.at(k).rank()
                &&& boxes[i]->0.max.at(k).rank() <= whole.max.at(k).rank()
            } by {
                assert(whole.min.at(k).rank() <= so_far.min.at(k).rank());
                assert(so_far.min.at(k).rank() <= boxes[i]->0.min.at(k).rank());
            }
        }
    }
}

/// `out` is the nearest of the hits of the shapes in `among`: no hit where
/// none of them is hit, and otherwise the hit of one of them, with no other
/// of them hit at a smaller parameter.
pub open spec fn is_nearest<M>(
    out: Option<HitRecord<M>>,
    hits: Seq<Option<HitRecord<M>>>,
    among: Set<usize>,
) -> bool {
    match out {
        None => forall|id: usize| among.contains(id) ==> (#[trigger] hits[id as int]) is None,
        Some(rec) => {
            &&& exists|id: usize| among.contains(id) && #[trigger] hits[id as int] == Some(rec)
            &&& forall|id: usize|
                among.contains(id) && (#[trigger] hits[id as int]) is Some ==> rec.t.rank()
                    <= hits[id as int]->0.t.rank()
        },
    }
}

/// The outcome of scanning the shapes `0 .. upto` one after the other, each
/// with the full range, and keeping the nearer hit.
pub open spec fn nearest_by_scan<M>(hits: Seq<Option<HitRecord<M>>>, upto: int) -> Option<
    HitRecord<M>,
>
    decreases upto,
{
    if upto <= 0 {
        None
    } else {
        nearer_of(nearest_by_scan(hits, upto - 1), hits[upto - 1])
    }
}

/// The nearer of the nearest hits of two groups of shapes is the nearest hit
/// of both groups together.
pub proof fn lemma_nearer_of_nearest<M>(
    left: Option<HitRecord<M>>,
    right: Option<HitRecord<M>>,
    hits: Seq<Option<HitRecord<M>>>,
    among_left: Set<usize>,
    among_right: Set<usize>,
)
    requires
        is_nearest(left, hits, among_left),
        is_nearest(right, hits, among_right),
        forall|i: int| 0 <= i < hits.len() && (#[trigger] hits[i]) is Some ==> !hits[i]->0.t.is_nan(),
        forall|id: usize| among_left.contains(id) || among_right.contains(id) ==> id < hits.len(),
    ensures
        is_nearest(nearer_of(left, right), hits, among_left.union(among_right)),
{
    let both = among_left.union(among_right);
    let out = nearer_of(left, right);
    if let Some(rec) = out {
        if let Some(l) = left {
            let il = choose|id: usize| among_left.contains(id) && #[trigger] hits[id as int] == Some(l);
            assert(!hits[il as int]->0.t.is_nan());
            if let Some(rr) = right {
                let ir = choose|id: usize|
                    among_right.contains(id) && #[trigger] hits[id as int] == Some(rr);
                assert(!hits[ir as int]->0.t.is_nan());
                if l.t.less(rr.t) {
                    assert(both.contains(il) && hits[il as int] == Some(rec));
                } else {
                    assert(both.contains(ir) && hits[ir as int] == Some(rec));
                }
            } else {
                assert(both.contains(il) && hits[il as int] == Some(rec));
            }
        } else {
            let rr = right->0;
            let ir = choose|id: usize|
                among_right.contains(id) && #[trigger] hits[id as int] == Some(rr);
            assert(both.contains(ir) && hits[ir as int] == Some(rec));
        }
    }
}

/// A scan of the first `upto` shapes finds the nearest of their hits.
pub proof fn lemma_scan_finds_nearest<M>(hits: Seq<Option<HitRecord<M>>>, upto: int)
    requires
        0 <= upto <= hits.len() <= usize::MAX,
        forall|i: int| 0 <= i < hits.len() && (#[trigger] hits[i]) is Some ==> !hits[i]->0.t.is_nan(),
    ensures
        is_nearest(nearest_by_scan(hits, upto), hits, Set::new(|id: usize| id < upto)),
    decreases upto,
{
    if upto > 0 {
        lemma_scan_finds_nearest(hits, upto - 1);
        let before = Set::new(|id: usize| id < upto - 1);
        let this = set![(upto - 1) as usize];
        let last = hits[upto - 1];
        assert(is_nearest(last, hits, this)) by {
            if last is Some {
                assert(this.contains((upto - 1) as usize));
            }
        }
        lemma_nearer_of_nearest(nearest_by_scan(hits, upto - 1), last, hits, before, this);
        assert(before.union(this) =~= Set::new(|id: usize| id < upto));
    }
}

/// Two outcomes agree where both miss, or both hit at the same parameter.
pub open spec fn same_distance<M>(one: Option<HitRecord<M>>, other: Option<HitRecord<M>>) -> bool {
    match (one, other) {
        (None, None) => true,
        (Some(a), Some(b)) => a.t.rank() == b.t.rank(),
        _ => false,
    }
}

/// A hit, where it lies below `bound`.
pub open spec fn below<M>(hit: Option<HitRecord<M>>, bound: Scalar) -> Option<HitRecord<M>> {
    match hit {
        Some(rec) => if rec.t.less(bound) {
            hit
        } else {
            None
        },
        None => None,
    }
}

/// What the law below asks of the probes of a list: probing shape `i` with an
/// upper bound gives the shape's hit `hits[i]` where that lies below the
/// bound, and nothing otherwise; and hit parameters are numbers.
pub open spec fn probes_are_regular<T, M, S: Fn(&T, &Ray, Scalar, Scalar) -> Option<HitRecord<M>>>(
    list: Seq<T>,
    hits: Seq<Option<HitRecord<M>>>,
    r: &Ray,
    t_min: Scalar,
    probe: &S,
) -> bool {
    &&& hits.len() == list.len()
    &&& forall|i: int, bound: Scalar, found: Option<HitRecord<M>>|
        0 <= i < list.len() && #[trigger] call_ensures(probe, (&list[i], r, t_min, bound), found)
            ==> found == below(hits[i], bound)
    &&& forall|i: int| 0 <= i < hits.len() && (#[trigger] hits[i]) is Some ==> !hits[i]->0.t.is_nan()
}

/// The hits of the shapes that lie below `bound`.
pub open spec fn all_below<M>(hits: Seq<Option<HitRecord<M>>>, bound: Scalar) -> Seq<
    Option<HitRecord<M>>,
> {
    Seq::new(hits.len(), |i: int| below(hits[i], bound))
}

proof fn lemma_scan_from<T, M, S: Fn(&T, &Ray, Scalar, Scalar) -> Option<HitRecord<M>>>(
    list: Seq<T>,
    hits: Seq<Option<HitRecord<M>>>,
    r: &Ray,
    t_min: Scalar,
    t_max: Scalar,
    probe: &S,
    from: int,
    closest: Scalar,
    best: Option<HitRecord<M>>,
    out: Option<HitRecord<M>>,
)
    requires
        probes_are_regular(list, hits, r, t_min, probe),
        list.len() <= usize::MAX,
        !t_max.is_nan(),
        0 <= from <= list.len(),
        scan_yields(list, from, r, t_min, closest, best, probe, out),
        is_nearest(best, all_below(hits, t_max), Set::new(|id: usize| id < from)),
        closest == match best {
            Some(rec) => rec.t,
            None => t_max,
        },
    ensures
        is_nearest(out, all_below(hits, t_max), Set::new(|id: usize| id < list.len())),
    decreases list.len() - from,
{
    let seen = all_below(hits, t_max);
    if from < list.len() {
        let found = choose|found: Option<HitRecord<M>>| #[trigger]
            call_ensures(probe, (&list[from], r, t_min, closest), found) && match found {
                Some(rec) => scan_yields(list, from + 1, r, t_min, rec.t, found, probe, out),
                None => scan_yields(list, from + 1, r, t_min, closest, best, probe, out),
            };
        assert(found == below(hits[from], closest));
        let before = Set::new(|id: usize| id < from);
        let after = Set::new(|id: usize| id < from + 1);
        let this = from as usize;
        assert(seen[from] == below(hits[from], t_max));
        if let Some(b) = best {
            let ib = choose|id: usize| before.contains(id) && #[trigger] seen[id as int] == Some(b);
            assert(hits[ib as int] is Some);
        }
        match found {
            Some(rec) => {
                assert(hits[from] == Some(rec));
                assert(seen[from] == Some(rec));
                assert(after.contains(this) && seen[this as int] == Some(rec));
                assert forall|id: usize|
                    after.contains(id) && (#[trigger] seen[id as int]) is Some implies rec.t.rank()
                    <= seen[id as int]->0.t.rank() by {
                    if id < from {
                        assert(before.contains(id));
                    }
                }
                lemma_scan_from(list, hits, r, t_min, t_max, probe, from + 1, rec.t, found, out);
            },
            None => {
                match best {
                    Some(b) => {
                        let ib = choose|id: usize|
                            before.contains(id) && #[trigger] seen[id as int] == Some(b);
                        assert(after.contains(ib));
                        assert forall|id: usize|
                            after.contains(id) && (#[trigger] seen[id as int])
                                is Some implies b.t.rank() <= seen[id as int]->0.t.rank() by {
                            if id < from {
                                assert(before.contains(id));
                            } else {
                                assert(hits[from] is Some);
                            }
                        }
                    },
                    None => {
                        assert forall|id: usize| after.contains(id) implies (
                        #[trigger] seen[id as int]) is None by {
                            if id < from {
                                assert(before.contains(id));
                            }
                        }
                    },
                }
                lemma_scan_from(list, hits, r, t_min, t_max, probe, from + 1, closest, best, out);
            },
        }
    }
}

/// The list finds the nearest hit: with regular probes, whatever a scan of
/// the list returns is the nearest of the hits of its shapes that lie below
/// `t_max`.
pub proof fn lemma_list_scan_finds_nearest<
    T,
    M,
    S: Fn(&T, &Ray, Scalar, Scalar) -> Option<HitRecord<M>>,
>(
    list: Seq<T>,
    hits: Seq<Option<HitRecord<M>>>,
    r: &Ray,
    t_min: Scalar,
    t_max: Scalar,
    probe: &S,
    out: Option<HitRecord<M>>,
)
    requires
        probes_are_regular(list, hits, r, t_min, probe),
        list.len() <= usize::MAX,
        !t_max.is_nan(),
        scan_yields(list, 0, r, t_min, t_max, None, probe, out),
    ensures
        is_nearest(out, all_below(hits, t_max), Set::new(|id: usize| id < list.len())),
{
    lemma_scan_from(list, hits, r, t_min, t_max, probe, 0, t_max, None, out);
}

} // verus!
