//! The bounding volume hierarchy: a binary tree over the shapes of a scene,
//! each node with the box around everything below it.
//!
//! Shapes are named by their position in the scene's list; the tree is built
//! from the boxes of the shapes alone.

use vstd::prelude::*;
use crate::aabb::{
    box_is_hit, is_hit_regularly, lemma_encloses_is_transitive, lemma_enclosing_box_is_hit,
    lemma_surrounding_is_least, slab_of, slabs_overlap, surrounding, surrounding_box, Slab, AABB,
};
use crate::hit::{
    is_nearest, lemma_nearer_of_nearest, lemma_scan_finds_nearest, nearer, nearer_of,
    nearest_by_scan, same_distance, HitRecord,
};
use crate::random::random_below;
use crate::scalar::Scalar;
use crate::vector::Ray;

verus! {

/// What hangs below a node: a shape of the scene, or another node.
pub enum BvhChild {
    Shape(usize),
    Node(Box<BVHNode>),
}

/// A node of the hierarchy. It always has two children; over a single shape,
/// both are that shape.
pub struct BVHNode {
    pub bbox: AABB,
    pub left: BvhChild,
    pub right: BvhChild,
}

/// The value by which shape `id` is ordered along `axis`: the rank of the low
/// corner of its box.
pub open spec fn sort_rank(boxes: Seq<AABB>, id: usize, axis: int) -> int {
    boxes[id as int].min.at(axis).rank()
}

/// The list is in ascending order along `axis`.
pub open spec fn sorted_along(list: Seq<usize>, boxes: Seq<AABB>, axis: int) -> bool {
    forall|a: int, b: int|
        0 <= a < b < list.len() ==> sort_rank(boxes, #[trigger] list[a], axis) <= sort_rank(
            boxes,
            #[trigger] list[b],
            axis,
        )
}

impl BvhChild {
    /// The shapes below.
    pub open spec fn shapes(self) -> Set<usize>
        decreases self,
    {
        match self {
            BvhChild::Shape(id) => set![id],
            BvhChild::Node(node) => node.shapes(),
        }
    }

    /// The box of a child: the shape's own, or the node's.
    pub open spec fn bounds(self, boxes: Seq<AABB>) -> AABB {
        match self {
            BvhChild::Shape(id) => boxes[id as int],
            BvhChild::Node(node) => node.bbox,
        }
    }

    /// A shape is one of the scene; a node is well-formed.
    pub open spec fn wf(self, boxes: Seq<AABB>) -> bool
        decreases self,
    {
        match self {
            BvhChild::Shape(id) => id < boxes.len(),
            BvhChild::Node(node) => node.wf(boxes),
        }
    }

    /// Every node below splits its shapes along an axis.
    pub open spec fn ordered(self, boxes: Seq<AABB>) -> bool
        decreases self,
    {
        match self {
            BvhChild::Shape(id) => true,
            BvhChild::Node(node) => node.ordered(boxes),
        }
    }

    /// The number of shapes below.
    pub open spec fn count(self) -> nat
        decreases self,
    {
        match self {
            BvhChild::Shape(id) => 1,
            BvhChild::Node(node) => node.count(),
        }
    }

    /// Every node below divides its shapes in the middle.
    pub open spec fn halved(self) -> bool
        decreases self,
    {
        match self {
            BvhChild::Shape(id) => true,
            BvhChild::Node(node) => node.halved(),
        }
    }

    /// The box of a child.
    pub fn bounding_box(&self, boxes: &Vec<AABB>) -> (b: AABB)
        requires
            self.wf(boxes@),
        ensures
            b == self.bounds(boxes@),
    {
        match self {
            BvhChild::Shape(id) => boxes[*id],
            BvhChild::Node(node) => node.bbox,
        }
    }
}

impl BVHNode {
    /// The shapes below the node.
    pub open spec fn shapes(self) -> Set<usize>
        decreases self,
    {
        self.left.shapes().union(self.right.shapes())
    }

    /// Every shape below is one of the scene, and every node's box is the box
    /// around the boxes of its two children.
    pub open spec fn wf(self, boxes: Seq<AABB>) -> bool
        decreases self,
    {
        &&& self.left.wf(boxes)
        &&& self.right.wf(boxes)
        &&& self.bbox == surrounding(self.left.bounds(boxes), self.right.bounds(boxes))
    }

    /// The number of shapes below the node. A node whose two children are
    /// one and the same shape counts it once.
    pub open spec fn count(self) -> nat
        decreases self,
    {
        match (self.left, self.right) {
            (BvhChild::Shape(a), BvhChild::Shape(b)) => if a == b {
                1
            } else {
                2
            },
            _ => self.left.count() + self.right.count(),
        }
    }

    /// The shapes are divided in the middle at every node: a node's children
    /// are two shapes or two nodes, and of two nodes the left one has half of
    /// the shapes, less the odd one.
    pub open spec fn halved(self) -> bool
        decreases self,
    {
        match (self.left, self.right) {
            (BvhChild::Shape(a), BvhChild::Shape(b)) => true,
            (BvhChild::Node(l), BvhChild::Node(r)) => l.count() == (l.count() + r.count()) / 2
                && l.halved() && r.halved(),
            _ => false,
        }
    }

    /// Along `axis`, no shape on the left lies after a shape on the right.
    pub open spec fn separates(self, boxes: Seq<AABB>, axis: int) -> bool {
        forall|a: usize, b: usize|
            self.left.shapes().contains(a) && self.right.shapes().contains(b) ==> sort_rank(
                boxes,
                a,
                axis,
            ) <= sort_rank(boxes, b, axis)
    }

    /// Every node splits its shapes along one of the three axes.
    pub open spec fn ordered(self, boxes: Seq<AABB>) -> bool
        decreases self,
    {
        &&& exists|axis: int| 0 <= axis < 3 && #[trigger] self.separates(boxes, axis)
        &&& self.left.ordered(boxes)
        &&& self.right.ordered(boxes)
    }
}

/// Shapes that are equal along `axis` stand in `after` in the order in which
/// they stand in `before`. (This speaks of lists that name no shape twice.)
pub open spec fn keeps_order_of_equals(
    before: Seq<usize>,
    after: Seq<usize>,
    boxes: Seq<AABB>,
    axis: int,
) -> bool {
    before.no_duplicates() ==> forall|i: int, j: int, a: int, b: int|
        #![trigger before[i], before[j], after[a], after[b]]
        0 <= i < j < before.len() && 0 <= a < after.len() && 0 <= b < after.len() && after[a]
            == before[i] && after[b] == before[j] && sort_rank(boxes, before[i], axis) == sort_rank(
            boxes,
            before[j],
            axis,
        ) ==> a < b
}

/// Sorts shape ids by the low corner of their boxes along `axis`, with
/// `slice::sort_by_key`. The contract claims what the documentation of that
/// function gives: the same ids come back, in ascending order of their keys,
/// and ids of equal key keep their order.
#[verifier::external_body]
fn sort_along(list: &mut Vec<usize>, boxes: &Vec<AABB>, axis: usize)
    requires
        axis < 3,
        forall|i: int| 0 <= i < old(list)@.len() ==> (#[trigger] old(list)@[i]) < boxes@.len(),
    ensures
        final(list)@.to_multiset() == old(list)@.to_multiset(),
        sorted_along(final(list)@, boxes@, axis as int),
        keeps_order_of_equals(old(list)@, final(list)@, boxes@, axis as int),
{
    list.sort_by_key(|id| boxes[*id].min.get(axis).order_key());
}

/// Two lists with the same elements, each as often in one as in the other,
/// have the same length and the same members.
pub proof fn lemma_same_members(a: Seq<usize>, b: Seq<usize>)
    requires
        a.to_multiset() == b.to_multiset(),
    ensures
        a.len() == b.len(),
        forall|x: usize| a.contains(x) <==> b.contains(x),
{
    a.to_multiset_ensures();
    b.to_multiset_ensures();
    assert forall|x: usize| a.contains(x) <==> b.contains(x) by {
        assert(a.contains(x) <==> a.to_multiset().count(x) > 0);
        assert(b.contains(x) <==> b.to_multiset().count(x) > 0);
    }
}

/// Orders the shapes of `list` along `axis` and cuts the list in the middle:
/// the first half holds the `len / 2` shapes that come first. Shapes that are
/// equal along the axis keep their order.
pub fn halve_along(list: Vec<usize>, boxes: &Vec<AABB>, axis: usize) -> (halves: (
    Vec<usize>,
    Vec<usize>,
))
    requires
        axis < 3,
        forall|i: int| 0 <= i < list@.len() ==> (#[trigger] list@[i]) < boxes@.len(),
    ensures
        (halves.0@ + halves.1@).to_multiset() == list@.to_multiset(),
        halves.0@.len() == list@.len() / 2,
        sorted_along(halves.0@ + halves.1@, boxes@, axis as int),
        keeps_order_of_equals(list@, halves.0@ + halves.1@, boxes@, axis as int),
{
    let mut first = list;
    sort_along(&mut first, boxes, axis);
    let ghost sorted = first@;
    proof {
        lemma_same_members(sorted, list@);
    }
    let half: usize = first.len() / 2;
    let second = first.split_off(half);
    proof {
        assert(first@ + second@ =~= sorted);
    }
    (first, second)
}

/// Builds the node over the shapes of `list`.
fn build(list: Vec<usize>, boxes: &Vec<AABB>) -> (node: BVHNode)
    requires
        list@.len() >= 1,
        list@.no_duplicates(),
        forall|i: int| 0 <= i < list@.len() ==> (#[trigger] list@[i]) < boxes@.len(),
    ensures
        node.wf(boxes@),
        node.ordered(boxes@),
        node.halved(),
        node.count() == list@.len(),
        node.shapes() =~= list@.to_set(),
    decreases list@.len(),
{
    let ghost original = list@;
    let size: usize = list.len();
    let axis = random_below(3);
    let (first, second) = halve_along(list, boxes, axis);
    let ghost sorted = first@ + second@;
    proof {
        lemma_same_members(sorted, original);
        original.lemma_multiset_has_no_duplicates();
        sorted.lemma_multiset_has_no_duplicates_conv();
        assert(first@.no_duplicates()) by {
            assert forall|i: int, j: int|
                0 <= i < first@.len() && 0 <= j < first@.len() && i != j implies first@[i]
                != first@[j] by {
                assert(first@[i] == sorted[i] && first@[j] == sorted[j]);
            }
        }
        assert(second@.no_duplicates()) by {
            assert forall|i: int, j: int|
                0 <= i < second@.len() && 0 <= j < second@.len() && i != j implies second@[i]
                != second@[j] by {
                assert(second@[i] == sorted[first@.len() + i] && second@[j] == sorted[first@.len()
                    + j]);
            }
        }
        if size == 2 {
            assert(first@[0] == sorted[0] && second@[0] == sorted[1]);
        }
        assert forall|i: int| 0 <= i < sorted.len() implies (#[trigger] sorted[i]) < boxes@.len() by {
            assert(sorted.contains(sorted[i]));
            assert(original.contains(sorted[i]));
        }
        assert forall|i: int| 0 <= i < first@.len() implies (#[trigger] first@[i]) < boxes@.len() by {
            assert(first@[i] == sorted[i]);
        }
        assert forall|i: int| 0 <= i < second@.len() implies (#[trigger] second@[i])
            < boxes@.len() by {
            assert(second@[i] == sorted[first@.len() + i]);
        }
    }
    let left: BvhChild;
    let right: BvhChild;
    if size == 1 {
        left = BvhChild::Shape(second[0]);
        right = BvhChild::Shape(second[0]);
    } else if size == 2 {
        left = BvhChild::Shape(first[0]);
        right = BvhChild::Shape(second[0]);
    } else {
        left = BvhChild::Node(Box::new(build(first, boxes)));
        right = BvhChild::Node(Box::new(build(second, boxes)));
    }
    let left_box = left.bounding_box(boxes);
    let right_box = right.bounding_box(boxes);
    let node = BVHNode { bbox: surrounding_box(&left_box, &right_box), left, right };
    proof {
        assert(node.left.shapes() =~= if size == 1 {
            second@.to_set()
        } else {
            first@.to_set()
        }) by {
            if size <= 2 {
                let this = if size == 1 {
                    second@
                } else {
                    first@
                };
                assert(this.len() == 1);
                assert forall|x: usize| this.to_set().contains(x) <==> x == this[0] by {
                    if x == this[0] {
                        assert(this.contains(this[0]));
                    }
                }
            }
        }
        assert(node.right.shapes() =~= second@.to_set()) by {
            if size <= 2 {
                assert(second@.len() == 1);
                assert forall|x: usize| second@.to_set().contains(x) <==> x == second@[0] by {
                    if x == second@[0] {
                        assert(second@.contains(second@[0]));
                    }
                }
            }
        }
        vstd::seq_lib::seq_to_set_distributes_over_add(first@, second@);
        if size == 1 {
            assert(first@ =~= Seq::<usize>::empty());
            assert(sorted =~= second@);
        }
        assert(node.shapes() =~= sorted.to_set());
        assert(sorted.to_set() =~= original.to_set());
        assert(node.separates(boxes@, axis as int)) by {
            assert forall|a: usize, b: usize|
                node.left.shapes().contains(a) && node.right.shapes().contains(
                    b,
                ) implies sort_rank(boxes@, a, axis as int) <= sort_rank(boxes@, b, axis as int) by {
                let j = choose|j: int| 0 <= j < second@.len() && second@[j] == b;
                assert(sorted[first@.len() + j] == b);
                if size == 1 {
                    assert(a == b);
                } else {
                    let i = choose|i: int| 0 <= i < first@.len() && first@[i] == a;
                    assert(sorted[i] == a);
                }
            }
        }
    }
    node
}

impl BVHNode {
    /// Builds the hierarchy over the shapes whose boxes are given: shape `i`
    /// is the one with box `boxes[i]`. At every node the shapes are ordered
    /// along an axis drawn at random and divided in the middle.
    ///
    /// Whatever axes are drawn, every shape of the scene comes to hang in the
    /// tree, every node's box is the box around its children's, and the
    /// shapes of each node are divided in the middle along one axis.
    pub fn new(boxes: &Vec<AABB>) -> (node: BVHNode)
        requires
            boxes@.len() >= 1,
        ensures
            node.wf(boxes@),
            node.ordered(boxes@),
            node.halved(),
            node.count() == boxes@.len(),
            forall|id: usize| node.shapes().contains(id) <==> id < boxes@.len(),
    {
        let mut list: Vec<usize> = Vec::new();
        let mut i: usize = 0;
        while i < boxes.len()
            invariant
                i <= boxes@.len(),
                list@.len() == i,
                forall|k: int| 0 <= k < i ==> list@[k] == k,
            decreases boxes@.len() - i,
        {
            list.push(i);
            i += 1;
        }
        let ghost ids = list@;
        let node = build(list, boxes);
        proof {
            assert forall|id: usize| node.shapes().contains(id) <==> id < boxes@.len() by {
                if id < boxes@.len() {
                    assert(ids[id as int] == id);
                    assert(ids.contains(id));
                }
            }
        }
        node
    }
}

impl BvhChild {
    /// What a traversal may return below this child: for a shape, what its
    /// probe gives; for a node, what the node's traversal gives.
    pub open spec fn yields<
        M,
        B: Fn(&AABB, &Ray) -> (Slab, Slab, Slab),
        S: Fn(usize, &Ray, Scalar, Scalar) -> Option<HitRecord<M>>,
    >(
        self,
        r: &Ray,
        t_min: Scalar,
        t_max: Scalar,
        crossings: &B,
        probe: &S,
        out: Option<HitRecord<M>>,
    ) -> bool
        decreases self,
    {
        match self {
            BvhChild::Shape(id) => call_ensures(probe, (id, r, t_min, t_max), out),
            BvhChild::Node(node) => node.yields(r, t_min, t_max, crossings, probe, out),
        }
    }

    /// The nearest hit below this child.
    pub fn hit<
        M,
        B: Fn(&AABB, &Ray) -> (Slab, Slab, Slab),
        S: Fn(usize, &Ray, Scalar, Scalar) -> Option<HitRecord<M>>,
    >(&self, r: &Ray, t_min: Scalar, t_max: Scalar, crossings: &B, probe: &S) -> (out: Option<
        HitRecord<M>,
    >)
        requires
            forall|b: AABB| #[trigger] call_requires(crossings, (&b, r)),
            forall|id: usize|
                self.shapes().contains(id) ==> #[trigger] call_requires(
                    probe,
                    (id, r, t_min, t_max),
                ),
        ensures
            self.yields(r, t_min, t_max, crossings, probe, out),
        decreases self,
    {
        match self {
            BvhChild::Shape(id) => {
                assert(self.shapes().contains(*id));
                probe(*id, r, t_min, t_max)
            },
            BvhChild::Node(node) => node.hit(r, t_min, t_max, crossings, probe),
        }
    }
}

impl BVHNode {
    /// What a traversal of the node may return. The ray's crossings with the
    /// node's box are computed and the box is tested. Where the ray misses
    /// the box, there is no hit. Where it hits it, both children are traversed,
    /// whatever the first one gave, and the nearer of their two outcomes is
    /// the node's.
    pub open spec fn yields<
        M,
        B: Fn(&AABB, &Ray) -> (Slab, Slab, Slab),
        S: Fn(usize, &Ray, Scalar, Scalar) -> Option<HitRecord<M>>,
    >(
        self,
        r: &Ray,
        t_min: Scalar,
        t_max: Scalar,
        crossings: &B,
        probe: &S,
        out: Option<HitRecord<M>>,
    ) -> bool
        decreases self,
    {
        exists|slabs: (Slab, Slab, Slab)| #[trigger]
            call_ensures(crossings, (&self.bbox, r), slabs) && if self.bbox.is_ordered()
                && slabs_overlap(slabs.0, slabs.1, slabs.2, t_min, t_max) {
                exists|l: Option<HitRecord<M>>, rr: Option<HitRecord<M>>|
                    #![trigger nearer_of(l, rr)]
                    self.left.yields(r, t_min, t_max, crossings, probe, l) && self.right.yields(
                        r,
                        t_min,
                        t_max,
                        crossings,
                        probe,
                        rr,
                    ) && out == nearer_of(l, rr)
            } else {
                out is None
            }
    }

    /// The nearest hit of a ray with the shapes of the hierarchy.
    ///
    /// `crossings` computes the parameters at which the ray crosses the six
    /// planes of a box, and `probe` intersects the ray with one shape of the
    /// scene.
    pub fn hit<
        M,
        B: Fn(&AABB, &Ray) -> (Slab, Slab, Slab),
        S: Fn(usize, &Ray, Scalar, Scalar) -> Option<HitRecord<M>>,
    >(&self, r: &Ray, t_min: Scalar, t_max: Scalar, crossings: &B, probe: &S) -> (out: Option<
        HitRecord<M>,
    >)
        requires
            forall|b: AABB| #[trigger] call_requires(crossings, (&b, r)),
            forall|id: usize|
                self.shapes().contains(id) ==> #[trigger] call_requires(
                    probe,
                    (id, r, t_min, t_max),
                ),
        ensures
            self.yields(r, t_min, t_max, crossings, probe, out),
        decreases self,
    {
        let slabs = crossings(&self.bbox, r);
        if self.bbox.hit(&slabs.0, &slabs.1, &slabs.2, t_min, t_max) {
            let left_rec = self.left.hit(r, t_min, t_max, crossings, probe);
            let right_rec = self.right.hit(r, t_min, t_max, crossings, probe);
            let ghost l = left_rec;
            let ghost rr = right_rec;
            let out = nearer(left_rec, right_rec);
            proof {
                assert(out == nearer_of(l, rr));
                assert(call_ensures(crossings, (&self.bbox, r), slabs));
            }
            out
        } else {
            proof {
                assert(call_ensures(crossings, (&self.bbox, r), slabs));
            }
            None
        }
    }

    /// The box of the node.
    pub fn bounding_box(&self) -> (b: AABB)
        ensures
            b == self.bbox,
    {
        self.bbox
    }
}

/// What the law below asks of a scene and a ray: boxes are well-formed; the
/// crossing computation and the probes are functions of their arguments;
/// along each axis the ray moves, or it stands at the rank given for that
/// axis; a shape that the ray hits has a box that the ray hits, and that is
/// not a flat box that holds a ray which does not move along the axis of its
/// flatness; and hit parameters are numbers.
pub open spec fn scene_is_regular<
    M,
    B: Fn(&AABB, &Ray) -> (Slab, Slab, Slab),
    S: Fn(usize, &Ray, Scalar, Scalar) -> Option<HitRecord<M>>,
>(
    boxes: Seq<AABB>,
    hits: Seq<Option<HitRecord<M>>>,
    r: &Ray,
    t_min: Scalar,
    t_max: Scalar,
    crossings: &B,
    probe: &S,
    cx: spec_fn(Scalar) -> Scalar,
    cy: spec_fn(Scalar) -> Scalar,
    cz: spec_fn(Scalar) -> Scalar,
    ax: int,
    ay: int,
    az: int,
) -> bool {
    &&& hits.len() == boxes.len()
    &&& forall|i: int| 0 <= i < boxes.len() ==> (#[trigger] boxes[i]).wf()
    &&& forall|b: AABB, slabs: (Slab, Slab, Slab)| #[trigger]
        call_ensures(crossings, (&b, r), slabs) ==> slabs == (
            slab_of(b, 0, cx),
            slab_of(b, 1, cy),
            slab_of(b, 2, cz),
        )
    &&& forall|id: usize, found: Option<HitRecord<M>>|
        id < boxes.len() && #[trigger] call_ensures(probe, (id, r, t_min, t_max), found) ==> found
            == hits[id as int]
    &&& forall|i: int|
        0 <= i < hits.len() && (#[trigger] hits[i]) is Some ==> !hits[i]->0.t.is_nan()
            && is_hit_regularly(boxes[i], cx, cy, cz, ax, ay, az, t_min, t_max)
}

/// The box of a node is well-formed and encloses the box of every shape
/// below the node.
pub proof fn lemma_node_box_encloses(node: BVHNode, boxes: Seq<AABB>, id: usize)
    requires
        node.wf(boxes),
        forall|i: int| 0 <= i < boxes.len() ==> (#[trigger] boxes[i]).wf(),
        node.shapes().contains(id),
    ensures
        id < boxes.len(),
        node.bbox.wf(),
        node.bbox.encloses(boxes[id as int]),
    decreases node,
{
    lemma_child_box_is_wf(node.left, boxes);
    lemma_child_box_is_wf(node.right, boxes);
    let lb = node.left.bounds(boxes);
    let rb = node.right.bounds(boxes);
    lemma_surrounding_is_least(lb, rb, lb);
    if node.left.shapes().contains(id) {
        lemma_child_box_encloses(node.left, boxes, id);
        lemma_encloses_is_transitive(node.bbox, lb, boxes[id as int]);
    } else {
        lemma_child_box_encloses(node.right, boxes, id);
        lemma_encloses_is_transitive(node.bbox, rb, boxes[id as int]);
    }
}

proof fn lemma_child_box_is_wf(child: BvhChild, boxes: Seq<AABB>)
    requires
        child.wf(boxes),
        forall|i: int| 0 <= i < boxes.len() ==> (#[trigger] boxes[i]).wf(),
    ensures
        child.bounds(boxes).wf(),
    decreases child,
{
    match child {
        BvhChild::Shape(id) => {},
        BvhChild::Node(node) => {
            lemma_child_box_is_wf(node.left, boxes);
            lemma_child_box_is_wf(node.right, boxes);
            lemma_surrounding_is_least(
                node.left.bounds(boxes),
                node.right.bounds(boxes),
                node.bbox,
            );
        },
    }
}

proof fn lemma_child_box_encloses(child: BvhChild, boxes: Seq<AABB>, id: usize)
    requires
        child.wf(boxes),
        forall|i: int| 0 <= i < boxes.len() ==> (#[trigger] boxes[i]).wf(),
        child.shapes().contains(id),
    ensures
        id < boxes.len(),
        child.bounds(boxes).encloses(boxes[id as int]),
    decreases child,
{
    match child {
        BvhChild::Shape(own) => {
            assert(own == id);
            assert(boxes[id as int].wf());
        },
        BvhChild::Node(node) => {
            lemma_node_box_encloses(*node, boxes, id);
        },
    }
}

/// The hierarchy finds the nearest hit: on a regular scene, whatever a
/// traversal of a well-formed node returns is the nearest of the hits of the
/// shapes below the node.
pub proof fn lemma_traversal_finds_nearest<
    M,
    B: Fn(&AABB, &Ray) -> (Slab, Slab, Slab),
    S: Fn(usize, &Ray, Scalar, Scalar) -> Option<HitRecord<M>>,
>(
    node: BVHNode,
    boxes: Seq<AABB>,
    hits: Seq<Option<HitRecord<M>>>,
    r: &Ray,
    t_min: Scalar,
    t_max: Scalar,
    crossings: &B,
    probe: &S,
    cx: spec_fn(Scalar) -> Scalar,
    cy: spec_fn(Scalar) -> Scalar,
    cz: spec_fn(Scalar) -> Scalar,
    ax: int,
    ay: int,
    az: int,
    out: Option<HitRecord<M>>,
)
    requires
        node.wf(boxes),
        scene_is_regular(boxes, hits, r, t_min, t_max, crossings, probe, cx, cy, cz, ax, ay, az),
        node.yields(r, t_min, t_max, crossings, probe, out),
    ensures
        is_nearest(out, hits, node.shapes()),
    decreases node,
{
    let slabs = choose|slabs: (Slab, Slab, Slab)| #[trigger]
        call_ensures(crossings, (&node.bbox, r), slabs) && if node.bbox.is_ordered()
            && slabs_overlap(slabs.0, slabs.1, slabs.2, t_min, t_max) {
            exists|l: Option<HitRecord<M>>, rr: Option<HitRecord<M>>|
                #![trigger nearer_of(l, rr)]
                node.left.yields(r, t_min, t_max, crossings, probe, l) && node.right.yields(
                    r,
                    t_min,
                    t_max,
                    crossings,
                    probe,
                    rr,
                ) && out == nearer_of(l, rr)
        } else {
            out is None
        };
    assert(slabs == (slab_of(node.bbox, 0, cx), slab_of(node.bbox, 1, cy), slab_of(node.bbox, 2, cz)));
    if node.bbox.is_ordered() && slabs_overlap(slabs.0, slabs.1, slabs.2, t_min, t_max) {
        let (l, rr) = choose|l: Option<HitRecord<M>>, rr: Option<HitRecord<M>>|
            #![trigger nearer_of(l, rr)]
            node.left.yields(r, t_min, t_max, crossings, probe, l) && node.right.yields(
                r,
                t_min,
                t_max,
                crossings,
                probe,
                rr,
            ) && out == nearer_of(l, rr);
        lemma_child_finds_nearest(node.left, boxes, hits, r, t_min, t_max, crossings, probe, cx, cy, cz, ax, ay, az, l);
        lemma_child_finds_nearest(node.right, boxes, hits, r, t_min, t_max, crossings, probe, cx, cy, cz, ax, ay, az, rr);
        assert forall|id: usize|
            node.left.shapes().contains(id) || node.right.shapes().contains(id) implies id
            < hits.len() by {
            lemma_node_box_encloses(node, boxes, id);
        }
        lemma_nearer_of_nearest(l, rr, hits, node.left.shapes(), node.right.shapes());
    } else {
        assert forall|id: usize| node.shapes().contains(id) implies (#[trigger] hits[id as int])
            is None by {
            lemma_node_box_encloses(node, boxes, id);
            if hits[id as int] is Some {
                lemma_enclosing_box_is_hit(
                    boxes[id as int],
                    node.bbox,
                    cx,
                    cy,
                    cz,
                    ax,
                    ay,
                    az,
                    t_min,
                    t_max,
                );
            }
        }
    }
}

proof fn lemma_child_finds_nearest<
    M,
    B: Fn(&AABB, &Ray) -> (Slab, Slab, Slab),
    S: Fn(usize, &Ray, Scalar, Scalar) -> Option<HitRecord<M>>,
>(
    child: BvhChild,
    boxes: Seq<AABB>,
    hits: Seq<Option<HitRecord<M>>>,
    r: &Ray,
    t_min: Scalar,
    t_max: Scalar,
    crossings: &B,
    probe: &S,
    cx: spec_fn(Scalar) -> Scalar,
    cy: spec_fn(Scalar) -> Scalar,
    cz: spec_fn(Scalar) -> Scalar,
    ax: int,
    ay: int,
    az: int,
    out: Option<HitRecord<M>>,
)
    requires
        child.wf(boxes),
        scene_is_regular(boxes, hits, r, t_min, t_max, crossings, probe, cx, cy, cz, ax, ay, az),
        child.yields(r, t_min, t_max, crossings, probe, out),
    ensures
        is_nearest(out, hits, child.shapes()),
    decreases child,
{
    match child {
        BvhChild::Shape(id) => {
            assert(out == hits[id as int]);
            assert(child.shapes().contains(id));
            if let Some(rec) = out {
                assert(!hits[id as int]->0.t.is_nan());
            }
        },
        BvhChild::Node(node) => {
            lemma_traversal_finds_nearest(
                *node,
                boxes,
                hits,
                r,
                t_min,
                t_max,
                crossings,
                probe,
                cx,
                cy,
                cz,
                ax,
                ay,
                az,
                out,
            );
        },
    }
}

/// The hierarchy agrees with the scan: on a regular scene, a traversal of a
/// well-formed hierarchy over all the shapes misses where a scan of all the
/// shapes misses, and hits at the same parameter where the scan hits.
pub proof fn lemma_hierarchy_agrees_with_scan<
    M,
    B: Fn(&AABB, &Ray) -> (Slab, Slab, Slab),
    S: Fn(usize, &Ray, Scalar, Scalar) -> Option<HitRecord<M>>,
>(
    node: BVHNode,
    boxes: Seq<AABB>,
    hits: Seq<Option<HitRecord<M>>>,
    r: &Ray,
    t_min: Scalar,
    t_max: Scalar,
    crossings: &B,
    probe: &S,
    cx: spec_fn(Scalar) -> Scalar,
    cy: spec_fn(Scalar) -> Scalar,
    cz: spec_fn(Scalar) -> Scalar,
    ax: int,
    ay: int,
    az: int,
    out: Option<HitRecord<M>>,
)
    requires
        boxes.len() <= usize::MAX,
        node.wf(boxes),
        forall|id: usize| node.shapes().contains(id) <==> id < boxes.len(),
        scene_is_regular(boxes, hits, r, t_min, t_max, crossings, probe, cx, cy, cz, ax, ay, az),
        node.yields(r, t_min, t_max, crossings, probe, out),
    ensures
        same_distance(out, nearest_by_scan(hits, hits.len() as int)),
{
    let all = Set::new(|id: usize| id < hits.len());
    let scan = nearest_by_scan(hits, hits.len() as int);
    lemma_traversal_finds_nearest(node, boxes, hits, r, t_min, t_max, crossings, probe, cx, cy, cz, ax, ay, az, out);
    lemma_scan_finds_nearest(hits, hits.len() as int);
    assert(node.shapes() =~= all);
    if let Some(a) = out {
        let ia = choose|id: usize| all.contains(id) && #[trigger] hits[id as int] == Some(a);
        assert(hits[ia as int] is Some);
        if let Some(b) = scan {
            let ib = choose|id: usize| all.contains(id) && #[trigger] hits[id as int] == Some(b);
            assert(hits[ib as int] is Some);
        }
    } else {
        if let Some(b) = scan {
            let ib = choose|id: usize| all.contains(id) && #[trigger] hits[id as int] == Some(b);
            assert(hits[ib as int] is Some);
        }
    }
}

} // verus!
