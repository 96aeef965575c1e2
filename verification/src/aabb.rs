//! Axis-aligned bounding boxes and the hierarchy built over them.
//!
//! The corners of a box are numbers in binary32 encoding. A box surrounds
//! others by taking the smaller and the larger of their corners, a hierarchy
//! orders primitives by the lower corners of their boxes, and a ray is sent
//! down a hierarchy by comparing distances: all of this needs comparisons
//! only. Where a ray crosses the planes of a box, and where it hits a
//! primitive, takes arithmetic and is left to the caller.

use crate::rand_gen::get_rand_int_range;
use crate::ray::{is_nearest, is_within, strikes_exactly};
use crate::scalar::{
    lemma_keys_order, lemma_lesser_and_greater, Scalar, Vec3, INFINITY_BITS, ZERO_BITS,
};
use crate::sequence::{lemma_entry_of_permutation, lemma_swap_keeps_entries};
use vstd::prelude::*;

verus! {

/// A box with sides parallel to the axes, given by its lower and its upper
/// corner.
#[derive(Clone, Copy, Debug, PartialEq, Eq, Structural)]
pub struct AxisAlignedBoundingBox {
    pub minimum: Vec3,
    pub maximum: Vec3,
}

impl AxisAlignedBoundingBox {
    /// Whether every coordinate of both corners is a number.
    pub open spec fn is_numeric(self) -> bool {
        self.minimum.is_numeric() && self.maximum.is_numeric()
    }

    /// Whether the lower corner lies no higher than the upper one along
    /// every axis.
    pub open spec fn well_formed(self) -> bool {
        &&& self.is_numeric()
        &&& forall|axis: int|
            0 <= axis < 3 ==> self.minimum.at(axis).value() <= self.maximum.at(axis).value()
    }

    /// Whether `other` lies inside this box.
    pub open spec fn contains(self, other: AxisAlignedBoundingBox) -> bool {
        forall|axis: int|
            0 <= axis < 3 ==> self.minimum.at(axis).value() <= other.minimum.at(axis).value()
                && other.maximum.at(axis).value() <= self.maximum.at(axis).value()
    }

    /// The box around this box and `other`: the smaller of the lower
    /// corners and the larger of the upper ones.
    pub open spec fn union(self, other: AxisAlignedBoundingBox) -> AxisAlignedBoundingBox {
        AxisAlignedBoundingBox {
            minimum: self.minimum.lesser(other.minimum),
            maximum: self.maximum.greater(other.maximum),
        }
    }

    /// The box with the given corners.
    pub fn new(minimum: Vec3, maximum: Vec3) -> (bbox: Self)
        ensures
            bbox == (AxisAlignedBoundingBox { minimum, maximum }),
    {
        AxisAlignedBoundingBox { minimum, maximum }
    }

    /// Decides whether a ray passes through the box between `t_min` and
    /// `t_max`, given where it crosses the planes of the box along each
    /// axis: it does where some stretch of it within that range lies inside
    /// all three slabs at once, the range being narrowed from axis to axis.
    pub fn hit(slabs: &[Slab; 3], t_min: Scalar, t_max: Scalar) -> (through: bool)
        ensures
            through == passes_through(slabs[0], slabs[1], slabs[2], t_min, t_max),
    {
        let (entry0, exit0) = slabs[0].crossing();
        let (entry1, exit1) = slabs[1].crossing();
        let (entry2, exit2) = slabs[2].crossing();
        let from = t_min.max(entry0).max(entry1).max(entry2);
        let to = t_max.min(exit0).min(exit1).min(exit2);
        from.less_than(&to)
    }

    /// The corner of the box that lies at the upper bound along the axes
    /// that `upper` names, and at the lower bound along the others.
    pub open spec fn corner(self, upper: (bool, bool, bool)) -> Vec3 {
        Vec3 {
            x: if upper.0 {
                self.maximum.x
            } else {
                self.minimum.x
            },
            y: if upper.1 {
                self.maximum.y
            } else {
                self.minimum.y
            },
            z: if upper.2 {
                self.maximum.z
            } else {
                self.minimum.z
            },
        }
    }

    /// The eight corners of the box: corner number `4 * i + 2 * j + k` lies
    /// at the upper bound along the first axis where `i` is one, along the
    /// second where `j` is one and along the third where `k` is one.
    pub fn corners(&self) -> (all: Vec<Vec3>)
        ensures
            all@ == corners_of(*self),
            forall|i: int, j: int, k: int|
                0 <= i < 2 && 0 <= j < 2 && 0 <= k < 2 ==> #[trigger] all@[4 * i + 2 * j + k]
                    == self.corner((i == 1, j == 1, k == 1)),
    {
        let mut all: Vec<Vec3> = Vec::new();
        let mut n: usize = 0;
        while n < 8
            invariant
                n <= 8,
                all@.len() == n,
                forall|i: int, j: int, k: int|
                    0 <= i < 2 && 0 <= j < 2 && 0 <= k < 2 && 4 * i + 2 * j + k < n
                        ==> #[trigger] all@[4 * i + 2 * j + k] == self.corner(
                        (i == 1, j == 1, k == 1),
                    ),
            decreases 8 - n,
        {
            let x = if n / 4 == 1 {
                self.maximum.x
            } else {
                self.minimum.x
            };
            let y = if (n / 2) % 2 == 1 {
                self.maximum.y
            } else {
                self.minimum.y
            };
            let z = if n % 2 == 1 {
                self.maximum.z
            } else {
                self.minimum.z
            };
            all.push(Vec3 { x, y, z });
            n = n + 1;
        }
        assert(all@ =~= corners_of(*self)) by {
            assert forall|n: int| 0 <= n < 8 implies all@[n] == corners_of(*self)[n] by {
                let i = n / 4;
                let j = (n / 2) % 2;
                let k = n % 2;
                assert(n == 4 * i + 2 * j + k);
                assert(all@[4 * i + 2 * j + k] == self.corner((i == 1, j == 1, k == 1)));
            }
        }
        all
    }

    /// The box around a list of points: from the smallest to the largest
    /// coordinate along each axis. The box around no point reaches from
    /// positive to negative infinity.
    pub fn around_points(points: &Vec<Vec3>) -> (around: Self)
        ensures
            around == box_around(points@),
    {
        let up = Scalar { bits: INFINITY_BITS };
        let down = Scalar { bits: NEGATIVE_INFINITY_BITS };
        let mut around = AxisAlignedBoundingBox {
            minimum: Vec3 { x: up, y: up, z: up },
            maximum: Vec3 { x: down, y: down, z: down },
        };
        let mut i: usize = 0;
        while i < points.len()
            invariant
                i <= points@.len(),
                around == box_around(points@.take(i as int)),
            decreases points@.len() - i,
        {
            assert(points@.take(i + 1).drop_last() =~= points@.take(i as int));
            let point = points[i];
            around = AxisAlignedBoundingBox {
                minimum: Vec3 {
                    x: around.minimum.x.min(point.x),
                    y: around.minimum.y.min(point.y),
                    z: around.minimum.z.min(point.z),
                },
                maximum: Vec3 {
                    x: around.maximum.x.max(point.x),
                    y: around.maximum.y.max(point.y),
                    z: around.maximum.z.max(point.z),
                },
            };
            i = i + 1;
        }
        assert(points@.take(i as int) =~= points@);
        around
    }

    /// The box around two boxes. A box that is absent is absorbed by the
    /// other one.
    pub fn surrounding_box(bbox0: Option<Self>, bbox1: Option<Self>) -> (around: Option<Self>)
        ensures
            around == surrounding(bbox0, bbox1),
    {
        match (bbox0, bbox1) {
            (Some(b0), Some(b1)) => {
                let minimum = Vec3 {
                    x: b0.minimum.x.min(b1.minimum.x),
                    y: b0.minimum.y.min(b1.minimum.y),
                    z: b0.minimum.z.min(b1.minimum.z),
                };
                let maximum = Vec3 {
                    x: b0.maximum.x.max(b1.maximum.x),
                    y: b0.maximum.y.max(b1.maximum.y),
                    z: b0.maximum.z.max(b1.maximum.z),
                };
                Some(AxisAlignedBoundingBox { minimum, maximum })
            },
            (Some(b), None) => Some(b),
            (None, Some(b)) => Some(b),
            (None, None) => None,
        }
    }

    /// The box around all the boxes of a list, taken in order. Nothing
    /// where the list holds no box.
    pub fn surrounding_all(boxes: &Vec<Option<Self>>) -> (around: Option<Self>)
        ensures
            around == surrounding_of_all(boxes@),
    {
        let mut around: Option<Self> = None;
        let mut i: usize = 0;
        while i < boxes.len()
            invariant
                i <= boxes@.len(),
                around == surrounding_of_all(boxes@.take(i as int)),
            decreases boxes@.len() - i,
        {
            assert(boxes@.take(i + 1).drop_last() =~= boxes@.take(i as int));
            around = Self::surrounding_box(around, boxes[i]);
            i = i + 1;
        }
        assert(boxes@.take(i as int) =~= boxes@);
        around
    }
}

/// Where a ray crosses the two planes that bound a box along one axis: the
/// inverse of the ray's direction along the axis, and the ray parameters at
/// the plane of the lower and of the upper corner.
#[derive(Clone, Copy, Debug, PartialEq, Eq, Structural)]
pub struct Slab {
    pub inverse: Scalar,
    pub t0: Scalar,
    pub t1: Scalar,
}

impl Slab {
    /// Whether the ray runs backward along the axis.
    pub open spec fn is_backward(self) -> bool {
        self.inverse.is_below(Scalar { bits: ZERO_BITS })
    }

    /// The parameter at which the ray enters the slab: that of the lower
    /// plane, or of the upper one for a ray that runs backward.
    pub open spec fn entry(self) -> Scalar {
        if self.is_backward() {
            self.t1
        } else {
            self.t0
        }
    }

    /// The parameter at which the ray leaves the slab.
    pub open spec fn exit(self) -> Scalar {
        if self.is_backward() {
            self.t0
        } else {
            self.t1
        }
    }

    /// Whether the ray is inside the slab somewhere between `t_min` and
    /// `t_max`: whether the later of `t_min` and the entry comes before the
    /// earlier of `t_max` and the exit.
    pub open spec fn overlaps(self, t_min: Scalar, t_max: Scalar) -> bool {
        t_min.greater(self.entry()).is_below(t_max.lesser(self.exit()))
    }

    /// The parameters at which the ray enters and leaves the slab.
    pub fn crossing(&self) -> (ends: (Scalar, Scalar))
        ensures
            ends == (self.entry(), self.exit()),
    {
        let zero = Scalar { bits: ZERO_BITS };
        if self.inverse.less_than(&zero) {
            (self.t1, self.t0)
        } else {
            (self.t0, self.t1)
        }
    }

    /// Decides whether the ray is inside the slab somewhere between `t_min`
    /// and `t_max`.
    pub fn hit(&self, t_min: Scalar, t_max: Scalar) -> (inside: bool)
        ensures
            inside == self.overlaps(t_min, t_max),
    {
        let (entry, exit) = self.crossing();
        let from = t_min.max(entry);
        let to = t_max.min(exit);
        from.less_than(&to)
    }
}

/// Whether a ray that crosses the three slabs of a box passes through the
/// box between `t_min` and `t_max`: whether the latest of `t_min` and the
/// three entries comes before the earliest of `t_max` and the three exits.
pub open spec fn passes_through(
    x: Slab,
    y: Slab,
    z: Slab,
    t_min: Scalar,
    t_max: Scalar,
) -> bool {
    t_min.greater(x.entry()).greater(y.entry()).greater(z.entry()).is_below(
        t_max.lesser(x.exit()).lesser(y.exit()).lesser(z.exit()),
    )
}

/// The slab test along an axis on which the ray runs backward is the test
/// with the two planes exchanged on a ray that runs forward: the ray enters
/// and leaves at the same parameters, so that the test of a box gives the
/// same with the one slab as with the other.
pub proof fn lemma_backward_slab(
    backward: Slab,
    forward: Slab,
    y: Slab,
    z: Slab,
    t_min: Scalar,
    t_max: Scalar,
)
    requires
        backward.is_backward(),
        !forward.is_backward(),
        forward.t0 == backward.t1,
        forward.t1 == backward.t0,
    ensures
        backward.entry() == forward.entry(),
        backward.exit() == forward.exit(),
        backward.overlaps(t_min, t_max) == forward.overlaps(t_min, t_max),
        passes_through(backward, y, z, t_min, t_max) == passes_through(forward, y, z, t_min, t_max),
        passes_through(y, backward, z, t_min, t_max) == passes_through(y, forward, z, t_min, t_max),
        passes_through(y, z, backward, t_min, t_max) == passes_through(y, z, forward, t_min, t_max),
{
}

/// A ray that passes through a box is inside each of its slabs somewhere in
/// the range, as long as the parameters are numbers.
pub proof fn lemma_through_box_is_in_each_slab(
    x: Slab,
    y: Slab,
    z: Slab,
    t_min: Scalar,
    t_max: Scalar,
)
    requires
        passes_through(x, y, z, t_min, t_max),
        !t_min.is_nan() && !t_max.is_nan(),
        !x.entry().is_nan() && !x.exit().is_nan(),
        !y.entry().is_nan() && !y.exit().is_nan(),
        !z.entry().is_nan() && !z.exit().is_nan(),
    ensures
        x.overlaps(t_min, t_max),
        y.overlaps(t_min, t_max),
        z.overlaps(t_min, t_max),
{
    let from_x = t_min.greater(x.entry());
    let from_xy = from_x.greater(y.entry());
    let to_x = t_max.lesser(x.exit());
    let to_xy = to_x.lesser(y.exit());
    lemma_lesser_and_greater(t_min, x.entry());
    lemma_lesser_and_greater(from_x, y.entry());
    lemma_lesser_and_greater(from_xy, z.entry());
    lemma_lesser_and_greater(t_max, x.exit());
    lemma_lesser_and_greater(to_x, y.exit());
    lemma_lesser_and_greater(to_xy, z.exit());
    lemma_lesser_and_greater(t_min, y.entry());
    lemma_lesser_and_greater(t_min, z.entry());
    lemma_lesser_and_greater(t_max, y.exit());
    lemma_lesser_and_greater(t_max, z.exit());
}

/// The pattern of negative infinity.
pub const NEGATIVE_INFINITY_BITS: u32 = 0xff80_0000;

/// The box around the points of a list, from the first to the last.
pub open spec fn box_around(points: Seq<Vec3>) -> AxisAlignedBoundingBox
    decreases points.len(),
{
    if points.len() == 0 {
        AxisAlignedBoundingBox {
            minimum: Vec3 {
                x: Scalar { bits: INFINITY_BITS },
                y: Scalar { bits: INFINITY_BITS },
                z: Scalar { bits: INFINITY_BITS },
            },
            maximum: Vec3 {
                x: Scalar { bits: NEGATIVE_INFINITY_BITS },
                y: Scalar { bits: NEGATIVE_INFINITY_BITS },
                z: Scalar { bits: NEGATIVE_INFINITY_BITS },
            },
        }
    } else {
        let before = box_around(points.drop_last());
        AxisAlignedBoundingBox {
            minimum: before.minimum.lesser(points.last()),
            maximum: before.maximum.greater(points.last()),
        }
    }
}

/// The box around points that are made of numbers contains each of them.
pub proof fn lemma_box_around_contains(points: Seq<Vec3>, i: int)
    requires
        0 <= i < points.len(),
        forall|j: int| 0 <= j < points.len() ==> (#[trigger] points[j]).is_numeric(),
    ensures
        box_around(points).is_numeric(),
        box_around(points).contains(
            AxisAlignedBoundingBox { minimum: points[i], maximum: points[i] },
        ),
    decreases points.len(),
{
    let before = box_around(points.drop_last());
    let last = points.last();
    lemma_box_around_is_numeric(points.drop_last());
    lemma_lesser_and_greater(before.minimum.x, last.x);
    lemma_lesser_and_greater(before.minimum.y, last.y);
    lemma_lesser_and_greater(before.minimum.z, last.z);
    lemma_lesser_and_greater(before.maximum.x, last.x);
    lemma_lesser_and_greater(before.maximum.y, last.y);
    lemma_lesser_and_greater(before.maximum.z, last.z);
    if i < points.len() - 1 {
        assert(points.drop_last()[i] == points[i]);
        lemma_box_around_contains(points.drop_last(), i);
    }
}

/// The eight corners of a box, in the order in which [`AxisAlignedBoundingBox::corners`]
/// lists them.
pub open spec fn corners_of(bbox: AxisAlignedBoundingBox) -> Seq<Vec3> {
    Seq::new(8, |n: int| bbox.corner((n / 4 == 1, (n / 2) % 2 == 1, n % 2 == 1)))
}

/// The box around the corners of a well-formed box is that box: each
/// contains the other.
pub proof fn lemma_box_around_its_corners(bbox: AxisAlignedBoundingBox)
    requires
        bbox.well_formed(),
    ensures
        box_around(corners_of(bbox)).contains(bbox),
        bbox.contains(box_around(corners_of(bbox))),
{
    let corners = corners_of(bbox);
    assert forall|j: int| 0 <= j < corners.len() implies (#[trigger] corners[j]).is_numeric() by {}
    // The box contains its lowest and its highest corner.
    lemma_box_around_contains(corners, 0);
    lemma_box_around_contains(corners, 7);
    assert(corners[0] == bbox.minimum);
    assert(corners[7] == bbox.maximum);
    assert(bbox.minimum.at(0) == bbox.minimum.x && bbox.maximum.at(0) == bbox.maximum.x);
    // And it reaches no further than the corners do.
    lemma_box_around_within(corners, bbox);
}

/// The box around points that all lie in a box lies in that box, as far as
/// it is around any point.
proof fn lemma_box_around_within(points: Seq<Vec3>, bbox: AxisAlignedBoundingBox)
    requires
        points.len() > 0,
        bbox.is_numeric(),
        forall|j: int|
            0 <= j < points.len() ==> (#[trigger] points[j]).is_numeric() && bbox.contains(
                AxisAlignedBoundingBox { minimum: points[j], maximum: points[j] },
            ),
    ensures
        bbox.contains(box_around(points)),
    decreases points.len(),
{
    let earlier = points.drop_last();
    let before = box_around(earlier);
    let last = points.last();
    assert(bbox.contains(AxisAlignedBoundingBox { minimum: last, maximum: last }));
    assert(bbox.minimum.at(0) == bbox.minimum.x && last.at(0) == last.x);
    assert(bbox.minimum.at(1) == bbox.minimum.y && last.at(1) == last.y);
    assert(bbox.minimum.at(2) == bbox.minimum.z && last.at(2) == last.z);
    if earlier.len() > 0 {
        assert forall|j: int| 0 <= j < earlier.len() implies (#[trigger] earlier[j]).is_numeric()
            && bbox.contains(
            AxisAlignedBoundingBox { minimum: earlier[j], maximum: earlier[j] },
        ) by {
            assert(earlier[j] == points[j]);
        }
        lemma_box_around_within(earlier, bbox);
        lemma_box_around_is_numeric(earlier);
        assert(before.minimum.at(0) == before.minimum.x && before.maximum.at(0) == before.maximum.x);
        assert(before.minimum.at(1) == before.minimum.y && before.maximum.at(1) == before.maximum.y);
        assert(before.minimum.at(2) == before.minimum.z && before.maximum.at(2) == before.maximum.z);
        lemma_lesser_and_greater(before.minimum.x, last.x);
        lemma_lesser_and_greater(before.minimum.y, last.y);
        lemma_lesser_and_greater(before.minimum.z, last.z);
        lemma_lesser_and_greater(before.maximum.x, last.x);
        lemma_lesser_and_greater(before.maximum.y, last.y);
        lemma_lesser_and_greater(before.maximum.z, last.z);
    } else {
        // Around one point: infinity gives way to the point.
        assert(points =~= seq![last]);
        assert(earlier =~= Seq::<Vec3>::empty());
        crate::scalar::lemma_infinities(last.x);
        crate::scalar::lemma_infinities(last.y);
        crate::scalar::lemma_infinities(last.z);
    }
}

/// The box around points that are made of numbers is made of numbers.
proof fn lemma_box_around_is_numeric(points: Seq<Vec3>)
    requires
        forall|j: int| 0 <= j < points.len() ==> (#[trigger] points[j]).is_numeric(),
    ensures
        box_around(points).is_numeric(),
    decreases points.len(),
{
    if points.len() > 0 {
        let before = box_around(points.drop_last());
        let last = points.last();
        assert forall|j: int| 0 <= j < points.drop_last().len() implies (#[trigger] points.drop_last()[j]).is_numeric() by {
            assert(points.drop_last()[j] == points[j]);
        }
        lemma_box_around_is_numeric(points.drop_last());
        lemma_lesser_and_greater(before.minimum.x, last.x);
        lemma_lesser_and_greater(before.minimum.y, last.y);
        lemma_lesser_and_greater(before.minimum.z, last.z);
        lemma_lesser_and_greater(before.maximum.x, last.x);
        lemma_lesser_and_greater(before.maximum.y, last.y);
        lemma_lesser_and_greater(before.maximum.z, last.z);
    }
}

/// The box around two boxes that may be absent.
pub open spec fn surrounding(
    bbox0: Option<AxisAlignedBoundingBox>,
    bbox1: Option<AxisAlignedBoundingBox>,
) -> Option<AxisAlignedBoundingBox> {
    match (bbox0, bbox1) {
        (Some(b0), Some(b1)) => Some(b0.union(b1)),
        (Some(b), None) => Some(b),
        (None, Some(b)) => Some(b),
        (None, None) => None,
    }
}

/// The box around the boxes of a list, from the first to the last.
pub open spec fn surrounding_of_all(boxes: Seq<Option<AxisAlignedBoundingBox>>) -> Option<
    AxisAlignedBoundingBox,
>
    decreases boxes.len(),
{
    if boxes.len() == 0 {
        None
    } else {
        surrounding(surrounding_of_all(boxes.drop_last()), boxes.last())
    }
}

/// The box around two boxes contains both, and is well formed where they
/// are.
pub proof fn lemma_union_contains(a: AxisAlignedBoundingBox, b: AxisAlignedBoundingBox)
    requires
        a.is_numeric(),
        b.is_numeric(),
    ensures
        a.union(b).is_numeric(),
        a.union(b).contains(a),
        a.union(b).contains(b),
        a.well_formed() ==> a.union(b).well_formed(),
{
    lemma_lesser_and_greater(a.minimum.x, b.minimum.x);
    lemma_lesser_and_greater(a.minimum.y, b.minimum.y);
    lemma_lesser_and_greater(a.minimum.z, b.minimum.z);
    lemma_lesser_and_greater(a.maximum.x, b.maximum.x);
    lemma_lesser_and_greater(a.maximum.y, b.maximum.y);
    lemma_lesser_and_greater(a.maximum.z, b.maximum.z);
}

/// A box that contains a second box contains every box inside the second.
pub proof fn lemma_contains_is_transitive(
    a: AxisAlignedBoundingBox,
    b: AxisAlignedBoundingBox,
    c: AxisAlignedBoundingBox,
)
    requires
        a.contains(b),
        b.contains(c),
    ensures
        a.contains(c),
{
}

/// A child of a node: a primitive, by its index, or a smaller hierarchy.
#[derive(Debug)]
pub enum BvhChild {
    Object(usize),
    Node(Box<BVHNode>),
}

/// A node of the hierarchy: its two children, the axis along which the
/// primitives below it were ordered, and the box around them.
#[derive(Debug)]
pub struct BVHNode {
    pub left: BvhChild,
    pub right: BvhChild,
    pub axis: usize,
    pub bbox: AxisAlignedBoundingBox,
}

/// The coordinate by which primitive `object` is ordered along `axis`: that
/// of the lower corner of its box.
pub open spec fn coordinate_of(
    order: Seq<AxisAlignedBoundingBox>,
    object: usize,
    axis: usize,
) -> Scalar {
    order[object as int].minimum.at(axis as int)
}

/// Whether `ids` lists primitives in ascending order of their coordinates
/// along `axis`.
pub open spec fn sorted_along(
    order: Seq<AxisAlignedBoundingBox>,
    axis: usize,
    ids: Seq<usize>,
) -> bool {
    forall|a: int, b: int|
        0 <= a < b < ids.len() ==> coordinate_of(order, ids[a], axis).value() <= coordinate_of(
            order,
            ids[b],
            axis,
        ).value()
}

/// Whether every entry of `ids` is the index of a primitive.
pub open spec fn all_in_range(count: nat, ids: Seq<usize>) -> bool {
    forall|a: int| 0 <= a < ids.len() ==> ids[a] < count
}

/// Whether the lower corner of every box is made of numbers.
pub open spec fn all_comparable(order: Seq<AxisAlignedBoundingBox>) -> bool {
    forall|i: int| 0 <= i < order.len() ==> (#[trigger] order[i]).minimum.is_numeric()
}

/// Whether every corner of every box is made of numbers.
pub open spec fn all_numeric(boxes: Seq<AxisAlignedBoundingBox>) -> bool {
    forall|i: int| 0 <= i < boxes.len() ==> (#[trigger] boxes[i]).is_numeric()
}

impl BvhChild {
    /// The primitives below this child, from left to right.
    pub open spec fn objects(self) -> Seq<usize>
        decreases self,
    {
        match self {
            BvhChild::Object(i) => seq![i],
            BvhChild::Node(node) => node.objects(),
        }
    }

    /// Whether everything below this child is a well-formed hierarchy.
    pub open spec fn well_formed(
        self,
        order: Seq<AxisAlignedBoundingBox>,
        boxes: Seq<AxisAlignedBoundingBox>,
    ) -> bool
        decreases self,
    {
        match self {
            BvhChild::Object(i) => i < order.len() && i < boxes.len(),
            BvhChild::Node(node) => node.well_formed(order, boxes),
        }
    }

    /// The box of this child: that of the primitive, or that of the node.
    pub open spec fn bounding_box(self, boxes: Seq<AxisAlignedBoundingBox>) -> AxisAlignedBoundingBox {
        match self {
            BvhChild::Object(i) => boxes[i as int],
            BvhChild::Node(node) => node.bbox,
        }
    }
}

impl BVHNode {
    /// Whether the node stands for one primitive, held as both children.
    pub open spec fn is_single(self) -> bool {
        self.left matches BvhChild::Object(i) && self.right matches BvhChild::Object(j) && i == j
    }

    /// The primitives below this node, from left to right, a primitive that
    /// is both children listed once.
    pub open spec fn objects(self) -> Seq<usize>
        decreases self,
    {
        if self.is_single() {
            self.left.objects()
        } else {
            self.left.objects() + self.right.objects()
        }
    }

    /// Whether every primitive on the left comes no later along the node's
    /// axis than every primitive on the right.
    pub open spec fn ordered(self, order: Seq<AxisAlignedBoundingBox>) -> bool {
        forall|a: int, b: int|
            0 <= a < self.left.objects().len() && 0 <= b < self.right.objects().len()
                ==> coordinate_of(order, #[trigger] self.left.objects()[a], self.axis).value()
                <= coordinate_of(order, #[trigger] self.right.objects()[b], self.axis).value()
    }

    /// Whether this is a hierarchy over primitives that are ordered by the
    /// boxes `order` and bounded by the boxes `boxes`: at every node the
    /// axis is one of the three, the children are two primitives or two
    /// hierarchies, the left child holds half of the primitives, rounded
    /// down, the two sides are ordered along the axis, and the box is the
    /// box around the boxes of the children.
    pub open spec fn well_formed(
        self,
        order: Seq<AxisAlignedBoundingBox>,
        boxes: Seq<AxisAlignedBoundingBox>,
    ) -> bool
        decreases self,
    {
        &&& self.axis < 3
        &&& self.left.well_formed(order, boxes)
        &&& self.right.well_formed(order, boxes)
        &&& self.left is Object <==> self.right is Object
        &&& !self.is_single() ==> self.left.objects().len() == self.objects().len() / 2
        &&& self.ordered(order)
        &&& self.bbox == self.left.bounding_box(boxes).union(self.right.bounding_box(boxes))
    }
}

/// In a well-formed hierarchy over boxes of numbers, the box of a node
/// contains the box of every primitive below it.
pub proof fn lemma_node_contains_its_objects(
    node: BVHNode,
    order: Seq<AxisAlignedBoundingBox>,
    boxes: Seq<AxisAlignedBoundingBox>,
    position: int,
)
    requires
        node.well_formed(order, boxes),
        all_numeric(boxes),
        0 <= position < node.objects().len(),
    ensures
        node.bbox.is_numeric(),
        node.objects()[position] < boxes.len(),
        node.bbox.contains(boxes[node.objects()[position] as int]),
    decreases node,
{
    let left_box = node.left.bounding_box(boxes);
    let right_box = node.right.bounding_box(boxes);
    lemma_child_is_numeric(node.left, order, boxes);
    lemma_child_is_numeric(node.right, order, boxes);
    lemma_union_contains(left_box, right_box);
    let on_left = node.is_single() || position < node.left.objects().len();
    let child = if on_left {
        node.left
    } else {
        node.right
    };
    let within = if on_left {
        position
    } else {
        position - node.left.objects().len()
    };
    assert(child.objects()[within] == node.objects()[position]);
    match child {
        BvhChild::Object(i) => {},
        BvhChild::Node(below) => {
            lemma_node_contains_its_objects(*below, order, boxes, within);
            lemma_contains_is_transitive(
                node.bbox,
                below.bbox,
                boxes[node.objects()[position] as int],
            );
        },
    }
}

/// The box of a well-formed child over boxes of numbers is made of numbers.
proof fn lemma_child_is_numeric(
    child: BvhChild,
    order: Seq<AxisAlignedBoundingBox>,
    boxes: Seq<AxisAlignedBoundingBox>,
)
    requires
        child.well_formed(order, boxes),
        all_numeric(boxes),
    ensures
        child.bounding_box(boxes).is_numeric(),
    decreases child,
{
    match child {
        BvhChild::Object(i) => {},
        BvhChild::Node(node) => {
            lemma_child_is_numeric(node.left, order, boxes);
            lemma_child_is_numeric(node.right, order, boxes);
            lemma_union_contains(node.left.bounding_box(boxes), node.right.bounding_box(boxes));
        },
    }
}

/// Whether the box test `through` is sound for the hits `hits`: asked for a
/// box and a limit, it answers yes wherever the box contains the box of a
/// primitive that is hit within the limit.
pub open spec fn boxes_are_sound<H, B: Fn(AxisAlignedBoundingBox, Scalar) -> bool>(
    through: B,
    hits: Seq<Option<(Scalar, H)>>,
    boxes: Seq<AxisAlignedBoundingBox>,
) -> bool {
    forall|bbox: AxisAlignedBoundingBox, limit: Scalar, answer: bool, i: int|
        0 <= i < hits.len() && i < boxes.len() && #[trigger] through.ensures((bbox, limit), answer)
            && bbox.contains(#[trigger] boxes[i]) && is_within(hits[i], limit) ==> answer
}

/// Whether a hierarchy and the two tests that a ray is sent down with fit
/// together: the hierarchy is well formed over boxes of numbers, each
/// primitive has one hit that `strike` reports whenever the limit allows,
/// and `through` is sound for these hits.
pub open spec fn is_faithful<
    H,
    B: Fn(AxisAlignedBoundingBox, Scalar) -> bool,
    F: Fn(usize, Scalar) -> Option<(Scalar, H)>,
>(
    through: B,
    strike: F,
    hits: Seq<Option<(Scalar, H)>>,
    order: Seq<AxisAlignedBoundingBox>,
    boxes: Seq<AxisAlignedBoundingBox>,
) -> bool {
    &&& all_numeric(boxes)
    &&& hits.len() == boxes.len()
    &&& strikes_exactly(strike, hits)
    &&& boxes_are_sound(through, hits, boxes)
}

/// A nearest hit among some primitives is a nearest hit among the same
/// primitives listed otherwise.
pub proof fn lemma_nearest_among_the_same<H>(
    best: Option<(Scalar, H)>,
    hits: Seq<Option<(Scalar, H)>>,
    among: Seq<usize>,
    others: Seq<usize>,
    t_max: Scalar,
)
    requires
        is_nearest(best, hits, among, t_max),
        forall|a: int| 0 <= a < among.len() ==> others.contains(#[trigger] among[a]),
        forall|b: int| 0 <= b < others.len() ==> among.contains(#[trigger] others[b]),
    ensures
        is_nearest(best, hits, others, t_max),
{
    match best {
        Some((t, h)) => {
            let a = choose|a: int| 0 <= a < among.len() && hits[#[trigger] among[a] as int] == best;
            assert(others.contains(among[a]));
            let b = choose|b: int| 0 <= b < others.len() && others[b] == among[a];
            assert(hits[others[b] as int] == best);
            assert forall|b: int|
                0 <= b < others.len() && is_within(hits[#[trigger] others[b] as int], t_max)
                implies t.is_at_most(crate::ray::distance_of(hits[others[b] as int])) by {
                assert(among.contains(others[b]));
                let a = choose|a: int| 0 <= a < among.len() && among[a] == others[b];
                assert(is_within(hits[among[a] as int], t_max));
            }
        },
        None => {
            assert forall|b: int| 0 <= b < others.len() implies !is_within(
                hits[#[trigger] others[b] as int],
                t_max,
            ) by {
                assert(among.contains(others[b]));
                let a = choose|a: int| 0 <= a < among.len() && among[a] == others[b];
                assert(!is_within(hits[among[a] as int], t_max));
            }
        },
    }
}

/// Where `left` is a nearest hit among some primitives, and `right` a
/// nearest hit among others within what `left` leaves, the right one, or
/// else the left one, is a nearest hit among them all.
pub proof fn lemma_nearest_of_two_sides<H>(
    left: Option<(Scalar, H)>,
    right: Option<(Scalar, H)>,
    hits: Seq<Option<(Scalar, H)>>,
    on_left: Seq<usize>,
    on_right: Seq<usize>,
    t_max: Scalar,
)
    requires
        is_nearest(left, hits, on_left, t_max),
        is_nearest(
            right,
            hits,
            on_right,
            match left {
                Some((t, _)) => t,
                None => t_max,
            },
        ),
    ensures
        is_nearest(
            if right is Some {
                right
            } else {
                left
            },
            hits,
            on_left + on_right,
            t_max,
        ),
{
    let all = on_left + on_right;
    let limit = match left {
        Some((t, _)) => t,
        None => t_max,
    };
    let best = if right is Some {
        right
    } else {
        left
    };
    assert forall|b: int| 0 <= b < on_left.len() implies all[b] == on_left[b] by {}
    assert forall|b: int| 0 <= b < on_right.len() implies all[on_left.len() + b] == on_right[b] by {}
    match best {
        Some((t, h)) => {
            if right is Some {
                let a = choose|a: int|
                    0 <= a < on_right.len() && hits[#[trigger] on_right[a] as int] == right;
                assert(hits[all[on_left.len() + a] as int] == best);
            } else {
                let a = choose|a: int|
                    0 <= a < on_left.len() && hits[#[trigger] on_left[a] as int] == left;
                assert(hits[all[a] as int] == best);
            }
            assert forall|b: int|
                0 <= b < all.len() && is_within(hits[#[trigger] all[b] as int], t_max)
                implies t.is_at_most(crate::ray::distance_of(hits[all[b] as int])) by {
                if b < on_left.len() {
                    assert(is_within(hits[on_left[b] as int], t_max));
                } else {
                    let c = b - on_left.len();
                    assert(all[b] == on_right[c]);
                    if is_within(hits[on_right[c] as int], limit) {
                    } else {
                    }
                }
            }
        },
        None => {
            assert forall|b: int| 0 <= b < all.len() implies !is_within(
                hits[#[trigger] all[b] as int],
                t_max,
            ) by {
                if b < on_left.len() {
                    assert(!is_within(hits[on_left[b] as int], t_max));
                } else {
                    let c = b - on_left.len();
                    assert(all[b] == on_right[c]);
                    assert(!is_within(hits[on_right[c] as int], limit));
                }
            }
        },
    }
}

impl BvhChild {
    /// Finds a nearest hit below this child: that of the primitive, or that
    /// of the hierarchy.
    pub fn hit<
        H,
        B: Fn(AxisAlignedBoundingBox, Scalar) -> bool,
        F: Fn(usize, Scalar) -> Option<(Scalar, H)>,
    >(&self, through: &B, strike: &F, t_max: Scalar) -> (best: Option<(Scalar, H)>)
        requires
            forall|bbox: AxisAlignedBoundingBox, limit: Scalar| through.requires((bbox, limit)),
            forall|a: int, limit: Scalar|
                0 <= a < self.objects().len() ==> #[trigger] strike.requires(
                    (self.objects()[a], limit),
                ),
        ensures
            best is Some ==> exists|a: int, limit: Scalar|
                0 <= a < self.objects().len() && #[trigger] strike.ensures(
                    (self.objects()[a], limit),
                    best,
                ),
            forall|
                hits: Seq<Option<(Scalar, H)>>,
                order: Seq<AxisAlignedBoundingBox>,
                boxes: Seq<AxisAlignedBoundingBox>,
            |
                self.well_formed(order, boxes) && #[trigger] is_faithful(
                    *through,
                    *strike,
                    hits,
                    order,
                    boxes,
                ) ==> is_nearest(best, hits, self.objects(), t_max),
        decreases self,
    {
        match self {
            BvhChild::Object(i) => {
                assert(self.objects()[0] == *i);
                let best = strike(*i, t_max);
                assert(strike.ensures((self.objects()[0], t_max), best));
                best
            },
            BvhChild::Node(node) => node.hit(through, strike, t_max),
        }
    }
}

impl BVHNode {
    /// Sends a ray down the hierarchy and finds a nearest hit: nothing
    /// where the ray does not pass through the box of the node, and else
    /// the hit on the right within what the hit on the left leaves, or else
    /// the hit on the left.
    ///
    /// `through(bbox, limit)` tells whether the ray passes through a box
    /// within `limit`, and `strike(i, limit)` gives the hit of primitive `i`
    /// within `limit`, as its distance and what else is known of it. Where
    /// each primitive has one hit that `strike` reports whenever the limit
    /// allows, and `through` misses no box around a primitive that is hit,
    /// the result is a nearest of these hits: the same, but for hits at
    /// equal distances, as that of a scan of the list of primitives.
    pub fn hit<
        H,
        B: Fn(AxisAlignedBoundingBox, Scalar) -> bool,
        F: Fn(usize, Scalar) -> Option<(Scalar, H)>,
    >(&self, through: &B, strike: &F, t_max: Scalar) -> (best: Option<(Scalar, H)>)
        requires
            forall|bbox: AxisAlignedBoundingBox, limit: Scalar| through.requires((bbox, limit)),
            forall|a: int, limit: Scalar|
                0 <= a < self.objects().len() ==> #[trigger] strike.requires(
                    (self.objects()[a], limit),
                ),
        ensures
            best is Some ==> exists|a: int, limit: Scalar|
                0 <= a < self.objects().len() && #[trigger] strike.ensures(
                    (self.objects()[a], limit),
                    best,
                ),
            forall|
                hits: Seq<Option<(Scalar, H)>>,
                order: Seq<AxisAlignedBoundingBox>,
                boxes: Seq<AxisAlignedBoundingBox>,
            |
                self.well_formed(order, boxes) && #[trigger] is_faithful(
                    *through,
                    *strike,
                    hits,
                    order,
                    boxes,
                ) ==> is_nearest(best, hits, self.objects(), t_max),
        decreases self,
    {
        let ghost single = self.is_single();
        let ghost on_left = self.left.objects();
        let ghost on_right = self.right.objects();
        proof {
            // Every primitive of either side is a primitive of the node.
            assert forall|a: int, limit: Scalar| 0 <= a < on_left.len() implies #[trigger] strike.requires(
                (on_left[a], limit),
            ) by {
                assert(self.objects()[a] == on_left[a]);
            }
            assert forall|a: int, limit: Scalar| 0 <= a < on_right.len() implies #[trigger] strike.requires(
                (on_right[a], limit),
            ) by {
                if single {
                    assert(self.objects()[a] == on_right[a]);
                } else {
                    assert(self.objects()[on_left.len() + a] == on_right[a]);
                }
            }
        }
        if !through(self.bbox, t_max) {
            proof {
                assert forall|
                    hits: Seq<Option<(Scalar, H)>>,
                    order: Seq<AxisAlignedBoundingBox>,
                    boxes: Seq<AxisAlignedBoundingBox>,
                |
                    self.well_formed(order, boxes) && #[trigger] is_faithful(
                        *through,
                        *strike,
                        hits,
                        order,
                        boxes,
                    ) implies is_nearest(None::<(Scalar, H)>, hits, self.objects(), t_max) by {
                    assert forall|b: int| 0 <= b < self.objects().len() implies !is_within(
                        hits[#[trigger] self.objects()[b] as int],
                        t_max,
                    ) by {
                        lemma_node_contains_its_objects(*self, order, boxes, b);
                        let i = self.objects()[b] as int;
                        assert(through.ensures((self.bbox, t_max), false));
                        assert(self.bbox.contains(boxes[i]));
                    }
                }
            }
            return None;
        }
        let left = self.left.hit(through, strike, t_max);
        let limit = match &left {
            Some((t, _)) => *t,
            None => t_max,
        };
        let right = self.right.hit(through, strike, limit);
        let ghost left_best = left;
        let ghost right_best = right;
        let best = if right.is_some() {
            right
        } else {
            left
        };
        proof {
            if best is Some {
                if right_best is Some {
                    let (a, at) = choose|a: int, at: Scalar|
                        0 <= a < on_right.len() && #[trigger] strike.ensures(
                            (on_right[a], at),
                            right_best,
                        );
                    if single {
                        assert(self.objects()[a] == on_right[a]);
                    } else {
                        assert(self.objects()[on_left.len() + a] == on_right[a]);
                    }
                } else {
                    let (a, at) = choose|a: int, at: Scalar|
                        0 <= a < on_left.len() && #[trigger] strike.ensures(
                            (on_left[a], at),
                            left_best,
                        );
                    assert(self.objects()[a] == on_left[a]);
                }
            }
            assert forall|
                hits: Seq<Option<(Scalar, H)>>,
                order: Seq<AxisAlignedBoundingBox>,
                boxes: Seq<AxisAlignedBoundingBox>,
            |
                self.well_formed(order, boxes) && #[trigger] is_faithful(
                    *through,
                    *strike,
                    hits,
                    order,
                    boxes,
                ) implies is_nearest(best, hits, self.objects(), t_max) by {
                assert(self.left.well_formed(order, boxes));
                assert(self.right.well_formed(order, boxes));
                lemma_nearest_of_two_sides(left_best, right_best, hits, on_left, on_right, t_max);
                if single {
                    assert forall|b: int| 0 <= b < (on_left + on_right).len() implies on_left.contains(
                        #[trigger] (on_left + on_right)[b],
                    ) by {
                        assert(on_left[0] == (on_left + on_right)[b]);
                    }
                    assert forall|a: int| 0 <= a < on_left.len() implies (on_left
                        + on_right).contains(#[trigger] on_left[a]) by {
                        assert((on_left + on_right)[a] == on_left[a]);
                    }
                    lemma_nearest_among_the_same(best, hits, on_left + on_right, on_left, t_max);
                }
            }
        }
        best
    }
}

/// The sort key of primitive `object` along `axis`.
fn key_at(order: &Vec<AxisAlignedBoundingBox>, object: usize, axis: usize) -> (key: i64)
    requires
        axis < 3,
        object < order@.len(),
        all_comparable(order@),
    ensures
        key == coordinate_of(order@, object, axis).key(),
{
    let bbox = order[object];
    assert(bbox.minimum.is_numeric());
    match bbox.minimum.get(axis).order_key() {
        Some(key) => key,
        None => 0,
    }
}

/// Orders `ids` by the coordinates of the primitives along `axis`,
/// smallest first.
pub fn sort_along(order: &Vec<AxisAlignedBoundingBox>, axis: usize, ids: &mut Vec<usize>)
    requires
        axis < 3,
        all_in_range(order@.len(), old(ids)@),
        all_comparable(order@),
    ensures
        final(ids)@.to_multiset() == old(ids)@.to_multiset(),
        final(ids)@.len() == old(ids)@.len(),
        sorted_along(order@, axis, final(ids)@),
        all_in_range(order@.len(), final(ids)@),
{
    let n: usize = ids.len();
    let mut i: usize = 1;
    while i < n
        invariant
            axis < 3,
            ids@.len() == n,
            1 <= i,
            all_in_range(order@.len(), ids@),
            all_comparable(order@),
            ids@.to_multiset() == old(ids)@.to_multiset(),
            forall|a: int, b: int|
                0 <= a < b < i && b < n ==> coordinate_of(order@, ids@[a], axis).value()
                    <= coordinate_of(order@, ids@[b], axis).value(),
        decreases n - i,
    {
        let mut j: usize = i;
        while j > 0
            invariant
                axis < 3,
                ids@.len() == n,
                j <= i < n,
                all_in_range(order@.len(), ids@),
                all_comparable(order@),
                ids@.to_multiset() == old(ids)@.to_multiset(),
                forall|a: int, b: int|
                    0 <= a < b <= i && a != j && b != j ==> coordinate_of(
                        order@,
                        ids@[a],
                        axis,
                    ).value() <= coordinate_of(order@, ids@[b], axis).value(),
                forall|b: int|
                    j < b <= i ==> coordinate_of(order@, ids@[j as int], axis).value()
                        <= coordinate_of(order@, ids@[b], axis).value(),
            ensures
                ids@.len() == n,
                all_in_range(order@.len(), ids@),
                ids@.to_multiset() == old(ids)@.to_multiset(),
                forall|a: int, b: int|
                    0 <= a < b <= i ==> coordinate_of(order@, ids@[a], axis).value()
                        <= coordinate_of(order@, ids@[b], axis).value(),
            decreases j,
        {
            let here: usize = ids[j];
            let before: usize = ids[j - 1];
            proof {
                lemma_keys_order(
                    coordinate_of(order@, before, axis),
                    coordinate_of(order@, here, axis),
                );
                lemma_keys_order(
                    coordinate_of(order@, here, axis),
                    coordinate_of(order@, before, axis),
                );
            }
            if key_at(order, before, axis) <= key_at(order, here, axis) {
                break ;
            }
            proof {
                lemma_swap_keeps_entries(ids@, j as int - 1, j as int);
            }
            ids.set(j - 1, here);
            ids.set(j, before);
            j = j - 1;
        }
        i = i + 1;
    }
}

impl BVHNode {
    /// Builds the hierarchy over the primitives `ids`.
    ///
    /// With a random axis at each node: one primitive becomes both children;
    /// of two, the one with the smaller coordinate goes left, and the second
    /// where neither is smaller; three or more are ordered by coordinate and
    /// split in the middle, each half becoming a hierarchy of its own.
    fn build(
        order: &Vec<AxisAlignedBoundingBox>,
        boxes: &Vec<AxisAlignedBoundingBox>,
        ids: Vec<usize>,
    ) -> (node: Self)
        requires
            ids@.len() >= 1,
            order@.len() == boxes@.len(),
            all_in_range(order@.len(), ids@),
            all_comparable(order@),
            ids@.no_duplicates(),
        ensures
            node.well_formed(order@, boxes@),
            node.objects().to_multiset() == ids@.to_multiset(),
            node.objects().len() == ids@.len(),
            ids@.len() == 1 ==> node.left == BvhChild::Object(ids@[0]) && node.right
                == BvhChild::Object(ids@[0]),
            ids@.len() == 2 ==> node.left == BvhChild::Object(
                if coordinate_of(order@, ids@[0], node.axis).value() < coordinate_of(
                    order@,
                    ids@[1],
                    node.axis,
                ).value() {
                    ids@[0]
                } else {
                    ids@[1]
                },
            ) && node.right == BvhChild::Object(
                if coordinate_of(order@, ids@[0], node.axis).value() < coordinate_of(
                    order@,
                    ids@[1],
                    node.axis,
                ).value() {
                    ids@[1]
                } else {
                    ids@[0]
                },
            ),
            ids@.len() >= 3 ==> node.left is Node && node.right is Node,
        decreases ids@.len(),
    {
        let drawn: i32 = get_rand_int_range(0, 3);
        let axis: usize = drawn as usize;
        let n: usize = ids.len();
        if n == 1 {
            let only: usize = ids[0];
            let bbox = boxes[only];
            let around = AxisAlignedBoundingBox::surrounding_box(Some(bbox), Some(bbox));
            let node = BVHNode {
                left: BvhChild::Object(only),
                right: BvhChild::Object(only),
                axis,
                bbox: around.unwrap(),
            };
            assert(node.objects() =~= ids@);
            node
        } else if n == 2 {
            let first: usize = ids[0];
            let second: usize = ids[1];
            proof {
                lemma_keys_order(
                    coordinate_of(order@, first, axis),
                    coordinate_of(order@, second, axis),
                );
                lemma_keys_order(
                    coordinate_of(order@, second, axis),
                    coordinate_of(order@, first, axis),
                );
            }
            let (left, right) = if key_at(order, first, axis) < key_at(order, second, axis) {
                (first, second)
            } else {
                (second, first)
            };
            let around = AxisAlignedBoundingBox::surrounding_box(
                Some(boxes[left]),
                Some(boxes[right]),
            );
            let node = BVHNode {
                left: BvhChild::Object(left),
                right: BvhChild::Object(right),
                axis,
                bbox: around.unwrap(),
            };
            proof {
                assert(first != second);
                lemma_swap_keeps_entries(ids@, 0, 1);
                assert(node.objects() =~= ids@ || node.objects() =~= ids@.update(0, second).update(
                    1,
                    first,
                ));
            }
            node
        } else {
            let mut lower: Vec<usize> = ids;
            sort_along(order, axis, &mut lower);
            let mid: usize = n / 2;
            let ghost sorted = lower@;
            let upper: Vec<usize> = lower.split_off(mid);
            proof {
                assert(sorted =~= lower@ + upper@);
                vstd::seq_lib::lemma_multiset_commutative(lower@, upper@);
                ids@.lemma_multiset_has_no_duplicates();
                sorted.lemma_multiset_has_no_duplicates_conv();
                assert(lower@.no_duplicates()) by {
                    assert forall|a: int, b: int|
                        0 <= a < lower@.len() && 0 <= b < lower@.len() && a != b implies lower@[a]
                        != lower@[b] by {
                        assert(lower@[a] == sorted[a] && lower@[b] == sorted[b]);
                    }
                }
                assert(upper@.no_duplicates()) by {
                    assert forall|a: int, b: int|
                        0 <= a < upper@.len() && 0 <= b < upper@.len() && a != b implies upper@[a]
                        != upper@[b] by {
                        assert(upper@[a] == sorted[a + mid] && upper@[b] == sorted[b + mid]);
                    }
                }
                assert(all_in_range(order@.len(), lower@)) by {
                    assert forall|a: int| 0 <= a < lower@.len() implies lower@[a] < order@.len() by {
                        assert(lower@[a] == sorted[a]);
                    }
                }
                assert(all_in_range(order@.len(), upper@)) by {
                    assert forall|a: int| 0 <= a < upper@.len() implies upper@[a] < order@.len() by {
                        assert(upper@[a] == sorted[a + mid]);
                    }
                }
            }
            let ghost lower_ids = lower@;
            let ghost upper_ids = upper@;
            let left = BVHNode::build(order, boxes, lower);
            let right = BVHNode::build(order, boxes, upper);
            let around = AxisAlignedBoundingBox::surrounding_box(Some(left.bbox), Some(right.bbox));
            let node = BVHNode {
                left: BvhChild::Node(Box::new(left)),
                right: BvhChild::Node(Box::new(right)),
                axis,
                bbox: around.unwrap(),
            };
            proof {
                vstd::seq_lib::lemma_multiset_commutative(left.objects(), right.objects());
                assert(node.objects() == left.objects() + right.objects());
                assert(node.ordered(order@)) by {
                    assert forall|a: int, b: int|
                        0 <= a < left.objects().len() && 0 <= b < right.objects().len()
                        implies coordinate_of(order@, #[trigger] left.objects()[a], axis).value()
                        <= coordinate_of(order@, #[trigger] right.objects()[b], axis).value() by {
                        lemma_entry_of_permutation(left.objects(), lower_ids, a);
                        lemma_entry_of_permutation(right.objects(), upper_ids, b);
                        let p = choose|p: int|
                            0 <= p < lower_ids.len() && lower_ids[p] == left.objects()[a];
                        let q = choose|q: int|
                            0 <= q < upper_ids.len() && upper_ids[q] == right.objects()[b];
                        assert(sorted[p] == lower_ids[p]);
                        assert(sorted[q + mid] == upper_ids[q]);
                    }
                }
            }
            node
        }
    }

    /// Builds the hierarchy over a list of primitives. Primitive `i` is
    /// ordered by the lower corner of `order[i]`, and bounded by `boxes[i]`.
    pub fn new(order: &Vec<AxisAlignedBoundingBox>, boxes: &Vec<AxisAlignedBoundingBox>) -> (node:
        Self)
        requires
            order@.len() >= 1,
            order@.len() == boxes@.len(),
            all_comparable(order@),
        ensures
            node.well_formed(order@, boxes@),
            node.objects().len() == order@.len(),
            node.objects().no_duplicates(),
            forall|i: usize| i < order@.len() ==> node.objects().contains(i),
            order@.len() == 1 ==> node.left == BvhChild::Object(0) && node.right
                == BvhChild::Object(0),
            order@.len() == 2 ==> node.left == BvhChild::Object(
                if coordinate_of(order@, 0, node.axis).value() < coordinate_of(
                    order@,
                    1,
                    node.axis,
                ).value() {
                    0usize
                } else {
                    1usize
                },
            ) && node.right == BvhChild::Object(
                if coordinate_of(order@, 0, node.axis).value() < coordinate_of(
                    order@,
                    1,
                    node.axis,
                ).value() {
                    1usize
                } else {
                    0usize
                },
            ),
            order@.len() >= 3 ==> node.left is Node && node.right is Node,
    {
        let n: usize = order.len();
        let mut ids: Vec<usize> = Vec::new();
        let mut i: usize = 0;
        while i < n
            invariant
                i <= n,
                n == order@.len(),
                ids@.len() == i,
                forall|a: int| 0 <= a < i ==> ids@[a] == a,
            decreases n - i,
        {
            ids.push(i);
            i = i + 1;
        }
        let ghost all = ids@;
        let node = BVHNode::build(order, boxes, ids);
        proof {
            all.lemma_multiset_has_no_duplicates();
            node.objects().lemma_multiset_has_no_duplicates_conv();
            assert forall|i: usize| i < order@.len() implies node.objects().contains(i) by {
                assert(all[i as int] == i);
                lemma_entry_of_permutation(all, node.objects(), i as int);
            }
        }
        node
    }
}

} // verus!
