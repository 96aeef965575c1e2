//! Axis conventions for axis-aligned rectangles and cuboids, and what
//! spheres, rectangles and media decide by comparing.

use crate::scalar::{Scalar, Vec3, ZERO_BITS};
use vstd::prelude::*;

verus! {

/// The pair of coordinate axes that spans an axis-aligned rectangle.
#[derive(Clone, Copy, Debug, PartialEq, Eq, Structural)]
pub enum AlignedAxis {
    XY,
    XZ,
    YZ,
}

/// Whether `m` lists each of the three coordinate indices exactly once.
pub open spec fn is_axis_permutation(m: Seq<usize>) -> bool {
    &&& m.len() == 3
    &&& forall|i: int| 0 <= i < 3 ==> m[i] < 3
    &&& m[0] != m[1]
    &&& m[0] != m[2]
    &&& m[1] != m[2]
}

impl AlignedAxis {
    /// The coordinate indices `[u, v, n]`: the two in-plane axes, in order,
    /// followed by the axis of the plane's normal.
    pub open spec fn indexes(self) -> Seq<usize> {
        match self {
            AlignedAxis::XY => seq![0usize, 1usize, 2usize],
            AlignedAxis::XZ => seq![0usize, 2usize, 1usize],
            AlignedAxis::YZ => seq![1usize, 2usize, 0usize],
        }
    }

    /// The index of the axis along which the plane's normal points.
    pub open spec fn normal_index(self) -> usize {
        match self {
            AlignedAxis::XY => 2,
            AlignedAxis::XZ => 1,
            AlignedAxis::YZ => 0,
        }
    }

    /// The three axis pairs, in the order in which a cuboid lists its sides.
    pub fn variants() -> (all: [AlignedAxis; 3])
        ensures
            all@ == seq![AlignedAxis::XY, AlignedAxis::XZ, AlignedAxis::YZ],
    {
        let all: [AlignedAxis; 3] = [AlignedAxis::XY, AlignedAxis::XZ, AlignedAxis::YZ];
        assert(all@ =~= seq![AlignedAxis::XY, AlignedAxis::XZ, AlignedAxis::YZ]);
        all
    }

    /// Returns the in-plane axes followed by the normal axis.
    pub fn get_indexes(&self) -> (map: [usize; 3])
        ensures
            map@ == self.indexes(),
            map[2] == self.normal_index(),
            is_axis_permutation(map@),
    {
        let map: [usize; 3] = match self {
            AlignedAxis::XY => [0, 1, 2],
            AlignedAxis::XZ => [0, 2, 1],
            AlignedAxis::YZ => [1, 2, 0],
        };
        assert(map@ =~= self.indexes());
        map
    }
}

/// Whether the equation of a sphere and a ray has no root, so that the ray
/// misses the sphere: it has none where its discriminant is below zero.
pub fn has_no_root(discriminant: Scalar) -> (none: bool)
    ensures
        none == discriminant.is_below(Scalar { bits: ZERO_BITS }),
{
    discriminant.less_than(&Scalar { bits: ZERO_BITS })
}

/// The root of a sphere's equation that counts as the hit: the nearer one
/// where it lies within the range, else the farther one where that does,
/// else none.
pub open spec fn root_in_range(near: Scalar, far: Scalar, t_min: Scalar, t_max: Scalar) -> Option<
    Scalar,
> {
    if !near.is_outside(t_min, t_max) {
        Some(near)
    } else if !far.is_outside(t_min, t_max) {
        Some(far)
    } else {
        None
    }
}

/// Chooses between the two roots of a sphere's equation.
pub fn nearest_root(near: Scalar, far: Scalar, t_min: Scalar, t_max: Scalar) -> (root: Option<
    Scalar,
>)
    ensures
        root == root_in_range(near, far, t_min, t_max),
{
    if !near.outside(&t_min, &t_max) {
        Some(near)
    } else if !far.outside(&t_min, &t_max) {
        Some(far)
    } else {
        None
    }
}

/// Whether the rectangle between the corners `(u0, v0)` and `(u1, v1)` has
/// an extent: whether the first corner lies below the second along both
/// axes.
pub fn has_extent(u0: Scalar, v0: Scalar, u1: Scalar, v1: Scalar) -> (extended: bool)
    ensures
        extended == (u0.is_below(u1) && v0.is_below(v1)),
{
    u0.less_than(&u1) && v0.less_than(&v1)
}

/// Whether the point `(u, v)` of a rectangle's plane lies in the rectangle
/// between the corners `(u0, v0)` and `(u1, v1)`, its edges included.
pub open spec fn in_rectangle(
    u: Scalar,
    v: Scalar,
    u0: Scalar,
    v0: Scalar,
    u1: Scalar,
    v1: Scalar,
) -> bool {
    !u.is_outside(u0, u1) && !v.is_outside(v0, v1)
}

/// Decides whether a point of a rectangle's plane lies in the rectangle.
pub fn rectangle_contains(
    u: Scalar,
    v: Scalar,
    u0: Scalar,
    v0: Scalar,
    u1: Scalar,
    v1: Scalar,
) -> (inside: bool)
    ensures
        inside == in_rectangle(u, v, u0, v0, u1, v1),
{
    !u.outside(&u0, &u1) && !v.outside(&v0, &v1)
}

/// The stretch of a ray inside a medium: from where it enters the boundary,
/// but not before `t_min` nor before its origin, to where it leaves, but not
/// after `t_max`. None where the stretch ends no later than it begins.
pub open spec fn stretch_inside(
    enter: Scalar,
    exit: Scalar,
    t_min: Scalar,
    t_max: Scalar,
) -> Option<(Scalar, Scalar)> {
    let from = t_min.greater(enter).greater(Scalar { bits: ZERO_BITS });
    let to = t_max.lesser(exit);
    if to.is_at_most(from) {
        None
    } else {
        Some((from, to))
    }
}

/// Clips the stretch of a ray inside a medium to the range of the ray.
pub fn clip_to_range(enter: Scalar, exit: Scalar, t_min: Scalar, t_max: Scalar) -> (stretch:
    Option<(Scalar, Scalar)>)
    ensures
        stretch == stretch_inside(enter, exit, t_min, t_max),
{
    let from = t_min.max(enter).max(Scalar { bits: ZERO_BITS });
    let to = t_max.min(exit);
    if to.at_most(&from) {
        None
    } else {
        Some((from, to))
    }
}

/// Whether a ray leaves a medium without scattering: it does where the
/// free path that was drawn for it is longer than its stretch inside the
/// medium.
pub fn escapes(free_path: Scalar, stretch: Scalar) -> (escaped: bool)
    ensures
        escaped == stretch.is_below(free_path),
{
    stretch.less_than(&free_path)
}

/// A ray whose free path is no longer than its stretch inside a medium does
/// not escape the medium, and a clipped stretch that is not empty begins
/// before it ends.
pub proof fn lemma_short_path_does_not_escape(
    enter: Scalar,
    exit: Scalar,
    t_min: Scalar,
    t_max: Scalar,
    free_path: Scalar,
    stretch: Scalar,
)
    requires
        free_path.is_at_most(stretch),
    ensures
        !stretch.is_below(free_path),
        stretch_inside(enter, exit, t_min, t_max) matches Some((from, to)) ==> !to.is_at_most(from),
{
}

/// One of the six rectangles that close a cuboid: the axis pair that spans
/// it, and whether it lies at the cuboid's upper or lower bound along the
/// normal.
#[derive(Clone, Copy, Debug, PartialEq, Eq, Structural)]
pub struct CuboidSide {
    pub axis: AlignedAxis,
    pub upper: bool,
}

/// The bounds of a side of a cuboid: the plane `k` it lies in, and its two
/// corners `(u0, v0)` and `(u1, v1)` in that plane.
#[derive(Clone, Copy, Debug, PartialEq, Eq, Structural)]
pub struct SideBounds {
    pub k: Scalar,
    pub u0: Scalar,
    pub v0: Scalar,
    pub u1: Scalar,
    pub v1: Scalar,
}

impl CuboidSide {
    /// The bounds of this side of the cuboid between two corners: along the
    /// two axes that span it the side reaches from the lower to the upper
    /// corner, and along its normal it lies at the one or the other.
    pub open spec fn bounds_of(self, minimum: Vec3, maximum: Vec3) -> SideBounds {
        let map = self.axis.indexes();
        SideBounds {
            k: if self.upper {
                maximum.at(map[2] as int)
            } else {
                minimum.at(map[2] as int)
            },
            u0: minimum.at(map[0] as int),
            v0: minimum.at(map[1] as int),
            u1: maximum.at(map[0] as int),
            v1: maximum.at(map[1] as int),
        }
    }

    /// Picks the bounds of this side from the corners of the cuboid.
    pub fn bounds(&self, minimum: Vec3, maximum: Vec3) -> (bounds: SideBounds)
        ensures
            bounds == self.bounds_of(minimum, maximum),
    {
        let map = self.axis.get_indexes();
        let k = if self.upper {
            maximum.get(map[2])
        } else {
            minimum.get(map[2])
        };
        SideBounds {
            k,
            u0: minimum.get(map[0]),
            v0: minimum.get(map[1]),
            u1: maximum.get(map[0]),
            v1: maximum.get(map[1]),
        }
    }
}

/// The sides of a cuboid in the order in which it holds them: for each axis
/// pair, the lower side and then the upper one.
pub open spec fn cuboid_side(position: int) -> CuboidSide {
    CuboidSide {
        axis: if position / 2 == 0 {
            AlignedAxis::XY
        } else if position / 2 == 1 {
            AlignedAxis::XZ
        } else {
            AlignedAxis::YZ
        },
        upper: position % 2 == 1,
    }
}

/// Lists the six sides of a cuboid.
pub fn cuboid_sides() -> (sides: Vec<CuboidSide>)
    ensures
        sides@.len() == 6,
        forall|i: int| 0 <= i < 6 ==> sides@[i] == cuboid_side(i),
{
    let axes = AlignedAxis::variants();
    let mut sides: Vec<CuboidSide> = Vec::new();
    let mut i: usize = 0;
    while i < 3
        invariant
            i <= 3,
            axes@ == seq![AlignedAxis::XY, AlignedAxis::XZ, AlignedAxis::YZ],
            sides@.len() == 2 * i,
            forall|j: int| 0 <= j < 2 * i ==> sides@[j] == cuboid_side(j),
        decreases 3 - i,
    {
        let axis = axes[i];
        sides.push(CuboidSide { axis, upper: false });
        sides.push(CuboidSide { axis, upper: true });
        i = i + 1;
    }
    sides
}

/// A cuboid is closed: along each coordinate axis it has exactly one lower
/// and one upper side.
pub proof fn lemma_cuboid_is_closed(normal: usize, upper: bool)
    requires
        normal < 3,
    ensures
        exists|i: int|
            0 <= i < 6 && #[trigger] cuboid_side(i).axis.normal_index() == normal && cuboid_side(
                i,
            ).upper == upper,
        forall|i: int, j: int|
            0 <= i < 6 && 0 <= j < 6 && cuboid_side(i).axis.normal_index() == normal
                && cuboid_side(j).axis.normal_index() == normal && cuboid_side(i).upper == upper
                && cuboid_side(j).upper == upper ==> i == j,
{
    let i: int = 2 * (2 - normal) + if upper { 1int } else { 0int };
    assert(cuboid_side(i).axis.normal_index() == normal && cuboid_side(i).upper == upper);
}

} // verus!
