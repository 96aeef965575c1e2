//! What a ray hits: the face of a surface, the nearest of several hits, and
//! a list of primitives that acts as one primitive.

use crate::rand_gen::{get_rand_usize_range, usize_in_range, SAMPLE_SCALE};
use crate::scalar::{lemma_negation, Scalar, Vec3, ZERO_BITS};
use vstd::prelude::*;

verus! {

/// The side of a surface that a ray hit, and the normal on that side.
#[derive(Clone, Copy, Debug, PartialEq, Eq, Structural)]
pub struct Face {
    pub front_face: bool,
    pub normal: Vec3,
}

/// The face that a ray hit: the front, with the outward normal, where the
/// ray runs against that normal, and else the back, with the opposite
/// normal. `facing` is the dot product of the ray's direction and the
/// outward normal.
pub open spec fn face_of(facing: Scalar, outward_normal: Vec3) -> Face {
    if facing.is_below(Scalar { bits: ZERO_BITS }) {
        Face { front_face: true, normal: outward_normal }
    } else {
        Face { front_face: false, normal: outward_normal.negation() }
    }
}

/// Decides which face a ray hit, and turns the normal toward the ray.
pub fn set_face_normal(facing: Scalar, outward_normal: Vec3) -> (face: Face)
    ensures
        face == face_of(facing, outward_normal),
{
    let front_face = facing.less_than(&Scalar { bits: ZERO_BITS });
    let normal = if front_face {
        outward_normal
    } else {
        outward_normal.negated()
    };
    Face { front_face, normal }
}

/// The dot product of a ray's direction and the normal of a face, given
/// that of the direction and the outward normal: the same on the front, and
/// its opposite on the back, where the normal is the opposite one.
pub open spec fn facing_of(face: Face, facing: Scalar) -> Scalar {
    if face.front_face {
        facing
    } else {
        facing.negation()
    }
}

/// The normal of a face is the outward normal or its opposite, the face is
/// the front exactly where the ray runs against the outward normal, and the
/// ray never runs along the normal of the face: their dot product is zero
/// or below it, wherever that of the ray and the outward normal is a number.
pub proof fn lemma_face_is_turned_to_the_ray(facing: Scalar, outward_normal: Vec3)
    ensures
        face_of(facing, outward_normal).front_face == facing.is_below(Scalar { bits: ZERO_BITS }),
        face_of(facing, outward_normal).normal == outward_normal || face_of(
            facing,
            outward_normal,
        ).normal == outward_normal.negation(),
        !facing.is_nan() ==> facing_of(face_of(facing, outward_normal), facing).is_at_most(
            Scalar { bits: ZERO_BITS },
        ),
{
    lemma_negation(facing);
}

/// The face that counts as hit on a primitive seen from its other side: the
/// back for the front, and the front for the back.
pub fn flipped_face(front_face: bool) -> (flipped: bool)
    ensures
        flipped == !front_face,
{
    !front_face
}

/// The world of a scene with its lights joined to it: the lights, which are
/// sampled directly, are the last primitive of the world too, so that a ray
/// can see them.
pub fn with_lights<T>(world: Vec<T>, lights: T) -> (all: Vec<T>)
    ensures
        all@ == world@.push(lights),
{
    let mut all = world;
    all.push(lights);
    all
}

/// Whether a primitive with the hit `hit` is hit within the limit `limit`:
/// whether it is hit at all, and no farther than the limit.
pub open spec fn is_within<H>(hit: Option<(Scalar, H)>, limit: Scalar) -> bool {
    hit matches Some((t, _)) && t.is_at_most(limit)
}

/// The distance of a hit; zero where there is none.
pub open spec fn distance_of<H>(hit: Option<(Scalar, H)>) -> Scalar {
    match hit {
        Some((t, _)) => t,
        None => Scalar { bits: ZERO_BITS },
    }
}

/// Whether `strike` reports the hits `hits`: asked for primitive `i` and a
/// limit, it answers with the hit of that primitive where that lies within
/// the limit, and with nothing where it does not.
pub open spec fn strikes_exactly<H, F: Fn(usize, Scalar) -> Option<(Scalar, H)>>(
    strike: F,
    hits: Seq<Option<(Scalar, H)>>,
) -> bool {
    forall|i: usize, limit: Scalar, answer: Option<(Scalar, H)>|
        i < hits.len() && #[trigger] strike.ensures((i, limit), answer) ==> answer == if is_within(
            hits[i as int],
            limit,
        ) {
            hits[i as int]
        } else {
            None
        }
}

/// Whether `best` is a nearest hit among the primitives `among`: the hit of
/// one of them within `t_max` that is no farther than any other such hit, or
/// nothing where none of them is hit within `t_max`.
pub open spec fn is_nearest<H>(
    best: Option<(Scalar, H)>,
    hits: Seq<Option<(Scalar, H)>>,
    among: Seq<usize>,
    t_max: Scalar,
) -> bool {
    match best {
        Some((t, h)) => {
            &&& t.is_at_most(t_max)
            &&& exists|a: int| 0 <= a < among.len() && hits[#[trigger] among[a] as int] == best
            &&& forall|b: int|
                0 <= b < among.len() && is_within(hits[#[trigger] among[b] as int], t_max)
                    ==> t.is_at_most(distance_of(hits[among[b] as int]))
        },
        None => forall|b: int|
            0 <= b < among.len() ==> !is_within(hits[#[trigger] among[b] as int], t_max),
    }
}

/// Two nearest hits among the same primitives lie at the same distance:
/// a hierarchy and a list over the same primitives find the same nearest
/// hit, but for hits at equal distances.
pub proof fn lemma_nearest_hits_agree<H>(
    first: Option<(Scalar, H)>,
    second: Option<(Scalar, H)>,
    hits: Seq<Option<(Scalar, H)>>,
    among: Seq<usize>,
    others: Seq<usize>,
    t_max: Scalar,
)
    requires
        is_nearest(first, hits, among, t_max),
        is_nearest(second, hits, others, t_max),
        forall|a: int| 0 <= a < among.len() ==> others.contains(#[trigger] among[a]),
        forall|b: int| 0 <= b < others.len() ==> among.contains(#[trigger] others[b]),
    ensures
        first is Some <==> second is Some,
        first is Some ==> distance_of(first).value() == distance_of(second).value(),
{
    if first is Some {
        let a = choose|a: int| 0 <= a < among.len() && hits[#[trigger] among[a] as int] == first;
        assert(others.contains(among[a]));
        let b = choose|b: int| 0 <= b < others.len() && others[b] == among[a];
        assert(is_within(hits[others[b] as int], t_max));
    }
    if second is Some {
        let b = choose|b: int| 0 <= b < others.len() && hits[#[trigger] others[b] as int] == second;
        assert(among.contains(others[b]));
        let a = choose|a: int| 0 <= a < among.len() && among[a] == others[b];
        assert(is_within(hits[among[a] as int], t_max));
    }
}

/// The primitives of a list of `count`, in order.
pub open spec fn all_objects(count: nat) -> Seq<usize> {
    Seq::new(count, |i: int| i as usize)
}

/// Finds a nearest hit among the `count` primitives of a list: each in turn
/// is asked for its hit within what is nearest so far, and the last answer
/// is the result.
///
/// `strike(i, limit)` gives the hit of primitive `i` that lies within
/// `limit`, as its distance and what else is known of it. Where each
/// primitive has one hit that `strike` reports whenever the limit allows,
/// the result is a nearest of these hits.
pub fn nearest_hit<H, F: Fn(usize, Scalar) -> Option<(Scalar, H)>>(
    count: usize,
    strike: &F,
    t_max: Scalar,
) -> (best: Option<(Scalar, H)>)
    requires
        forall|i: usize, limit: Scalar| i < count ==> strike.requires((i, limit)),
    ensures
        best is Some ==> exists|i: usize, limit: Scalar|
            i < count && #[trigger] strike.ensures((i, limit), best),
        forall|hits: Seq<Option<(Scalar, H)>>|
            hits.len() == count && #[trigger] strikes_exactly(*strike, hits) ==> is_nearest(
                best,
                hits,
                all_objects(count as nat),
                t_max,
            ),
{
    let mut best: Option<(Scalar, H)> = None;
    let mut closest_so_far: Scalar = t_max;
    let mut i: usize = 0;
    while i < count
        invariant
            i <= count,
            forall|i: usize, limit: Scalar| i < count ==> strike.requires((i, limit)),
            closest_so_far == match best {
                Some((t, _)) => t,
                None => t_max,
            },
            best is Some ==> exists|j: usize, limit: Scalar|
                j < count && #[trigger] strike.ensures((j, limit), best),
            forall|hits: Seq<Option<(Scalar, H)>>|
                hits.len() == count && #[trigger] strikes_exactly(*strike, hits) ==> is_nearest(
                    best,
                    hits,
                    all_objects(i as nat),
                    t_max,
                ),
        decreases count - i,
    {
        let answer = strike(i, closest_so_far);
        let ghost before = best;
        let ghost limit = closest_so_far;
        if let Some((t, h)) = answer {
            closest_so_far = t;
            best = Some((t, h));
        }
        proof {
            assert forall|hits: Seq<Option<(Scalar, H)>>|
                hits.len() == count && #[trigger] strikes_exactly(*strike, hits) implies is_nearest(
                best,
                hits,
                all_objects((i + 1) as nat),
                t_max,
            ) by {
                lemma_scan_step(before, answer, hits, i, limit, t_max);
                assert(strike.ensures((i, limit), answer));
                assert(is_nearest(before, hits, all_objects(i as nat), t_max));
            }
        }
        i = i + 1;
    }
    best
}

/// One step of a scan: where `before` is a nearest hit among the first `i`
/// primitives and `answer` is what primitive `i` is hit at within that, the
/// answer, or else what was there before, is a nearest hit among the first
/// `i + 1`.
proof fn lemma_scan_step<H>(
    before: Option<(Scalar, H)>,
    answer: Option<(Scalar, H)>,
    hits: Seq<Option<(Scalar, H)>>,
    i: usize,
    limit: Scalar,
    t_max: Scalar,
)
    requires
        i < hits.len(),
        is_nearest(before, hits, all_objects(i as nat), t_max),
        limit == match before {
            Some((t, _)) => t,
            None => t_max,
        },
        answer == if is_within(hits[i as int], limit) {
            hits[i as int]
        } else {
            None
        },
    ensures
        is_nearest(
            if answer is Some {
                answer
            } else {
                before
            },
            hits,
            all_objects((i + 1) as nat),
            t_max,
        ),
{
    let among = all_objects((i + 1) as nat);
    let earlier = all_objects(i as nat);
    let after = if answer is Some {
        answer
    } else {
        before
    };
    assert forall|b: int| 0 <= b < i implies among[b] == earlier[b] by {}
    assert(among[i as int] == i);
    match after {
        Some((t, h)) => {
            if answer is Some {
                assert(hits[among[i as int] as int] == after);
            } else {
                let a = choose|a: int| 0 <= a < earlier.len() && hits[#[trigger] earlier[a] as int] == before;
                assert(hits[among[a] as int] == after);
            }
            assert forall|b: int|
                0 <= b < among.len() && is_within(hits[#[trigger] among[b] as int], t_max)
                implies t.is_at_most(distance_of(hits[among[b] as int])) by {
                if b < i {
                    assert(is_within(hits[earlier[b] as int], t_max));
                }
            }
        },
        None => {
            assert forall|b: int| 0 <= b < among.len() implies !is_within(
                hits[#[trigger] among[b] as int],
                t_max,
            ) by {
                if b < i {
                    assert(!is_within(hits[earlier[b] as int], t_max));
                }
            }
        },
    }
}

/// A list of primitives, held by whatever handle `T` the caller shares them
/// with, and an optional label.
#[derive(Debug)]
pub struct HittableList<T> {
    pub objects: Vec<T>,
    label: Option<String>,
}

/// The mathematical model of a [`HittableList`].
pub struct HittableListView<T> {
    pub objects: Seq<T>,
    pub label: Option<Seq<char>>,
}

impl<T> View for HittableList<T> {
    type V = HittableListView<T>;

    closed spec fn view(&self) -> HittableListView<T> {
        HittableListView {
            objects: self.objects@,
            label: match self.label {
                Some(label) => Some(label@),
                None => None,
            },
        }
    }
}

impl<T> HittableList<T> {
    /// A list of the given primitives.
    pub fn new(objects: Vec<T>, label: Option<String>) -> (list: Self)
        ensures
            list@.objects == objects@,
            list@.label == match label {
                Some(text) => Some(text@),
                None => None,
            },
    {
        HittableList { objects, label }
    }

    /// Empties the list. The label stays.
    pub fn clear(&mut self)
        ensures
            final(self)@.objects == Seq::<T>::empty(),
            final(self)@.label == old(self)@.label,
    {
        self.objects.clear();
    }

    /// Adds a primitive at the end of the list.
    pub fn add(&mut self, object: T)
        ensures
            final(self)@.objects == old(self)@.objects.push(object),
            final(self)@.label == old(self)@.label,
    {
        self.objects.push(object);
    }

    /// The number of primitives in the list.
    pub fn len(&self) -> (len: usize)
        ensures
            len == self@.objects.len(),
    {
        self.objects.len()
    }

    /// The label of the list, if it has one.
    pub fn get_label(&self) -> (label: Option<&String>)
        ensures
            match label {
                Some(text) => self@.label == Some(text@),
                None => self@.label is None,
            },
    {
        self.label.as_ref()
    }

    /// One primitive of the list, drawn at random: the one at the index
    /// that a uniform sample of `[0, 1)` scales to.
    pub fn random(&self) -> (object: &T)
        requires
            self@.objects.len() > 0,
        ensures
            self@.objects.contains(*object),
            exists|bits: int|
                0 <= bits < SAMPLE_SCALE && *object == self@.objects[#[trigger] usize_in_range(
                    0,
                    self@.objects.len() as int,
                    bits,
                )],
    {
        let index: usize = get_rand_usize_range(0, self.objects.len());
        &self.objects[index]
    }
}

} // verus!
