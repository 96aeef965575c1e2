use ray_tracing::aabb::{AxisAlignedBoundingBox, Slab};
use ray_tracing::geo::{
    clip_to_range, cuboid_sides, escapes, has_extent, has_no_root, nearest_root,
    rectangle_contains, AlignedAxis, CuboidSide, SideBounds,
};
use ray_tracing::material::{clamp_fuzz, emitted, must_reflect, reflects_outward};
use ray_tracing::onb::auxiliary_is_y;
use ray_tracing::pdf::{choose_half, cosine_density, mixture_half};
use ray_tracing::rand_gen::{in_unit_disk, in_unit_sphere, SAMPLE_SCALE};
use ray_tracing::ray::{flipped_face, set_face_normal, with_lights, Face};
use ray_tracing::scalar::{Scalar, Vec3};
use ray_tracing::texture::checker_is_odd;

fn scalar(number: f32) -> Scalar {
    Scalar::from_bits(number.to_bits())
}

fn triple(x: f32, y: f32, z: f32) -> Vec3 {
    Vec3::new(scalar(x), scalar(y), scalar(z))
}

/// The slab of an axis for a ray from `origin` along `direction` and a box
/// between `low` and `high`.
fn slab(origin: f32, direction: f32, low: f32, high: f32) -> Slab {
    let inverse = 1. / direction;
    Slab {
        inverse: scalar(inverse),
        t0: scalar((low - origin) * inverse),
        t1: scalar((high - origin) * inverse),
    }
}

#[test]
fn comparisons_of_numbers() {
    assert!(scalar(1.).at_most(&scalar(1.)));
    assert!(scalar(-0.).at_most(&scalar(0.)));
    assert!(scalar(0.).at_most(&scalar(-0.)));
    assert!(scalar(1.).at_most(&scalar(2.)));
    assert!(!scalar(2.).at_most(&scalar(1.)));
    assert!(!scalar(f32::NAN).at_most(&scalar(1.)));
    assert!(!scalar(1.).at_most(&scalar(f32::NAN)));
    assert!(scalar(0.5).outside(&scalar(1.), &scalar(2.)));
    assert!(scalar(2.5).outside(&scalar(1.), &scalar(2.)));
    assert!(!scalar(1.).outside(&scalar(1.), &scalar(2.)));
    assert!(!scalar(2.).outside(&scalar(1.), &scalar(2.)));
    assert!(!scalar(f32::NAN).outside(&scalar(1.), &scalar(2.)));
    assert!(!scalar(1.5).outside(&scalar(f32::NAN), &scalar(f32::NAN)));
    assert!(scalar(0.).outside(&scalar(2.), &scalar(1.)));
}

#[test]
fn negation_changes_the_sign_only() {
    for x in [0.0f32, -0.0, 1.5, -1.5, 1.0e-45, f32::MAX, f32::INFINITY, f32::NEG_INFINITY] {
        assert_eq!(scalar(x).negated(), scalar(-x));
        assert_eq!(scalar(x).negated().negated(), scalar(x));
    }
    assert!(scalar(f32::NAN).negated().is_not_a_number());
    assert_eq!(triple(1., -2., 0.).negated(), triple(-1., 2., -0.));
}

#[test]
fn ray_through_the_middle_of_a_box_hits_it() {
    // From (0, 0, -5) along +z through the box between -1 and 1.
    let slabs = [
        slab(0., 0., -1., 1.),
        slab(0., 0., -1., 1.),
        slab(-5., 1., -1., 1.),
    ];
    assert!(AxisAlignedBoundingBox::hit(&slabs, scalar(0.001), scalar(f32::INFINITY)));
    // The box is left behind after t = 6.
    assert!(!AxisAlignedBoundingBox::hit(&slabs, scalar(6.), scalar(f32::INFINITY)));
    // It is not reached before t = 4.
    assert!(!AxisAlignedBoundingBox::hit(&slabs, scalar(0.), scalar(4.)));
    assert!(AxisAlignedBoundingBox::hit(&slabs, scalar(4.5), scalar(5.)));
}

#[test]
fn ray_that_is_in_no_two_slabs_at_once_misses_the_box() {
    // The unit box and a ray from (-1, -3, -1) along the diagonal: with
    // s = t / sqrt(3) it is between the planes of x and of z for s from 1 to
    // 2, and between those of y from 3 to 4.
    let root = 3f32.sqrt();
    let direction = 1. / root;
    let slabs = [
        slab(-1., direction, 0., 1.),
        slab(-3., direction, 0., 1.),
        slab(-1., direction, 0., 1.),
    ];
    for each in slabs {
        assert!(each.hit(scalar(0.), scalar(f32::INFINITY)));
    }
    assert!(!AxisAlignedBoundingBox::hit(&slabs, scalar(0.), scalar(f32::INFINITY)));
}

#[test]
fn ray_through_a_corner_of_a_box_hits_it_where_all_slabs_overlap() {
    // From (-1, -1.5, -1) along the diagonal: in the slabs of x and z for s
    // from 1 to 2, in that of y from 1.5 to 2.5.
    let direction = 1. / 3f32.sqrt();
    let slabs = [
        slab(-1., direction, 0., 1.),
        slab(-1.5, direction, 0., 1.),
        slab(-1., direction, 0., 1.),
    ];
    let at = |s: f32| scalar(s * 3f32.sqrt());
    assert!(AxisAlignedBoundingBox::hit(&slabs, scalar(0.), scalar(f32::INFINITY)));
    assert!(AxisAlignedBoundingBox::hit(&slabs, at(1.6), at(1.9)));
    assert!(!AxisAlignedBoundingBox::hit(&slabs, scalar(0.), at(1.4)));
    assert!(!AxisAlignedBoundingBox::hit(&slabs, at(2.1), scalar(f32::INFINITY)));
}

#[test]
fn ray_beside_a_box_misses_it() {
    // From (3, 0, -5) along +z: never between the planes x = -1 and x = 1.
    let slabs = [
        slab(3., 0., -1., 1.),
        slab(0., 0., -1., 1.),
        slab(-5., 1., -1., 1.),
    ];
    assert!(!AxisAlignedBoundingBox::hit(&slabs, scalar(0.), scalar(f32::INFINITY)));
}

#[test]
fn slab_test_of_a_backward_ray_exchanges_the_planes() {
    // From z = 5 along -z: the upper plane is met first.
    let backward = slab(5., -1., -1., 1.);
    assert_eq!(backward.t0, scalar(6.));
    assert_eq!(backward.t1, scalar(4.));
    let forward = Slab { inverse: scalar(1.), t0: backward.t1, t1: backward.t0 };
    for (t_min, t_max) in [(0., 10.), (0., 4.), (4., 6.), (5., 5.5), (6., 9.), (4.5, 4.4)] {
        assert_eq!(
            backward.hit(scalar(t_min), scalar(t_max)),
            forward.hit(scalar(t_min), scalar(t_max))
        );
    }
    assert!(backward.hit(scalar(0.), scalar(10.)));
    assert!(!backward.hit(scalar(0.), scalar(4.)));
    assert!(!backward.hit(scalar(6.), scalar(9.)));
}

#[test]
fn slab_test_is_strict() {
    let flat = Slab { inverse: scalar(1.), t0: scalar(2.), t1: scalar(2.) };
    assert!(!flat.hit(scalar(0.), scalar(10.)));
    let thin = Slab { inverse: scalar(1.), t0: scalar(2.), t1: scalar(2.000_000_2) };
    assert!(thin.hit(scalar(0.), scalar(10.)));
}

#[test]
fn nearer_root_wins_within_the_range() {
    let range = (scalar(0.001), scalar(f32::INFINITY));
    assert_eq!(nearest_root(scalar(0.5), scalar(1.5), range.0, range.1), Some(scalar(0.5)));
    // From inside the sphere the nearer root lies behind the origin.
    assert_eq!(nearest_root(scalar(-0.5), scalar(1.5), range.0, range.1), Some(scalar(1.5)));
    assert_eq!(nearest_root(scalar(-1.5), scalar(-0.5), range.0, range.1), None);
    assert_eq!(nearest_root(scalar(0.5), scalar(1.5), scalar(0.6), scalar(1.)), None);
    assert_eq!(nearest_root(scalar(0.5), scalar(1.5), scalar(0.5), scalar(0.5)), Some(scalar(0.5)));
    assert_eq!(nearest_root(scalar(0.5), scalar(1.5), scalar(1.), scalar(1.5)), Some(scalar(1.5)));
}

#[test]
fn rectangle_includes_its_edges() {
    let inside = |u: f32, v: f32| {
        rectangle_contains(scalar(u), scalar(v), scalar(-1.), scalar(0.), scalar(1.), scalar(2.))
    };
    assert!(inside(0., 1.));
    assert!(inside(-1., 0.));
    assert!(inside(1., 2.));
    assert!(!inside(-1.000_000_1, 1.));
    assert!(!inside(0., 2.000_000_2));
    assert!(!inside(1.5, 1.));
    assert!(!inside(0., -0.5));
}

#[test]
fn stretch_inside_a_medium_is_clipped_to_the_range() {
    let clip = |enter: f32, exit: f32, t_min: f32, t_max: f32| {
        clip_to_range(scalar(enter), scalar(exit), scalar(t_min), scalar(t_max))
    };
    assert_eq!(clip(1., 3., 0.001, f32::INFINITY), Some((scalar(1.), scalar(3.))));
    assert_eq!(clip(1., 3., 2., 2.5), Some((scalar(2.), scalar(2.5))));
    // A ray that starts inside the medium enters it at its origin.
    assert_eq!(clip(-2., 3., -5., 10.), Some((scalar(0.), scalar(3.))));
    assert_eq!(clip(-2., 3., 0.001, 10.), Some((scalar(0.001), scalar(3.))));
    assert_eq!(clip(1., 3., 3., 10.), None);
    assert_eq!(clip(1., 3., 4., 10.), None);
    assert_eq!(clip(1., 3., 0., 1.), None);
    assert_eq!(clip(-3., -1., 0.001, 10.), None);
}

#[test]
fn front_face_keeps_the_outward_normal() {
    let outward = triple(0., 0., 1.);
    assert_eq!(
        set_face_normal(scalar(-1.), outward),
        Face { front_face: true, normal: outward }
    );
    assert_eq!(
        set_face_normal(scalar(-1.0e-30), outward),
        Face { front_face: true, normal: outward }
    );
}

#[test]
fn back_face_turns_the_normal() {
    let outward = triple(0.6, -0.8, 0.);
    assert_eq!(
        set_face_normal(scalar(0.5), outward),
        Face { front_face: false, normal: triple(-0.6, 0.8, -0.) }
    );
    // A ray along the surface counts as hitting the back.
    assert_eq!(
        set_face_normal(scalar(0.), outward),
        Face { front_face: false, normal: triple(-0.6, 0.8, -0.) }
    );
    assert_eq!(
        set_face_normal(scalar(-0.), outward),
        Face { front_face: false, normal: triple(-0.6, 0.8, -0.) }
    );
    assert!(!set_face_normal(scalar(f32::NAN), outward).front_face);
}

#[test]
fn normal_always_faces_the_ray() {
    let directions = [[0.0f32, 0., -1.], [0.6, 0.8, 0.], [-0.36, 0.48, 0.8], [1., 0., 0.]];
    let normals = [[0.0f32, 0., 1.], [0., 1., 0.], [-0.8, 0.6, 0.], [0.6, 0., -0.8]];
    for direction in directions {
        for outward in normals {
            let dot = |n: [f32; 3]| n[0] * direction[0] + n[1] * direction[1] + n[2] * direction[2];
            let face = set_face_normal(scalar(dot(outward)), triple(outward[0], outward[1], outward[2]));
            let normal = [
                f32::from_bits(face.normal.x.to_bits()),
                f32::from_bits(face.normal.y.to_bits()),
                f32::from_bits(face.normal.z.to_bits()),
            ];
            assert!(dot(normal) <= 0.);
            assert_eq!(face.front_face, dot(outward) < 0.);
        }
    }
}

#[test]
fn halves_of_a_mixture() {
    assert_eq!(mixture_half(0), 0);
    assert_eq!(mixture_half(SAMPLE_SCALE / 2 - 1), 0);
    assert_eq!(mixture_half(SAMPLE_SCALE / 2), 1);
    assert_eq!(mixture_half(SAMPLE_SCALE - 1), 1);
}

#[test]
fn both_halves_of_a_mixture_are_drawn() {
    let mut seen = [false; 2];
    for _ in 0..1_000 {
        seen[choose_half()] = true;
    }
    assert_eq!(seen, [true; 2]);
}

#[test]
fn unit_sphere_straight_ahead_is_hit_on_its_front() {
    // A ray from the origin along -z meets the sphere of radius 0.5 about
    // (0, 0, -1) at t = 0.5 and t = 1.5.
    let root = nearest_root(scalar(0.5), scalar(1.5), scalar(0.001), scalar(f32::INFINITY));
    assert_eq!(root, Some(scalar(0.5)));
    // There the outward normal (0, 0, 1) runs against the ray.
    let face = set_face_normal(scalar(-1.), triple(0., 0., 1.));
    assert_eq!(face, Face { front_face: true, normal: triple(0., 0., 1.) });
}

#[test]
fn rectangle_straight_ahead_is_hit_in_its_middle() {
    // A ray from the origin along +x meets the plane x = 2 at t = 2, in the
    // point (y, z) = (0, 0) of the rectangle between (-1, -1) and (1, 1).
    assert!(!scalar(2.).outside(&scalar(0.001), &scalar(f32::INFINITY)));
    assert!(rectangle_contains(
        scalar(0.),
        scalar(0.),
        scalar(-1.),
        scalar(-1.),
        scalar(1.),
        scalar(1.)
    ));
}

#[test]
fn fuzz_is_at_most_one() {
    assert_eq!(clamp_fuzz(scalar(0.)), scalar(0.));
    assert_eq!(clamp_fuzz(scalar(0.3)), scalar(0.3));
    assert_eq!(clamp_fuzz(scalar(1.)), scalar(1.));
    assert_eq!(clamp_fuzz(scalar(1.5)), scalar(1.));
    assert_eq!(clamp_fuzz(scalar(f32::INFINITY)), scalar(1.));
    assert_eq!(clamp_fuzz(scalar(f32::NAN)), scalar(1.));
}

#[test]
fn metal_scatters_rays_that_leave_the_surface() {
    assert!(reflects_outward(scalar(0.5)));
    assert!(reflects_outward(scalar(1.0e-30)));
    assert!(!reflects_outward(scalar(0.)));
    assert!(!reflects_outward(scalar(-0.5)));
    assert!(!reflects_outward(scalar(f32::NAN)));
}

#[test]
fn glass_reflects_where_it_cannot_refract() {
    // Whatever the sample and the reflectance.
    assert!(must_reflect(scalar(1.000_000_1), scalar(0.), 0));
    assert!(must_reflect(scalar(1.5), scalar(0.), (1 << 24) - 1));
    assert!(!must_reflect(scalar(1.), scalar(0.), 0));
}

#[test]
fn glass_reflects_where_the_reflectance_is_above_the_sample() {
    // A sample of one half.
    let half = 1 << 23;
    assert!(must_reflect(scalar(0.), scalar(0.500_000_1), half));
    assert!(!must_reflect(scalar(0.), scalar(0.5), half));
    assert!(!must_reflect(scalar(0.), scalar(0.04), half));
    assert!(must_reflect(scalar(0.), scalar(0.04), 0));
    assert!(!must_reflect(scalar(0.), scalar(0.), 0));
    assert!(!must_reflect(scalar(0.), scalar(f32::NAN), 0));
}

#[test]
fn glass_at_normal_incidence_refracts_for_most_samples() {
    // With a refractive index of 1.5 the ratio is 1 / 1.5, the sine is zero
    // and the reflectance ((1 - 1.5) / (1 + 1.5))^2 = 0.04.
    let ratio = 1. / 1.5f32;
    let bent_sine = scalar(ratio * 0.);
    let reflectance = scalar(0.04);
    // 0.04 * 2^24 = 671088.64
    assert!(must_reflect(bent_sine, reflectance, 671_088));
    assert!(!must_reflect(bent_sine, reflectance, 671_089));
    assert!(!must_reflect(bent_sine, reflectance, 1 << 23));
}

#[test]
fn basis_about_the_first_axis_starts_from_the_second() {
    assert!(auxiliary_is_y(scalar(1.)));
    assert!(auxiliary_is_y(scalar(-1.)));
    assert!(auxiliary_is_y(scalar(0.95)));
    assert!(auxiliary_is_y(scalar(-0.900_000_1)));
    assert!(!auxiliary_is_y(scalar(0.9)));
    assert!(!auxiliary_is_y(scalar(-0.9)));
    assert!(!auxiliary_is_y(scalar(0.)));
    assert!(!auxiliary_is_y(scalar(0.5)));
    assert!(!auxiliary_is_y(scalar(f32::NAN)));
    for step in -100..=100 {
        let x = step as f32 / 100.;
        assert_eq!(auxiliary_is_y(scalar(x)), x.abs() > 0.9);
    }
}

#[test]
fn doubling_is_exact() {
    for x in [
        0.0f32,
        -0.0,
        1.0e-45,
        5.0e-39,
        8.0e-39,
        f32::MIN_POSITIVE,
        0.1,
        0.5,
        1.0,
        -0.75,
        1.0e30,
        -1.0e38,
        1.7e38,
        2.0e38,
        f32::MAX,
        f32::INFINITY,
        f32::NEG_INFINITY,
    ] {
        assert_eq!(scalar(x).twice(), scalar(2. * x), "{x}");
    }
    assert!(scalar(f32::NAN).twice().is_not_a_number());
    for _ in 0..20_000 {
        let x = f32::from_bits(rand::random::<u32>());
        if !x.is_nan() {
            assert_eq!(scalar(x).twice(), scalar(2. * x), "{x}");
        }
    }
}

#[test]
fn cosine_density_is_twice_the_cosine_above_the_horizon() {
    assert_eq!(cosine_density(scalar(1.)), scalar(2.));
    assert_eq!(cosine_density(scalar(0.5)), scalar(1.));
    assert_eq!(cosine_density(scalar(0.3)), scalar(0.6));
    assert_eq!(cosine_density(scalar(1.0e-20)), scalar(2.0e-20));
    assert_eq!(cosine_density(scalar(0.)), scalar(0.));
    assert_eq!(cosine_density(scalar(-0.)), scalar(0.));
    assert_eq!(cosine_density(scalar(-0.5)), scalar(0.));
    assert_eq!(cosine_density(scalar(-1.)), scalar(0.));
    assert!(cosine_density(scalar(f32::NAN)).is_not_a_number());
    for step in -100..=100 {
        let cosine = step as f32 / 100.;
        let expected = if cosine <= 0. { 0. } else { 2. * cosine };
        assert_eq!(cosine_density(scalar(cosine)), scalar(expected));
    }
}

#[test]
fn ray_escapes_a_medium_where_its_free_path_is_longer() {
    assert!(escapes(scalar(2.), scalar(1.)));
    assert!(!escapes(scalar(1.), scalar(1.)));
    assert!(!escapes(scalar(0.5), scalar(1.)));
    // In a medium of endless density the free path is zero: no ray escapes.
    assert!(!escapes(scalar(0.), scalar(1.0e-6)));
    assert!(!escapes(scalar(-0.), scalar(0.)));
    assert!(escapes(scalar(f32::INFINITY), scalar(1.0e30)));
    assert!(!escapes(scalar(f32::NAN), scalar(1.)));
}

#[test]
fn odd_cells_of_a_chequered_texture() {
    assert!(checker_is_odd(scalar(-0.3)));
    assert!(checker_is_odd(scalar(-1.0e-30)));
    assert!(!checker_is_odd(scalar(0.)));
    assert!(!checker_is_odd(scalar(-0.)));
    assert!(!checker_is_odd(scalar(0.3)));
    assert!(!checker_is_odd(scalar(f32::NAN)));
}

#[test]
fn sphere_is_missed_where_the_discriminant_is_below_zero() {
    assert!(has_no_root(scalar(-1.)));
    assert!(has_no_root(scalar(-1.0e-30)));
    assert!(!has_no_root(scalar(0.)));
    assert!(!has_no_root(scalar(-0.)));
    assert!(!has_no_root(scalar(0.25)));
    assert!(!has_no_root(scalar(f32::NAN)));
}

#[test]
fn bounds_of_the_sides_of_a_cuboid() {
    let minimum = triple(1., 2., 3.);
    let maximum = triple(4., 5., 6.);
    let side = CuboidSide { axis: AlignedAxis::XY, upper: false };
    assert_eq!(
        side.bounds(minimum, maximum),
        SideBounds {
            k: scalar(3.),
            u0: scalar(1.),
            v0: scalar(2.),
            u1: scalar(4.),
            v1: scalar(5.),
        }
    );
    let side = CuboidSide { axis: AlignedAxis::XZ, upper: true };
    assert_eq!(
        side.bounds(minimum, maximum),
        SideBounds {
            k: scalar(5.),
            u0: scalar(1.),
            v0: scalar(3.),
            u1: scalar(4.),
            v1: scalar(6.),
        }
    );
    let side = CuboidSide { axis: AlignedAxis::YZ, upper: true };
    assert_eq!(
        side.bounds(minimum, maximum),
        SideBounds {
            k: scalar(4.),
            u0: scalar(2.),
            v0: scalar(3.),
            u1: scalar(5.),
            v1: scalar(6.),
        }
    );
}

#[test]
fn sides_of_a_cuboid_lie_at_its_six_bounds() {
    let minimum = triple(-1., -2., -3.);
    let maximum = triple(1., 2., 3.);
    let planes: Vec<f32> = cuboid_sides()
        .into_iter()
        .map(|side| f32::from_bits(side.bounds(minimum, maximum).k.to_bits()))
        .collect();
    assert_eq!(planes, vec![-3., 3., -2., 2., -1., 1.]);
}

#[test]
fn points_kept_by_the_rejection_samplers() {
    assert!(in_unit_sphere(scalar(0.)));
    assert!(in_unit_sphere(scalar(0.999_999_94)));
    assert!(!in_unit_sphere(scalar(1.)));
    assert!(!in_unit_sphere(scalar(2.5)));
    assert!(!in_unit_sphere(scalar(f32::NAN)));
    assert!(in_unit_disk(scalar(0.)));
    assert!(in_unit_disk(scalar(0.999_999_94)));
    assert!(!in_unit_disk(scalar(1.)));
    assert!(!in_unit_disk(scalar(2.5)));
    assert!(in_unit_disk(scalar(f32::NAN)));
}

#[test]
fn lamp_emits_from_its_front_face_only() {
    assert_eq!(emitted(true, [7., 7., 7.]), Some([7., 7., 7.]));
    assert_eq!(emitted(false, [7., 7., 7.]), None);
}

#[test]
fn primitive_seen_from_its_other_side_shows_the_other_face() {
    assert!(!flipped_face(true));
    assert!(flipped_face(false));
    // A lamp that hangs face down shines on what lies below it.
    assert_eq!(emitted(flipped_face(false), 15), Some(15));
}

#[test]
fn lights_are_the_last_primitive_of_the_world() {
    assert_eq!(with_lights(vec!["floor", "wall"], "lights"), vec!["floor", "wall", "lights"]);
    assert_eq!(with_lights(vec![], 1), vec![1]);
}

#[test]
fn rectangle_needs_an_extent_along_both_axes() {
    assert!(has_extent(scalar(0.), scalar(0.), scalar(1.), scalar(1.)));
    assert!(has_extent(scalar(-1.), scalar(3.), scalar(1.), scalar(5.)));
    assert!(!has_extent(scalar(0.), scalar(0.), scalar(0.), scalar(1.)));
    assert!(!has_extent(scalar(0.), scalar(1.), scalar(1.), scalar(1.)));
    assert!(!has_extent(scalar(2.), scalar(0.), scalar(1.), scalar(1.)));
    assert!(!has_extent(scalar(f32::NAN), scalar(0.), scalar(1.), scalar(1.)));
}
