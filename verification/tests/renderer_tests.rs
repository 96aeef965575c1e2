use ray_tracing::gui::{Gui, Scene};
use ray_tracing::material::ScatterType;
use ray_tracing::renderer::{ray_step, Encounter, Renderer, Sampling, Step};
use ray_tracing::scalar::Scalar;
use ray_tracing::scene::SceneKind;

fn scalar(number: f32) -> Scalar {
    Scalar::from_bits(number.to_bits())
}

/// A sample whose root, times 256, is the given byte.
fn sample_of(byte: u8) -> Scalar {
    let root = byte as f32 / 256.;
    scalar(root * root)
}

fn colour(r: u8, g: u8, b: u8) -> [Scalar; 3] {
    [sample_of(r), sample_of(g), sample_of(b)]
}

/// The first of the samples: the mean of samples that are all alike.
fn first(samples: Vec<[Scalar; 3]>) -> [Scalar; 3] {
    samples[0]
}

/// Draws with as many samples as the renderer asks for, all alike.
fn draw_colours<F: Fn(u32, u32) -> [Scalar; 3]>(renderer: &mut Renderer, frame: &mut [u8], shade: F) {
    renderer.draw(frame, |x, y, _| shade(x, y), first);
}

fn number(scalar: Scalar) -> f32 {
    f32::from_bits(scalar.to_bits())
}

/// The mean of the samples in single precision.
fn mean(samples: Vec<[Scalar; 3]>) -> [Scalar; 3] {
    let mut sum = [0f32; 3];
    for sample in &samples {
        for channel in 0..3 {
            sum[channel] += number(sample[channel]);
        }
    }
    let count = samples.len() as f32;
    [scalar(sum[0] / count), scalar(sum[1] / count), scalar(sum[2] / count)]
}

fn colour_of(x: u32, y: u32) -> [Scalar; 3] {
    colour(x as u8, y as u8, (10 * x + y) as u8)
}

fn bytes_of(x: u32, y: u32) -> [u8; 3] {
    [x as u8, y as u8, (10 * x + y) as u8]
}

/// What floating-point arithmetic of double precision makes of a sample.
fn byte_by_arithmetic(sample: f32) -> u8 {
    if sample.is_nan() || sample <= 0. {
        0
    } else {
        (256. * (sample as f64).sqrt()).round().min(255.) as u8
    }
}

#[test]
fn new_renderer_has_the_stock_settings() {
    let renderer = Renderer::new(640, 480, "earth");
    assert_eq!(renderer.width, 640);
    assert_eq!(renderer.height, 480);
    assert_eq!(renderer.scale(), 1);
    assert_eq!(renderer.multisample, 4);
    assert_eq!(renderer.max_depth, 10);
    assert!(renderer.dirty);
    assert_eq!(renderer.label(), "earth");
}

#[test]
fn renderer_reports_its_settings() {
    let mut renderer = Renderer::new(640, 480, "earth");
    assert_eq!((renderer.width(), renderer.height()), (640, 480));
    assert_eq!((renderer.multisample(), renderer.max_depth()), (4, 10));
    assert!(renderer.is_dirty());
    renderer.set_quality(9, 2);
    renderer.update_scale(2);
    let mut frame = vec![0u8; 4 * 320 * 240];
    draw_colours(&mut renderer, &mut frame, |_, _| colour(0, 0, 0));
    assert_eq!((renderer.width(), renderer.height()), (320, 240));
    assert_eq!((renderer.multisample(), renderer.max_depth()), (9, 2));
    assert!(!renderer.is_dirty());
}

#[test]
fn draw_fills_rows_from_the_bottom() {
    let mut renderer = Renderer::new(3, 2, "2sp");
    let mut frame = vec![0u8; 4 * 3 * 2];
    draw_colours(&mut renderer, &mut frame, colour_of);
    assert_eq!(
        frame,
        vec![
            // the top row of the image is scanline 1
            0, 1, 1, 255, 1, 1, 11, 255, 2, 1, 21, 255,
            // the bottom row is scanline 0
            0, 0, 0, 255, 1, 0, 10, 255, 2, 0, 20, 255,
        ]
    );
    assert!(!renderer.dirty);
}

#[test]
fn draw_puts_each_pixel_at_its_offset() {
    let (width, height) = (7u32, 5u32);
    let mut renderer = Renderer::new(width, height, "2sp");
    let mut frame = vec![9u8; (4 * width * height) as usize];
    draw_colours(&mut renderer, &mut frame, colour_of);
    for y in 0..height {
        for x in 0..width {
            let offset = (4 * ((height - 1 - y) * width + x)) as usize;
            let [r, g, b] = bytes_of(x, y);
            assert_eq!(frame[offset..offset + 4], [r, g, b, 255]);
        }
    }
}

#[test]
fn draw_visits_scanlines_bottom_first_and_left_to_right() {
    let visited = std::cell::RefCell::new(Vec::new());
    let mut renderer = Renderer::new(2, 2, "2sp");
    let mut frame = vec![0u8; 16];
    renderer.draw(
        &mut frame,
        |_, _, _| colour(0, 0, 0),
        |samples| {
            visited.borrow_mut().push(samples.len());
            first(samples)
        },
    );
    assert_eq!(visited.into_inner(), vec![4, 4, 4, 4]);

    let visited = std::cell::RefCell::new(Vec::new());
    let mut renderer = Renderer::new(2, 2, "2sp");
    renderer.set_quality(1, 10);
    draw_colours(&mut renderer, &mut frame, |x, y| {
        visited.borrow_mut().push((x, y));
        colour(0, 0, 0)
    });
    assert_eq!(visited.into_inner(), vec![(0, 0), (1, 0), (0, 1), (1, 1)]);
}

#[test]
fn clean_renderer_leaves_the_frame() {
    let mut renderer = Renderer::new(2, 2, "2sp");
    renderer.dirty = false;
    let mut frame = vec![7u8; 16];
    draw_colours(&mut renderer, &mut frame, colour_of);
    assert_eq!(frame, vec![7u8; 16]);
    assert!(!renderer.dirty);
}

#[test]
fn second_draw_is_a_no_op() {
    let mut renderer = Renderer::new(2, 1, "2sp");
    let mut frame = vec![0u8; 8];
    draw_colours(&mut renderer, &mut frame, |_, _| colour(1, 2, 3));
    assert_eq!(frame, vec![1, 2, 3, 255, 1, 2, 3, 255]);
    draw_colours(&mut renderer, &mut frame, |_, _| colour(4, 5, 6));
    assert_eq!(frame, vec![1, 2, 3, 255, 1, 2, 3, 255]);
}

#[test]
fn draw_leaves_bytes_beyond_the_last_pixel() {
    let mut renderer = Renderer::new(1, 1, "2sp");
    let mut frame = vec![9u8; 7];
    draw_colours(&mut renderer, &mut frame, |_, _| colour(1, 2, 3));
    assert_eq!(frame, vec![1, 2, 3, 255, 9, 9, 9]);
}

#[test]
fn draw_of_an_image_without_pixels() {
    let mut renderer = Renderer::new(0, 5, "2sp");
    let mut frame: Vec<u8> = vec![];
    draw_colours(&mut renderer, &mut frame, colour_of);
    assert!(frame.is_empty());
    assert!(!renderer.dirty);
    let mut renderer = Renderer::new(5, 0, "2sp");
    let mut frame = vec![3u8; 3];
    draw_colours(&mut renderer, &mut frame, colour_of);
    assert_eq!(frame, vec![3u8; 3]);
}

#[test]
fn resize_divides_the_window_by_the_scale() {
    let mut renderer = Renderer::new(1920, 1080, "2sp");
    renderer.update_scale(10);
    assert_eq!((renderer.width, renderer.height), (192, 108));
    renderer.resize(1000, 555);
    assert_eq!((renderer.width, renderer.height), (100, 55));
    assert_eq!(renderer.scale(), 10);
    renderer.resize(9, 9);
    assert_eq!((renderer.width, renderer.height), (0, 0));
}

#[test]
fn update_scale_with_the_same_scale_changes_nothing() {
    let mut renderer = Renderer::new(100, 50, "2sp");
    renderer.width = 33;
    renderer.update_scale(1);
    assert_eq!((renderer.width, renderer.height), (33, 50));
    renderer.update_scale(4);
    assert_eq!((renderer.width, renderer.height), (25, 12));
    renderer.update_scale(1);
    assert_eq!((renderer.width, renderer.height), (100, 50));
}

#[test]
fn set_quality_sets_samples_and_bounces() {
    let mut renderer = Renderer::new(4, 4, "2sp");
    renderer.set_quality(100, 50);
    assert_eq!(renderer.multisample, 100);
    assert_eq!(renderer.max_depth, 50);
    assert!(renderer.dirty);
    assert_eq!((renderer.width, renderer.height), (4, 4));
}

#[test]
fn update_from_gui_takes_over_the_settings() {
    let mut renderer = Renderer::new(1920, 1080, "random");
    let mut gui = Gui::new();
    gui.scale = 20;
    gui.sample_count = 17;
    gui.max_depth = 3;
    gui.scene = Scene::Cornell;
    let reload = renderer.update_from_gui(&gui);
    assert_eq!(reload, Some(SceneKind::Cornell));
    assert_eq!(renderer.scale(), 20);
    assert_eq!((renderer.width, renderer.height), (96, 54));
    assert_eq!(renderer.multisample, 17);
    assert_eq!(renderer.max_depth, 3);
    assert_eq!(renderer.label(), "cornell");
    assert!(renderer.dirty);
}

#[test]
fn update_from_gui_keeps_a_scene_that_is_loaded() {
    let mut renderer = Renderer::new(1920, 1080, "earth");
    let gui = Gui::new();
    assert_eq!(renderer.update_from_gui(&gui), None);
    assert_eq!(renderer.label(), "earth");
    assert_eq!(renderer.scale(), 10);
    assert_eq!((renderer.width, renderer.height), (192, 108));
}

#[test]
fn update_from_gui_reloads_each_scene_of_the_panel() {
    let expected = [
        (Scene::RANDOM, SceneKind::Random),
        (Scene::TwoPsp, SceneKind::TwoPerlinSpheres),
        (Scene::EARTH, SceneKind::Earth),
        (Scene::TwoSp, SceneKind::TwoSpheres),
        (Scene::Simplelight, SceneKind::SimpleLight),
        (Scene::Cornell, SceneKind::Cornell),
    ];
    for (scene, kind) in expected {
        let mut renderer = Renderer::new(10, 10, "none of them");
        let mut gui = Gui::new();
        gui.scene = scene;
        assert_eq!(renderer.update_from_gui(&gui), Some(kind));
        assert_eq!(renderer.update_from_gui(&gui), None);
    }
}

#[test]
fn spent_path_is_black() {
    for encounter in [
        Encounter::Miss,
        Encounter::Absorbed,
        Encounter::Scattered(ScatterType::Specular),
        Encounter::Scattered(ScatterType::Diffuse),
        Encounter::Scattered(ScatterType::ISO),
    ] {
        assert_eq!(ray_step(0, encounter, true), Step::Black);
        assert_eq!(ray_step(0, encounter, false), Step::Black);
    }
}

#[test]
fn miss_returns_the_background() {
    assert_eq!(ray_step(1, Encounter::Miss, true), Step::Background);
    assert_eq!(ray_step(50, Encounter::Miss, false), Step::Background);
    assert_eq!(ray_step(usize::MAX, Encounter::Miss, false), Step::Background);
}

#[test]
fn surface_that_scatters_nothing_ends_the_path_in_its_emission() {
    assert_eq!(ray_step(1, Encounter::Absorbed, true), Step::Emitted);
    assert_eq!(ray_step(9, Encounter::Absorbed, false), Step::Emitted);
}

#[test]
fn empty_lights_fall_back_to_cosine_sampling() {
    assert_eq!(
        ray_step(10, Encounter::Scattered(ScatterType::Diffuse), true),
        Step::Bounce { sampling: Sampling::Cosine, depth: 9 }
    );
}

#[test]
fn lights_are_mixed_into_diffuse_sampling() {
    assert_eq!(
        ray_step(10, Encounter::Scattered(ScatterType::Diffuse), false),
        Step::Bounce { sampling: Sampling::Mixture, depth: 9 }
    );
}

#[test]
fn specular_and_isotropic_rays_follow_the_material() {
    for lights_empty in [true, false] {
        assert_eq!(
            ray_step(1, Encounter::Scattered(ScatterType::Specular), lights_empty),
            Step::Bounce { sampling: Sampling::Material, depth: 0 }
        );
        assert_eq!(
            ray_step(7, Encounter::Scattered(ScatterType::ISO), lights_empty),
            Step::Bounce { sampling: Sampling::Material, depth: 6 }
        );
    }
}

#[test]
fn path_of_bounces_ends_after_max_depth_steps() {
    let mut depth = 50usize;
    let mut bounces = 0;
    loop {
        match ray_step(depth, Encounter::Scattered(ScatterType::Diffuse), false) {
            Step::Bounce { depth: rest, .. } => {
                assert!(rest < depth);
                depth = rest;
                bounces += 1;
            }
            step => {
                assert_eq!(step, Step::Black);
                break;
            }
        }
    }
    assert_eq!(bounces, 50);
}

#[test]
fn bytes_of_some_samples() {
    assert_eq!(Renderer::float_to_rgb(scalar(0.)), 0);
    assert_eq!(Renderer::float_to_rgb(scalar(-0.)), 0);
    assert_eq!(Renderer::float_to_rgb(scalar(-1.)), 0);
    // 256 * sqrt(0.25) = 128
    assert_eq!(Renderer::float_to_rgb(scalar(0.25)), 128);
    // 256 * sqrt(0.5) = 181.01...
    assert_eq!(Renderer::float_to_rgb(scalar(0.5)), 181);
    // 256 * sqrt(0.01) = 25.6
    assert_eq!(Renderer::float_to_rgb(scalar(0.01)), 26);
    // 256 * sqrt(0.73) = 218.7...
    assert_eq!(Renderer::float_to_rgb(scalar(0.73)), 219);
    // 256 * sqrt(0.8) = 228.97...
    assert_eq!(Renderer::float_to_rgb(scalar(0.8)), 229);
    // 256 * sqrt(0.99) = 254.7...
    assert_eq!(Renderer::float_to_rgb(scalar(0.99)), 255);
    // 256 * sqrt(0.999) = 255.8..., which no byte holds
    assert_eq!(Renderer::float_to_rgb(scalar(0.999)), 255);
    assert_eq!(Renderer::float_to_rgb(scalar(1.)), 255);
    assert_eq!(Renderer::float_to_rgb(scalar(7.)), 255);
    assert_eq!(Renderer::float_to_rgb(scalar(f32::MAX)), 255);
}

#[test]
fn bytes_of_samples_that_are_no_finite_numbers() {
    assert_eq!(Renderer::float_to_rgb(scalar(f32::NAN)), 0);
    assert_eq!(Renderer::float_to_rgb(Scalar::from_bits(0xffc0_0000)), 0);
    assert_eq!(Renderer::float_to_rgb(scalar(f32::NEG_INFINITY)), 0);
    assert_eq!(Renderer::float_to_rgb(scalar(f32::INFINITY)), 255);
}

#[test]
fn bytes_of_the_smallest_samples() {
    assert_eq!(Renderer::float_to_rgb(scalar(1.0e-45)), 0);
    assert_eq!(Renderer::float_to_rgb(scalar(f32::MIN_POSITIVE)), 0);
    assert_eq!(Renderer::float_to_rgb(scalar(1.0e-10)), 0);
    // 256 * sqrt(x) reaches one half at x = 2^-18
    let half = 1. / 262_144.;
    assert_eq!(Renderer::float_to_rgb(scalar(half)), 1);
    assert_eq!(Renderer::float_to_rgb(Scalar::from_bits(half.to_bits() - 1)), 0);
}

#[test]
fn byte_changes_half_way_between_two_steps() {
    for byte in 1..=255u8 {
        // 256 times the root of this sample is the byte less one half.
        let root = (2. * byte as f32 - 1.) / 512.;
        let threshold = scalar(root * root);
        assert_eq!(Renderer::float_to_rgb(threshold), byte);
        let below = Scalar::from_bits(threshold.to_bits() - 1);
        assert_eq!(Renderer::float_to_rgb(below), byte - 1);
        let above = Scalar::from_bits(threshold.to_bits() + 1);
        assert_eq!(Renderer::float_to_rgb(above), byte);
        assert_eq!(Renderer::float_to_rgb(sample_of(byte)), byte);
    }
}

#[test]
fn bytes_agree_with_arithmetic() {
    for _ in 0..50_000 {
        let sample = f32::from_bits(rand::random::<u32>());
        assert_eq!(
            Renderer::float_to_rgb(scalar(sample)),
            byte_by_arithmetic(sample),
            "{sample}"
        );
    }
    for step in 0..=100_000u32 {
        let sample = step as f32 / 100_000.;
        assert_eq!(
            Renderer::float_to_rgb(scalar(sample)),
            byte_by_arithmetic(sample),
            "{sample}"
        );
    }
}

#[test]
fn bytes_grow_with_the_sample() {
    let mut last = 0;
    for step in 0..=4_096u32 {
        let byte = Renderer::float_to_rgb(scalar(step as f32 / 4_096.));
        assert!(byte >= last);
        last = byte;
    }
    assert_eq!(last, 255);
}

#[test]
fn draw_turns_samples_into_bytes() {
    let mut renderer = Renderer::new(1, 1, "2sp");
    let mut frame = vec![0u8; 4];
    draw_colours(&mut renderer, &mut frame, |_, _| [scalar(0.25), scalar(f32::NAN), scalar(2.)]);
    assert_eq!(frame, vec![128, 0, 255, 255]);
}

#[test]
fn draw_asks_for_as_many_samples_as_are_set() {
    for count in [1usize, 2, 4, 7] {
        let asked = std::cell::RefCell::new(Vec::new());
        let handed = std::cell::RefCell::new(Vec::new());
        let mut renderer = Renderer::new(2, 1, "2sp");
        renderer.set_quality(count, 10);
        let mut frame = vec![0u8; 8];
        renderer.draw(
            &mut frame,
            |x, y, k| {
                asked.borrow_mut().push((x, y, k));
                colour(1, 2, 3)
            },
            |samples| {
                handed.borrow_mut().push(samples.len());
                first(samples)
            },
        );
        let expected: Vec<(u32, u32, usize)> = (0..2u32)
            .flat_map(|x| (0..count).map(move |k| (x, 0, k)))
            .collect();
        assert_eq!(asked.into_inner(), expected);
        assert_eq!(handed.into_inner(), vec![count, count]);
        assert_eq!(frame, vec![1, 2, 3, 255, 1, 2, 3, 255]);
    }
}

#[test]
fn draw_sanitises_each_sample_before_the_mean() {
    let mut renderer = Renderer::new(1, 1, "2sp");
    renderer.set_quality(4, 10);
    let mut frame = vec![0u8; 4];
    let samples = [
        [scalar(0.25), scalar(f32::NAN), scalar(f32::INFINITY)],
        [scalar(0.25), scalar(1.), scalar(0.)],
        [scalar(f32::NAN), scalar(1.), scalar(0.)],
        [scalar(0.25), scalar(f32::NAN), scalar(0.)],
    ];
    let handed = std::cell::RefCell::new(Vec::new());
    renderer.draw(
        &mut frame,
        |_, _, k| samples[k],
        |list| {
            handed.borrow_mut().extend(list.iter().copied());
            mean(list)
        },
    );
    assert_eq!(
        handed.into_inner(),
        vec![
            [scalar(0.25), scalar(0.), scalar(1.)],
            [scalar(0.25), scalar(1.), scalar(0.)],
            [scalar(0.), scalar(1.), scalar(0.)],
            [scalar(0.25), scalar(0.), scalar(0.)],
        ]
    );
    // The means are 0.1875, 0.5 and 0.25: one bad sample leaves the share
    // of the others.
    assert_eq!(frame, vec![111, 181, 128, 255]);
}

#[test]
fn sample_pixel_hands_the_sanitised_samples_to_the_mean() {
    let colour = Renderer::sample_pixel(
        3,
        5,
        6,
        &|x: u32, y: u32, k: usize| [scalar(x as f32), scalar(y as f32), scalar(k as f32)],
        &mean,
    );
    assert_eq!(colour, [scalar(5.), scalar(6.), scalar(1.)]);
    let lost = Renderer::sample_pixel(
        2,
        0,
        0,
        &|_: u32, _: u32, _: usize| [scalar(f32::NAN), scalar(f32::INFINITY), scalar(f32::NEG_INFINITY)],
        &mean,
    );
    assert_eq!(lost, [scalar(0.), scalar(1.), scalar(f32::NEG_INFINITY)]);
}
