use ray_tracing::gui::{Gui, Scene, Settings};

#[test]
fn scene_identifiers() {
    assert_eq!(Scene::RANDOM.to_str(), "random");
    assert_eq!(Scene::EARTH.to_str(), "earth");
    assert_eq!(Scene::TwoPsp.to_str(), "2psp");
    assert_eq!(Scene::TwoSp.to_str(), "2sp");
    assert_eq!(Scene::Simplelight.to_str(), "simplelight");
    assert_eq!(Scene::Cornell.to_str(), "cornell");
}

#[test]
fn scene_identifiers_differ() {
    let all = Scene::variants();
    for (i, a) in all.iter().enumerate() {
        for (j, b) in all.iter().enumerate() {
            assert_eq!(a.to_str() == b.to_str(), i == j);
        }
    }
}

#[test]
fn panel_lists_six_scenes() {
    assert_eq!(
        Scene::variants(),
        [
            Scene::RANDOM,
            Scene::TwoPsp,
            Scene::EARTH,
            Scene::TwoSp,
            Scene::Simplelight,
            Scene::Cornell
        ]
    );
}

#[test]
fn new_panel_has_the_initial_settings() {
    let gui = Gui::new();
    assert_eq!(
        gui.settings(),
        Settings {
            window_open: false,
            resized: false,
            scale: 10,
            save_img: false,
            sample_count: 4,
            max_depth: 10,
            scene: Scene::EARTH,
        }
    );
}

#[test]
fn untouched_panel_is_not_updated() {
    let mut gui = Gui::new();
    assert!(!gui.updated());
    assert!(!gui.updated());
}

#[test]
fn change_is_reported_once() {
    let mut gui = Gui::new();
    gui.sample_count = 8;
    assert!(gui.updated());
    assert!(!gui.updated());
    gui.scene = Scene::Cornell;
    assert!(gui.updated());
    assert!(!gui.updated());
}

#[test]
fn change_that_is_taken_back_is_not_reported() {
    let mut gui = Gui::new();
    gui.scale = 3;
    gui.scale = 10;
    assert!(!gui.updated());
}

#[test]
fn every_setting_counts_as_a_change() {
    let mut gui = Gui::new();
    gui.scale = 11;
    assert!(gui.updated());
    gui.save_img = true;
    assert!(gui.updated());
    gui.sample_count = 5;
    assert!(gui.updated());
    gui.max_depth = 11;
    assert!(gui.updated());
    gui.scene = Scene::TwoSp;
    assert!(gui.updated());
    gui.note_resize();
    assert!(gui.updated());
    assert!(!gui.updated());
}

#[test]
fn updated_keeps_the_settings() {
    let mut gui = Gui::new();
    gui.max_depth = 42;
    let before = gui.settings();
    gui.updated();
    assert_eq!(gui.settings(), before);
}

#[test]
fn two_resizes_cancel() {
    let mut gui = Gui::new();
    gui.note_resize();
    assert!(gui.settings().resized);
    gui.note_resize();
    assert!(!gui.settings().resized);
    assert!(!gui.updated());
}
