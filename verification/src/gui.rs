//! The state behind the control panel: which scene and which render
//! settings the user has chosen, and whether they changed since the last
//! frame.

use vstd::prelude::*;

verus! {

/// The scenes offered by the control panel.
#[allow(non_camel_case_types)]
#[derive(Clone, Copy, Debug, PartialEq, Eq, Structural)]
pub enum Scene {
    RANDOM,
    TwoPsp,
    EARTH,
    TwoSp,
    Simplelight,
    Cornell,
}

impl Scene {
    /// The identifier under which the scene catalogue knows this scene.
    pub open spec fn name(self) -> Seq<char> {
        match self {
            Scene::RANDOM => "random"@,
            Scene::EARTH => "earth"@,
            Scene::TwoPsp => "2psp"@,
            Scene::TwoSp => "2sp"@,
            Scene::Simplelight => "simplelight"@,
            Scene::Cornell => "cornell"@,
        }
    }

    /// Returns the identifier of the scene.
    pub fn to_str(&self) -> (name: &'static str)
        ensures
            name@ == self.name(),
    {
        match self {
            Scene::RANDOM => "random",
            Scene::EARTH => "earth",
            Scene::TwoPsp => "2psp",
            Scene::TwoSp => "2sp",
            Scene::Simplelight => "simplelight",
            Scene::Cornell => "cornell",
        }
    }

    /// Every scene of the control panel, in the order in which it lists them.
    pub fn variants() -> (all: [Scene; 6])
        ensures
            all@ == seq![
                Scene::RANDOM,
                Scene::TwoPsp,
                Scene::EARTH,
                Scene::TwoSp,
                Scene::Simplelight,
                Scene::Cornell,
            ],
    {
        let all: [Scene; 6] = [
            Scene::RANDOM,
            Scene::TwoPsp,
            Scene::EARTH,
            Scene::TwoSp,
            Scene::Simplelight,
            Scene::Cornell,
        ];
        assert(all@ =~= seq![
            Scene::RANDOM,
            Scene::TwoPsp,
            Scene::EARTH,
            Scene::TwoSp,
            Scene::Simplelight,
            Scene::Cornell,
        ]);
        all
    }
}

/// Different scenes have different identifiers.
pub proof fn lemma_scene_names_distinct(a: Scene, b: Scene)
    ensures
        a.name() == b.name() <==> a == b,
{
    reveal_strlit("random");
    reveal_strlit("earth");
    reveal_strlit("2psp");
    reveal_strlit("2sp");
    reveal_strlit("simplelight");
    reveal_strlit("cornell");
    if a != b && a.name() == b.name() {
        assert(a.name().len() == b.name().len());
        assert(a.name()[0] == b.name()[0]);
    }
}

/// What the user can set on the control panel.
#[derive(Clone, Copy, Debug, PartialEq, Eq, Structural)]
pub struct Settings {
    pub window_open: bool,
    pub resized: bool,
    pub scale: u32,
    pub save_img: bool,
    pub sample_count: usize,
    pub max_depth: usize,
    pub scene: Scene,
}

/// The control panel: the current settings and the settings as they stood
/// when they were last compared.
#[derive(Clone, Copy, Debug)]
pub struct Gui {
    window_open: bool,
    my_boolean: bool,
    pub scale: u32,
    pub save_img: bool,
    pub sample_count: usize,
    pub max_depth: usize,
    pre: Option<Settings>,
    pub scene: Scene,
}

/// The mathematical model of a [`Gui`].
pub struct GuiView {
    pub current: Settings,
    pub previous: Option<Settings>,
}

impl View for Gui {
    type V = GuiView;

    closed spec fn view(&self) -> GuiView {
        GuiView {
            current: Settings {
                window_open: self.window_open,
                resized: self.my_boolean,
                scale: self.scale,
                save_img: self.save_img,
                sample_count: self.sample_count,
                max_depth: self.max_depth,
                scene: self.scene,
            },
            previous: self.pre,
        }
    }
}

/// The settings with which the control panel starts.
pub open spec fn initial_settings() -> Settings {
    Settings {
        window_open: false,
        resized: false,
        scale: 10,
        save_img: false,
        sample_count: 4,
        max_depth: 10,
        scene: Scene::EARTH,
    }
}

impl Gui {
    /// A control panel with the initial settings, remembered as the previous
    /// ones too.
    pub fn new() -> (gui: Self)
        ensures
            gui@.current == initial_settings(),
            gui@.previous == Some(initial_settings()),
    {
        let start = Settings {
            window_open: false,
            resized: false,
            scale: 10,
            save_img: false,
            sample_count: 4,
            max_depth: 10,
            scene: Scene::EARTH,
        };
        Gui {
            window_open: false,
            my_boolean: false,
            scale: 10,
            save_img: false,
            sample_count: 4,
            max_depth: 10,
            pre: Some(start),
            scene: Scene::EARTH,
        }
    }

    /// The current settings.
    pub fn settings(&self) -> (current: Settings)
        ensures
            current == self@.current,
    {
        Settings {
            window_open: self.window_open,
            resized: self.my_boolean,
            scale: self.scale,
            save_img: self.save_img,
            sample_count: self.sample_count,
            max_depth: self.max_depth,
            scene: self.scene,
        }
    }

    /// Records that the window changed its size, which is a change of the
    /// settings in its own right.
    pub fn note_resize(&mut self)
        ensures
            final(self)@.current == (Settings {
                resized: !old(self)@.current.resized,
                ..old(self)@.current
            }),
            final(self)@.previous == old(self)@.previous,
    {
        self.my_boolean = !self.my_boolean;
    }

    /// Reports whether the settings differ from the remembered ones, and
    /// remembers the current ones. A panel that remembers nothing reports no
    /// change and goes on remembering nothing.
    pub fn updated(&mut self) -> (dirty: bool)
        ensures
            final(self)@.current == old(self)@.current,
            dirty == (old(self)@.previous is Some && old(self)@.previous != Some(
                old(self)@.current,
            )),
            final(self)@.previous == if old(self)@.previous is Some {
                Some(old(self)@.current)
            } else {
                None
            },
    {
        let current = self.settings();
        match self.pre {
            Some(pre) => {
                let dirty = pre != current;
                self.pre = Some(current);
                dirty
            },
            None => false,
        }
    }
}

} // verus!
