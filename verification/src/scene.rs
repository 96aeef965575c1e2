//! The catalogue of reference scenes, as far as it is a matter of names.

use crate::gui::Scene;
use vstd::prelude::*;

verus! {

/// The reference scenes of the catalogue.
#[derive(Clone, Copy, Debug, PartialEq, Eq, Structural)]
pub enum SceneKind {
    /// A field of small random spheres around three large ones.
    Random,
    /// Two spheres with a chequered texture.
    TwoSpheres,
    /// Two spheres with a noise texture.
    TwoPerlinSpheres,
    /// A globe with an image texture.
    Earth,
    /// Two noise spheres lit by a rectangular lamp.
    SimpleLight,
    /// The Cornell box.
    Cornell,
    /// The Cornell box with two blocks of smoke.
    Smoke,
    /// The scene that shows every feature at once.
    Final,
}

/// Whether two strings hold the same characters.
pub fn same_text(a: &str, b: &str) -> (same: bool)
    ensures
        same == (a@ == b@),
{
    let left: String = a.to_owned();
    let right: String = b.to_owned();
    left == right
}

/// The scene that an identifier selects. An identifier that the catalogue
/// does not know selects the two chequered spheres.
pub open spec fn scene_of_name(name: Seq<char>) -> SceneKind {
    if name == "random"@ {
        SceneKind::Random
    } else if name == "2psp"@ {
        SceneKind::TwoPerlinSpheres
    } else if name == "earth"@ {
        SceneKind::Earth
    } else if name == "simplelight"@ {
        SceneKind::SimpleLight
    } else if name == "cornell"@ {
        SceneKind::Cornell
    } else if name == "final"@ {
        SceneKind::Final
    } else if name == "smoke"@ {
        SceneKind::Smoke
    } else {
        SceneKind::TwoSpheres
    }
}

/// Whether the catalogue knows the identifier.
pub open spec fn is_scene_name(name: Seq<char>) -> bool {
    name == "random"@ || name == "2sp"@ || name == "2psp"@ || name == "earth"@ || name
        == "simplelight"@ || name == "cornell"@ || name == "smoke"@ || name == "final"@
}

/// Resolves a scene identifier.
pub fn select_scene(name: &str) -> (kind: SceneKind)
    ensures
        kind == scene_of_name(name@),
        !is_scene_name(name@) ==> kind == SceneKind::TwoSpheres,
{
    if same_text(name, "random") {
        SceneKind::Random
    } else if same_text(name, "2psp") {
        SceneKind::TwoPerlinSpheres
    } else if same_text(name, "earth") {
        SceneKind::Earth
    } else if same_text(name, "simplelight") {
        SceneKind::SimpleLight
    } else if same_text(name, "cornell") {
        SceneKind::Cornell
    } else if same_text(name, "final") {
        SceneKind::Final
    } else if same_text(name, "smoke") {
        SceneKind::Smoke
    } else {
        SceneKind::TwoSpheres
    }
}

impl SceneKind {
    /// The identifier of the scene.
    pub open spec fn name(self) -> Seq<char> {
        match self {
            SceneKind::Random => "random"@,
            SceneKind::TwoSpheres => "2sp"@,
            SceneKind::TwoPerlinSpheres => "2psp"@,
            SceneKind::Earth => "earth"@,
            SceneKind::SimpleLight => "simplelight"@,
            SceneKind::Cornell => "cornell"@,
            SceneKind::Smoke => "smoke"@,
            SceneKind::Final => "final"@,
        }
    }

    /// Returns the identifier of the scene.
    pub fn to_str(&self) -> (name: &'static str)
        ensures
            name@ == self.name(),
    {
        match self {
            SceneKind::Random => "random",
            SceneKind::TwoSpheres => "2sp",
            SceneKind::TwoPerlinSpheres => "2psp",
            SceneKind::Earth => "earth",
            SceneKind::SimpleLight => "simplelight",
            SceneKind::Cornell => "cornell",
            SceneKind::Smoke => "smoke",
            SceneKind::Final => "final",
        }
    }
}

/// The catalogue's scene for a scene of the control panel.
pub open spec fn kind_of_panel_scene(scene: Scene) -> SceneKind {
    match scene {
        Scene::RANDOM => SceneKind::Random,
        Scene::TwoPsp => SceneKind::TwoPerlinSpheres,
        Scene::EARTH => SceneKind::Earth,
        Scene::TwoSp => SceneKind::TwoSpheres,
        Scene::Simplelight => SceneKind::SimpleLight,
        Scene::Cornell => SceneKind::Cornell,
    }
}

/// An identifier resolves to the scene that bears it.
pub proof fn lemma_name_selects_scene(kind: SceneKind)
    ensures
        scene_of_name(kind.name()) == kind,
        is_scene_name(kind.name()),
{
    reveal_strlit("random");
    reveal_strlit("2sp");
    reveal_strlit("2psp");
    reveal_strlit("earth");
    reveal_strlit("simplelight");
    reveal_strlit("cornell");
    reveal_strlit("smoke");
    reveal_strlit("final");
    let name = kind.name();
    assert(name.len() == 6 ==> (name[0] == 'r' || name[0] == 'c'));
    assert(name.len() == 5 ==> (name[0] == 'e' || name[0] == 's' || name[0] == 'f'));
}

/// The identifier of a scene of the control panel resolves to the
/// catalogue's scene of the same name.
pub proof fn lemma_panel_scene_resolves(scene: Scene)
    ensures
        scene.name() == kind_of_panel_scene(scene).name(),
        scene_of_name(scene.name()) == kind_of_panel_scene(scene),
{
    lemma_name_selects_scene(kind_of_panel_scene(scene));
}

} // verus!
