//! Which of the stock viewpoints goes with which scene.

use crate::scene::same_text;
use vstd::prelude::*;

verus! {

/// The stock viewpoints.
#[derive(Clone, Copy, Debug, PartialEq, Eq, Structural)]
pub enum Viewpoint {
    /// Looking into the Cornell box through its open side.
    Cornell,
    /// Far back and slightly raised, for the scene with the lamp.
    SimpleLight,
    /// Looking into the final scene from its right.
    Final,
    /// Close to the ground, for every other scene.
    Standard,
}

/// The viewpoint that goes with a scene identifier.
pub open spec fn viewpoint_of_name(scene: Seq<char>) -> Viewpoint {
    if scene == "cornell"@ || scene == "smoke"@ {
        Viewpoint::Cornell
    } else if scene == "simplelight"@ {
        Viewpoint::SimpleLight
    } else if scene == "final"@ {
        Viewpoint::Final
    } else {
        Viewpoint::Standard
    }
}

/// Chooses the viewpoint for a scene identifier.
pub fn select_viewpoint(scene: &str) -> (viewpoint: Viewpoint)
    ensures
        viewpoint == viewpoint_of_name(scene@),
{
    if same_text(scene, "cornell") || same_text(scene, "smoke") {
        Viewpoint::Cornell
    } else if same_text(scene, "simplelight") {
        Viewpoint::SimpleLight
    } else if same_text(scene, "final") {
        Viewpoint::Final
    } else {
        Viewpoint::Standard
    }
}

} // verus!
