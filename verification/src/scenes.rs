//! Which screen the game is showing, and whether it is running.

use vstd::prelude::*;

verus! {

/// Which scene the game is currently showing.
///
/// Pausing is not a scene: returning from one would enter the world again, and entering it builds
/// the level anew.
#[derive(Clone, Copy, Debug, PartialEq, Eq, Hash, Structural)]
pub enum Scene {
    /// The title screen.
    Menu,
    /// Pick a save, make one, or delete one.
    WorldSelect,
    /// A world, a body, and every simulation system running.
    Playing,
    /// The death card.
    GameOver,
}

impl Default for Scene {
    fn default() -> (scene: Scene)
        ensures
            scene == Scene::Menu,
    {
        Scene::Menu
    }
}

/// Whether the world is held still under an open screen.
#[derive(Clone, Copy, Debug, PartialEq, Eq, Structural)]
pub struct Paused(pub bool);

impl Default for Paused {
    fn default() -> (paused: Paused)
        ensures
            paused == Paused(false),
    {
        Paused(false)
    }
}

/// Whether the simulation may step this frame.
pub fn running(paused: Paused) -> (runs: bool)
    ensures
        runs == !paused.0,
{
    !paused.0
}

} // verus!
