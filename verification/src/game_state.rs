//! Top-level states of the running game.

use vstd::prelude::*;

verus! {

/// The available game states.
///
/// Includes the splash screen shown while loading, the menu state for when
/// the game is not running, the game state proper, and a pause state that
/// overlays the game.
#[derive(Clone, Copy, Debug, PartialEq, Eq, Structural, Hash, Default)]
pub enum GameState {
    /// Default, used for loading the game at start.
    #[default]
    Splash,
    /// The menu screens part of the game.
    Menu,
    /// The game itself is running.
    Game,
    /// The game is paused under a pause menu.
    Pause,
}

} // verus!
