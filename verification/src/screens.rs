//! States and messages of the host's menu screens.
//!
//! Rendering and input handling belong to the host; only the plain state
//! and message enums live here.

use vstd::prelude::*;

verus! {

/// All the available menu screens in the game.
///
/// The menu screens are disabled while the game itself runs unpaused.
#[derive(Clone, Copy, Debug, PartialEq, Eq, Structural, Hash, Default)]
pub enum Screen {
    /// Main menu with the options of New Game, Load Game, Settings and Quit.
    Main,
    /// Pause menu, available only from within the game.
    Pause,
    /// Settings menu, letting the player set options for the game.
    Settings,
    /// Used when on the splash screen, or in game and not paused.
    #[default]
    Disabled,
}

/// The available navigation actions behind the menu buttons.
#[derive(Clone, Copy, Debug, PartialEq, Eq, Structural)]
pub enum MenuButtonAction {
    Play,
    Settings,
    BackToMainMenu,
    BackToGame,
    Quit,
}

/// Messages a body-detail screen reacts to.
#[derive(Clone, Copy, Debug, PartialEq, Eq, Structural)]
pub enum BodyScreenMsgs {
    /// Rename the body in question.
    Rename,
    /// Show the next body.
    PageUp,
    /// Show the previous body.
    PageDown,
}

} // verus!
