//! The states of the game and the pause key.

use vstd::prelude::*;

verus! {

/// What the game is doing.
#[derive(Clone, Copy, Debug, PartialEq, Eq, Structural, Hash)]
pub enum GameState {
    MainMenu,
    Playing,
    Paused,
}

impl Default for GameState {
    fn default() -> (state: GameState)
        ensures
            state == GameState::MainMenu,
    {
        GameState::MainMenu
    }
}

/// The state that the pause key leads to from `current`, if it leads anywhere.
pub open spec fn spec_toggle(current: GameState) -> Option<GameState> {
    match current {
        GameState::Playing => Some(GameState::Paused),
        GameState::Paused => Some(GameState::Playing),
        GameState::MainMenu => None,
    }
}

/// The state to enter after a frame in which the pause key was `pressed` or
/// not: a game that is played pauses, a paused one goes on, and the main menu
/// takes no notice. Without the key nothing changes.
pub fn toggle_pause(pressed: bool, current: GameState) -> (next: Option<GameState>)
    ensures
        next == if pressed { spec_toggle(current) } else { None },
{
    if pressed {
        match current {
            GameState::Playing => Some(GameState::Paused),
            GameState::Paused => Some(GameState::Playing),
            GameState::MainMenu => None,
        }
    } else {
        None
    }
}

} // verus!
