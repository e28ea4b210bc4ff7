//! The menu: the player joins a party, and the game begins.

use vstd::prelude::*;

verus! {

/// The screens of the game.
#[derive(Clone, Copy, Debug, PartialEq, Eq, Hash, Structural)]
pub enum GameState {
    Menu,
    Game,
    GameOver,
}

/// The parties that the player can join.
#[derive(Clone, Copy, Debug, PartialEq, Eq, Structural)]
pub enum Party {
    Red,
    Blue,
}

/// A button of the menu that starts the game for a party.
#[derive(Clone, Copy, Debug, PartialEq, Eq, Structural)]
pub struct StartButton(pub Party);

/// The menu screen: the buttons that it offers, from the first to the last.
#[derive(Debug)]
pub struct MenuPlugin {
    pub start_buttons: Vec<StartButton>,
}

/// The menu as it is set up: a button to join the red party, then one to join
/// the blue party.
pub fn menu_setup() -> (menu: MenuPlugin)
    ensures
        menu.start_buttons@ == seq![StartButton(Party::Red), StartButton(Party::Blue)],
{
    let mut start_buttons: Vec<StartButton> = Vec::new();
    start_buttons.push(StartButton(Party::Red));
    start_buttons.push(StartButton(Party::Blue));
    proof {
        assert(start_buttons@ =~= seq![StartButton(Party::Red), StartButton(Party::Blue)]);
    }
    MenuPlugin { start_buttons }
}

/// What a press of a start button leads to: the game begins, and the player
/// is of the party of the button. With no button pressed the screen stays.
///
/// Returns the party that the player joined, if any.
pub fn start_button_system(game_state: &mut GameState, clicked: Option<StartButton>) -> (joined:
    Option<Party>)
    ensures
        match clicked {
            Some(button) => *final(game_state) == GameState::Game && joined == Some(button.0),
            None => *final(game_state) == *old(game_state) && joined is None,
        },
{
    match clicked {
        Some(button) => {
            *game_state = GameState::Game;
            Some(button.0)
        },
        None => None,
    }
}

} // verus!
