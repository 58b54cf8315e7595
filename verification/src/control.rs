//! What the keys and buttons of a front end mean: whether the automaton runs,
//! whether the pointer draws, and what a key asks of the engine.

use vstd::prelude::*;
use crate::grid::FULL;

verus! {

/// The state of a front end between two events.
#[derive(Clone, Copy, Debug, PartialEq, Eq, Structural)]
pub struct AppState {
    /// No frame is computed while this holds.
    pub is_game_paused: bool,
    /// The pointer writes to the cell under it while this holds.
    pub is_drawing: bool,
    /// Drawing writes zero instead of `FULL` while this holds.
    pub is_erasing: bool,
}

/// What a key asks of the engine.
#[derive(Clone, Copy, Debug, PartialEq, Eq, Structural)]
pub enum Command {
    /// Nothing.
    Nothing,
    /// Seed a random area anew.
    Reseed,
    /// Set every cell to zero.
    Clear,
}

/// A button of the pointer.
#[derive(Clone, Copy, Debug, PartialEq, Eq, Structural)]
pub enum PointerButton {
    /// The left button.
    Left,
    /// The right button.
    Right,
    /// Any other button.
    Other,
}

impl Default for AppState {
    /// A front end starts paused, neither drawing nor erasing.
    fn default() -> (state: AppState)
        ensures
            state == (AppState { is_game_paused: true, is_drawing: false, is_erasing: false }),
    {
        AppState { is_game_paused: true, is_drawing: false, is_erasing: false }
    }
}

impl AppState {
    /// The state after the key `key`, and what the key asks of the engine.
    ///
    /// `r` asks for a reseed and `c` for a clear, and leave the state alone.
    /// `s` starts the automaton and ends drawing; `h` pauses it; `d` turns
    /// drawing on or off and pauses. Any other key does nothing.
    pub open spec fn after_key(self, key: char) -> (AppState, Command) {
        if key == 'r' {
            (self, Command::Reseed)
        } else if key == 'c' {
            (self, Command::Clear)
        } else if key == 's' {
            (AppState { is_game_paused: false, is_drawing: false, ..self }, Command::Nothing)
        } else if key == 'h' {
            (AppState { is_game_paused: true, ..self }, Command::Nothing)
        } else if key == 'd' {
            (
                AppState { is_game_paused: true, is_drawing: !self.is_drawing, ..self },
                Command::Nothing,
            )
        } else {
            (self, Command::Nothing)
        }
    }

    /// The state after a press of `button`: while drawing, the left button
    /// ends erasing and the right one begins it; otherwise nothing changes.
    pub open spec fn after_button(self, button: PointerButton) -> AppState {
        if self.is_drawing {
            match button {
                PointerButton::Left => AppState { is_erasing: false, ..self },
                PointerButton::Right => AppState { is_erasing: true, ..self },
                PointerButton::Other => self,
            }
        } else {
            self
        }
    }

    /// Takes in the key `key` and says what it asks of the engine.
    pub fn on_key(&mut self, key: char) -> (command: Command)
        ensures
            (*final(self), command) == old(self).after_key(key),
    {
        match key {
            'r' => Command::Reseed,
            'c' => Command::Clear,
            's' => {
                self.is_game_paused = false;
                self.is_drawing = false;
                Command::Nothing
            },
            'h' => {
                self.is_game_paused = true;
                Command::Nothing
            },
            'd' => {
                self.is_drawing = !self.is_drawing;
                self.is_game_paused = true;
                Command::Nothing
            },
            _ => Command::Nothing,
        }
    }

    /// Takes in a press of `button`.
    pub fn on_button(&mut self, button: PointerButton)
        ensures
            *final(self) == old(self).after_button(button),
    {
        if self.is_drawing {
            match button {
                PointerButton::Left => {
                    self.is_erasing = false;
                },
                PointerButton::Right => {
                    self.is_erasing = true;
                },
                PointerButton::Other => {},
            }
        }
    }

    /// The level that the pointer writes to the cell under it: none while not
    /// drawing, zero while erasing, `FULL` otherwise.
    pub fn brush(&self) -> (level: Option<u32>)
        ensures
            level == if !self.is_drawing {
                None
            } else if self.is_erasing {
                Some(0u32)
            } else {
                Some(FULL)
            },
    {
        if !self.is_drawing {
            None
        } else if self.is_erasing {
            Some(0)
        } else {
            Some(FULL)
        }
    }
}

} // verus!
