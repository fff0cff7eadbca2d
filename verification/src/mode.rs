//! Which of the two editors has the keyboard, and what a key press means.

use vstd::prelude::*;

verus! {

/// The editor that currently receives keystrokes.
#[derive(Clone, Copy, Debug, PartialEq, Eq, Structural)]
pub enum Mode {
    /// The pattern is being edited; the body is shown highlighted.
    RegexEdit,
    /// The body is being edited; it is shown raw.
    BodyEdit,
}

impl Mode {
    /// The mode that `toggle` leads to.
    pub open spec fn other(self) -> Mode {
        match self {
            Mode::RegexEdit => Mode::BodyEdit,
            Mode::BodyEdit => Mode::RegexEdit,
        }
    }

    /// Switches to the other editor.
    pub fn toggle(&self) -> (next: Mode)
        ensures
            next == self.other(),
            next != *self,
    {
        match self {
            Mode::RegexEdit => Mode::BodyEdit,
            Mode::BodyEdit => Mode::RegexEdit,
        }
    }
}

/// A key press, as far as the session cares about it.
#[derive(Clone, Copy, Debug, PartialEq, Eq, Structural)]
pub enum Key {
    /// The key that ends the session.
    Esc,
    /// The key that hands the keyboard to the other editor.
    Tab,
    /// Any other key: it belongs to the editor that has the keyboard.
    Other,
}

/// What is to be done about a key press.
#[derive(Clone, Copy, Debug, PartialEq, Eq, Structural)]
pub enum Action {
    /// Leave the session.
    Quit,
    /// Nothing to edit: the mode has changed, draw again.
    Redraw,
    /// Hand the key to the pattern editor, and validate the pattern anew if
    /// the key changed it.
    EditPattern,
    /// Hand the key to the body editor.
    EditBody,
}

/// The mode after `key` was pressed in `mode`, and what the key asks for.
pub open spec fn key_outcome(mode: Mode, key: Key) -> (Mode, Action) {
    match key {
        Key::Esc => (mode, Action::Quit),
        Key::Tab => (mode.other(), Action::Redraw),
        Key::Other => match mode {
            Mode::RegexEdit => (mode, Action::EditPattern),
            Mode::BodyEdit => (mode, Action::EditBody),
        },
    }
}

impl Mode {
    /// Whether the body is shown with its matches highlighted, which it is
    /// while the pattern is being edited, or raw.
    pub fn shows_highlight(&self) -> (highlighted: bool)
        ensures
            highlighted == (*self == Mode::RegexEdit),
    {
        match self {
            Mode::RegexEdit => true,
            Mode::BodyEdit => false,
        }
    }

    /// Decides what a key press means in this mode: the mode to go on in,
    /// and what is to be done.
    pub fn on_key(&self, key: Key) -> (outcome: (Mode, Action))
        ensures
            outcome == key_outcome(*self, key),
    {
        match key {
            Key::Esc => (*self, Action::Quit),
            Key::Tab => (self.toggle(), Action::Redraw),
            Key::Other => match self {
                Mode::RegexEdit => (*self, Action::EditPattern),
                Mode::BodyEdit => (*self, Action::EditBody),
            },
        }
    }
}

/// Only the switching key changes the mode, and it always does.
pub proof fn only_tab_changes_the_mode(mode: Mode, key: Key)
    ensures
        key_outcome(mode, key).0 != mode <==> key == Key::Tab,
{
}

/// Toggling twice leads back to the mode one started from.
pub proof fn toggle_is_an_involution(mode: Mode)
    ensures
        mode.other().other() == mode,
{
}

} // verus!
