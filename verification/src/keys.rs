//! Terminal input events, as the state machines of this crate read them.

use vstd::prelude::*;

verus! {

/// A key on the keyboard.
#[derive(Clone, Copy, Debug, PartialEq, Eq, Structural)]
pub enum KeyCode {
    Backspace,
    Enter,
    Left,
    Right,
    Up,
    Down,
    Home,
    End,
    PageUp,
    PageDown,
    Tab,
    BackTab,
    Delete,
    Insert,
    F(u8),
    Char(char),
    Null,
    Esc,
    /// Any other key (media keys, modifier keys, lock keys, ...).
    Other,
}

/// Whether a key went down, repeats or went up.
#[derive(Clone, Copy, Debug, PartialEq, Eq, Structural)]
pub enum KeyEventKind {
    Press,
    Repeat,
    Release,
}

/// A key event.
#[derive(Clone, Copy, Debug, PartialEq, Eq, Structural)]
pub struct KeyEvent {
    pub code: KeyCode,
    pub kind: KeyEventKind,
}

/// A terminal event.
#[derive(Clone, Copy, Debug, PartialEq, Eq, Structural)]
pub enum InputEvent {
    Key(KeyEvent),
    /// Focus changes, mouse events, pastes and resizes.
    Other,
}

/// The key that confirms a question.
pub const KEY_CODE_ACCEPT: KeyCode = KeyCode::Enter;

/// The key that declines a question.
pub const KEY_CODE_DECLINE: KeyCode = KeyCode::Esc;

impl KeyEvent {
    /// The event is a key press.
    pub fn is_press(&self) -> (b: bool)
        ensures
            b == (self.kind == KeyEventKind::Press),
    {
        match self.kind {
            KeyEventKind::Press => true,
            _ => false,
        }
    }
}

} // verus!
