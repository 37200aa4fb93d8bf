//! What comes from the terminal and how its cursor looks.
use vstd::prelude::*;

verus! {

/// A key, as far as it means something here.
#[derive(Clone, Copy, PartialEq, Eq, Structural)]
pub enum KeyCode {
    Char(char),
    Esc,
    Enter,
    Backspace,
    Left,
    Right,
    Other,
}

#[derive(Clone, Copy, PartialEq, Eq, Structural)]
pub struct KeyEvent {
    pub code: KeyCode,
    pub alt: bool,
}

#[derive(Clone, Copy, PartialEq, Eq, Structural)]
pub enum CursorStyle {
    SteadyBlock,
    SteadyUnderScore,
    SteadyBar,
}

} // verus!
