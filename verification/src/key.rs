//! Key presses.

use vstd::prelude::*;

verus! {

/// A key that was pressed.
#[derive(Clone, Copy, PartialEq, Eq, Structural, Debug)]
pub enum Key {
    Char(char),
    /// A function key, counted from 1.
    F(u8),
    Esc,
    Tab,
    /// Any other key.
    Other,
}

impl Key {
    /// The number on a digit key from 1 to 9.
    pub open spec fn digit(self) -> Option<int> {
        match self {
            Key::Char(c) => if '1' <= c && c <= '9' {
                Some(c as int - '0' as int)
            } else {
                None
            },
            _ => None,
        }
    }

    /// The number on a digit key from 1 to 9.
    pub fn digit_value(self) -> (r: Option<usize>)
        ensures
            match r {
                Some(n) => self.digit() == Some(n as int) && 1 <= n <= 9,
                None => self.digit() is None,
            },
    {
        match self {
            Key::Char(c) => if '1' <= c && c <= '9' {
                Some(c as usize - '0' as usize)
            } else {
                None
            },
            _ => None,
        }
    }
}

} // verus!
