//! The two sides.

use vstd::prelude::*;

verus! {

/// The two sides.
#[derive(PartialEq, Eq, Debug, Hash, Clone, Copy, PartialOrd, Ord, Structural)]
pub enum Color {
    White,
    Black,
}

impl Color {
    /// Position of the color in per-color tables: White 0, Black 1.
    pub open spec fn index(self) -> int {
        match self {
            Color::White => 0,
            Color::Black => 1,
        }
    }

    /// The other side.
    pub open spec fn other(self) -> Color {
        match self {
            Color::White => Color::Black,
            Color::Black => Color::White,
        }
    }

    /// Rank step of this side's pawns, in squares: +8 for White, -8 for Black.
    pub open spec fn forward(self) -> int {
        match self {
            Color::White => 8,
            Color::Black => -8,
        }
    }

    /// The letter of the side in the description of a position.
    pub fn to_char(&self) -> (c: char)
        ensures
            c == (match *self {
                Color::White => 'w',
                Color::Black => 'b',
            }),
    {
        match self {
            Color::White => 'w',
            Color::Black => 'b',
        }
    }

    /// The place of the side in per-color tables.
    pub fn to_usize(&self) -> (i: usize)
        ensures
            i == self.index(),
    {
        match self {
            Color::White => 0,
            Color::Black => 1,
        }
    }

    /// The other side.
    pub fn opposite(&self) -> (c: Color)
        ensures
            c == self.other(),
    {
        match self {
            Color::White => Color::Black,
            Color::Black => Color::White,
        }
    }
}

} // verus!
