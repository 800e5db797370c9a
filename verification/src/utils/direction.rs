//! The eight compass steps: by how much each changes the number of a
//! square, and the directions as a closed set.

use vstd::prelude::*;

verus! {

/// One rank up.
pub const NORT: i32 = 8;

/// One step to the north-east.
pub const NOEA: i32 = 9;

/// One file to the east.
pub const EAST: i32 = 1;

/// One step to the south-east.
pub const SOEA: i32 = -7;

/// One rank down.
pub const SOUT: i32 = -8;

/// One step to the south-west.
pub const SOWE: i32 = -9;

/// One file to the west.
pub const WEST: i32 = -1;

/// One step to the north-west.
pub const NOWE: i32 = 7;

/// One of the eight compass steps on the board.
#[derive(PartialEq, Eq, Debug, Hash, Clone, Copy, Structural)]
pub enum Direction {
    North,
    NorthEast,
    East,
    SouthEast,
    South,
    SouthWest,
    West,
    NorthWest,
}

impl Direction {
    /// By how much one step changes the file.
    pub open spec fn df(self) -> int {
        match self {
            Direction::North => 0,
            Direction::NorthEast => 1,
            Direction::East => 1,
            Direction::SouthEast => 1,
            Direction::South => 0,
            Direction::SouthWest => -1,
            Direction::West => -1,
            Direction::NorthWest => -1,
        }
    }

    /// By how much one step changes the rank.
    pub open spec fn dr(self) -> int {
        match self {
            Direction::North => 1,
            Direction::NorthEast => 1,
            Direction::East => 0,
            Direction::SouthEast => -1,
            Direction::South => -1,
            Direction::SouthWest => -1,
            Direction::West => 0,
            Direction::NorthWest => 1,
        }
    }

    /// By how much one step changes the square number.
    pub open spec fn offset(self) -> int {
        8 * self.dr() + self.df()
    }

    /// The step changes both the file and the rank.
    pub open spec fn is_diagonal(self) -> bool {
        self.df() != 0 && self.dr() != 0
    }
}

} // verus!
