//! The ranks of the board and their masks.

use vstd::prelude::*;

verus! {

/// Occupancy mask of each rank, the first rank first.
pub const RANKS: [u64; 8] = [
    0x0000_0000_0000_00FF,
    0x0000_0000_0000_FF00,
    0x0000_0000_00FF_0000,
    0x0000_0000_FF00_0000,
    0x0000_00FF_0000_0000,
    0x0000_FF00_0000_0000,
    0x00FF_0000_0000_0000,
    0xFF00_0000_0000_0000,
];

/// The eight ranks of the board, from White's side to Black's.
#[derive(PartialEq, Eq, Debug, Hash, Clone, Copy, PartialOrd, Ord, Structural)]
pub enum Rank {
    One,
    Two,
    Three,
    Four,
    Five,
    Six,
    Seven,
    Eight,
}

impl Rank {
    /// Number of the rank, 0 to 7.
    pub open spec fn index(self) -> int {
        match self {
            Rank::One => 0,
            Rank::Two => 1,
            Rank::Three => 2,
            Rank::Four => 3,
            Rank::Five => 4,
            Rank::Six => 5,
            Rank::Seven => 6,
            Rank::Eight => 7,
        }
    }

    /// The rank with number `i`; the last one for any `i` above 6.
    pub open spec fn of_index(i: int) -> Rank {
        if i == 0 {
            Rank::One
        }         else if i == 1 {
            Rank::Two
        }         else if i == 2 {
            Rank::Three
        }         else if i == 3 {
            Rank::Four
        }         else if i == 4 {
            Rank::Five
        }         else if i == 5 {
            Rank::Six
        }         else if i == 6 {
            Rank::Seven
        } else {
            Rank::Eight
        }
    }

    /// The character that names the rank in algebraic text.
    pub open spec fn letter(self) -> char {
        match self {
            Rank::One => '1',
            Rank::Two => '2',
            Rank::Three => '3',
            Rank::Four => '4',
            Rank::Five => '5',
            Rank::Six => '6',
            Rank::Seven => '7',
            Rank::Eight => '8',
        }
    }

    /// Whether `c` names a rank.
    pub open spec fn is_letter(c: char) -> bool {
        c == '1' || c == '2' || c == '3' || c == '4' || c == '5' || c == '6' || c == '7' || c == '8'
    }

    /// The rank that `c` names; meaningful when `is_letter(c)`.
    pub open spec fn of_letter(c: char) -> Rank {
        if c == '1' {
            Rank::One
        }         else if c == '2' {
            Rank::Two
        }         else if c == '3' {
            Rank::Three
        }         else if c == '4' {
            Rank::Four
        }         else if c == '5' {
            Rank::Five
        }         else if c == '6' {
            Rank::Six
        }         else if c == '7' {
            Rank::Seven
        } else {
            Rank::Eight
        }
    }

    /// The rank with number `num`.
    pub fn from_u32(num: u32) -> (r: Rank)
        requires
            num < 8,
        ensures
            r.index() == num,
            r == Rank::of_index(num as int),
    {
        match num {
            0 => Rank::One,
            1 => Rank::Two,
            2 => Rank::Three,
            3 => Rank::Four,
            4 => Rank::Five,
            5 => Rank::Six,
            6 => Rank::Seven,
            _ => Rank::Eight,
        }
    }

    /// The rank that the digit `c` names.
    pub fn from_char(c: char) -> (r: Rank)
        requires
            Rank::is_letter(c),
        ensures
            r == Rank::of_letter(c),
            r.letter() == c,
    {
        match c {
            '1' => Rank::One,
            '2' => Rank::Two,
            '3' => Rank::Three,
            '4' => Rank::Four,
            '5' => Rank::Five,
            '6' => Rank::Six,
            '7' => Rank::Seven,
            _ => Rank::Eight,
        }
    }

    /// The digit of the rank.
    pub fn to_char(&self) -> (c: char)
        ensures
            c == self.letter(),
    {
        match self {
            Rank::One => '1',
            Rank::Two => '2',
            Rank::Three => '3',
            Rank::Four => '4',
            Rank::Five => '5',
            Rank::Six => '6',
            Rank::Seven => '7',
            Rank::Eight => '8',
        }
    }

    /// The number of the rank.
    pub fn to_u32(&self) -> (n: u32)
        ensures
            n == self.index(),
            n < 8,
    {
        match self {
            Rank::One => 0,
            Rank::Two => 1,
            Rank::Three => 2,
            Rank::Four => 3,
            Rank::Five => 4,
            Rank::Six => 5,
            Rank::Seven => 6,
            Rank::Eight => 7,
        }
    }

    /// The name as a piece of text, one character long.
    pub fn to_str(&self) -> (text: &'static str)
        ensures
            text@ == seq![self.letter()],
    {
        match self {
            Rank::One => {
                proof {
                    reveal_strlit("1");
                }
                assert("1"@ =~= seq!['1']);
                "1"
            },
            Rank::Two => {
                proof {
                    reveal_strlit("2");
                }
                assert("2"@ =~= seq!['2']);
                "2"
            },
            Rank::Three => {
                proof {
                    reveal_strlit("3");
                }
                assert("3"@ =~= seq!['3']);
                "3"
            },
            Rank::Four => {
                proof {
                    reveal_strlit("4");
                }
                assert("4"@ =~= seq!['4']);
                "4"
            },
            Rank::Five => {
                proof {
                    reveal_strlit("5");
                }
                assert("5"@ =~= seq!['5']);
                "5"
            },
            Rank::Six => {
                proof {
                    reveal_strlit("6");
                }
                assert("6"@ =~= seq!['6']);
                "6"
            },
            Rank::Seven => {
                proof {
                    reveal_strlit("7");
                }
                assert("7"@ =~= seq!['7']);
                "7"
            },
            Rank::Eight => {
                proof {
                    reveal_strlit("8");
                }
                assert("8"@ =~= seq!['8']);
                "8"
            },
        }
    }
}

} // verus!
