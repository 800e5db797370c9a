//! The files of the board and their masks.

use vstd::prelude::*;

verus! {

/// Occupancy mask of each file, A first.
pub const FILES: [u64; 8] = [
    0x0101010101010101,
    0x0202020202020202,
    0x0404040404040404,
    0x0808080808080808,
    0x1010101010101010,
    0x2020202020202020,
    0x4040404040404040,
    0x8080808080808080,
];

/// Every square but those of the A file.
pub const NOT_A_FILE: u64 = 0xfefefefefefefefe;

/// Every square but those of the H file.
pub const NOT_H_FILE: u64 = 0x7f7f7f7f7f7f7f7f;

/// Every square but those of the A and B files.
pub const NOT_AB_FILE: u64 = 0xfcfcfcfcfcfcfcfc;

/// Every square but those of the G and H files.
pub const NOT_GH_FILE: u64 = 0x3f3f3f3f3f3f3f3f;

/// The eight files of the board, from west to east.
#[derive(PartialEq, Eq, Debug, Hash, Clone, Copy, PartialOrd, Ord, Structural)]
pub enum File {
    A,
    B,
    C,
    D,
    E,
    F,
    G,
    H,
}

impl File {
    /// Number of the file, 0 to 7.
    pub open spec fn index(self) -> int {
        match self {
            File::A => 0,
            File::B => 1,
            File::C => 2,
            File::D => 3,
            File::E => 4,
            File::F => 5,
            File::G => 6,
            File::H => 7,
        }
    }

    /// The file with number `i`; the last one for any `i` above 6.
    pub open spec fn of_index(i: int) -> File {
        if i == 0 {
            File::A
        }         else if i == 1 {
            File::B
        }         else if i == 2 {
            File::C
        }         else if i == 3 {
            File::D
        }         else if i == 4 {
            File::E
        }         else if i == 5 {
            File::F
        }         else if i == 6 {
            File::G
        } else {
            File::H
        }
    }

    /// The character that names the file in algebraic text.
    pub open spec fn letter(self) -> char {
        match self {
            File::A => 'a',
            File::B => 'b',
            File::C => 'c',
            File::D => 'd',
            File::E => 'e',
            File::F => 'f',
            File::G => 'g',
            File::H => 'h',
        }
    }

    /// Whether `c` names a file.
    pub open spec fn is_letter(c: char) -> bool {
        c == 'a' || c == 'b' || c == 'c' || c == 'd' || c == 'e' || c == 'f' || c == 'g' || c == 'h'
    }

    /// The file that `c` names; meaningful when `is_letter(c)`.
    pub open spec fn of_letter(c: char) -> File {
        if c == 'a' {
            File::A
        }         else if c == 'b' {
            File::B
        }         else if c == 'c' {
            File::C
        }         else if c == 'd' {
            File::D
        }         else if c == 'e' {
            File::E
        }         else if c == 'f' {
            File::F
        }         else if c == 'g' {
            File::G
        } else {
            File::H
        }
    }

    /// The file with number `num`.
    pub fn from_u32(num: u32) -> (r: File)
        requires
            num < 8,
        ensures
            r.index() == num,
            r == File::of_index(num as int),
    {
        match num {
            0 => File::A,
            1 => File::B,
            2 => File::C,
            3 => File::D,
            4 => File::E,
            5 => File::F,
            6 => File::G,
            _ => File::H,
        }
    }

    /// The file that the letter `c` names.
    pub fn from_char(c: char) -> (r: File)
        requires
            File::is_letter(c),
        ensures
            r == File::of_letter(c),
            r.letter() == c,
    {
        match c {
            'a' => File::A,
            'b' => File::B,
            'c' => File::C,
            'd' => File::D,
            'e' => File::E,
            'f' => File::F,
            'g' => File::G,
            _ => File::H,
        }
    }

    /// The letter of the file.
    pub fn to_char(&self) -> (c: char)
        ensures
            c == self.letter(),
    {
        match self {
            File::A => 'a',
            File::B => 'b',
            File::C => 'c',
            File::D => 'd',
            File::E => 'e',
            File::F => 'f',
            File::G => 'g',
            File::H => 'h',
        }
    }

    /// The number of the file.
    pub fn to_u32(&self) -> (n: u32)
        ensures
            n == self.index(),
            n < 8,
    {
        match self {
            File::A => 0,
            File::B => 1,
            File::C => 2,
            File::D => 3,
            File::E => 4,
            File::F => 5,
            File::G => 6,
            File::H => 7,
        }
    }

    /// The name as a piece of text, one character long.
    pub fn to_str(&self) -> (text: &'static str)
        ensures
            text@ == seq![self.letter()],
    {
        match self {
            File::A => {
                proof {
                    reveal_strlit("a");
                }
                assert("a"@ =~= seq!['a']);
                "a"
            },
            File::B => {
                proof {
                    reveal_strlit("b");
                }
                assert("b"@ =~= seq!['b']);
                "b"
            },
            File::C => {
                proof {
                    reveal_strlit("c");
                }
                assert("c"@ =~= seq!['c']);
                "c"
            },
            File::D => {
                proof {
                    reveal_strlit("d");
                }
                assert("d"@ =~= seq!['d']);
                "d"
            },
            File::E => {
                proof {
                    reveal_strlit("e");
                }
                assert("e"@ =~= seq!['e']);
                "e"
            },
            File::F => {
                proof {
                    reveal_strlit("f");
                }
                assert("f"@ =~= seq!['f']);
                "f"
            },
            File::G => {
                proof {
                    reveal_strlit("g");
                }
                assert("g"@ =~= seq!['g']);
                "g"
            },
            File::H => {
                proof {
                    reveal_strlit("h");
                }
                assert("h"@ =~= seq!['h']);
                "h"
            },
        }
    }
}

} // verus!
