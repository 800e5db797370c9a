//! The kinds of pieces.

use vstd::prelude::*;

verus! {

/// The six kinds of pieces.
#[derive(PartialEq, Eq, Debug, Hash, Clone, Copy, PartialOrd, Ord, Structural)]
pub enum Piece {
    Pawn,
    Knight,
    Bishop,
    Rook,
    Queen,
    King,
}

impl Piece {
    /// Position of the kind in per-kind tables: Pawn 0 up to King 5.
    pub open spec fn index(self) -> int {
        match self {
            Piece::Pawn => 0,
            Piece::Knight => 1,
            Piece::Bishop => 2,
            Piece::Rook => 3,
            Piece::Queen => 4,
            Piece::King => 5,
        }
    }

    /// The lower-case letter of the kind in algebraic text.
    pub open spec fn letter(self) -> char {
        match self {
            Piece::Pawn => 'p',
            Piece::Knight => 'n',
            Piece::Bishop => 'b',
            Piece::Rook => 'r',
            Piece::Queen => 'q',
            Piece::King => 'k',
        }
    }

    /// The kind with table position `i`.
    pub open spec fn of_index(i: int) -> Piece {
        if i == 0 {
            Piece::Pawn
        } else if i == 1 {
            Piece::Knight
        } else if i == 2 {
            Piece::Bishop
        } else if i == 3 {
            Piece::Rook
        } else if i == 4 {
            Piece::Queen
        } else {
            Piece::King
        }
    }

    /// The place of the kind in per-kind tables.
    pub fn to_usize(&self) -> (i: usize)
        ensures
            i == self.index(),
            i < 6,
    {
        match self {
            Piece::Pawn => 0,
            Piece::Knight => 1,
            Piece::Bishop => 2,
            Piece::Rook => 3,
            Piece::Queen => 4,
            Piece::King => 5,
        }
    }

    /// The lower-case letter of the kind.
    pub fn to_char(&self) -> (c: char)
        ensures
            c == self.letter(),
    {
        match self {
            Piece::Pawn => 'p',
            Piece::Knight => 'n',
            Piece::Bishop => 'b',
            Piece::Rook => 'r',
            Piece::Queen => 'q',
            Piece::King => 'k',
        }
    }

    /// The kind named by a letter of either case, if any.
    pub fn from_char(c: char) -> (p: Option<Piece>)
        ensures
            p == Piece::of_letter(c),
    {
        match c {
            'p' | 'P' => Some(Piece::Pawn),
            'n' | 'N' => Some(Piece::Knight),
            'b' | 'B' => Some(Piece::Bishop),
            'r' | 'R' => Some(Piece::Rook),
            'q' | 'Q' => Some(Piece::Queen),
            'k' | 'K' => Some(Piece::King),
            _ => None,
        }
    }

    /// The kind that a letter of either case names.
    pub open spec fn of_letter(c: char) -> Option<Piece> {
        if c == 'p' || c == 'P' {
            Some(Piece::Pawn)
        } else if c == 'n' || c == 'N' {
            Some(Piece::Knight)
        } else if c == 'b' || c == 'B' {
            Some(Piece::Bishop)
        } else if c == 'r' || c == 'R' {
            Some(Piece::Rook)
        } else if c == 'q' || c == 'Q' {
            Some(Piece::Queen)
        } else if c == 'k' || c == 'K' {
            Some(Piece::King)
        } else {
            None
        }
    }

    /// The name as a piece of text, one character long.
    pub fn to_str(&self) -> (text: &'static str)
        ensures
            text@ == seq![self.letter()],
    {
        match self {
            Piece::Pawn => {
                proof {
                    reveal_strlit("p");
                }
                assert("p"@ =~= seq!['p']);
                "p"
            },
            Piece::Knight => {
                proof {
                    reveal_strlit("n");
                }
                assert("n"@ =~= seq!['n']);
                "n"
            },
            Piece::Bishop => {
                proof {
                    reveal_strlit("b");
                }
                assert("b"@ =~= seq!['b']);
                "b"
            },
            Piece::Rook => {
                proof {
                    reveal_strlit("r");
                }
                assert("r"@ =~= seq!['r']);
                "r"
            },
            Piece::Queen => {
                proof {
                    reveal_strlit("q");
                }
                assert("q"@ =~= seq!['q']);
                "q"
            },
            Piece::King => {
                proof {
                    reveal_strlit("k");
                }
                assert("k"@ =~= seq!['k']);
                "k"
            },
        }
    }
}

} // verus!
