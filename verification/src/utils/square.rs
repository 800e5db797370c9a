//! The squares of the board.

use vstd::prelude::*;
use vstd::string::{StrSliceExecFns, StringExecFns};
use crate::bitboard::{holds, lemma_holds_bitwise};
use super::file::File;
use super::rank::Rank;

verus! {

/// A square of the board: its file and its rank.
#[derive(PartialEq, Eq, Debug, Hash, Clone, Copy, PartialOrd, Ord, Structural)]
pub struct Square {
    pub file: File,
    pub rank: Rank,
}

impl Square {
    /// Number of the square: rank * 8 + file, so a1 is 0 and h8 is 63.
    pub open spec fn index(self) -> int {
        self.rank.index() * 8 + self.file.index()
    }

    /// The square with number `i`.
    pub open spec fn of_index(i: int) -> Square {
        Square { file: File::of_index(i % 8), rank: Rank::of_index(i / 8) }
    }

    /// The square on `file` and `rank`.
    pub fn new(file: File, rank: Rank) -> (s: Square)
        ensures
            s.file == file,
            s.rank == rank,
    {
        Square { file, rank }
    }

    /// The square with number `num`.
    pub fn from_u32(num: u32) -> (s: Square)
        requires
            num < 64,
        ensures
            s.index() == num,
            s == Square::of_index(num as int),
    {
        let file = File::from_u32(num % 8);
        let rank = Rank::from_u32(num / 8);
        Square::new(file, rank)
    }

    /// The number of the square.
    pub fn to_u32(&self) -> (n: u32)
        ensures
            n == self.index(),
            n < 64,
    {
        self.file.to_u32() + self.rank.to_u32() * 8
    }

    /// The square that two characters name, file letter first.
    pub fn from_string(string: &str) -> (s: Square)
        requires
            string@.len() >= 2,
            File::is_letter(string@[0]),
            Rank::is_letter(string@[1]),
        ensures
            s.file == File::of_letter(string@[0]),
            s.rank == Rank::of_letter(string@[1]),
    {
        let file = File::from_char(string.get_char(0));
        let rank = Rank::from_char(string.get_char(1));
        Square::new(file, rank)
    }

    /// The name of the square: its file letter and its rank digit.
    pub fn to_string(&self) -> (text: String)
        ensures
            text@ == seq![self.file.letter(), self.rank.letter()],
    {
        let mut text = String::from_str(self.file.to_str());
        text.append(self.rank.to_str());
        assert(text@ =~= seq![self.file.letter(), self.rank.letter()]);
        text
    }

    /// The mask that holds this square and no other.
    pub fn to_bitboard(&self) -> (bb: u64)
        ensures
            bb == 1u64 << (self.index() as u64),
            forall|s: int| #[trigger] holds(bb, s) == (s == self.index()),
            forall|other: u64| (other & bb != 0) == holds(other, self.index()),
    {
        let n = self.to_u32();
        let bb = 1u64 << n;
        proof {
            lemma_holds_bitwise();
            assert forall|other: u64| (other & bb != 0) == holds(other, self.index()) by {
                lemma_single(other, n as u64);
            }
        }
        bb
    }
}

proof fn lemma_single(other: u64, n: u64)
    by (bit_vector)
    requires
        n < 64,
    ensures
        (other & (1u64 << n) != 0) == ((other >> n) & 1u64 == 1u64),
{
}

/// A square's number identifies it.
pub proof fn lemma_square_index(s: Square)
    ensures
        0 <= s.index() < 64,
        Square::of_index(s.index()) == s,
{
}

/// Every number below 64 is the number of its square.
pub proof fn lemma_index_square(i: int)
    requires
        0 <= i < 64,
    ensures
        Square::of_index(i).index() == i,
{
}

} // verus!
