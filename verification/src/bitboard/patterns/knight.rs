//! The eight knight jumps, each as a shift of a whole mask. A jump that
//! would leave the board on the east or west side is dropped.

use vstd::prelude::*;
use crate::bitboard::{file_of, holds, lemma_holds_bitwise, lemma_holds_files, lemma_holds_shifts};
use crate::utils::file::{NOT_AB_FILE, NOT_A_FILE, NOT_GH_FILE, NOT_H_FILE};

verus! {

/// Two ranks up and one file to the east.
pub fn no_no_ea(bb: u64) -> (r: u64)
    ensures
        r == (bb << 17u64) & NOT_A_FILE,
        forall|s: int| #[trigger] holds(r, s) == (s < 64 && file_of(s) != 0 && holds(bb, s - 17)),
{
    proof {
        lemma_holds_shifts();
        lemma_holds_bitwise();
        lemma_holds_files();
    }
    (bb << 17u64) & NOT_A_FILE
}

/// One rank up and two files to the east.
pub fn no_ea_ea(bb: u64) -> (r: u64)
    ensures
        r == (bb << 10u64) & NOT_AB_FILE,
        forall|s: int| #[trigger] holds(r, s) == (s < 64 && file_of(s) >= 2 && holds(bb, s - 10)),
{
    proof {
        lemma_holds_shifts();
        lemma_holds_bitwise();
        lemma_holds_files();
    }
    (bb << 10u64) & NOT_AB_FILE
}

/// One rank down and two files to the east.
pub fn so_ea_ea(bb: u64) -> (r: u64)
    ensures
        r == (bb >> 6u64) & NOT_AB_FILE,
        forall|s: int| #[trigger] holds(r, s) == (0 <= s && file_of(s) >= 2 && holds(bb, s + 6)),
{
    proof {
        lemma_holds_shifts();
        lemma_holds_bitwise();
        lemma_holds_files();
    }
    (bb >> 6u64) & NOT_AB_FILE
}

/// Two ranks down and one file to the east.
pub fn so_so_ea(bb: u64) -> (r: u64)
    ensures
        r == (bb >> 15u64) & NOT_A_FILE,
        forall|s: int| #[trigger] holds(r, s) == (0 <= s && file_of(s) != 0 && holds(bb, s + 15)),
{
    proof {
        lemma_holds_shifts();
        lemma_holds_bitwise();
        lemma_holds_files();
    }
    (bb >> 15u64) & NOT_A_FILE
}

/// Two ranks up and one file to the west.
pub fn no_no_we(bb: u64) -> (r: u64)
    ensures
        r == (bb << 15u64) & NOT_H_FILE,
        forall|s: int| #[trigger] holds(r, s) == (s < 64 && file_of(s) != 7 && holds(bb, s - 15)),
{
    proof {
        lemma_holds_shifts();
        lemma_holds_bitwise();
        lemma_holds_files();
    }
    (bb << 15u64) & NOT_H_FILE
}

/// One rank up and two files to the west.
pub fn no_we_we(bb: u64) -> (r: u64)
    ensures
        r == (bb << 6u64) & NOT_GH_FILE,
        forall|s: int| #[trigger] holds(r, s) == (s < 64 && file_of(s) < 6 && holds(bb, s - 6)),
{
    proof {
        lemma_holds_shifts();
        lemma_holds_bitwise();
        lemma_holds_files();
    }
    (bb << 6u64) & NOT_GH_FILE
}

/// One rank down and two files to the west.
pub fn so_we_we(bb: u64) -> (r: u64)
    ensures
        r == (bb >> 10u64) & NOT_GH_FILE,
        forall|s: int| #[trigger] holds(r, s) == (0 <= s && file_of(s) < 6 && holds(bb, s + 10)),
{
    proof {
        lemma_holds_shifts();
        lemma_holds_bitwise();
        lemma_holds_files();
    }
    (bb >> 10u64) & NOT_GH_FILE
}

/// Two ranks down and one file to the west.
pub fn so_so_we(bb: u64) -> (r: u64)
    ensures
        r == (bb >> 17u64) & NOT_H_FILE,
        forall|s: int| #[trigger] holds(r, s) == (0 <= s && file_of(s) != 7 && holds(bb, s + 17)),
{
    proof {
        lemma_holds_shifts();
        lemma_holds_bitwise();
        lemma_holds_files();
    }
    (bb >> 17u64) & NOT_H_FILE
}

} // verus!
