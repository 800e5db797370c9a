//! The data of a sliding piece for each square: the mask of its lines, the
//! ring of its neighbours and the length of its longest line.

use vstd::prelude::*;
use crate::bitboard::{east_one, file_of, holds, lemma_holds_bitwise, lemma_holds_lines, lemma_holds_shifts, no_east_one, no_west_one, north_one, rank_of, so_east_one, so_west_one, south_one, west_one};
use crate::bitboard::lemma_same_squares;
use crate::chessboard::moves::piece::sliding_piece::bishop::{make_init_bishop, make_mask_bishop, make_step_bishop};
use crate::chessboard::moves::piece::sliding_piece::lines::{distance, longest_ray, on_line};
use crate::chessboard::moves::piece::sliding_piece::rook::{make_init_rook, make_mask_rook, make_step_rook};

verus! {

/// The neighbours of `square` on the lines of the piece: the ring from
/// which its rays start.
pub fn ring_of(square: usize, diagonal: bool) -> (ring: u64)
    requires
        square < 64,
    ensures
        forall|t: int|
            #[trigger] holds(ring, t) == (0 <= t < 64 && on_line(square as int, t, diagonal) && distance(
                square as int,
                t,
            ) == 1),
{
    let bb: u64 = 1u64 << square;
    proof {
        lemma_holds_bitwise();
        assert(forall|s: int| #[trigger] holds(bb, s) == (s == square)) by {
            assert(forall|s: int| #[trigger] holds(1u64 << (square as u64), s) == (s == square));
        }
    }
    if diagonal {
        so_west_one(bb) | so_east_one(bb) | no_east_one(bb) | no_west_one(bb)
    } else {
        south_one(bb) | west_one(bb) | east_one(bb) | north_one(bb)
    }
}

/// The squares of one file.
fn file_mask(file: u64) -> (mask: u64)
    requires
        file < 8,
    ensures
        forall|t: int| #[trigger] holds(mask, t) == (0 <= t < 64 && file_of(t) == file),
{
    let mask = 0x0101010101010101u64 << file;
    proof {
        lemma_holds_shifts();
        lemma_holds_lines();
        assert forall|t: int| #[trigger] holds(mask, t) == (0 <= t < 64 && file_of(t) == file) by {
            assert(holds(mask, t) == (t < 64 && holds(0x0101010101010101u64, t - file)));
        }
    }
    mask
}

/// The squares of one rank.
fn rank_mask(rank: u64) -> (mask: u64)
    requires
        rank < 8,
    ensures
        forall|t: int| #[trigger] holds(mask, t) == (0 <= t < 64 && rank_of(t) == rank),
{
    let mask = 0x0000_0000_0000_00FFu64 << (8 * rank);
    proof {
        lemma_holds_shifts();
        lemma_holds_lines();
        assert forall|t: int| #[trigger] holds(mask, t) == (0 <= t < 64 && rank_of(t) == rank) by {
            assert(holds(mask, t) == (t < 64 && holds(0x0000_0000_0000_00FFu64, t - 8 * rank)));
        }
    }
    mask
}

/// The squares of the diagonal that rises to the east through the square
/// on `file` and `rank`.
fn rising_mask(file: u64, rank: u64) -> (mask: u64)
    requires
        file < 8,
        rank < 8,
    ensures
        forall|t: int| #[trigger] holds(mask, t) == (0 <= t < 64 && rank_of(t) - file_of(t) == rank - file),
{
    proof {
        lemma_holds_shifts();
        lemma_holds_lines();
    }
    if rank >= file {
        let by: u64 = 8 * (rank - file);
        let mask = 0x8040201008040201u64 << by;
        proof {
            assert forall|t: int| #[trigger] holds(mask, t) == (0 <= t < 64 && rank_of(t) - file_of(t) == rank
                - file) by {
                assert(holds(mask, t) == (t < 64 && holds(0x8040201008040201u64, t - by)));
            }
        }
        mask
    } else {
        let by: u64 = 8 * (file - rank);
        let mask = 0x8040201008040201u64 >> by;
        proof {
            assert forall|t: int| #[trigger] holds(mask, t) == (0 <= t < 64 && rank_of(t) - file_of(t) == rank
                - file) by {
                assert(holds(mask, t) == (0 <= t && holds(0x8040201008040201u64, t + by)));
            }
        }
        mask
    }
}

/// The squares of the diagonal that falls to the east through the square
/// on `file` and `rank`.
fn falling_mask(file: u64, rank: u64) -> (mask: u64)
    requires
        file < 8,
        rank < 8,
    ensures
        forall|t: int| #[trigger] holds(mask, t) == (0 <= t < 64 && rank_of(t) + file_of(t) == rank + file),
{
    proof {
        lemma_holds_shifts();
        lemma_holds_lines();
    }
    if rank + file >= 7 {
        let by: u64 = 8 * (rank + file - 7);
        let mask = 0x0102040810204080u64 << by;
        proof {
            assert forall|t: int| #[trigger] holds(mask, t) == (0 <= t < 64 && rank_of(t) + file_of(t) == rank
                + file) by {
                assert(holds(mask, t) == (t < 64 && holds(0x0102040810204080u64, t - by)));
            }
        }
        mask
    } else {
        let by: u64 = 8 * (7 - rank - file);
        let mask = 0x0102040810204080u64 >> by;
        proof {
            assert forall|t: int| #[trigger] holds(mask, t) == (0 <= t < 64 && rank_of(t) + file_of(t) == rank
                + file) by {
                assert(holds(mask, t) == (0 <= t && holds(0x0102040810204080u64, t + by)));
            }
        }
        mask
    }
}

/// The squares on the lines of the piece through `square`, without
/// `square` itself: what bounds its rays at the edges of the board.
pub fn mask_of(square: usize, diagonal: bool) -> (mask: u64)
    requires
        square < 64,
    ensures
        forall|t: int| #[trigger] holds(mask, t) == (0 <= t < 64 && on_line(square as int, t, diagonal)),
{
    let bb: u64 = 1u64 << square;
    let file: u64 = (square % 8) as u64;
    let rank: u64 = (square / 8) as u64;
    proof {
        lemma_holds_bitwise();
        assert(forall|s: int| #[trigger] holds(bb, s) == (s == square)) by {
            assert(forall|s: int| #[trigger] holds(1u64 << (square as u64), s) == (s == square));
        }
    }
    let lines = if diagonal {
        rising_mask(file, rank) | falling_mask(file, rank)
    } else {
        file_mask(file) | rank_mask(rank)
    };
    lines & !bb
}

/// The length of the longest line of the piece from `square`: as many
/// steps as a ray may need.
pub fn steps_of(square: usize, diagonal: bool) -> (steps: usize)
    requires
        square < 64,
    ensures
        steps == longest_ray(square as int, diagonal),
        steps <= 7,
{
    let file: usize = square % 8;
    let rank: usize = square / 8;
    let east: usize = 7 - file;
    let north: usize = 7 - rank;
    let (a, b, c, d) = if diagonal {
        (
            if east <= north {
                east
            } else {
                north
            },
            if file <= north {
                file
            } else {
                north
            },
            if east <= rank {
                east
            } else {
                rank
            },
            if file <= rank {
                file
            } else {
                rank
            },
        )
    } else {
        (north, east, rank, file)
    };
    let ab: usize = if a >= b {
        a
    } else {
        b
    };
    let cd: usize = if c >= d {
        c
    } else {
        d
    };
    if ab >= cd {
        ab
    } else {
        cd
    }
}

/// The data of the sliding pieces for all squares, worked out once and
/// then only read.
#[derive(PartialEq, Eq, Debug)]
pub struct SlidingTables {
    pub init_bishop: [u64; 64],
    pub mask_bishop: [u64; 64],
    pub step_bishop: [usize; 64],
    pub init_rook: [u64; 64],
    pub mask_rook: [u64; 64],
    pub step_rook: [usize; 64],
}

impl SlidingTables {
    /// The rings of the piece, by square.
    pub open spec fn rings(&self, diagonal: bool) -> Seq<u64> {
        if diagonal {
            self.init_bishop@
        } else {
            self.init_rook@
        }
    }

    /// The masks of the piece, by square.
    pub open spec fn masks(&self, diagonal: bool) -> Seq<u64> {
        if diagonal {
            self.mask_bishop@
        } else {
            self.mask_rook@
        }
    }

    /// The lengths of the longest lines of the piece, by square.
    pub open spec fn steps(&self, diagonal: bool) -> Seq<usize> {
        if diagonal {
            self.step_bishop@
        } else {
            self.step_rook@
        }
    }

    /// The entries for the piece that slides on the diagonals (`diagonal`)
    /// or on files and ranks are what they are meant to be: for each
    /// square the neighbours on its lines, the squares on its lines, and
    /// the length of its longest line.
    #[verifier::opaque]
    pub open spec fn sound_for(&self, diagonal: bool) -> bool {
        &&& forall|sq: int, t: int|
            0 <= sq < 64 ==> #[trigger] holds(self.rings(diagonal)[sq], t) == (0 <= t < 64 && on_line(
                sq,
                t,
                diagonal,
            ) && distance(sq, t) == 1)
        &&& forall|sq: int, t: int|
            0 <= sq < 64 ==> #[trigger] holds(self.masks(diagonal)[sq], t) == (0 <= t < 64 && on_line(
                sq,
                t,
                diagonal,
            ))
        &&& forall|sq: int| 0 <= sq < 64 ==> #[trigger] self.steps(diagonal)[sq] == longest_ray(sq, diagonal)
    }

    /// Every entry is what it is meant to be.
    pub open spec fn sound(&self) -> bool {
        self.sound_for(true) && self.sound_for(false)
    }

    /// The tables, worked out.
    pub fn new() -> (tables: SlidingTables)
        ensures
            tables.sound(),
    {
        let tables = SlidingTables {
            init_bishop: make_init_bishop(),
            mask_bishop: make_mask_bishop(),
            step_bishop: make_step_bishop(),
            init_rook: make_init_rook(),
            mask_rook: make_mask_rook(),
            step_rook: make_step_rook(),
        };
        proof {
            reveal(SlidingTables::sound_for);
        }
        tables
    }

    /// Whether every entry is what it is meant to be.
    pub fn agree(&self) -> (r: bool)
        ensures
            r == self.sound(),
    {
        proof {
            reveal(SlidingTables::sound_for);
        }
        let mut sq: usize = 0;
        while sq < 64
            invariant
                sq <= 64,
                forall|s: int, t: int|
                    0 <= s < sq ==> #[trigger] holds(self.init_bishop@[s], t) == (0 <= t < 64 && on_line(s, t, true)
                        && distance(s, t) == 1),
                forall|s: int, t: int|
                    0 <= s < sq ==> #[trigger] holds(self.mask_bishop@[s], t) == (0 <= t < 64 && on_line(s, t, true)),
                forall|s: int| 0 <= s < sq ==> #[trigger] self.step_bishop@[s] == longest_ray(s, true),
                forall|s: int, t: int|
                    0 <= s < sq ==> #[trigger] holds(self.init_rook@[s], t) == (0 <= t < 64 && on_line(s, t, false)
                        && distance(s, t) == 1),
                forall|s: int, t: int|
                    0 <= s < sq ==> #[trigger] holds(self.mask_rook@[s], t) == (0 <= t < 64 && on_line(s, t, false)),
                forall|s: int| 0 <= s < sq ==> #[trigger] self.step_rook@[s] == longest_ray(s, false),
            decreases 64 - sq,
        {
            let init_bishop = ring_of(sq, true);
            let mask_bishop = mask_of(sq, true);
            let init_rook = ring_of(sq, false);
            let mask_rook = mask_of(sq, false);
            if self.init_bishop[sq] != init_bishop || self.mask_bishop[sq] != mask_bishop || self.step_bishop[sq]
                != steps_of(sq, true) || self.init_rook[sq] != init_rook || self.mask_rook[sq] != mask_rook
                || self.step_rook[sq] != steps_of(sq, false) {
                proof {
                    reveal(SlidingTables::sound_for);
                    if self.sound() {
                        assert(self.rings(true)[sq as int] == self.init_bishop@[sq as int]);
                        assert(self.masks(true)[sq as int] == self.mask_bishop@[sq as int]);
                        assert(self.steps(true)[sq as int] == self.step_bishop@[sq as int]);
                        assert(self.rings(false)[sq as int] == self.init_rook@[sq as int]);
                        assert(self.masks(false)[sq as int] == self.mask_rook@[sq as int]);
                        assert(self.steps(false)[sq as int] == self.step_rook@[sq as int]);
                        lemma_same_squares(self.init_bishop@[sq as int], init_bishop);
                        lemma_same_squares(self.mask_bishop@[sq as int], mask_bishop);
                        lemma_same_squares(self.init_rook@[sq as int], init_rook);
                        lemma_same_squares(self.mask_rook@[sq as int], mask_rook);
                    }
                }
                return false;
            }
            sq = sq + 1;
        }
        proof {
            reveal(SlidingTables::sound_for);
        }
        true
    }

    /// The ring of `square`.
    pub fn ring_at(&self, square: usize, diagonal: bool) -> (ring: u64)
        requires
            self.sound(),
            square < 64,
        ensures
            forall|t: int|
                #[trigger] holds(ring, t) == (0 <= t < 64 && on_line(square as int, t, diagonal) && distance(
                    square as int,
                    t,
                ) == 1),
    {
        proof {
            reveal(SlidingTables::sound_for);
            assert(self.sound_for(diagonal));
        }
        if diagonal {
            assert(self.rings(true)[square as int] == self.init_bishop@[square as int]);
            self.init_bishop[square]
        } else {
            assert(self.rings(false)[square as int] == self.init_rook@[square as int]);
            self.init_rook[square]
        }
    }

    /// The mask of `square`.
    pub fn mask_at(&self, square: usize, diagonal: bool) -> (mask: u64)
        requires
            self.sound(),
            square < 64,
        ensures
            forall|t: int| #[trigger] holds(mask, t) == (0 <= t < 64 && on_line(square as int, t, diagonal)),
    {
        proof {
            reveal(SlidingTables::sound_for);
            assert(self.sound_for(diagonal));
        }
        if diagonal {
            assert(self.masks(true)[square as int] == self.mask_bishop@[square as int]);
            self.mask_bishop[square]
        } else {
            assert(self.masks(false)[square as int] == self.mask_rook@[square as int]);
            self.mask_rook[square]
        }
    }

    /// The length of the longest line from `square`.
    pub fn steps_at(&self, square: usize, diagonal: bool) -> (steps: usize)
        requires
            self.sound(),
            square < 64,
        ensures
            steps == longest_ray(square as int, diagonal),
    {
        proof {
            reveal(SlidingTables::sound_for);
            assert(self.sound_for(diagonal));
        }
        if diagonal {
            assert(self.steps(true)[square as int] == self.step_bishop@[square as int]);
            self.step_bishop[square]
        } else {
            assert(self.steps(false)[square as int] == self.step_rook@[square as int]);
            self.step_rook[square]
        }
    }
}

} // verus!
