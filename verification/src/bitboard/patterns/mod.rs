//! Step patterns of the pieces that move by fixed offsets.

pub mod knight;
pub mod pawn;

use vstd::prelude::*;
use crate::bitboard::{bit_scan_reverse, lemma_pop_lowest, lemma_squares_up_skip, lemma_holds_bitwise, population, squares_up};
use crate::utils::square::Square;

verus! {

/// The squares of a mask, lowest first.
pub fn bb_to_squares(bb: u64) -> (squares: Vec<Square>)
    ensures
        squares@.len() == squares_up(bb, 0).len(),
        forall|i: int| 0 <= i < squares@.len() ==> #[trigger] squares@[i].index() == squares_up(bb, 0)[i],
{
    let mut squares: Vec<Square> = Vec::new();
    let mut rest = bb;
    let ghost done: Seq<int> = Seq::empty();
    while rest != 0
        invariant
            done + squares_up(rest, 0) == squares_up(bb, 0),
            squares@.len() == done.len(),
            forall|i: int| 0 <= i < squares@.len() ==> #[trigger] squares@[i].index() == done[i],
        decreases population(rest, 0),
    {
        proof {
            lemma_pop_lowest(rest);
        }
        let sq = bit_scan_reverse(rest);
        squares.push(Square::from_u32(sq));
        proof {
            let tail = squares_up(rest ^ (1u64 << sq), 0);
            assert((done.push(sq as int)) + tail == done + (seq![sq as int] + tail));
            done = done.push(sq as int);
        }
        rest = rest ^ (1u64 << sq);
    }
    proof {
        lemma_holds_bitwise();
        lemma_squares_up_skip(0u64, 0, 64);
        assert(done + Seq::<int>::empty() == done);
    }
    squares
}

} // verus!
