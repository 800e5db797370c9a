//! The moves along the diagonals.

use vstd::prelude::*;
use crate::bitboard::{bit_scan_forward, holds, lemma_holds_bitwise, lemma_pop_highest, lemma_squares_down_members, lemma_squares_down_skip, squares_down};
use crate::chessboard::{Chessboard, Position};
use crate::chessboard::moves::Move;
use crate::chessboard::moves::piece::{lemma_masks_of_men, lemma_side_mask, side_mask};
use crate::chessboard::moves::piece::sliding_piece::{distance, each_in_turn, flood, lemma_each_in_turn_admitted, lemma_sliding_moves_admitted, longest_ray, mask_of, on_line, ring_of, sees, sliding_moves, steps_of, SlidingPiece};
use crate::utils::color::Color;
use crate::utils::direction::Direction;
use crate::utils::piece::Piece;
use crate::utils::square::Square;

verus! {

/// The ring of each square: its diagonal neighbours.
pub fn make_init_bishop() -> (table: [u64; 64])
    ensures
        forall|sq: int, t: int|
            0 <= sq < 64 ==> #[trigger] holds(table@[sq], t) == (0 <= t < 64 && on_line(sq, t, true) && distance(
                sq,
                t,
            ) == 1),
{
    let mut result: [u64; 64] = [0;64];
    let mut sq: usize = 0;
    while sq < 64
        invariant
            sq <= 64,
            forall|s: int, t: int|
                0 <= s < sq ==> #[trigger] holds(result@[s], t) == (0 <= t < 64 && on_line(s, t, true) && distance(
                    s,
                    t,
                ) == 1),
        decreases 64 - sq,
    {
        result[sq] = ring_of(sq, true);
        sq = sq + 1;
    }
    result
}

/// The mask of each square: the squares on its diagonals, without itself.
pub fn make_mask_bishop() -> (table: [u64; 64])
    ensures
        forall|sq: int, t: int|
            0 <= sq < 64 ==> #[trigger] holds(table@[sq], t) == (0 <= t < 64 && on_line(sq, t, true)),
{
    let mut result: [u64; 64] = [0;64];
    let mut sq: usize = 0;
    while sq < 64
        invariant
            sq <= 64,
            forall|s: int, t: int|
                0 <= s < sq ==> #[trigger] holds(result@[s], t) == (0 <= t < 64 && on_line(s, t, true)),
        decreases 64 - sq,
    {
        result[sq] = mask_of(sq, true);
        sq = sq + 1;
    }
    result
}

/// The length of the longest diagonal from each square.
pub fn make_step_bishop() -> (table: [usize; 64])
    ensures
        forall|sq: int| 0 <= sq < 64 ==> #[trigger] table@[sq] == longest_ray(sq, true),
{
    let mut result: [usize; 64] = [0;64];
    let mut sq: usize = 0;
    while sq < 64
        invariant
            sq <= 64,
            forall|s: int| 0 <= s < sq ==> #[trigger] result@[s] == longest_ray(s, true),
        decreases 64 - sq,
    {
        result[sq] = steps_of(sq, true);
        sq = sq + 1;
    }
    result
}

/// The four directions of a bishop, in the order of its rays.
pub open spec fn bishop_directions() -> Seq<Direction> {
    seq![Direction::NorthEast, Direction::NorthWest, Direction::SouthEast, Direction::SouthWest]
}

/// The moves of a piece that slides on the diagonals from square `s`, for
/// `color`: those to its neighbours first, highest square first, then ray
/// by ray those further away.
pub open spec fn bishop_moves_from(p: Position, allies: u64, s: int) -> Seq<Move> {
    sliding_moves(p, allies, Square::of_index(s), true, bishop_directions(), longest_ray(s, true) as nat)
}

/// The pseudo-legal moves of the pieces of `bishops` along the diagonals
/// for `color`, piece by piece from the highest square down.
pub open spec fn bishop_moves(p: Position, bishops: u64, color: Color) -> Seq<Move> {
    each_in_turn(squares_down(bishops, 63), |s: int| bishop_moves_from(p, side_mask(p, color), s))
}

/// The diagonal moves all fit the position when `color` is the side to move
/// and `pieces` are bishops or queens of its own.
pub proof fn lemma_bishop_moves_admitted(p: Position, pieces: u64, color: Color, kind: Piece)
    requires
        p.wf(),
        color == p.turn,
        kind != Piece::Pawn && kind != Piece::King,
        forall|s: int| holds(pieces, s) ==> p.squares[s] == Some((color, kind)),
    ensures
        p.admits_all(bishop_moves(p, pieces, color)),
{
    lemma_masks_of_men(p, color);
    let list = squares_down(pieces, 63);
    let each = |s: int| bishop_moves_from(p, side_mask(p, color), s);
    lemma_squares_down_members(pieces, 63);
    assert forall|i: int| 0 <= i < list.len() implies p.admits_all(#[trigger] each(list[i])) by {
        let s = list[i];
        crate::utils::square::lemma_index_square(s);
        lemma_sliding_moves_admitted(
            p,
            side_mask(p, color),
            Square::of_index(s),
            true,
            bishop_directions(),
            longest_ray(s, true) as nat,
        );
    }
    lemma_each_in_turn_admitted(p, list, each);
}

/// Appends the moves along the diagonals of the pieces of `bishops`, for
/// `color`.
pub fn generate_pseudo_moves(bishops: u64, chessboard: &Chessboard, color: &Color, moves: &mut Vec<Move>)
    requires
        chessboard.board_ok(),
    ensures
        final(moves)@ == old(moves)@ + bishop_moves(chessboard@, bishops, *color),
{
    let mut bb = bishops;
    let allies = chessboard.get_colors(color);
    let ghost p = chessboard@;
    let ghost start = moves@;
    let ghost done: Seq<int> = Seq::empty();
    let ghost each = |s: int| bishop_moves_from(p, side_mask(p, *color), s);
    proof {
        lemma_side_mask(chessboard, *color);
        assert(start + each_in_turn(done, each) == start);
    }
    while bb != 0
        invariant
            chessboard.board_ok(),
            p == chessboard@,
            allies == side_mask(p, *color),
            each == (|s: int| bishop_moves_from(p, side_mask(p, *color), s)),
            done + squares_down(bb, 63) == squares_down(bishops, 63),
            moves@ == start + each_in_turn(done, each),
        decreases bb,
    {
        proof {
            lemma_pop_highest(bb);
            crate::bitboard::lemma_highest(bb);
        }
        let square = bit_scan_forward(bb) as usize;
        let ghost so_far = moves@;
        chessboard.generate_bishop_moves(square, allies, moves);
        proof {
            assert(bb ^ (1u64 << square) < bb) by {
                crate::bitboard::lemma_mask_shrinks(bb, square as u64);
            }
            let next = done.push(square as int);
            assert(next.drop_last() == done);
            assert(moves@ == so_far + each(square as int));
            assert(moves@ =~= start + each_in_turn(next, each));
            let tail = squares_down(bb ^ (1u64 << square), 63);
            assert(next + tail == done + (seq![square as int] + tail));
            done = next;
        }
        bb = bb ^ (1u64 << square);
    }
    proof {
        lemma_holds_bitwise();
        lemma_squares_down_skip(0u64, 63, -1);
        assert(done + Seq::<int>::empty() == done);
    }
}

impl Chessboard {
    /// Appends the moves along the diagonals of the piece on `square`;
    /// `allies` holds the squares it may not move to.
    pub fn generate_bishop_moves(&self, square: usize, allies: u64, moves: &mut Vec<Move>)
        requires
            self.board_ok(),
            square < 64,
        ensures
            final(moves)@ == old(moves)@ + bishop_moves_from(self@, allies, square as int),
    {
        let mut directions: Vec<Direction> = Vec::new();
        directions.push(Direction::NorthEast);
        directions.push(Direction::NorthWest);
        directions.push(Direction::SouthEast);
        directions.push(Direction::SouthWest);
        let sliding = SlidingPiece {
            mask: self.tables.mask_at(square, true),
            init: self.tables.ring_at(square, true),
            step: self.tables.steps_at(square, true),
            directions,
        };
        proof {
            assert(sliding.directions@ =~= bishop_directions());
            assert(sliding.is_for(square as int, true));
        }
        self.generate_sliding_piece_moves(square, allies, &sliding, moves);
    }
}

/// The squares that a bishop on `square` attacks when `empty` holds the
/// empty squares: along each diagonal as far as the first square that is
/// not empty, that square included.
pub fn get_bishop_targets(square: usize, empty: u64) -> (at: u64)
    requires
        square < 64,
    ensures
        forall|t: int| #[trigger] holds(at, t) == sees(empty, square as int, t, true),
{
    flood(square, empty, true)
}

} // verus!
