//! The moves along files and ranks.

use vstd::prelude::*;
use crate::bitboard::{bit_scan_forward, holds, lemma_holds_bitwise, lemma_pop_highest, lemma_squares_down_members, lemma_squares_down_skip, squares_down};
use crate::chessboard::{Chessboard, Position};
use crate::chessboard::moves::Move;
use crate::chessboard::moves::piece::not_held_by;
use crate::chessboard::moves::piece::sliding_piece::{convert_bb_to_moves, distance, each_in_turn, flood, lemma_each_in_turn_admitted, lemma_moves_from_where, lemma_moves_from_where_admitted, lemma_sees_on_board, longest_ray, mask_of, moves_from_where, on_line, ring_of, sees, slider_attacks, steps_of};
use crate::utils::color::Color;
use crate::utils::piece::Piece;
use crate::utils::square::Square;

verus! {

/// The ring of each square: its neighbours on its file and rank.
pub fn make_init_rook() -> (table: [u64; 64])
    ensures
        forall|sq: int, t: int|
            0 <= sq < 64 ==> #[trigger] holds(table@[sq], t) == (0 <= t < 64 && on_line(sq, t, false) && distance(
                sq,
                t,
            ) == 1),
{
    let mut result: [u64; 64] = [0;64];
    let mut sq: usize = 0;
    while sq < 64
        invariant
            sq <= 64,
            forall|s: int, t: int|
                0 <= s < sq ==> #[trigger] holds(result@[s], t) == (0 <= t < 64 && on_line(s, t, false)
                    && distance(s, t) == 1),
        decreases 64 - sq,
    {
        result[sq] = ring_of(sq, false);
        sq = sq + 1;
    }
    result
}

/// The mask of each square: the squares on its file and rank, without
/// itself.
pub fn make_mask_rook() -> (table: [u64; 64])
    ensures
        forall|sq: int, t: int|
            0 <= sq < 64 ==> #[trigger] holds(table@[sq], t) == (0 <= t < 64 && on_line(sq, t, false)),
{
    let mut result: [u64; 64] = [0;64];
    let mut sq: usize = 0;
    while sq < 64
        invariant
            sq <= 64,
            forall|s: int, t: int|
                0 <= s < sq ==> #[trigger] holds(result@[s], t) == (0 <= t < 64 && on_line(s, t, false)),
        decreases 64 - sq,
    {
        result[sq] = mask_of(sq, false);
        sq = sq + 1;
    }
    result
}

/// The length of the longest file or rank line from each square.
pub fn make_step_rook() -> (table: [usize; 64])
    ensures
        forall|sq: int| 0 <= sq < 64 ==> #[trigger] table@[sq] == longest_ray(sq, false),
{
    let mut result: [usize; 64] = [0;64];
    let mut sq: usize = 0;
    while sq < 64
        invariant
            sq <= 64,
            forall|s: int| 0 <= s < sq ==> #[trigger] result@[s] == longest_ray(s, false),
        decreases 64 - sq,
    {
        result[sq] = steps_of(sq, false);
        sq = sq + 1;
    }
    result
}

/// A piece on square `s` that slides on files and ranks attacks `t`, and no
/// man of `color` stands there.
pub open spec fn rook_lands(p: Position, color: Color, s: int, t: int) -> bool {
    slider_attacks(p, s, t, false) && not_held_by(p, color, t)
}

/// The moves of a piece that slides on files and ranks from square `s`, for
/// `color`, highest target first.
pub open spec fn rook_moves_from(p: Position, color: Color, s: int) -> Seq<Move> {
    moves_from_where(p, Square::of_index(s), |t: int| rook_lands(p, color, s, t), 63)
}

/// The pseudo-legal moves of the pieces of `rooks` along files and ranks
/// for `color`, piece by piece from the highest square down.
pub open spec fn rook_moves(p: Position, rooks: u64, color: Color) -> Seq<Move> {
    each_in_turn(squares_down(rooks, 63), |s: int| rook_moves_from(p, color, s))
}

/// The file and rank moves all fit the position when `color` is the side to
/// move and `pieces` are rooks or queens of its own.
pub proof fn lemma_rook_moves_admitted(p: Position, pieces: u64, color: Color, kind: Piece)
    requires
        p.wf(),
        color == p.turn,
        kind != Piece::Pawn && kind != Piece::King,
        forall|s: int| holds(pieces, s) ==> p.squares[s] == Some((color, kind)),
    ensures
        p.admits_all(rook_moves(p, pieces, color)),
{
    let list = squares_down(pieces, 63);
    let each = |s: int| rook_moves_from(p, color, s);
    lemma_squares_down_members(pieces, 63);
    assert forall|i: int| 0 <= i < list.len() implies p.admits_all(#[trigger] each(list[i])) by {
        let s = list[i];
        crate::utils::square::lemma_index_square(s);
        lemma_moves_from_where_admitted(p, Square::of_index(s), |t: int| rook_lands(p, color, s, t), 63);
    }
    lemma_each_in_turn_admitted(p, list, each);
}

/// The moves along files and ranks of the pieces of `rooks`, for `color`.
pub fn generate_pseudo_moves(rooks: u64, chessboard: &Chessboard, color: &Color) -> (moves: Vec<Move>)
    requires
        chessboard.board_ok(),
    ensures
        moves@ == rook_moves(chessboard@, rooks, *color),
{
    let mut moves: Vec<Move> = Vec::new();
    let mut bb = rooks;
    let allies = chessboard.get_colors(color);
    let empty = chessboard.empty_board;
    let ghost p = chessboard@;
    let ghost done: Seq<int> = Seq::empty();
    let ghost each = |s: int| rook_moves_from(p, *color, s);
    while bb != 0
        invariant
            chessboard.board_ok(),
            p == chessboard@,
            allies == chessboard.color_mask(*color),
            empty == chessboard.empty_board,
            each == (|s: int| rook_moves_from(p, *color, s)),
            done + squares_down(bb, 63) == squares_down(rooks, 63),
            moves@ == each_in_turn(done, each),
        decreases bb,
    {
        proof {
            lemma_pop_highest(bb);
            crate::bitboard::lemma_highest(bb);
        }
        let square = bit_scan_forward(bb) as usize;
        let targets = chessboard.tables.flood(square, empty, false) & !allies;
        let from = Square::from_u32(square as u32);
        let ghost so_far = moves@;
        proof {
            lemma_holds_bitwise();
            assert forall|t: int| 0 <= t <= 63 implies holds(targets, t) == rook_lands(p, *color, square as int, t) by {
                lemma_sees_on_board(chessboard, square as int, t, false);
                assert(chessboard.square_ok(t));
            }
            lemma_moves_from_where(p, from, targets, |t: int| rook_lands(p, *color, square as int, t), 63);
        }
        convert_bb_to_moves(chessboard, targets, from, &mut moves);
        proof {
            assert(bb ^ (1u64 << square) < bb) by {
                crate::bitboard::lemma_mask_shrinks(bb, square as u64);
            }
            let next = done.push(square as int);
            assert(next.drop_last() == done);
            assert(moves@ == so_far + each(square as int));
            assert(moves@ =~= each_in_turn(next, each));
            let tail = squares_down(bb ^ (1u64 << square), 63);
            assert(next + tail == done + (seq![square as int] + tail));
            done = next;
        }
        bb = bb ^ (1u64 << square);
    }
    proof {
        lemma_holds_bitwise();
        lemma_squares_down_skip(0u64, 63, -1);
        assert(done + Seq::<int>::empty() == done);
    }
    moves
}

/// The squares that a rook on `square` attacks when `empty` holds the empty
/// squares: along its file and rank as far as the first square that is not
/// empty, that square included.
pub fn get_rook_targets(square: usize, empty: u64) -> (at: u64)
    requires
        square < 64,
    ensures
        forall|t: int| #[trigger] holds(at, t) == sees(empty, square as int, t, false),
{
    flood(square, empty, false)
}

} // verus!
