//! The moves of the kings: single steps, and castling.

use vstd::prelude::*;
use crate::bitboard::{east_one, no_east_one, no_west_one, north_one, so_east_one, so_west_one, south_one, west_one};
use crate::bitboard::{file_of, holds, lemma_holds_bitwise};
use crate::chessboard::{Chessboard, Position};
use crate::chessboard::moves::Move;
use crate::chessboard::moves::piece::{convert_bb_to_moves, held_by, lemma_moves_where, lemma_moves_where_admitted, moves_where, not_held_by};
use crate::chessboard::attacks::attacked_by;
use crate::utils::color::Color;
use crate::utils::file::File;
use crate::utils::piece::Piece;
use crate::utils::rank::Rank;
use crate::utils::square::{lemma_index_square, lemma_square_index, Square};

verus! {

/// A king of `pieces` reaches square `t` by the step of `offset` square numbers,
/// which takes it `df` files to the east without leaving the board, and no
/// man of `color` stands on `t`.
pub open spec fn step_lands(p: Position, pieces: u64, color: Color, offset: int, df: int, t: int) -> bool {
    holds(pieces, t - offset) && 0 <= file_of(t) - df < 8 && not_held_by(p, color, t)
}

/// The moves of one step, lowest target first.
pub open spec fn step_moves(p: Position, pieces: u64, color: Color, offset: int, df: int) -> Seq<Move> {
    moves_where(p, |t: int| step_lands(p, pieces, color, offset, df, t), -offset, 0)
}

/// The pseudo-legal moves of the kings of `pieces` for `color`: the eight
/// steps in turn, each with its targets from the lowest square up.
pub open spec fn king_moves(p: Position, pieces: u64, color: Color) -> Seq<Move> {
    step_moves(p, pieces, color, 8, 0)
        + step_moves(p, pieces, color, 9, 1)
        + step_moves(p, pieces, color, 1, 1)
        + step_moves(p, pieces, color, -7, 1)
        + step_moves(p, pieces, color, -8, 0)
        + step_moves(p, pieces, color, -9, -1)
        + step_moves(p, pieces, color, -1, -1)
        + step_moves(p, pieces, color, 7, -1)
}

/// The king moves all fit the position when `color` is the side to move and
/// `pieces` are kings of its own.
pub proof fn lemma_king_moves_admitted(p: Position, pieces: u64, color: Color)
    requires
        p.wf(),
        color == p.turn,
        forall|s: int| holds(pieces, s) ==> p.squares[s] == Some((color, Piece::King)),
    ensures
        p.admits_all(king_moves(p, pieces, color)),
{
    lemma_moves_where_admitted(p, |t: int| step_lands(p, pieces, color, 8, 0, t), -8, 0);
    lemma_moves_where_admitted(p, |t: int| step_lands(p, pieces, color, 9, 1, t), -9, 0);
    lemma_moves_where_admitted(p, |t: int| step_lands(p, pieces, color, 1, 1, t), -1, 0);
    lemma_moves_where_admitted(p, |t: int| step_lands(p, pieces, color, -7, 1, t), 7, 0);
    lemma_moves_where_admitted(p, |t: int| step_lands(p, pieces, color, -8, 0, t), 8, 0);
    lemma_moves_where_admitted(p, |t: int| step_lands(p, pieces, color, -9, -1, t), 9, 0);
    lemma_moves_where_admitted(p, |t: int| step_lands(p, pieces, color, -1, -1, t), 1, 0);
    lemma_moves_where_admitted(p, |t: int| step_lands(p, pieces, color, 7, -1, t), -7, 0);
}

/// Appends the moves of one step: `shifted` holds the squares that the
/// kings reach by it.
fn append_step(
    chessboard: &Chessboard,
    shifted: u64,
    allies: u64,
    offset: i32,
    moves: &mut Vec<Move>,
    Ghost(pieces): Ghost<u64>,
    Ghost(color): Ghost<Color>,
    Ghost(df): Ghost<int>,
)
    requires
        chessboard.board_ok(),
        -64 < offset < 64,
        forall|t: int| #[trigger] holds(shifted, t) == (0 <= t < 64 && holds(pieces, t - offset) && 0 <= file_of(t) - df < 8),
        forall|t: int| 0 <= t < 64 ==> #[trigger] holds(allies, t) == held_by(chessboard@, color, t),
    ensures
        final(moves)@ == old(moves)@ + step_moves(chessboard@, pieces, color, offset as int, df),
{
    let targets = shifted & !allies;
    proof {
        lemma_holds_bitwise();
        lemma_moves_where(
            chessboard@,
            targets,
            |t: int| step_lands(chessboard@, pieces, color, offset as int, df, t),
            -offset,
            0,
        );
    }
    convert_bb_to_moves(chessboard, targets, -offset, moves);
}

/// Appends the pseudo-legal moves of the kings of `kings` for `color`.
pub fn generate_pseudo_moves(kings: u64, chessboard: &Chessboard, color: &Color, moves: &mut Vec<Move>)
    requires
        chessboard.board_ok(),
    ensures
        final(moves)@ == old(moves)@ + king_moves(chessboard@, kings, *color),
{
    let allies = chessboard.get_colors(color);
    let ghost p = chessboard@;
    let ghost start = moves@;
    proof {
        assert forall|t: int| 0 <= t < 64 implies #[trigger] holds(allies, t) == held_by(p, *color, t) by {
            assert(chessboard.square_ok(t));
        }
    }
    append_step(chessboard, north_one(kings), allies, 8, moves, Ghost(kings), Ghost(*color), Ghost(0));
    append_step(chessboard, no_east_one(kings), allies, 9, moves, Ghost(kings), Ghost(*color), Ghost(1));
    append_step(chessboard, east_one(kings), allies, 1, moves, Ghost(kings), Ghost(*color), Ghost(1));
    append_step(chessboard, so_east_one(kings), allies, -7, moves, Ghost(kings), Ghost(*color), Ghost(1));
    append_step(chessboard, south_one(kings), allies, -8, moves, Ghost(kings), Ghost(*color), Ghost(0));
    append_step(chessboard, so_west_one(kings), allies, -9, moves, Ghost(kings), Ghost(*color), Ghost(-1));
    append_step(chessboard, west_one(kings), allies, -1, moves, Ghost(kings), Ghost(*color), Ghost(-1));
    append_step(chessboard, no_west_one(kings), allies, 7, moves, Ghost(kings), Ghost(*color), Ghost(-1));
    assert(moves@ =~= start + king_moves(p, kings, *color));
}

/// By how much castling to the given side changes the king's file at each
/// step: -1 towards the queen side, 1 towards the king side.
pub open spec fn castle_step(queen_side: bool) -> int {
    if queen_side {
        -1
    } else {
        1
    }
}

/// The corner on which the rook of the given side stands, seen from the
/// king on `home`.
pub open spec fn castle_corner(home: int, queen_side: bool) -> int {
    if queen_side {
        home - 4
    } else {
        home + 3
    }
}

/// The castling right of `color` for the given side.
pub open spec fn castle_right(p: Position, color: Color, queen_side: bool) -> bool {
    match color {
        Color::White => if queen_side {
            p.white_castle.1
        } else {
            p.white_castle.0
        },
        Color::Black => if queen_side {
            p.black_castle.1
        } else {
            p.black_castle.0
        },
    }
}

/// The king of `color` on `home` may castle to the given side: the right
/// is there, the king stands on `home`, every square between it and the
/// corner is empty, and no man of the other color attacks the square that
/// the king leaves, the one it passes or the one it reaches.
pub open spec fn can_castle(p: Position, home: int, color: Color, queen_side: bool) -> bool {
    let step = castle_step(queen_side);
    let corner = castle_corner(home, queen_side);
    &&& castle_right(p, color, queen_side)
    &&& p.squares[home] == Some((color, Piece::King))
    &&& forall|m: int| (home < m < corner || corner < m < home) ==> #[trigger] p.squares[m] is None
    &&& !attacked_by(p, home, color.other())
    &&& !attacked_by(p, home + step, color.other())
    &&& !attacked_by(p, home + 2 * step, color.other())
}

/// The castling move of the king on `square` to the given side: two files
/// along its rank.
pub open spec fn castle_move(square: Square, queen_side: bool) -> Move {
    Move {
        from: square,
        to: Square::of_index(square.index() + 2 * castle_step(queen_side)),
        promotion: None,
        capture: None,
    }
}

/// The castling move of the king on `square` to the given side, if it may
/// castle there.
pub open spec fn castle_moves(p: Position, square: Square, color: Color, queen_side: bool) -> Seq<Move> {
    if can_castle(p, square.index(), color, queen_side) {
        seq![castle_move(square, queen_side)]
    } else {
        Seq::empty()
    }
}

/// The home square of the king of `color`.
pub open spec fn king_home(color: Color) -> Square {
    Square {
        file: File::E,
        rank: match color {
            Color::White => Rank::One,
            Color::Black => Rank::Eight,
        },
    }
}

/// The castling moves of `color`: to the king side, then to the queen side.
pub open spec fn castling_moves(p: Position, color: Color) -> Seq<Move> {
    castle_moves(p, king_home(color), color, false) + castle_moves(p, king_home(color), color, true)
}

/// A castling move that the side to move may make fits the position.
pub proof fn lemma_castle_admitted(p: Position, square: Square, color: Color, queen_side: bool)
    requires
        p.wf(),
        color == p.turn,
        square.file == File::E,
        can_castle(p, square.index(), color, queen_side),
    ensures
        p.admits(castle_move(square, queen_side)),
{
    let m = castle_move(square, queen_side);
    let home = square.index();
    lemma_square_index(square);
    lemma_index_square(home + 2 * castle_step(queen_side));
    assert(p.squares[home + castle_step(queen_side)] is None);
    assert(p.squares[home + 2 * castle_step(queen_side)] is None);
    assert(p.is_castle(m));
    assert(m.rook_post() == home + castle_step(queen_side));
}

/// The castling moves of the side to move fit the position.
pub proof fn lemma_castling_moves_admitted(p: Position, color: Color)
    requires
        p.wf(),
        color == p.turn,
    ensures
        p.admits_all(castling_moves(p, color)),
{
    let square = king_home(color);
    if can_castle(p, square.index(), color, false) {
        lemma_castle_admitted(p, square, color, false);
    }
    if can_castle(p, square.index(), color, true) {
        lemma_castle_admitted(p, square, color, true);
    }
}

/// Whether no man stands on the square with number `index`.
fn is_vacant(chessboard: &Chessboard, index: u32) -> (r: bool)
    requires
        chessboard.board_ok(),
        index < 64,
    ensures
        r == (chessboard@.squares[index as int] is None),
{
    proof {
        assert(chessboard.square_ok(index as int));
    }
    chessboard.get_piece(&Square::from_u32(index)).is_none()
}

/// Whether the man of kind `piece` and color `color` stands on the square
/// with number `index`.
fn stands_on(chessboard: &Chessboard, index: u32, piece: Piece, color: &Color) -> (r: bool)
    requires
        chessboard.board_ok(),
        index < 64,
    ensures
        r == (chessboard@.squares[index as int] == Some((*color, piece))),
{
    proof {
        assert(chessboard.square_ok(index as int));
    }
    let square = Square::from_u32(index);
    match (chessboard.get_color(&square), chessboard.get_piece(&square)) {
        (Some(c), Some(k)) => c == *color && k == piece,
        _ => false,
    }
}

/// Whether a man of the side opposite to `color` attacks the square with
/// number `index`.
fn is_attacked_at(chessboard: &Chessboard, index: u32, color: &Color) -> (r: bool)
    requires
        chessboard.board_ok(),
        index < 64,
    ensures
        r == attacked_by(chessboard@, index as int, color.other()),
{
    let square = Square::from_u32(index);
    let r = chessboard.is_attacked_square(square.to_bitboard(), color);
    proof {
        let p = chessboard@;
        let bb = 1u64 << (index as u64);
        if r {
            let s = choose|s: int| holds(bb, s) && #[trigger] attacked_by(p, s, color.other());
            assert(s == index);
        }
        if attacked_by(p, index as int, color.other()) {
            assert(holds(bb, index as int));
        }
    }
    r
}

/// The castling move of the king of `color` on `square` to the given side,
/// if the king may castle there.
pub fn generate_castle_move(chessboard: &Chessboard, square: &Square, color: &Color, queen_side: bool) -> (moves:
    Vec<Move>)
    requires
        chessboard.board_ok(),
        square.file == File::E,
    ensures
        moves@ == castle_moves(chessboard@, *square, *color, queen_side),
{
    let ghost p = chessboard@;
    let ghost home = square.index();
    proof {
        lemma_square_index(*square);
    }
    let castle_ability = match color {
        Color::White => if queen_side {
            chessboard.white_castle.1
        } else {
            chessboard.white_castle.0
        },
        Color::Black => if queen_side {
            chessboard.black_castle.1
        } else {
            chessboard.black_castle.0
        },
    };
    if !castle_ability {
        return Vec::new();
    }
    let king: u32 = square.to_u32();
    if !stands_on(chessboard, king, Piece::King, color) {
        return Vec::new();
    }
    // The squares between the king and the rook have to be empty.
    let passed: u32 = if queen_side {
        king - 1
    } else {
        king + 1
    };
    let reached: u32 = if queen_side {
        king - 2
    } else {
        king + 2
    };
    if !is_vacant(chessboard, passed) || !is_vacant(chessboard, reached) {
        return Vec::new();
    }
    if queen_side && !is_vacant(chessboard, king - 3) {
        return Vec::new();
    }
    // The king may not leave, pass or reach an attacked square.
    if is_attacked_at(chessboard, king, color) || is_attacked_at(chessboard, passed, color) || is_attacked_at(
        chessboard,
        reached,
        color,
    ) {
        return Vec::new();
    }
    let dest_square = Square::from_u32(reached);
    let mut moves: Vec<Move> = Vec::new();
    moves.push(Move::new(*square, dest_square));
    proof {
        assert(can_castle(p, home, *color, queen_side));
        assert(moves@ =~= castle_moves(p, *square, *color, queen_side));
    }
    moves
}

/// The castling moves of `color`: to the king side, then to the queen side.
pub fn generate_castling_moves(chessboard: &Chessboard, color: &Color) -> (moves: Vec<Move>)
    requires
        chessboard.board_ok(),
    ensures
        moves@ == castling_moves(chessboard@, *color),
{
    let mut moves: Vec<Move> = Vec::new();
    let rank_king = match color {
        Color::White => Rank::One,
        Color::Black => Rank::Eight,
    };
    let square_king = Square::new(File::E, rank_king);
    let mut king_side = generate_castle_move(chessboard, &square_king, color, false);
    moves.append(&mut king_side);
    let mut queen_side = generate_castle_move(chessboard, &square_king, color, true);
    moves.append(&mut queen_side);
    moves
}

} // verus!
