//! Material: what the men on the board are worth.

use vstd::prelude::*;
use crate::bitboard::{count_bits, population};
use crate::chessboard::moves::piece::{lemma_men_mask, men_mask};
use crate::chessboard::{Chessboard, Position};
use crate::utils::color::Color;
use crate::utils::piece::Piece;

verus! {

/// The worth of one piece of a kind.
pub open spec fn worth(piece: Piece) -> int {
    match piece {
        Piece::Pawn => 100,
        Piece::Knight => 350,
        Piece::Bishop => 350,
        Piece::Rook => 525,
        Piece::Queen => 1000,
        Piece::King => 2000,
    }
}

/// How many more men of kind `piece` the side `color` has than the other
/// side, times the worth of the kind.
pub open spec fn balance(p: Position, piece: Piece, color: Color) -> int {
    (population(men_mask(p, color, piece), 0) - population(men_mask(p, color.other(), piece), 0)) * worth(piece)
}

/// The material balance of `color`: the balances of the six kinds, added
/// up.
pub open spec fn material(p: Position, color: Color) -> int {
    balance(p, Piece::Pawn, color) + balance(p, Piece::Knight, color) + balance(p, Piece::Bishop, color) + balance(
        p,
        Piece::Rook,
        color,
    ) + balance(p, Piece::Queen, color) + balance(p, Piece::King, color)
}

/// The material balance is bounded by the worth of all the men that a
/// board can hold.
pub proof fn lemma_material_bounds(p: Position, color: Color)
    ensures
        -768000 <= material(p, color) <= 768000,
{
    lemma_balance_bounds(p, Piece::Pawn, color);
    lemma_balance_bounds(p, Piece::Knight, color);
    lemma_balance_bounds(p, Piece::Bishop, color);
    lemma_balance_bounds(p, Piece::Rook, color);
    lemma_balance_bounds(p, Piece::Queen, color);
    lemma_balance_bounds(p, Piece::King, color);
}

/// The balance of one kind is bounded by the worth of 64 men of it.
pub proof fn lemma_balance_bounds(p: Position, piece: Piece, color: Color)
    ensures
        -128000 <= balance(p, piece, color) <= 128000,
{
    let a = population(men_mask(p, color, piece), 0) as int;
    let b = population(men_mask(p, color.other(), piece), 0) as int;
    crate::bitboard::lemma_squares_up_members(men_mask(p, color, piece), 0);
    crate::bitboard::lemma_squares_up_members(men_mask(p, color.other(), piece), 0);
    let more = a - b;
    let value = worth(piece);
    assert(-128000 <= more * value <= 128000) by (nonlinear_arith)
        requires
            -64 <= more <= 64,
            0 < value <= 2000,
    ;
}

/// The material balance of `color` on the board.
pub fn material_balance(chessboard: &Chessboard, color: &Color) -> (score: i32)
    requires
        chessboard.board_ok(),
    ensures
        score == material(chessboard@, *color),
        -768000 <= score <= 768000,
{
    let mut score: i32 = 0;
    score += compute_balance_piece(chessboard, &Piece::Pawn, color);
    score += compute_balance_piece(chessboard, &Piece::Knight, color);
    score += compute_balance_piece(chessboard, &Piece::Bishop, color);
    score += compute_balance_piece(chessboard, &Piece::Rook, color);
    score += compute_balance_piece(chessboard, &Piece::Queen, color);
    score += compute_balance_piece(chessboard, &Piece::King, color);
    score
}

/// The balance of `color` in men of kind `piece`.
pub fn compute_balance_piece(chessboard: &Chessboard, piece: &Piece, color: &Color) -> (score: i32)
    requires
        chessboard.board_ok(),
    ensures
        score == balance(chessboard@, *piece, *color),
        -128000 <= score <= 128000,
{
    let opposite = chessboard.get_opposite_color(color);
    let allies = chessboard.get_pieces_color(piece, color);
    let enemies = chessboard.get_pieces_color(piece, &opposite);
    proof {
        lemma_men_mask(chessboard, *color, *piece);
        lemma_men_mask(chessboard, opposite, *piece);
    }
    let more: i32 = count_bits(allies) as i32 - count_bits(enemies) as i32;
    let value = piece_value(piece);
    assert(-128000 <= more * value <= 128000) by (nonlinear_arith)
        requires
            -64 <= more <= 64,
            0 < value <= 2000,
    ;
    more * value
}

/// The worth of one piece of a kind.
pub fn piece_value(piece: &Piece) -> (value: i32)
    ensures
        value == worth(*piece),
        0 < value <= 2000,
{
    match piece {
        Piece::Pawn => 100,
        Piece::Knight => 350,
        Piece::Bishop => 350,
        Piece::Rook => 525,
        Piece::Queen => 1000,
        Piece::King => 2000,
    }
}

} // verus!
