//! Pawn pushes and diagonal attacks of one side, each on a whole mask of pawns.

use vstd::prelude::*;
use crate::bitboard::{file_of, holds, lemma_holds_bitwise, lemma_holds_files, no_east_one, no_west_one, north_one, rank_of, so_east_one, so_west_one, south_one};
use crate::utils::color::Color;

verus! {

/// Rank number on which a double push of `color` lands.
pub open spec fn double_push_rank(color: Color) -> int {
    match color {
        Color::White => 3,
        Color::Black => 4,
    }
}

/// Squares one step ahead of a pawn that are empty.
pub fn single_push_targets(pawns: u64, empty: u64, color: &Color) -> (r: u64)
    ensures
        forall|s: int| #[trigger] holds(r, s) == (holds(empty, s) && holds(pawns, s - color.forward())),
{
    proof {
        lemma_holds_bitwise();
    }
    match color {
        Color::White => north_one(pawns) & empty,
        Color::Black => south_one(pawns) & empty,
    }
}

/// Squares two steps ahead of a pawn on its home rank, with both steps empty.
pub fn double_push_targets(pawns: u64, empty: u64, color: &Color) -> (r: u64)
    ensures
        forall|s: int|
            #[trigger] holds(r, s) == (holds(empty, s) && holds(empty, s - color.forward()) && holds(
                pawns,
                s - 2 * color.forward(),
            ) && rank_of(s) == double_push_rank(*color)),
{
    let single_pushes = single_push_targets(pawns, empty, color);
    proof {
        lemma_holds_bitwise();
        lemma_holds_files();
    }
    match color {
        Color::White => north_one(single_pushes) & empty & 0x0000_0000_FF00_0000u64,
        Color::Black => south_one(single_pushes) & empty & 0x0000_00FF_0000_0000u64,
    }
}

/// Squares that a pawn attacks towards the west.
pub fn west_attack_targets(pawns: u64, color: &Color) -> (r: u64)
    ensures
        forall|s: int|
            #[trigger] holds(r, s) == (0 <= s < 64 && file_of(s) != 7 && holds(pawns, s - color.forward() + 1)),
{
    match color {
        Color::White => no_west_one(pawns),
        Color::Black => so_west_one(pawns),
    }
}

/// Squares that a pawn attacks towards the east.
pub fn east_attack_targets(pawns: u64, color: &Color) -> (r: u64)
    ensures
        forall|s: int|
            #[trigger] holds(r, s) == (0 <= s < 64 && file_of(s) != 0 && holds(pawns, s - color.forward() - 1)),
{
    match color {
        Color::White => no_east_one(pawns),
        Color::Black => so_east_one(pawns),
    }
}

/// Pawns of `color` that stand face to face with an enemy pawn.
pub fn ram(w_pawns: u64, b_pawns: u64, color: &Color) -> (r: u64)
    ensures
        *color == Color::White ==> forall|s: int|
            #[trigger] holds(r, s) == (holds(w_pawns, s) && holds(b_pawns, s + 8)),
        *color == Color::Black ==> forall|s: int|
            #[trigger] holds(r, s) == (holds(b_pawns, s) && holds(w_pawns, s - 8)),
{
    proof {
        lemma_holds_bitwise();
    }
    match color {
        Color::White => south_one(b_pawns) & w_pawns,
        Color::Black => north_one(w_pawns) & b_pawns,
    }
}

/// Pawns that a fellow pawn defends from the west side.
pub fn east_defended_pawns(pawns: u64, color: &Color) -> (r: u64)
    ensures
        forall|s: int|
            #[trigger] holds(r, s) == (holds(pawns, s) && file_of(s) != 0 && holds(pawns, s - color.forward() - 1)),
{
    let defense = match color {
        Color::White => no_east_one(pawns),
        Color::Black => so_east_one(pawns),
    };
    proof {
        lemma_holds_bitwise();
    }
    defense & pawns
}

/// Pawns that a fellow pawn defends from the east side.
pub fn west_defended_pawns(pawns: u64, color: &Color) -> (r: u64)
    ensures
        forall|s: int|
            #[trigger] holds(r, s) == (holds(pawns, s) && file_of(s) != 7 && holds(pawns, s - color.forward() + 1)),
{
    let defense = match color {
        Color::White => no_west_one(pawns),
        Color::Black => so_west_one(pawns),
    };
    proof {
        lemma_holds_bitwise();
    }
    defense & pawns
}

} // verus!
