//! Which squares the men attack, and whether a king stands in check.

use vstd::prelude::*;
use crate::bitboard::patterns::knight::{no_ea_ea, no_no_ea, no_no_we, no_we_we, so_ea_ea, so_so_ea, so_so_we, so_we_we};
use crate::bitboard::patterns::pawn::{east_attack_targets, west_attack_targets};
use crate::bitboard::{bit_scan_forward, east_one, file_of, holds, lemma_holds_bitwise, lemma_zero_mask, no_east_one, no_west_one, north_one, rank_of, so_east_one, so_west_one, south_one, west_one};
use crate::chessboard::moves::piece::sliding_piece::{between, distance, flood, lemma_file_rank, lemma_sees_on_board, slider_attacks};
use crate::chessboard::{Chessboard, Position};
use crate::utils::color::Color;
use crate::utils::piece::Piece;

verus! {

/// A knight's jump leads from square `a` to square `b`.
pub open spec fn knight_hop(a: int, b: int) -> bool {
    let df = file_of(b) - file_of(a);
    let dr = rank_of(b) - rank_of(a);
    ((df == 1 || df == -1) && (dr == 2 || dr == -2)) || ((df == 2 || df == -2) && (dr == 1 || dr == -1))
}

/// A pawn of `color` on square `e` attacks square `s`: `s` lies one rank
/// ahead of it on a neighbouring file.
pub open spec fn pawn_hits(color: Color, e: int, s: int) -> bool {
    let df = file_of(s) - file_of(e);
    rank_of(s) - rank_of(e) == (match color {
        Color::White => 1int,
        Color::Black => -1int,
    }) && (df == 1 || df == -1)
}

/// A man of kind `kind` and color `color` on square `e` attacks square `s`.
pub open spec fn man_attacks(p: Position, e: int, kind: Piece, color: Color, s: int) -> bool {
    &&& 0 <= e < 64
    &&& 0 <= s < 64
    &&& match kind {
        Piece::Pawn => pawn_hits(color, e, s),
        Piece::Knight => knight_hop(e, s),
        Piece::Bishop => slider_attacks(p, e, s, true),
        Piece::Rook => slider_attacks(p, e, s, false),
        Piece::Queen => slider_attacks(p, e, s, true) || slider_attacks(p, e, s, false),
        Piece::King => distance(e, s) == 1,
    }
}

/// A man of color `by` stands on square `e` and attacks square `s`.
pub open spec fn attacker(p: Position, e: int, by: Color, s: int) -> bool {
    &&& 0 <= e < 64
    &&& p.squares[e] matches Some((c, k)) && c == by && man_attacks(p, e, k, by, s)
}

/// Some man of color `by` attacks square `s`.
pub open spec fn attacked_by(p: Position, s: int, by: Color) -> bool {
    exists|e: int| #[trigger] attacker(p, e, by, s)
}

/// Some man of color `by` attacks some square of `squares`.
pub open spec fn any_attacked(p: Position, squares: u64, by: Color) -> bool {
    exists|s: int| holds(squares, s) && #[trigger] attacked_by(p, s, by)
}

/// A king of `color` is attacked.
pub open spec fn king_attacked(p: Position, color: Color) -> bool {
    exists|s: int| 0 <= s < 64 && p.squares[s] == Some((color, Piece::King)) && #[trigger] attacked_by(p, s, color.other())
}

/// Some piece of kind `kind` and color `color` on a square of `pos` attacks
/// square `t`.
pub open spec fn reached(p: Position, pos: u64, kind: Piece, color: Color, t: int) -> bool {
    exists|s: int| holds(pos, s) && #[trigger] man_attacks(p, s, kind, color, t)
}

/// Attacks are mutual between men of the same kind and opposite colors:
/// what a man attacks would attack it, were it of that kind and of the
/// other color.
pub proof fn lemma_attack_mutual(p: Position, e: int, kind: Piece, color: Color, s: int)
    ensures
        man_attacks(p, e, kind, color, s) == man_attacks(p, s, kind, color.other(), e),
{
    assert forall|a: int, b: int| slider_attacks(p, a, b, true) && 0 <= a < 64 implies slider_attacks(p, b, a, true) by {
        assert forall|m: int| between(b, m, a) implies #[trigger] p.squares[m] is None by {
            assert(between(a, m, b));
        }
    }
    assert forall|a: int, b: int| slider_attacks(p, a, b, false) && 0 <= a < 64 implies slider_attacks(
        p,
        b,
        a,
        false,
    ) by {
        assert forall|m: int| between(b, m, a) implies #[trigger] p.squares[m] is None by {
            assert(between(a, m, b));
        }
    }
}

/// The eight knight jumps as changes of the square number.
pub proof fn lemma_knight_offsets(s: int, t: int)
    requires
        0 <= s < 64,
        0 <= t < 64,
    ensures
        knight_hop(s, t) == ((t == s + 17 && file_of(t) != 0) || (t == s + 10 && file_of(t) >= 2) || (t == s - 6
            && file_of(t) >= 2) || (t == s - 15 && file_of(t) != 0) || (t == s + 15 && file_of(t) != 7) || (t
            == s + 6 && file_of(t) < 6) || (t == s - 10 && file_of(t) < 6) || (t == s - 17 && file_of(t) != 7)),
{
    let f = file_of(s);
    let r = rank_of(s);
    let ft = file_of(t);
    let rt = rank_of(t);
    assert(s == r * 8 + f);
    assert(t == rt * 8 + ft);
    if 0 <= f + 1 < 8 {
        lemma_file_rank(f + 1, r + 2);
        lemma_file_rank(f + 1, r - 2);
    }
    if 0 <= f - 1 < 8 {
        lemma_file_rank(f - 1, r + 2);
        lemma_file_rank(f - 1, r - 2);
    }
    if 0 <= f + 2 < 8 {
        lemma_file_rank(f + 2, r + 1);
        lemma_file_rank(f + 2, r - 1);
    }
    if 0 <= f - 2 < 8 {
        lemma_file_rank(f - 2, r + 1);
        lemma_file_rank(f - 2, r - 1);
    }
}

/// The eight king steps as changes of the square number.
pub proof fn lemma_king_offsets(s: int, t: int)
    requires
        0 <= s < 64,
        0 <= t < 64,
    ensures
        (distance(s, t) == 1) == (t == s + 8 || (t == s + 9 && file_of(t) != 0) || (t == s + 1 && file_of(t) != 0)
            || (t == s - 7 && file_of(t) != 0) || t == s - 8 || (t == s - 9 && file_of(t) != 7) || (t == s - 1
            && file_of(t) != 7) || (t == s + 7 && file_of(t) != 7)),
{
    let f = file_of(s);
    let r = rank_of(s);
    let ft = file_of(t);
    let rt = rank_of(t);
    assert(s == r * 8 + f);
    assert(t == rt * 8 + ft);
    lemma_file_rank(f, r + 1);
    lemma_file_rank(f, r - 1);
    if 0 <= f + 1 < 8 {
        lemma_file_rank(f + 1, r + 1);
        lemma_file_rank(f + 1, r);
        lemma_file_rank(f + 1, r - 1);
    }
    if 0 <= f - 1 < 8 {
        lemma_file_rank(f - 1, r + 1);
        lemma_file_rank(f - 1, r);
        lemma_file_rank(f - 1, r - 1);
    }
}

/// The two pawn attacks as changes of the square number.
proof fn lemma_pawn_offsets(color: Color, s: int, t: int)
    requires
        0 <= s < 64,
        0 <= t < 64,
    ensures
        pawn_hits(color, s, t) == ((t == s + color.forward() - 1 && file_of(t) != 7) || (t == s + color.forward()
            + 1 && file_of(t) != 0)),
{
    let f = file_of(s);
    let r = rank_of(s);
    let ft = file_of(t);
    let rt = rank_of(t);
    assert(s == r * 8 + f);
    assert(t == rt * 8 + ft);
    if 0 <= f + 1 < 8 {
        lemma_file_rank(f + 1, r + 1);
        lemma_file_rank(f + 1, r - 1);
    }
    if 0 <= f - 1 < 8 {
        lemma_file_rank(f - 1, r + 1);
        lemma_file_rank(f - 1, r - 1);
    }
}

impl Chessboard {
    /// The squares that pawns of `color` on the squares of `pos` attack.
    fn pawn_reach(&self, pos: u64, color: &Color) -> (r: u64)
        ensures
            forall|t: int| #[trigger] holds(r, t) == reached(self@, pos, Piece::Pawn, *color, t),
    {
        let west = west_attack_targets(pos, color);
        let east = east_attack_targets(pos, color);
        let r = west | east;
        proof {
            lemma_holds_bitwise();
            let p = self@;
            assert forall|t: int| #[trigger] holds(r, t) == reached(p, pos, Piece::Pawn, *color, t) by {
                if holds(r, t) {
                    let s = if holds(west, t) {
                        t - color.forward() + 1
                    } else {
                        t - color.forward() - 1
                    };
                    lemma_pawn_offsets(*color, s, t);
                    assert(holds(pos, s) && man_attacks(p, s, Piece::Pawn, *color, t));
                }
                if reached(p, pos, Piece::Pawn, *color, t) {
                    let s = choose|s: int| holds(pos, s) && #[trigger] man_attacks(p, s, Piece::Pawn, *color, t);
                    lemma_pawn_offsets(*color, s, t);
                }
            }
        }
        r
    }

    /// The squares that knights on the squares of `pos` attack.
    fn knight_reach(&self, pos: u64, color: &Color) -> (r: u64)
        ensures
            forall|t: int| #[trigger] holds(r, t) == reached(self@, pos, Piece::Knight, *color, t),
    {
        let a = no_no_ea(pos);
        let b = no_ea_ea(pos);
        let c = so_ea_ea(pos);
        let d = so_so_ea(pos);
        let e = no_no_we(pos);
        let f = no_we_we(pos);
        let g = so_we_we(pos);
        let h = so_so_we(pos);
        let r = a | b | c | d | e | f | g | h;
        proof {
            lemma_holds_bitwise();
            let p = self@;
            assert forall|t: int| #[trigger] holds(r, t) == reached(p, pos, Piece::Knight, *color, t) by {
                if holds(r, t) {
                    let s = if holds(a, t) {
                        t - 17
                    } else if holds(b, t) {
                        t - 10
                    } else if holds(c, t) {
                        t + 6
                    } else if holds(d, t) {
                        t + 15
                    } else if holds(e, t) {
                        t - 15
                    } else if holds(f, t) {
                        t - 6
                    } else if holds(g, t) {
                        t + 10
                    } else {
                        t + 17
                    };
                    lemma_knight_offsets(s, t);
                    assert(holds(pos, s) && man_attacks(p, s, Piece::Knight, *color, t));
                }
                if reached(p, pos, Piece::Knight, *color, t) {
                    let s = choose|s: int| holds(pos, s) && #[trigger] man_attacks(p, s, Piece::Knight, *color, t);
                    lemma_knight_offsets(s, t);
                }
            }
        }
        r
    }

    /// The squares that kings on the squares of `pos` attack.
    fn king_reach(&self, pos: u64, color: &Color) -> (r: u64)
        ensures
            forall|t: int| #[trigger] holds(r, t) == reached(self@, pos, Piece::King, *color, t),
    {
        let a = north_one(pos);
        let b = no_east_one(pos);
        let c = east_one(pos);
        let d = so_east_one(pos);
        let e = south_one(pos);
        let f = so_west_one(pos);
        let g = west_one(pos);
        let h = no_west_one(pos);
        let r = a | b | c | d | e | f | g | h;
        proof {
            lemma_holds_bitwise();
            let p = self@;
            assert forall|t: int| #[trigger] holds(r, t) == reached(p, pos, Piece::King, *color, t) by {
                if holds(r, t) {
                    let s = if holds(a, t) {
                        t - 8
                    } else if holds(b, t) {
                        t - 9
                    } else if holds(c, t) {
                        t - 1
                    } else if holds(d, t) {
                        t + 7
                    } else if holds(e, t) {
                        t + 8
                    } else if holds(f, t) {
                        t + 9
                    } else if holds(g, t) {
                        t + 1
                    } else {
                        t - 7
                    };
                    lemma_king_offsets(s, t);
                    assert(holds(pos, s) && man_attacks(p, s, Piece::King, *color, t));
                }
                if reached(p, pos, Piece::King, *color, t) {
                    let s = choose|s: int| holds(pos, s) && #[trigger] man_attacks(p, s, Piece::King, *color, t);
                    lemma_king_offsets(s, t);
                }
            }
        }
        r
    }

    /// The squares that sliders on the squares of `pos` attack, along the
    /// diagonals (`diagonal`) or along files and ranks.
    fn slider_reach(&self, pos: u64, diagonal: bool) -> (r: u64)
        requires
            self.board_ok(),
        ensures
            forall|t: int|
                #[trigger] holds(r, t) == exists|s: int|
                    holds(pos, s) && 0 <= t < 64 && #[trigger] slider_attacks(self@, s, t, diagonal),
    {
        let mut rest = pos;
        let mut r: u64 = 0;
        let ghost p = self@;
        proof {
            lemma_holds_bitwise();
        }
        while rest != 0
            invariant
                self.board_ok(),
                p == self@,
                forall|s: int| holds(rest, s) ==> holds(pos, s),
                forall|t: int|
                    #[trigger] holds(r, t) == exists|s: int|
                        holds(pos, s) && !holds(rest, s) && 0 <= t < 64 && #[trigger] slider_attacks(
                            p,
                            s,
                            t,
                            diagonal,
                        ),
            decreases rest,
        {
            proof {
                crate::bitboard::lemma_highest(rest);
                lemma_holds_bitwise();
            }
            let square = bit_scan_forward(rest) as usize;
            let seen = self.tables.flood(square, self.empty_board, diagonal);
            let ghost old_r = r;
            let ghost old_rest = rest;
            r = r | seen;
            rest = rest ^ (1u64 << square);
            proof {
                assert(rest < old_rest) by {
                    crate::bitboard::lemma_mask_shrinks(old_rest, square as u64);
                }
                assert forall|t: int|
                    #[trigger] holds(r, t) == exists|s: int|
                        holds(pos, s) && !holds(rest, s) && 0 <= t < 64 && #[trigger] slider_attacks(
                            p,
                            s,
                            t,
                            diagonal,
                        ) by {
                    lemma_sees_on_board(self, square as int, t, diagonal);
                    if holds(r, t) {
                        if holds(seen, t) {
                            assert(holds(pos, square as int) && !holds(rest, square as int) && slider_attacks(
                                p,
                                square as int,
                                t,
                                diagonal,
                            ));
                        } else {
                            let s = choose|s: int|
                                holds(pos, s) && !holds(old_rest, s) && 0 <= t < 64 && #[trigger] slider_attacks(
                                    p,
                                    s,
                                    t,
                                    diagonal,
                                );
                            assert(holds(pos, s) && !holds(rest, s) && slider_attacks(p, s, t, diagonal));
                        }
                    }
                    if exists|s: int|
                        holds(pos, s) && !holds(rest, s) && 0 <= t < 64 && #[trigger] slider_attacks(
                            p,
                            s,
                            t,
                            diagonal,
                        ) {
                        let s = choose|s: int|
                            holds(pos, s) && !holds(rest, s) && 0 <= t < 64 && #[trigger] slider_attacks(
                                p,
                                s,
                                t,
                                diagonal,
                            );
                        if s != square {
                            assert(holds(pos, s) && !holds(old_rest, s) && slider_attacks(p, s, t, diagonal));
                            assert(holds(old_r, t));
                        }
                    }
                }
            }
        }
        r
    }

    /// The squares that pieces of kind `kind` and color `color` on the
    /// squares of `pos` attack.
    pub fn reach_of(&self, pos: u64, kind: &Piece, color: &Color) -> (r: u64)
        requires
            self.board_ok(),
        ensures
            forall|t: int| #[trigger] holds(r, t) == reached(self@, pos, *kind, *color, t),
    {
        let ghost p = self@;
        match kind {
            Piece::Pawn => self.pawn_reach(pos, color),
            Piece::Knight => self.knight_reach(pos, color),
            Piece::King => self.king_reach(pos, color),
            Piece::Bishop => {
                let r = self.slider_reach(pos, true);
                proof {
                    assert forall|t: int| #[trigger] holds(r, t) == reached(p, pos, Piece::Bishop, *color, t) by {
                        if holds(r, t) {
                            let s = choose|s: int|
                                holds(pos, s) && 0 <= t < 64 && #[trigger] slider_attacks(p, s, t, true);
                            assert(man_attacks(p, s, Piece::Bishop, *color, t));
                        }
                        if reached(p, pos, Piece::Bishop, *color, t) {
                            let s = choose|s: int|
                                holds(pos, s) && #[trigger] man_attacks(p, s, Piece::Bishop, *color, t);
                            assert(slider_attacks(p, s, t, true));
                        }
                    }
                }
                r
            },
            Piece::Rook => {
                let r = self.slider_reach(pos, false);
                proof {
                    assert forall|t: int| #[trigger] holds(r, t) == reached(p, pos, Piece::Rook, *color, t) by {
                        if holds(r, t) {
                            let s = choose|s: int|
                                holds(pos, s) && 0 <= t < 64 && #[trigger] slider_attacks(p, s, t, false);
                            assert(man_attacks(p, s, Piece::Rook, *color, t));
                        }
                        if reached(p, pos, Piece::Rook, *color, t) {
                            let s = choose|s: int|
                                holds(pos, s) && #[trigger] man_attacks(p, s, Piece::Rook, *color, t);
                            assert(slider_attacks(p, s, t, false));
                        }
                    }
                }
                r
            },
            Piece::Queen => {
                let a = self.slider_reach(pos, true);
                let b = self.slider_reach(pos, false);
                let r = a | b;
                proof {
                    lemma_holds_bitwise();
                    assert forall|t: int| #[trigger] holds(r, t) == reached(p, pos, Piece::Queen, *color, t) by {
                        if holds(a, t) {
                            let s = choose|s: int|
                                holds(pos, s) && 0 <= t < 64 && #[trigger] slider_attacks(p, s, t, true);
                            assert(man_attacks(p, s, Piece::Queen, *color, t));
                        }
                        if holds(b, t) {
                            let s = choose|s: int|
                                holds(pos, s) && 0 <= t < 64 && #[trigger] slider_attacks(p, s, t, false);
                            assert(man_attacks(p, s, Piece::Queen, *color, t));
                        }
                        if reached(p, pos, Piece::Queen, *color, t) {
                            let s = choose|s: int|
                                holds(pos, s) && #[trigger] man_attacks(p, s, Piece::Queen, *color, t);
                            if slider_attacks(p, s, t, true) {
                                assert(holds(a, t));
                            } else {
                                assert(slider_attacks(p, s, t, false));
                                assert(holds(b, t));
                            }
                        }
                    }
                }
                r
            },
        }
    }

    /// Whether a piece of kind `kind` and color `color`, put on a square of
    /// `pos`, would attack a square of `enemies`.
    pub fn is_attacked(&self, pos: u64, color: &Color, enemies: u64, kind: &Piece) -> (r: bool)
        requires
            self.board_ok(),
        ensures
            r == exists|e: int| holds(enemies, e) && #[trigger] reached(self@, pos, *kind, *color, e),
    {
        let reach = self.reach_of(pos, kind, color);
        let hit = reach & enemies;
        proof {
            lemma_holds_bitwise();
            lemma_zero_mask(hit);
            if hit != 0 {
                let e = choose|e: int| holds(hit, e);
                assert(holds(enemies, e) && reached(self@, pos, *kind, *color, e));
            }
            if exists|e: int| holds(enemies, e) && #[trigger] reached(self@, pos, *kind, *color, e) {
                let e = choose|e: int| holds(enemies, e) && #[trigger] reached(self@, pos, *kind, *color, e);
                assert(holds(hit, e));
            }
        }
        hit != 0
    }

    /// Whether the men of kind `kind` of the side opposite to `color`
    /// attack a square of `square`.
    fn kind_attacks(&self, square: u64, color: &Color, kind: &Piece) -> (r: bool)
        requires
            self.board_ok(),
        ensures
            r == exists|s: int, e: int|
                holds(square, s) && #[trigger] attacker(self@, e, color.other(), s) && self@.squares[e] == Some(
                    (color.other(), *kind),
                ),
    {
        let opposite = self.get_opposite_color(color);
        let enemies = self.get_pieces_color(kind, &opposite);
        let r = self.is_attacked(square, color, enemies, kind);
        proof {
            let p = self@;
            if r {
                let e = choose|e: int| holds(enemies, e) && #[trigger] reached(p, square, *kind, *color, e);
                let s = choose|s: int| holds(square, s) && #[trigger] man_attacks(p, s, *kind, *color, e);
                lemma_attack_mutual(p, s, *kind, *color, e);
                assert(holds(square, s) && attacker(p, e, color.other(), s) && p.squares[e] == Some(
                    (color.other(), *kind),
                ));
            }
            if exists|s: int, e: int|
                holds(square, s) && #[trigger] attacker(p, e, color.other(), s) && p.squares[e] == Some(
                    (color.other(), *kind),
                ) {
                let (s, e) = choose|s: int, e: int|
                    holds(square, s) && #[trigger] attacker(p, e, color.other(), s) && p.squares[e] == Some(
                        (color.other(), *kind),
                    );
                lemma_attack_mutual(p, s, *kind, *color, e);
                assert(man_attacks(p, s, *kind, *color, e));
                assert(reached(p, square, *kind, *color, e));
                assert(holds(enemies, e));
            }
        }
        r
    }

    /// Whether a man of the side opposite to `color` attacks a square of
    /// `square`.
    pub fn is_attacked_square(&self, square: u64, color: &Color) -> (r: bool)
        requires
            self.board_ok(),
        ensures
            r == any_attacked(self@, square, color.other()),
    {
        let r = self.kind_attacks(square, color, &Piece::Pawn) || self.kind_attacks(square, color, &Piece::Knight)
            || self.kind_attacks(square, color, &Piece::Bishop) || self.kind_attacks(
            square,
            color,
            &Piece::Rook,
        ) || self.kind_attacks(square, color, &Piece::Queen) || self.kind_attacks(square, color, &Piece::King);
        proof {
            let p = self@;
            let by = color.other();
            if r {
                let (s, e) = choose|s: int, e: int|
                    holds(square, s) && #[trigger] attacker(p, e, by, s) && p.squares[e] is Some;
                assert(attacked_by(p, s, by));
            }
            if any_attacked(p, square, by) {
                let s = choose|s: int| holds(square, s) && #[trigger] attacked_by(p, s, by);
                let e = choose|e: int| #[trigger] attacker(p, e, by, s);
                let kind = p.squares[e]->Some_0.1;
                assert(holds(square, s) && attacker(p, e, by, s) && p.squares[e] == Some((by, kind)));
            }
        }
        r
    }

    /// Whether a king of `color` is attacked.
    pub fn is_king_attacked(&self, color: &Color) -> (r: bool)
        requires
            self.board_ok(),
        ensures
            r == king_attacked(self@, *color),
    {
        let king = self.get_pieces_color(&Piece::King, color);
        let r = self.is_attacked_square(king, color);
        proof {
            let p = self@;
            if r {
                let s = choose|s: int| holds(king, s) && #[trigger] attacked_by(p, s, color.other());
                assert(p.squares[s] == Some((*color, Piece::King)));
            }
            if king_attacked(p, *color) {
                let s = choose|s: int|
                    0 <= s < 64 && p.squares[s] == Some((*color, Piece::King)) && #[trigger] attacked_by(
                        p,
                        s,
                        color.other(),
                    );
                assert(holds(king, s));
            }
        }
        r
    }

    /// Whether the side to move is in check.
    pub fn is_in_check(&self) -> (r: bool)
        requires
            self.board_ok(),
        ensures
            r == king_attacked(self@, self.turn),
    {
        let turn = self.turn;
        self.is_king_attacked(&turn)
    }
}

} // verus!
