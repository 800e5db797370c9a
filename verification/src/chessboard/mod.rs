//! The position: which man stands on which square, whose turn it is, and the
//! rights and counters that go with it.

pub mod attacks;
pub mod fen;
pub mod moves;
pub mod perft;
pub mod text;

use vstd::prelude::*;
use crate::bitboard::{holds, lemma_holds_bitwise, lemma_same_squares, lemma_zero_mask};
use crate::chessboard::moves::piece::sliding_piece::tables::SlidingTables;
use crate::utils::color::Color;
use crate::utils::piece::Piece;
use crate::utils::square::Square;

verus! {

/// What a move overwrites without being able to recompute it: the castling
/// rights, the en-passant target and the halfmove clock.
#[derive(PartialEq, Eq, Debug, Clone, Copy)]
pub struct Snapshot {
    pub white_castle: (bool, bool),
    pub black_castle: (bool, bool),
    pub en_passant: Option<Square>,
    pub halfmove_clock: u8,
}

/// A position as mathematics sees it: one entry per square, and the scalar
/// state.
pub struct Position {
    /// One entry for each of the 64 squares, a1 first: the man on it, if any.
    pub squares: Seq<Option<(Color, Piece)>>,
    pub turn: Color,
    /// King-side and queen-side right of White.
    pub white_castle: (bool, bool),
    /// King-side and queen-side right of Black.
    pub black_castle: (bool, bool),
    pub en_passant: Option<Square>,
    pub halfmove_clock: u8,
    pub fullmove_number: u16,
    pub perft_depth: u8,
    /// The snapshots of the moves made and not yet taken back, oldest first.
    pub history: Seq<Snapshot>,
}

/// The board: one mask for each piece kind and each color, the mask of the
/// empty squares, the side to move, the rights and counters, the undo
/// stack, and the tables of the sliding pieces.
#[derive(PartialEq, Eq, Debug)]
pub struct Chessboard {
    pub piece_board: [u64; 6],
    pub color_board: [u64; 2],
    pub empty_board: u64,
    pub turn: Color,
    pub white_castle: (bool, bool),
    pub black_castle: (bool, bool),
    pub en_passant: Option<Square>,
    pub halfmove_clock: u8,
    pub fullmove_number: u16,
    pub perft_depth: u8,
    pub undo_stack: Vec<Snapshot>,
    /// The data of the sliding pieces for each square.
    pub tables: SlidingTables,
}

/// The piece kind on square `s`, read off the six piece masks.
pub open spec fn kind_on(pieces: Seq<u64>, s: int) -> Option<Piece> {
    if holds(pieces[Piece::Pawn.index()], s) {
        Some(Piece::Pawn)
    } else if holds(pieces[Piece::Knight.index()], s) {
        Some(Piece::Knight)
    } else if holds(pieces[Piece::Bishop.index()], s) {
        Some(Piece::Bishop)
    } else if holds(pieces[Piece::Rook.index()], s) {
        Some(Piece::Rook)
    } else if holds(pieces[Piece::Queen.index()], s) {
        Some(Piece::Queen)
    } else if holds(pieces[Piece::King.index()], s) {
        Some(Piece::King)
    } else {
        None
    }
}

/// The color that occupies square `s`, read off the two color masks.
pub open spec fn side_on(colors: Seq<u64>, s: int) -> Option<Color> {
    if holds(colors[Color::White.index()], s) {
        Some(Color::White)
    } else if holds(colors[Color::Black.index()], s) {
        Some(Color::Black)
    } else {
        None
    }
}

/// The man on square `s`: its color and kind, where the masks show both.
pub open spec fn man_on(pieces: Seq<u64>, colors: Seq<u64>, s: int) -> Option<(Color, Piece)> {
    match (side_on(colors, s), kind_on(pieces, s)) {
        (Some(c), Some(p)) => Some((c, p)),
        _ => None,
    }
}

/// The masks agree on square `s`: at most one kind and at most one color on
/// it, a kind exactly if there is a color, and the empty mask holds it
/// exactly if no color does.
pub open spec fn square_sound(pieces: Seq<u64>, colors: Seq<u64>, empty: u64, s: int) -> bool {
    &&& holds(empty, s) == (side_on(colors, s) is None)
    &&& (side_on(colors, s) is None) == (kind_on(pieces, s) is None)
    &&& !(holds(colors[Color::White.index()], s) && holds(colors[Color::Black.index()], s))
    &&& forall|p: Piece| #[trigger] holds(pieces[p.index()], s) ==> kind_on(pieces, s) == Some(p)
}

/// The masks agree with one another on every square.
pub open spec fn masks_sound(pieces: Seq<u64>, colors: Seq<u64>, empty: u64) -> bool {
    forall|s: int| 0 <= s < 64 ==> #[trigger] square_sound(pieces, colors, empty, s)
}

/// The man on each of the 64 squares, a1 first.
pub open spec fn men(pieces: Seq<u64>, colors: Seq<u64>) -> Seq<Option<(Color, Piece)>> {
    Seq::new(64, |s: int| man_on(pieces, colors, s))
}

impl View for Chessboard {
    type V = Position;

    open spec fn view(&self) -> Position {
        Position {
            squares: men(self.piece_board@, self.color_board@),
            turn: self.turn,
            white_castle: self.white_castle,
            black_castle: self.black_castle,
            en_passant: self.en_passant,
            halfmove_clock: self.halfmove_clock,
            fullmove_number: self.fullmove_number,
            perft_depth: self.perft_depth,
            history: self.undo_stack@,
        }
    }
}

impl Chessboard {
    /// Occupancy mask of one piece kind, both colors together.
    pub open spec fn piece_mask(&self, piece: Piece) -> u64 {
        self.piece_board@[piece.index()]
    }

    /// Occupancy mask of one color.
    pub open spec fn color_mask(&self, color: Color) -> u64 {
        self.color_board@[color.index()]
    }

    /// The snapshots on the undo stack, oldest first.
    pub open spec fn history(&self) -> Seq<Snapshot> {
        self.undo_stack@
    }

    /// The piece kind on square `s`.
    pub open spec fn kind_at(&self, s: int) -> Option<Piece> {
        kind_on(self.piece_board@, s)
    }

    /// The color that occupies square `s`.
    pub open spec fn side_at(&self, s: int) -> Option<Color> {
        side_on(self.color_board@, s)
    }

    /// The man on square `s`.
    pub open spec fn man_at(&self, s: int) -> Option<(Color, Piece)> {
        man_on(self.piece_board@, self.color_board@, s)
    }

    /// The masks agree on square `s`.
    pub open spec fn square_ok(&self, s: int) -> bool {
        square_sound(self.piece_board@, self.color_board@, self.empty_board, s)
    }

    /// The masks agree with one another on every square, and the tables
    /// of the sliding pieces hold what they are meant to hold.
    pub open spec fn board_ok(&self) -> bool {
        masks_sound(self.piece_board@, self.color_board@, self.empty_board) && self.tables.sound()
    }

    /// The board is sound: its masks agree and its en-passant target fits.
    pub open spec fn wf(&self) -> bool {
        self.board_ok() && self@.wf()
    }

    /// Two boards agree in all but their masks.
    pub open spec fn same_state(&self, other: &Chessboard) -> bool {
        self.same_scalars(other) && self.tables == other.tables
    }

    /// Two boards agree in the side to move, the rights, the en-passant
    /// target, the counters and the undo stack.
    pub open spec fn same_scalars(&self, other: &Chessboard) -> bool {
        &&& self.turn == other.turn
        &&& self.white_castle == other.white_castle
        &&& self.black_castle == other.black_castle
        &&& self.en_passant == other.en_passant
        &&& self.halfmove_clock == other.halfmove_clock
        &&& self.fullmove_number == other.fullmove_number
        &&& self.perft_depth == other.perft_depth
        &&& self.history() == other.history()
    }

    /// The mask of the men of kind `piece`, of both colors.
    pub fn get_pieces(&self, piece: &Piece) -> (bb: u64)
        ensures
            bb == self.piece_mask(*piece),
    {
        self.piece_board[piece.to_usize()]
    }

    /// The mask of the men of `color`.
    pub fn get_colors(&self, color: &Color) -> (bb: u64)
        ensures
            bb == self.color_mask(*color),
    {
        self.color_board[color.to_usize()]
    }

    /// The mask of the men of kind `piece` and of `color`.
    pub fn get_pieces_color(&self, piece: &Piece, color: &Color) -> (bb: u64)
        ensures
            bb == self.piece_mask(*piece) & self.color_mask(*color),
            self.board_ok() ==> forall|s: int|
                0 <= s < 64 ==> #[trigger] holds(bb, s) == (self.man_at(s) == Some((*color, *piece))),
    {
        let bb = self.get_pieces(piece) & self.get_colors(color);
        proof {
            lemma_holds_bitwise();
            if self.board_ok() {
                assert forall|s: int| 0 <= s < 64 implies #[trigger] holds(bb, s) == (self.man_at(s) == Some(
                    (*color, *piece),
                )) by {
                    assert(self.square_ok(s));
                }
            }
        }
        bb
    }

    /// The other side.
    pub fn get_opposite_color(&self, color: &Color) -> (c: Color)
        ensures
            c == color.other(),
    {
        match color {
            Color::White => Color::Black,
            Color::Black => Color::White,
        }
    }

    /// The kind of the man on `square`, if a kind mask holds the square.
    pub fn get_piece(&self, square: &Square) -> (piece: Option<Piece>)
        ensures
            piece == self.kind_at(square.index()),
    {
        let bb = square.to_bitboard();
        proof {
            lemma_holds_bitwise();
        }
        if self.get_pieces(&Piece::Pawn) & bb != 0 {
            Some(Piece::Pawn)
        } else if self.get_pieces(&Piece::Knight) & bb != 0 {
            Some(Piece::Knight)
        } else if self.get_pieces(&Piece::Bishop) & bb != 0 {
            Some(Piece::Bishop)
        } else if self.get_pieces(&Piece::Rook) & bb != 0 {
            Some(Piece::Rook)
        } else if self.get_pieces(&Piece::Queen) & bb != 0 {
            Some(Piece::Queen)
        } else if self.get_pieces(&Piece::King) & bb != 0 {
            Some(Piece::King)
        } else {
            None
        }
    }

    /// The color of the man on `square`, if a color mask holds the square.
    pub fn get_color(&self, square: &Square) -> (color: Option<Color>)
        ensures
            color == self.side_at(square.index()),
    {
        let bb = square.to_bitboard();
        if self.get_colors(&Color::White) & bb != 0 {
            Some(Color::White)
        } else if self.get_colors(&Color::Black) & bb != 0 {
            Some(Color::Black)
        } else {
            None
        }
    }

    /// The masks of two boards are the same.
    pub open spec fn same_masks(&self, other: &Chessboard) -> bool {
        &&& self.piece_board@ == other.piece_board@
        &&& self.color_board@ == other.color_board@
        &&& self.empty_board == other.empty_board
    }

    /// Whether the masks agree with one another: no square with two kinds
    /// or two colors, a kind exactly where there is a color, and the empty
    /// mask the complement of the color masks.
    pub fn masks_agree(&self) -> (r: bool)
        ensures
            r == masks_sound(self.piece_board@, self.color_board@, self.empty_board),
    {
        let white = self.color_board[0];
        let black = self.color_board[1];
        let pawns = self.piece_board[0];
        let knights = self.piece_board[1];
        let bishops = self.piece_board[2];
        let rooks = self.piece_board[3];
        let queens = self.piece_board[4];
        let kings = self.piece_board[5];
        let two = pawns | knights;
        let three = two | bishops;
        let four = three | rooks;
        let five = four | queens;
        let six = five | kings;
        let r = white & black == 0 && self.empty_board == !(white | black) && pawns & knights == 0 && two & bishops
            == 0 && three & rooks == 0 && four & queens == 0 && five & kings == 0 && six == white | black;
        proof {
            lemma_holds_bitwise();
            lemma_zero_mask(white & black);
            lemma_zero_mask(pawns & knights);
            lemma_zero_mask(two & bishops);
            lemma_zero_mask(three & rooks);
            lemma_zero_mask(four & queens);
            lemma_zero_mask(five & kings);
            assert(white == self.color_board@[Color::White.index()]);
            assert(black == self.color_board@[Color::Black.index()]);
            assert(pawns == self.piece_board@[Piece::Pawn.index()]);
            assert(knights == self.piece_board@[Piece::Knight.index()]);
            assert(bishops == self.piece_board@[Piece::Bishop.index()]);
            assert(rooks == self.piece_board@[Piece::Rook.index()]);
            assert(queens == self.piece_board@[Piece::Queen.index()]);
            assert(kings == self.piece_board@[Piece::King.index()]);
            if r {
                assert forall|s: int| 0 <= s < 64 implies #[trigger] square_sound(
                    self.piece_board@,
                    self.color_board@,
                    self.empty_board,
                    s,
                ) by {
                    assert(!holds(white & black, s));
                    assert(!holds(pawns & knights, s));
                    assert(!holds(two & bishops, s));
                    assert(!holds(three & rooks, s));
                    assert(!holds(four & queens, s));
                    assert(!holds(five & kings, s));
                    assert(holds(six, s) == holds(white | black, s));
                    assert forall|p: Piece| #[trigger] holds(self.piece_board@[p.index()], s) implies kind_on(
                        self.piece_board@,
                        s,
                    ) == Some(p) by {}
                }
            }
            if masks_sound(self.piece_board@, self.color_board@, self.empty_board) {
                assert forall|s: int| 0 <= s < 64 implies !holds(white & black, s) && !holds(pawns & knights, s)
                    && !holds(two & bishops, s) && !holds(three & rooks, s) && !holds(four & queens, s)
                    && !holds(five & kings, s) && holds(six, s) == holds(white | black, s) && holds(
                    self.empty_board,
                    s,
                ) == holds(!(white | black), s) by {
                    assert(self.square_ok(s));
                    assert(holds(self.piece_board@[Piece::Pawn.index()], s) ==> self.kind_at(s) == Some(Piece::Pawn));
                    assert(holds(self.piece_board@[Piece::Knight.index()], s) ==> self.kind_at(s) == Some(
                        Piece::Knight,
                    ));
                    assert(holds(self.piece_board@[Piece::Bishop.index()], s) ==> self.kind_at(s) == Some(
                        Piece::Bishop,
                    ));
                    assert(holds(self.piece_board@[Piece::Rook.index()], s) ==> self.kind_at(s) == Some(Piece::Rook));
                    assert(holds(self.piece_board@[Piece::Queen.index()], s) ==> self.kind_at(s) == Some(
                        Piece::Queen,
                    ));
                    assert(holds(self.piece_board@[Piece::King.index()], s) ==> self.kind_at(s) == Some(Piece::King));
                }
                assert forall|s: int| !holds(white & black, s) by {
                    if 0 <= s < 64 {
                        assert(self.square_ok(s));
                    }
                }
                assert forall|s: int| !holds(pawns & knights, s) by {
                    if 0 <= s < 64 {
                        assert(self.square_ok(s));
                    }
                }
                assert forall|s: int| !holds(two & bishops, s) by {
                    if 0 <= s < 64 {
                        assert(self.square_ok(s));
                    }
                }
                assert forall|s: int| !holds(three & rooks, s) by {
                    if 0 <= s < 64 {
                        assert(self.square_ok(s));
                    }
                }
                assert forall|s: int| !holds(four & queens, s) by {
                    if 0 <= s < 64 {
                        assert(self.square_ok(s));
                    }
                }
                assert forall|s: int| !holds(five & kings, s) by {
                    if 0 <= s < 64 {
                        assert(self.square_ok(s));
                    }
                }
                lemma_same_squares(six, white | black);
                lemma_same_squares(self.empty_board, !(white | black));
                assert(r);
            }
        }
        r
    }

    /// Whether the masks agree with one another and the tables of the
    /// sliding pieces hold what they are meant to hold.
    pub fn board_agrees(&self) -> (r: bool)
        ensures
            r == self.board_ok(),
    {
        self.masks_agree() && self.tables.agree()
    }

    /// Whether the board is sound: its masks agree, its tables are right
    /// and its en-passant target fits.
    pub fn is_sound(&self) -> (r: bool)
        ensures
            r == self.wf(),
    {
        self.board_agrees() && self.target_fits()
    }

    /// Takes the man of kind `piece` and color `color` off `square`.
    pub fn remove_man(&mut self, square: &Square, piece: Piece, color: Color)
        requires
            old(self).board_ok(),
            old(self).man_at(square.index()) == Some((color, piece)),
        ensures
            final(self).board_ok(),
            final(self).same_state(old(self)),
            forall|s: int|
                0 <= s < 64 ==> #[trigger] final(self).man_at(s) == (if s == square.index() {
                    None
                } else {
                    old(self).man_at(s)
                }),
            final(self)@.squares == old(self)@.squares.update(square.index(), None),
    {
        let bb = square.to_bitboard();
        let p = piece.to_usize();
        let c = color.to_usize();
        proof {
            lemma_holds_bitwise();
            assert(old(self).square_ok(square.index()));
        }
        self.piece_board[p] ^= bb;
        self.color_board[c] ^= bb;
        self.empty_board ^= bb;
        proof {
            let at = square.index();
            assert(self.piece_board@ == old(self).piece_board@.update(p as int, old(self).piece_board@[p as int] ^ bb));
            assert(self.color_board@ == old(self).color_board@.update(c as int, old(self).color_board@[c as int] ^ bb));
            assert forall|s: int| 0 <= s < 64 implies #[trigger] square_sound(
                self.piece_board@,
                self.color_board@,
                self.empty_board,
                s,
            ) && self.man_at(s) == (if s == at {
                None
            } else {
                old(self).man_at(s)
            }) by {
                assert(old(self).square_ok(s));
                assert(old(self).square_ok(at));
                assert forall|i: int| 0 <= i < 6 implies holds(#[trigger] self.piece_board@[i], s) == (holds(
                    old(self).piece_board@[i],
                    s,
                ) && !(i == p && s == at)) by {
                    if i == p && s == at {
                        assert(holds(old(self).piece_board@[piece.index()], s));
                    }
                }
                assert forall|i: int| 0 <= i < 2 implies holds(#[trigger] self.color_board@[i], s) == (holds(
                    old(self).color_board@[i],
                    s,
                ) && !(i == c && s == at)) by {}
                assert forall|q: Piece| #[trigger] holds(self.piece_board@[q.index()], s) implies kind_on(
                    self.piece_board@,
                    s,
                ) == Some(q) by {
                    assert(holds(old(self).piece_board@[q.index()], s));
                }
                if s == at {
                    assert(kind_on(old(self).piece_board@, s) == Some(piece));
                    assert(kind_on(self.piece_board@, s) is None);
                }
            }
            assert(self@.squares =~= old(self)@.squares.update(square.index(), None));
        }
    }

    /// Puts a man of kind `piece` and color `color` on the empty `square`.
    pub fn put_man(&mut self, square: &Square, piece: Piece, color: Color)
        requires
            old(self).board_ok(),
            old(self).man_at(square.index()) is None,
        ensures
            final(self).board_ok(),
            final(self).same_state(old(self)),
            forall|s: int|
                0 <= s < 64 ==> #[trigger] final(self).man_at(s) == (if s == square.index() {
                    Some((color, piece))
                } else {
                    old(self).man_at(s)
                }),
            final(self)@.squares == old(self)@.squares.update(square.index(), Some((color, piece))),
    {
        let bb = square.to_bitboard();
        let p = piece.to_usize();
        let c = color.to_usize();
        proof {
            lemma_holds_bitwise();
            assert(old(self).square_ok(square.index()));
        }
        self.piece_board[p] |= bb;
        self.color_board[c] |= bb;
        self.empty_board ^= bb;
        proof {
            let at = square.index();
            assert(self.piece_board@ == old(self).piece_board@.update(p as int, old(self).piece_board@[p as int] | bb));
            assert(self.color_board@ == old(self).color_board@.update(c as int, old(self).color_board@[c as int] | bb));
            assert forall|s: int| 0 <= s < 64 implies #[trigger] square_sound(
                self.piece_board@,
                self.color_board@,
                self.empty_board,
                s,
            ) && self.man_at(s) == (if s == at {
                Some((color, piece))
            } else {
                old(self).man_at(s)
            }) by {
                assert(old(self).square_ok(s));
                assert(old(self).square_ok(at));
                assert forall|i: int| 0 <= i < 6 implies holds(#[trigger] self.piece_board@[i], s) == (holds(
                    old(self).piece_board@[i],
                    s,
                ) || (i == p && s == at)) by {}
                assert forall|i: int| 0 <= i < 2 implies holds(#[trigger] self.color_board@[i], s) == (holds(
                    old(self).color_board@[i],
                    s,
                ) || (i == c && s == at)) by {}
                if s == at {
                    assert forall|i: int| 0 <= i < 6 implies !holds(#[trigger] old(self).piece_board@[i], s) by {
                        if holds(old(self).piece_board@[i], s) {
                            assert(holds(old(self).piece_board@[Piece::of_index(i).index()], s));
                        }
                    }
                    assert(kind_on(self.piece_board@, s) == Some(piece));
                }
                assert forall|q: Piece| #[trigger] holds(self.piece_board@[q.index()], s) implies kind_on(
                    self.piece_board@,
                    s,
                ) == Some(q) by {
                    if s != at {
                        assert(holds(old(self).piece_board@[q.index()], s));
                    }
                }
            }
            assert(self@.squares =~= old(self)@.squares.update(square.index(), Some((color, piece))));
        }
    }

    /// Saves the rights, the en-passant target and the halfmove clock on the
    /// undo stack.
    pub fn push(&mut self)
        ensures
            final(self).same_masks(old(self)),
            final(self).turn == old(self).turn,
            final(self).white_castle == old(self).white_castle,
            final(self).black_castle == old(self).black_castle,
            final(self).en_passant == old(self).en_passant,
            final(self).halfmove_clock == old(self).halfmove_clock,
            final(self).fullmove_number == old(self).fullmove_number,
            final(self).perft_depth == old(self).perft_depth,
            final(self).tables == old(self).tables,
            final(self).history() == old(self).history().push(old(self).snapshot()),
    {
        let snap = Snapshot {
            white_castle: self.white_castle,
            black_castle: self.black_castle,
            en_passant: self.en_passant,
            halfmove_clock: self.halfmove_clock,
        };
        self.undo_stack.push(snap);
    }

    /// Takes the newest snapshot off the undo stack and restores the rights,
    /// the en-passant target and the halfmove clock from it.
    pub fn pop(&mut self)
        requires
            old(self).history().len() > 0,
        ensures
            final(self).same_masks(old(self)),
            final(self).turn == old(self).turn,
            final(self).fullmove_number == old(self).fullmove_number,
            final(self).perft_depth == old(self).perft_depth,
            final(self).tables == old(self).tables,
            final(self).history() == old(self).history().drop_last(),
            final(self).snapshot() == old(self).history().last(),
    {
        let snap = self.undo_stack.pop().unwrap();
        self.white_castle = snap.white_castle;
        self.black_castle = snap.black_castle;
        self.en_passant = snap.en_passant;
        self.halfmove_clock = snap.halfmove_clock;
    }

    /// What `push` would save of this board.
    pub open spec fn snapshot(&self) -> Snapshot {
        Snapshot {
            white_castle: self.white_castle,
            black_castle: self.black_castle,
            en_passant: self.en_passant,
            halfmove_clock: self.halfmove_clock,
        }
    }
}

/// Two consistent boards with the same men on the same squares have the same
/// masks, bit for bit.
pub proof fn lemma_same_men_same_masks(a: &Chessboard, b: &Chessboard)
    requires
        masks_sound(a.piece_board@, a.color_board@, a.empty_board),
        masks_sound(b.piece_board@, b.color_board@, b.empty_board),
        a@.squares == b@.squares,
    ensures
        forall|p: Piece| a.piece_mask(p) == b.piece_mask(p),
        forall|c: Color| a.color_mask(c) == b.color_mask(c),
        a.empty_board == b.empty_board,
        a.same_masks(b),
{
    assert forall|s: int| 0 <= s < 64 implies a.man_at(s) == b.man_at(s) by {
        assert(a@.squares[s] == b@.squares[s]);
    }
    assert forall|p: Piece| a.piece_mask(p) == b.piece_mask(p) by {
        assert forall|s: int| 0 <= s < 64 implies holds(a.piece_mask(p), s) == holds(b.piece_mask(p), s) by {
            assert(a.square_ok(s));
            assert(b.square_ok(s));
            assert(a.man_at(s) == b.man_at(s));
        }
        lemma_same_squares(a.piece_mask(p), b.piece_mask(p));
    }
    assert forall|c: Color| a.color_mask(c) == b.color_mask(c) by {
        assert forall|s: int| 0 <= s < 64 implies holds(a.color_mask(c), s) == holds(b.color_mask(c), s) by {
            assert(a.square_ok(s));
            assert(b.square_ok(s));
            assert(a.man_at(s) == b.man_at(s));
        }
        lemma_same_squares(a.color_mask(c), b.color_mask(c));
    }
    assert forall|s: int| 0 <= s < 64 implies holds(a.empty_board, s) == holds(b.empty_board, s) by {
        assert(a.square_ok(s));
        assert(b.square_ok(s));
        assert(a.man_at(s) == b.man_at(s));
    }
    lemma_same_squares(a.empty_board, b.empty_board);
    assert forall|i: int| 0 <= i < 6 implies a.piece_board@[i] == b.piece_board@[i] by {
        assert(a.piece_mask(Piece::of_index(i)) == b.piece_mask(Piece::of_index(i)));
    }
    assert(a.piece_board@ =~= b.piece_board@);
    assert(a.color_mask(Color::White) == b.color_mask(Color::White));
    assert(a.color_mask(Color::Black) == b.color_mask(Color::Black));
    assert(a.color_board@ =~= b.color_board@);
}

} // verus!
