//! Moves, and the engine that makes them and takes them back.

pub mod piece;

use vstd::prelude::*;
use vstd::string::{StrSliceExecFns, StringExecFns};
use crate::bitboard::{file_of, rank_of};
use crate::chessboard::attacks::king_attacked;
use crate::chessboard::moves::piece::king::{castling_moves, king_moves, lemma_castling_moves_admitted, lemma_king_moves_admitted};
use crate::chessboard::moves::piece::knight::{knight_moves, lemma_knight_moves_admitted};
use crate::chessboard::moves::piece::pawn::{lemma_pawn_moves_admitted, pawn_moves};
use crate::chessboard::moves::piece::sliding_piece::bishop::{bishop_moves, lemma_bishop_moves_admitted};
use crate::chessboard::moves::piece::sliding_piece::queen::{lemma_queen_moves_admitted, queen_moves};
use crate::chessboard::moves::piece::sliding_piece::rook::{lemma_rook_moves_admitted, rook_moves};
use crate::chessboard::moves::piece::{lemma_masks_of_men, lemma_men_mask, men_mask};
use crate::chessboard::{Chessboard, Position, Snapshot};
use crate::utils::square::{lemma_index_square, lemma_square_index};
use crate::utils::color::Color;
use crate::utils::file::File;
use crate::utils::piece::Piece;
use crate::utils::rank::Rank;
use crate::utils::square::Square;

verus! {

/// A move: where from, where to, what the pawn promotes to, and what is
/// captured.
#[derive(Debug, PartialEq, Clone, Copy, Eq, PartialOrd, Ord)]
pub struct Move {
    pub from: Square,
    pub to: Square,
    pub promotion: Option<Piece>,
    pub capture: Option<Piece>,
}

impl Move {
    /// Number of the square that the move leaves.
    pub open spec fn src(self) -> int {
        self.from.index()
    }

    /// Number of the square that the move reaches.
    pub open spec fn dst(self) -> int {
        self.to.index()
    }

    /// The move covers two square numbers: a king that does so castles.
    pub open spec fn spans_two(self) -> bool {
        self.dst() - self.src() == 2 || self.src() - self.dst() == 2
    }

    /// The move covers two ranks on one file: a pawn that does so makes its
    /// double push.
    pub open spec fn spans_two_ranks(self) -> bool {
        self.dst() - self.src() == 16 || self.src() - self.dst() == 16
    }

    /// Where the rook stands before its king castles with this move: the
    /// corner on the side the king goes to.
    pub open spec fn rook_home(self) -> int {
        rank_of(self.dst()) * 8 + (if file_of(self.dst()) == 2 {
            0int
        } else {
            7int
        })
    }

    /// Where the rook stands after its king castled with this move: the
    /// square the king passed over.
    pub open spec fn rook_post(self) -> int {
        rank_of(self.dst()) * 8 + (if file_of(self.dst()) == 2 {
            3int
        } else {
            5int
        })
    }

    /// The move from `from` to `to` that neither promotes nor captures.
    pub fn new(from: Square, to: Square) -> (m: Move)
        ensures
            m == (Move { from, to, promotion: None, capture: None }),
    {
        Move { from, to, promotion: None, capture: None }
    }

    /// The move in algebraic text: origin, destination, and the letter of
    /// the promotion piece if there is one.
    pub open spec fn text(self) -> Seq<char> {
        let squares = seq![self.from.file.letter(), self.from.rank.letter(), self.to.file.letter(), self.to.rank.letter()];
        match self.promotion {
            Some(piece) => squares.push(piece.letter()),
            None => squares,
        }
    }

    /// The move in algebraic text.
    pub fn to_string(&self) -> (text: String)
        ensures
            text@ == self.text(),
    {
        let mut res = self.from.to_string();
        let to = self.to.to_string();
        res.append(to.as_str());
        match self.promotion {
            Some(piece) => {
                res.append(piece.to_str());
            },
            None => {},
        }
        assert(res@ =~= self.text());
        res
    }
}

/// Why a piece of text is not a move.
#[derive(Debug, PartialEq, Eq, Clone, Copy)]
pub enum MoveTextError {
    /// The text does not have four or five characters.
    Length,
    /// One of the two squares is not a file letter and a rank digit.
    Square,
    /// The fifth character is none of `q`, `r`, `b`, `n`.
    Promotion,
}

/// The piece that a promotion letter names.
pub open spec fn promotion_of(c: char) -> Option<Piece> {
    if c == 'q' {
        Some(Piece::Queen)
    } else if c == 'r' {
        Some(Piece::Rook)
    } else if c == 'b' {
        Some(Piece::Bishop)
    } else if c == 'n' {
        Some(Piece::Knight)
    } else {
        None
    }
}

/// The first four characters of `text` name two squares.
pub open spec fn names_squares(text: Seq<char>) -> bool {
    File::is_letter(text[0]) && Rank::is_letter(text[1]) && File::is_letter(text[2]) && Rank::is_letter(text[3])
}

/// The counter after one more full move; it wraps at the top of its range.
pub open spec fn next_count(n: u16) -> u16 {
    if n == 0xffff {
        0
    } else {
        (n + 1) as u16
    }
}

/// The counter before the last full move; it wraps at the bottom of its range.
pub open spec fn prev_count(n: u16) -> u16 {
    if n == 0 {
        0xffff
    } else {
        (n - 1) as u16
    }
}

impl Position {
    /// The en-passant target, if there is one, is an empty square on the
    /// third rank of the side that just moved, right behind one of its pawns.
    pub open spec fn ep_ok(self) -> bool {
        match self.en_passant {
            None => true,
            Some(e) => {
                let pawn = e.index() - self.turn.forward();
                &&& rank_of(e.index()) == (match self.turn {
                    Color::White => 5int,
                    Color::Black => 2int,
                })
                &&& self.squares[e.index()] is None
                &&& self.squares[pawn] == Some((self.turn.other(), Piece::Pawn))
            },
        }
    }

    /// The position has its 64 squares and a sound en-passant target.
    pub open spec fn wf(self) -> bool {
        self.squares.len() == 64 && self.ep_ok()
    }

    /// The piece kind that `m` moves.
    pub open spec fn moving(self, m: Move) -> Piece {
        self.squares[m.src()]->Some_0.1
    }

    /// `m` is a pawn's double push.
    pub open spec fn is_double_push(self, m: Move) -> bool {
        self.moving(m) == Piece::Pawn && m.spans_two_ranks()
    }

    /// `m` is a castling move: the king goes two files.
    pub open spec fn is_castle(self, m: Move) -> bool {
        self.moving(m) == Piece::King && m.spans_two()
    }

    /// `m` castles and the rook stands on its corner to go with the king.
    pub open spec fn castles_rook(self, m: Move) -> bool {
        self.is_castle(m) && self.squares[m.rook_home()] == Some((self.turn, Piece::Rook))
    }

    /// The piece kind that stands on the destination after `m`: the promotion
    /// piece where a pawn promotes, else the piece that moved.
    pub open spec fn placed(self, m: Move) -> Piece {
        if self.moving(m) == Piece::Pawn && !m.spans_two_ranks() && m.promotion is Some {
            m.promotion->Some_0
        } else {
            self.moving(m)
        }
    }

    /// `m` captures en passant.
    pub open spec fn takes_en_passant(self, m: Move) -> bool {
        self.placed(m) == Piece::Pawn && m.capture == Some(Piece::Pawn) && self.en_passant == Some(m.to)
    }

    /// The square that a capturing `m` clears: the destination, or for a
    /// capture en passant the square of the pawn that is taken.
    pub open spec fn capture_square(self, m: Move) -> int {
        if self.takes_en_passant(m) {
            m.dst() - self.turn.forward()
        } else {
            m.dst()
        }
    }

    /// `m` fits the position: the side to move has a man on the origin, the
    /// capture that `m` records is what the board shows, a double push or a
    /// promotion has the shape and the room it needs, and a king that goes
    /// two files does so from the E file along its rank, over an empty
    /// square.
    pub open spec fn admits(self, m: Move) -> bool {
        &&& self.squares[m.src()] matches Some((c, _)) && c == self.turn
        &&& m.src() != m.dst()
        &&& self.is_double_push(m) ==> {
            &&& rank_of(m.src()) == (match self.turn {
                Color::White => 1int,
                Color::Black => 6int,
            })
            &&& m.dst() == m.src() + 2 * self.turn.forward()
            &&& self.squares[m.src() + self.turn.forward()] is None
        }
        &&& m.promotion is Some ==> self.moving(m) == Piece::Pawn && !m.spans_two_ranks()
        &&& match m.capture {
            None => self.squares[m.dst()] is None,
            Some(k) => if self.takes_en_passant(m) {
                &&& self.squares[m.dst()] is None
                &&& 0 <= self.capture_square(m) < 64
                &&& self.capture_square(m) != m.src()
                &&& self.squares[self.capture_square(m)] == Some((self.turn.other(), Piece::Pawn))
            } else {
                self.squares[m.dst()] == Some((self.turn.other(), k))
            },
        }
        &&& self.is_castle(m) ==> {
            &&& m.capture is None
            &&& rank_of(m.src()) == rank_of(m.dst())
            &&& file_of(m.src()) == 4
            &&& self.squares[m.rook_post()] is None
        }
    }

    /// The men after `m`: the origin is cleared, the rook of a castling king
    /// goes from its corner to the square the king passed, a captured man
    /// leaves, and the mover (or what it promotes to) stands on the
    /// destination.
    pub open spec fn squares_after(self, m: Move) -> Seq<Option<(Color, Piece)>> {
        let lifted = self.squares.update(m.src(), None);
        let castled = if self.castles_rook(m) {
            lifted.update(m.rook_home(), None).update(m.rook_post(), Some((self.turn, Piece::Rook)))
        } else {
            lifted
        };
        let captured = if m.capture is Some {
            castled.update(self.capture_square(m), None)
        } else {
            castled
        };
        captured.update(m.dst(), Some((self.turn, self.placed(m))))
    }

    /// A castling right survives while a king stands on the king's home
    /// square `king` and a man of `color` stands on the corner `corner`.
    pub open spec fn right_stands(
        squares: Seq<Option<(Color, Piece)>>,
        right: bool,
        color: Color,
        king: int,
        corner: int,
    ) -> bool {
        &&& right
        &&& squares[king] matches Some((_, p)) && p == Piece::King
        &&& squares[corner] matches Some((c, _)) && c == color
    }

    /// The position after `m`.
    pub open spec fn make(self, m: Move) -> Position {
        let squares = self.squares_after(m);
        Position {
            squares,
            turn: self.turn.other(),
            white_castle: (
                Self::right_stands(squares, self.white_castle.0, Color::White, 4, 7),
                Self::right_stands(squares, self.white_castle.1, Color::White, 4, 0),
            ),
            black_castle: (
                Self::right_stands(squares, self.black_castle.0, Color::Black, 60, 63),
                Self::right_stands(squares, self.black_castle.1, Color::Black, 60, 56),
            ),
            en_passant: if self.is_double_push(m) {
                Some(Square::of_index(m.src() + self.turn.forward()))
            } else {
                None
            },
            halfmove_clock: self.halfmove_clock,
            fullmove_number: if self.turn == Color::Black {
                next_count(self.fullmove_number)
            } else {
                self.fullmove_number
            },
            perft_depth: if self.perft_depth > 0 {
                (self.perft_depth - 1) as u8
            } else {
                255
            },
            history: self.history.push(
                Snapshot {
                    white_castle: self.white_castle,
                    black_castle: self.black_castle,
                    en_passant: self.en_passant,
                    halfmove_clock: self.halfmove_clock,
                },
            ),
        }
    }

    /// The piece kind that stood on the origin before `m` was made, read
    /// from the position after it: a pawn where `m` promotes.
    pub open spec fn moved_back(self, m: Move) -> Piece {
        if m.promotion is Some {
            Piece::Pawn
        } else {
            self.squares[m.dst()]->Some_0.1
        }
    }

    /// `m`, which was just made, castled.
    pub open spec fn was_castle(self, m: Move) -> bool {
        self.moved_back(m) == Piece::King && m.spans_two()
    }

    /// `m`, which was just made, castled and took the rook along.
    pub open spec fn castled_rook(self, m: Move) -> bool {
        self.was_castle(m) && self.squares[m.rook_post()] == Some((self.turn.other(), Piece::Rook))
    }

    /// `m`, which was just made, captured en passant.
    pub open spec fn took_en_passant(self, m: Move) -> bool {
        self.moved_back(m) == Piece::Pawn && m.capture == Some(Piece::Pawn) && self.history.len() > 0
            && self.history.last().en_passant == Some(m.to)
    }

    /// The square on which taking back `m` puts the captured man.
    pub open spec fn restore_square(self, m: Move) -> int {
        if self.took_en_passant(m) {
            m.dst() - self.turn.other().forward()
        } else {
            m.dst()
        }
    }

    /// The men after `m` is taken back.
    pub open spec fn squares_before(self, m: Move) -> Seq<Option<(Color, Piece)>> {
        let mover = self.turn.other();
        let back = self.squares.update(m.dst(), None).update(m.src(), Some((mover, self.moved_back(m))));
        let uncastled = if self.castled_rook(m) {
            back.update(m.rook_post(), None).update(m.rook_home(), Some((mover, Piece::Rook)))
        } else {
            back
        };
        match m.capture {
            Some(k) => uncastled.update(self.restore_square(m), Some((self.turn, k))),
            None => uncastled,
        }
    }

    /// The position after `m` is taken back.
    pub open spec fn unmake(self, m: Move) -> Position {
        let snap = self.history.last();
        Position {
            squares: self.squares_before(m),
            turn: self.turn.other(),
            white_castle: snap.white_castle,
            black_castle: snap.black_castle,
            en_passant: snap.en_passant,
            halfmove_clock: snap.halfmove_clock,
            fullmove_number: if self.turn == Color::White {
                prev_count(self.fullmove_number)
            } else {
                self.fullmove_number
            },
            perft_depth: if self.perft_depth < 255 {
                (self.perft_depth + 1) as u8
            } else {
                0
            },
            history: self.history.drop_last(),
        }
    }

    /// `m` can be taken back: a snapshot is there, the man that moved stands
    /// on the destination, the origin and the square of a captured man are
    /// free, the corner of a castled rook is free, and what comes back has
    /// a sound en-passant target.
    pub open spec fn retracts(self, m: Move) -> bool {
        &&& self.history.len() > 0
        &&& m.src() != m.dst()
        &&& self.squares[m.dst()] matches Some((c, _)) && c == self.turn.other()
        &&& self.squares[m.src()] is None
        &&& self.was_castle(m) ==> {
            &&& rank_of(m.src()) == rank_of(m.dst())
            &&& file_of(m.src()) == 4
            &&& self.castled_rook(m) ==> self.squares[m.rook_home()] is None
        }
        &&& m.capture is Some && self.took_en_passant(m) ==> {
            &&& 0 <= self.restore_square(m) < 64
            &&& self.restore_square(m) != m.src()
            &&& self.squares[self.restore_square(m)] is None
        }
        &&& self.unmake(m).ep_ok()
    }

    /// The move from `from` to `to` with the capture that the board shows:
    /// the kind of the man on `to`, or a pawn where a pawn steps onto the
    /// en-passant target.
    pub open spec fn plain_move(self, from: Square, to: Square) -> Move {
        Move {
            from,
            to,
            promotion: None,
            capture: match self.squares[to.index()] {
                Some((_, k)) => Some(k),
                None => if (self.squares[from.index()] matches Some((_, p)) && p == Piece::Pawn)
                    && self.en_passant == Some(to) {
                    Some(Piece::Pawn)
                } else {
                    None
                },
            },
        }
    }

    /// `m` as the generators hand it out: itself, or where it lands on the
    /// first or the last rank its four promotions, knight first.
    pub open spec fn promotions(m: Move) -> Seq<Move> {
        if rank_of(m.dst()) == 0 || rank_of(m.dst()) == 7 {
            seq![
                Move { promotion: Some(Piece::Knight), ..m },
                Move { promotion: Some(Piece::Bishop), ..m },
                Move { promotion: Some(Piece::Rook), ..m },
                Move { promotion: Some(Piece::Queen), ..m },
            ]
        } else {
            seq![m]
        }
    }

    /// The moves from square `origin` to square `target`: one, or the four
    /// promotions where a pawn reaches the first or the last rank.
    pub open spec fn moves_to(self, origin: int, target: int) -> Seq<Move> {
        let m = self.plain_move(Square::of_index(origin), Square::of_index(target));
        if self.squares[origin] matches Some((_, p)) && p == Piece::Pawn {
            Self::promotions(m)
        } else {
            seq![m]
        }
    }

    /// The moves to each of `targets` in turn, each from the square
    /// `relation` away from its target.
    pub open spec fn moves_over(self, targets: Seq<int>, relation: int) -> Seq<Move>
        decreases targets.len(),
    {
        if targets.len() == 0 {
            Seq::empty()
        } else {
            self.moves_over(targets.drop_last(), relation) + self.moves_to(
                targets.last() + relation,
                targets.last(),
            )
        }
    }

    /// What the text of a move means on this position: the move between the
    /// two squares it names, with the capture that the board shows and the
    /// promotion that its fifth character names; or why it is no move.
    pub open spec fn parse_move(self, text: Seq<char>) -> Result<Move, MoveTextError> {
        if text.len() != 4 && text.len() != 5 {
            Err(MoveTextError::Length)
        } else if !names_squares(text) {
            Err(MoveTextError::Square)
        } else if text.len() == 5 && promotion_of(text[4]) is None {
            Err(MoveTextError::Promotion)
        } else {
            let from = Square { file: File::of_letter(text[0]), rank: Rank::of_letter(text[1]) };
            let to = Square { file: File::of_letter(text[2]), rank: Rank::of_letter(text[3]) };
            Ok(
                Move {
                    promotion: if text.len() == 5 {
                        promotion_of(text[4])
                    } else {
                        None
                    },
                    ..self.plain_move(from, to)
                },
            )
        }
    }

    /// The pseudo-legal moves of the side to move, castling apart: those of
    /// its pawns, knights, kings, bishops, rooks and queens, in this order.
    #[verifier::opaque]
    pub open spec fn pseudo_moves(self) -> Seq<Move> {
        let c = self.turn;
        pawn_moves(self, men_mask(self, c, Piece::Pawn), c) + knight_moves(self, men_mask(self, c, Piece::Knight), c)
            + king_moves(self, men_mask(self, c, Piece::King), c) + bishop_moves(
            self,
            men_mask(self, c, Piece::Bishop),
            c,
        ) + rook_moves(self, men_mask(self, c, Piece::Rook), c) + queen_moves(
            self,
            men_mask(self, c, Piece::Queen),
            c,
        )
    }

    /// After `m` no king of the side that made it is attacked.
    pub open spec fn keeps_king_safe(self, m: Move) -> bool {
        !king_attacked(self.make(m), self.turn)
    }

    /// Those of `moves` that keep the mover's king safe, in their order.
    pub open spec fn keep_safe(self, moves: Seq<Move>) -> Seq<Move>
        decreases moves.len(),
    {
        if moves.len() == 0 {
            Seq::empty()
        } else if self.keeps_king_safe(moves.last()) {
            self.keep_safe(moves.drop_last()).push(moves.last())
        } else {
            self.keep_safe(moves.drop_last())
        }
    }

    /// The legal moves of the side to move: its pseudo-legal moves that
    /// keep its king safe, then its castling moves.
    #[verifier::opaque]
    pub open spec fn legal_moves(self) -> Seq<Move> {
        self.keep_safe(self.pseudo_moves()) + castling_moves(self, self.turn)
    }

    /// The side to move has no legal move and is in check.
    pub open spec fn is_checkmate(self) -> bool {
        self.legal_moves().len() == 0 && king_attacked(self, self.turn)
    }

    /// The side to move has no legal move and is not in check.
    pub open spec fn is_stalemate(self) -> bool {
        self.legal_moves().len() == 0 && !king_attacked(self, self.turn)
    }

    /// The position after `moves` are made one after the other.
    pub open spec fn play(self, moves: Seq<Move>) -> Position
        decreases moves.len(),
    {
        if moves.len() == 0 {
            self
        } else {
            self.play(moves.drop_last()).make(moves.last())
        }
    }

    /// Each of `moves` fits the position in which it is made.
    pub open spec fn playable(self, moves: Seq<Move>) -> bool
        decreases moves.len(),
    {
        moves.len() == 0 || (self.playable(moves.drop_last()) && self.play(moves.drop_last()).admits(moves.last()))
    }

    /// The position after `moves` are taken back, the last of them first.
    pub open spec fn take_back(self, moves: Seq<Move>) -> Position
        decreases moves.len(),
    {
        if moves.len() == 0 {
            self
        } else {
            self.unmake(moves.last()).take_back(moves.drop_last())
        }
    }

    /// Every move of `moves` fits the position.
    pub open spec fn admits_all(self, moves: Seq<Move>) -> bool {
        forall|i: int| 0 <= i < moves.len() ==> self.admits(#[trigger] moves[i])
    }

}

/// Making a move that fits and taking it back gives the position from before:
/// every square, the side to move, the castling rights, the en-passant
/// target, the move counters, the search-depth budget and the undo stack.
pub proof fn lemma_make_unmake(p: Position, m: Move)
    requires
        p.wf(),
        p.admits(m),
    ensures
        p.make(m).wf(),
        p.make(m).retracts(m),
        p.make(m).unmake(m) == p,
{
    let q = p.make(m);
    let r = q.unmake(m);
    assert(q.history.last() == p.history.push(q.history.last()).last());
    assert(q.history.drop_last() =~= p.history);
    crate::utils::square::lemma_square_index(m.from);
    crate::utils::square::lemma_square_index(m.to);
    if p.is_double_push(m) {
        crate::utils::square::lemma_index_square(m.src() + p.turn.forward());
    }
    assert(q.moved_back(m) == p.moving(m));
    assert(q.was_castle(m) == p.is_castle(m));
    assert(q.castled_rook(m) == p.castles_rook(m));
    assert(q.took_en_passant(m) == p.takes_en_passant(m));
    assert(r.squares =~= p.squares);
    assert(r.ep_ok());
}

/// After any line of moves, each of which fits where it is made, taking
/// the moves back in reverse order gives the position from before the
/// line.
pub proof fn lemma_play_take_back(p: Position, moves: Seq<Move>)
    requires
        p.wf(),
        p.playable(moves),
    ensures
        p.play(moves).wf(),
        p.play(moves).take_back(moves) == p,
    decreases moves.len(),
{
    if moves.len() > 0 {
        lemma_play_take_back(p, moves.drop_last());
        lemma_make_unmake(p.play(moves.drop_last()), moves.last());
    }
}

/// A board that went through a move that fits and its taking back has every
/// mask, the side to move, the rights, the en-passant target, the counters
/// and the undo stack as before.
pub proof fn lemma_round_trip_board(before: &Chessboard, after: &Chessboard, m: Move)
    requires
        before.wf(),
        before@.admits(m),
        after.board_ok(),
        after@ == before@.make(m).unmake(m),
    ensures
        after.same_masks(before),
        after.same_scalars(before),
        forall|p: Piece| after.piece_mask(p) == before.piece_mask(p),
        forall|c: Color| after.color_mask(c) == before.color_mask(c),
{
    lemma_make_unmake(before@, m);
    crate::chessboard::lemma_same_men_same_masks(after, before);
}

/// A legal move fits the position, and making it and taking it back gives
/// the position from before.
pub proof fn lemma_legal_round_trip(p: Position, m: Move)
    requires
        p.wf(),
        p.legal_moves().contains(m),
    ensures
        p.admits(m),
        p.make(m).wf(),
        p.make(m).unmake(m) == p,
{
    lemma_legal_moves_admitted(p);
    let i = choose|i: int| 0 <= i < p.legal_moves().len() && p.legal_moves()[i] == m;
    assert(p.admits(p.legal_moves()[i]));
    lemma_make_unmake(p, m);
}

/// A position without a legal move is either a checkmate or a stalemate,
/// never both: a checkmate exactly if the side to move is in check.
pub proof fn lemma_mate_or_stalemate(p: Position)
    requires
        p.legal_moves().len() == 0,
    ensures
        p.is_checkmate() != p.is_stalemate(),
        p.is_checkmate() == king_attacked(p, p.turn),
        p.is_stalemate() == !king_attacked(p, p.turn),
{
}

/// A move from a man of the side to move to a square that its own side does
/// not hold fits the position, in each of the forms that the generators give
/// it, provided that it does not have the shape of a castling move and that,
/// where it has the shape of a double push, it is one.
pub proof fn lemma_moves_to_admitted(p: Position, origin: int, target: int)
    requires
        p.wf(),
        0 <= origin < 64,
        0 <= target < 64,
        origin != target,
        p.squares[origin] matches Some((c, _)) && c == p.turn,
        !(p.squares[target] matches Some((c, _)) && c == p.turn),
        (p.squares[origin] matches Some((_, k)) && k == Piece::King) ==> target - origin != 2 && origin - target
            != 2,
        (p.squares[origin] matches Some((_, k)) && k == Piece::Pawn) && (target - origin == 16 || origin - target
            == 16) ==> {
            &&& rank_of(origin) == (match p.turn {
                Color::White => 1int,
                Color::Black => 6int,
            })
            &&& target == origin + 2 * p.turn.forward()
            &&& p.squares[origin + p.turn.forward()] is None
            &&& p.squares[target] is None
        },
    ensures
        p.admits_all(p.moves_to(origin, target)),
{
    lemma_index_square(origin);
    lemma_index_square(target);
    let from = Square::of_index(origin);
    let to = Square::of_index(target);
    let m = p.plain_move(from, to);
    let all = p.moves_to(origin, target);
    assert forall|i: int| 0 <= i < all.len() implies p.admits(#[trigger] all[i]) by {
        let x = all[i];
        assert(x.from == from && x.to == to && x.capture == m.capture);
        if p.en_passant == Some(to) {
            assert(p.squares[target] is None);
            assert(rank_of(target) == 5 || rank_of(target) == 2);
        }
    }
}

/// Every pseudo-legal move fits the position.
pub proof fn lemma_pseudo_moves_admitted(p: Position)
    requires
        p.wf(),
    ensures
        p.admits_all(p.pseudo_moves()),
{
    reveal(Position::pseudo_moves);
    let c = p.turn;
    lemma_masks_of_men(p, c);
    lemma_pawn_moves_admitted(p, men_mask(p, c, Piece::Pawn), c);
    lemma_knight_moves_admitted(p, men_mask(p, c, Piece::Knight), c);
    lemma_king_moves_admitted(p, men_mask(p, c, Piece::King), c);
    lemma_bishop_moves_admitted(p, men_mask(p, c, Piece::Bishop), c, Piece::Bishop);
    lemma_rook_moves_admitted(p, men_mask(p, c, Piece::Rook), c, Piece::Rook);
    lemma_queen_moves_admitted(p, men_mask(p, c, Piece::Queen), c);
}

/// The moves that are kept are among the moves that were there, fit the
/// position as those did, and keep the mover's king safe.
pub proof fn lemma_keep_safe_admitted(p: Position, moves: Seq<Move>)
    requires
        p.admits_all(moves),
    ensures
        p.admits_all(p.keep_safe(moves)),
        forall|i: int|
            0 <= i < p.keep_safe(moves).len() ==> p.keeps_king_safe(#[trigger] p.keep_safe(moves)[i]) && moves.contains(
                p.keep_safe(moves)[i],
            ),
    decreases moves.len(),
{
    if moves.len() > 0 {
        let rest = moves.drop_last();
        assert forall|i: int| 0 <= i < rest.len() implies p.admits(#[trigger] rest[i]) by {
            assert(rest[i] == moves[i]);
        }
        lemma_keep_safe_admitted(p, rest);
        assert(p.admits(moves[moves.len() - 1]));
        let kept = p.keep_safe(moves);
        assert forall|i: int| 0 <= i < kept.len() implies p.keeps_king_safe(#[trigger] kept[i]) && moves.contains(
            kept[i],
        ) by {
            if i < p.keep_safe(rest).len() {
                let x = p.keep_safe(rest)[i];
                assert(rest.contains(x));
                let j = choose|j: int| 0 <= j < rest.len() && rest[j] == x;
                assert(moves[j] == x);
            } else {
                assert(kept[i] == moves[moves.len() - 1]);
            }
        }
    }
}

/// Every legal move fits the position.
pub proof fn lemma_legal_moves_admitted(p: Position)
    requires
        p.wf(),
    ensures
        p.admits_all(p.legal_moves()),
{
    reveal(Position::legal_moves);
    lemma_pseudo_moves_admitted(p);
    lemma_keep_safe_admitted(p, p.pseudo_moves());
    lemma_castling_moves_admitted(p, p.turn);
}

impl Chessboard {
    /// The pseudo-legal moves of the side to move, castling apart.
    pub fn generate_moves(&self) -> (moves: Vec<Move>)
        requires
            self.board_ok(),
        ensures
            moves@ == self@.pseudo_moves(),
    {
        let mut moves: Vec<Move> = Vec::new();
        let turn = self.turn;
        proof {
            reveal(Position::pseudo_moves);
            lemma_men_mask(self, turn, Piece::Pawn);
            lemma_men_mask(self, turn, Piece::Knight);
            lemma_men_mask(self, turn, Piece::King);
            lemma_men_mask(self, turn, Piece::Bishop);
            lemma_men_mask(self, turn, Piece::Rook);
            lemma_men_mask(self, turn, Piece::Queen);
        }
        piece::pawn::generate_pseudo_moves(self.get_pieces_color(&Piece::Pawn, &turn), self, &turn, &mut moves);
        piece::knight::generate_pseudo_moves(self.get_pieces_color(&Piece::Knight, &turn), self, &turn, &mut moves);
        piece::king::generate_pseudo_moves(self.get_pieces_color(&Piece::King, &turn), self, &turn, &mut moves);
        piece::sliding_piece::bishop::generate_pseudo_moves(
            self.get_pieces_color(&Piece::Bishop, &turn),
            self,
            &turn,
            &mut moves,
        );
        let mut straight = piece::sliding_piece::rook::generate_pseudo_moves(
            self.get_pieces_color(&Piece::Rook, &turn),
            self,
            &turn,
        );
        moves.append(&mut straight);
        piece::sliding_piece::queen::generate_pseudo_moves(
            self.get_pieces_color(&Piece::Queen, &turn),
            self,
            &turn,
            &mut moves,
        );
        assert(moves@ =~= self@.pseudo_moves());
        moves
    }

    /// The legal moves of the side to move. The board is used to try each
    /// move and is the same afterwards.
    pub fn generate_legal_moves(&mut self) -> (moves: Vec<Move>)
        requires
            old(self).wf(),
        ensures
            final(self).wf(),
            final(self)@ == old(self)@,
            moves@ == old(self)@.legal_moves(),
            old(self)@.admits_all(moves@),
    {
        let ghost p = self@;
        let pseudo_moves = self.generate_moves();
        let mut legal_moves: Vec<Move> = Vec::new();
        let mover = self.turn;
        proof {
            reveal(Position::legal_moves);
            lemma_pseudo_moves_admitted(p);
            lemma_legal_moves_admitted(p);
            assert(pseudo_moves@.take(0) =~= Seq::<Move>::empty());
        }
        let mut i: usize = 0;
        while i < pseudo_moves.len()
            invariant
                self.wf(),
                self@ == p,
                mover == p.turn,
                i <= pseudo_moves@.len(),
                pseudo_moves@ == p.pseudo_moves(),
                p.admits_all(pseudo_moves@),
                legal_moves@ == p.keep_safe(pseudo_moves@.take(i as int)),
            decreases pseudo_moves@.len() - i,
        {
            let mv = pseudo_moves[i];
            proof {
                lemma_make_unmake(p, mv);
            }
            self.make_move(&mv);
            if !self.is_king_attacked(&mover) {
                legal_moves.push(mv);
            }
            self.unmake_move(&mv);
            proof {
                let upto = pseudo_moves@.take(i as int + 1);
                assert(upto.drop_last() =~= pseudo_moves@.take(i as int));
                assert(upto.last() == mv);
            }
            i = i + 1;
        }
        proof {
            assert(pseudo_moves@.take(pseudo_moves@.len() as int) =~= pseudo_moves@);
        }
        let mut castling = piece::king::generate_castling_moves(self, &mover);
        legal_moves.append(&mut castling);
        legal_moves
    }

    /// Whether `mv` fits the board: whether it can be made.
    pub fn accepts(&self, mv: &Move) -> (r: bool)
        requires
            self.wf(),
        ensures
            r == self@.admits(*mv),
    {
        let ghost p = self@;
        proof {
            lemma_square_index(mv.from);
            lemma_square_index(mv.to);
        }
        let turn = self.turn;
        let opposite = self.get_opposite_color(&turn);
        let from: u32 = mv.from.to_u32();
        let to: u32 = mv.to.to_u32();
        let moving = match self.man(&mv.from) {
            Some((color, piece)) => {
                if color != turn {
                    return false;
                }
                piece
            },
            None => {
                return false;
            },
        };
        if from == to {
            return false;
        }
        let spans_two_ranks = to == from + 16 || from == to + 16;
        if moving == Piece::Pawn && spans_two_ranks {
            let (home, ahead): (u32, u32) = match turn {
                Color::White => (1, from.wrapping_add(8)),
                Color::Black => (6, from.wrapping_sub(8)),
            };
            if from / 8 != home {
                return false;
            }
            let lands = match turn {
                Color::White => to == from + 16,
                Color::Black => from == to + 16,
            };
            if !lands {
                return false;
            }
            if self.man(&Square::from_u32(ahead)).is_some() {
                return false;
            }
        }
        let placed = match mv.promotion {
            Some(promoted) => {
                if moving != Piece::Pawn || spans_two_ranks {
                    return false;
                }
                promoted
            },
            None => moving,
        };
        assert(placed == p.placed(*mv));
        match mv.capture {
            None => {
                if self.man(&mv.to).is_some() {
                    return false;
                }
            },
            Some(captured) => {
                let en_passant = match self.en_passant {
                    Some(target) => placed == Piece::Pawn && captured == Piece::Pawn && target == mv.to,
                    None => false,
                };
                assert(en_passant == p.takes_en_passant(*mv));
                if en_passant {
                    // The target of a sound board lies right behind a pawn
                    // of the other side.
                    if self.man(&mv.to).is_some() {
                        return false;
                    }
                    let taken: u32 = match turn {
                        Color::White => to - 8,
                        Color::Black => to + 8,
                    };
                    if taken == from {
                        return false;
                    }
                    match self.man(&Square::from_u32(taken)) {
                        Some((color, piece)) => {
                            if color != opposite || piece != Piece::Pawn {
                                return false;
                            }
                        },
                        None => {
                            return false;
                        },
                    }
                } else {
                    match self.man(&mv.to) {
                        Some((color, piece)) => {
                            if color != opposite || piece != captured {
                                return false;
                            }
                        },
                        None => {
                            return false;
                        },
                    }
                }
            },
        }
        if moving == Piece::King && (to == from + 2 || from == to + 2) {
            if mv.capture.is_some() || from / 8 != to / 8 || from % 8 != 4 {
                return false;
            }
            let post: u32 = if to % 8 == 2 {
                to + 1
            } else {
                to - 1
            };
            assert(post == mv.rook_post());
            if self.man(&Square::from_u32(post)).is_some() {
                return false;
            }
        }
        true
    }

    /// The man on `square`, if there is one.
    pub fn man(&self, square: &Square) -> (man: Option<(Color, Piece)>)
        requires
            self.board_ok(),
        ensures
            man == self@.squares[square.index()],
    {
        proof {
            lemma_square_index(*square);
            assert(self.square_ok(square.index()));
        }
        match (self.get_color(square), self.get_piece(square)) {
            (Some(color), Some(piece)) => Some((color, piece)),
            _ => None,
        }
    }

    /// The move that `mv` names in algebraic text, or why it names none.
    pub fn generate_move_from_string(&self, mv: String) -> (r: Result<Move, MoveTextError>)
        requires
            self.board_ok(),
        ensures
            r == self@.parse_move(mv@),
    {
        let text = mv.as_str();
        let len = text.unicode_len();
        if len != 4 && len != 5 {
            return Err(MoveTextError::Length);
        }
        let a = text.get_char(0);
        let b = text.get_char(1);
        let c = text.get_char(2);
        let d = text.get_char(3);
        if !is_file_letter(a) || !is_rank_letter(b) || !is_file_letter(c) || !is_rank_letter(d) {
            return Err(MoveTextError::Square);
        }
        let from = Square::new(File::from_char(a), Rank::from_char(b));
        let to = Square::new(File::from_char(c), Rank::from_char(d));
        let mut res = self.generate_move(from, to);
        if len == 5 {
            res.promotion = match text.get_char(4) {
                'q' => Some(Piece::Queen),
                'r' => Some(Piece::Rook),
                'b' => Some(Piece::Bishop),
                'n' => Some(Piece::Knight),
                _ => {
                    return Err(MoveTextError::Promotion);
                },
            };
        }
        Ok(res)
    }

    /// The move from `from` to `to`, with the capture that the board shows.
    pub fn generate_move(&self, from: Square, to: Square) -> (m: Move)
        requires
            self.board_ok(),
        ensures
            m == self@.plain_move(from, to),
    {
        proof {
            lemma_square_index(from);
            lemma_square_index(to);
            assert(self.square_ok(to.index()));
            assert(self.square_ok(from.index()));
        }
        let mut res = Move::new(from, to);
        match self.get_piece(&res.to) {
            Some(capture) => {
                res.capture = Some(capture);
            },
            None => {
                match self.get_piece(&res.from) {
                    Some(Piece::Pawn) => {
                        match self.en_passant {
                            Some(target) => {
                                if target == res.to {
                                    res.capture = Some(Piece::Pawn);
                                }
                            },
                            None => {},
                        }
                    },
                    _ => {},
                }
            },
        }
        res
    }

    /// Appends `mv` to `moves`, or its four promotions where it lands on the
    /// first or the last rank.
    pub fn generate_promotion_moves(&self, moves: &mut Vec<Move>, mv: Move)
        ensures
            final(moves)@ == old(moves)@ + Position::promotions(mv),
    {
        proof {
            lemma_square_index(mv.to);
        }
        let mut mv = mv;
        let ghost start = moves@;
        let ghost given = mv;
        if mv.to.rank == Rank::Eight || mv.to.rank == Rank::One {
            mv.promotion = Some(Piece::Knight);
            moves.push(mv);
            mv.promotion = Some(Piece::Bishop);
            moves.push(mv);
            mv.promotion = Some(Piece::Rook);
            moves.push(mv);
            mv.promotion = Some(Piece::Queen);
            moves.push(mv);
            assert(moves@ =~= start + Position::promotions(given));
        } else {
            moves.push(mv);
            assert(moves@ =~= start + Position::promotions(given));
        }
    }

    /// Takes the rook of the side to move from its corner to the square
    /// beside the castled king. Without a rook of that side on the corner
    /// nothing moves.
    pub fn make_castling(&mut self, mv: &Move)
        requires
            old(self).board_ok(),
            old(self).man_at(mv.rook_post()) is None,
        ensures
            final(self).board_ok(),
            final(self).same_state(old(self)),
            final(self)@.squares == (if old(self).man_at(mv.rook_home()) == Some((old(self).turn, Piece::Rook)) {
                old(self)@.squares.update(mv.rook_home(), None).update(
                    mv.rook_post(),
                    Some((old(self).turn, Piece::Rook)),
                )
            } else {
                old(self)@.squares
            }),
    {
        proof {
            lemma_square_index(mv.to);
        }
        let (home, post) = match mv.to.file {
            File::C => (Square::new(File::A, mv.to.rank), Square::new(File::D, mv.to.rank)),
            _ => (Square::new(File::H, mv.to.rank), Square::new(File::F, mv.to.rank)),
        };
        assert(home.index() == mv.rook_home());
        assert(post.index() == mv.rook_post());
        let turn = self.turn;
        if self.stands(&home, Piece::Rook, &turn) {
            self.remove_man(&home, Piece::Rook, turn);
            self.put_man(&post, Piece::Rook, turn);
        }
    }

    /// Takes the rook of the side to move from the square beside the king
    /// back to its corner. Without a rook of that side beside the king
    /// nothing moves.
    pub fn unmake_castling(&mut self, mv: &Move)
        requires
            old(self).board_ok(),
            old(self).man_at(mv.rook_post()) == Some((old(self).turn, Piece::Rook)) ==> old(self).man_at(
                mv.rook_home(),
            ) is None,
        ensures
            final(self).board_ok(),
            final(self).same_state(old(self)),
            final(self)@.squares == (if old(self).man_at(mv.rook_post()) == Some((old(self).turn, Piece::Rook)) {
                old(self)@.squares.update(mv.rook_post(), None).update(
                    mv.rook_home(),
                    Some((old(self).turn, Piece::Rook)),
                )
            } else {
                old(self)@.squares
            }),
    {
        proof {
            lemma_square_index(mv.to);
        }
        let (home, post) = match mv.to.file {
            File::C => (Square::new(File::A, mv.to.rank), Square::new(File::D, mv.to.rank)),
            _ => (Square::new(File::H, mv.to.rank), Square::new(File::F, mv.to.rank)),
        };
        assert(home.index() == mv.rook_home());
        assert(post.index() == mv.rook_post());
        let turn = self.turn;
        if self.stands(&post, Piece::Rook, &turn) {
            self.remove_man(&post, Piece::Rook, turn);
            self.put_man(&home, Piece::Rook, turn);
        }
    }

    /// Whether the man of kind `piece` and color `color` stands on
    /// `square`.
    fn stands(&self, square: &Square, piece: Piece, color: &Color) -> (r: bool)
        requires
            self.board_ok(),
        ensures
            r == (self.man_at(square.index()) == Some((*color, piece))),
    {
        proof {
            lemma_square_index(*square);
            assert(self.square_ok(square.index()));
        }
        match (self.get_color(square), self.get_piece(square)) {
            (Some(c), Some(k)) => c == *color && k == piece,
            _ => false,
        }
    }

    /// Withdraws each castling right whose king or corner man is gone.
    pub fn update_castling_rights(&mut self)
        ensures
            final(self).same_masks(old(self)),
            final(self).turn == old(self).turn,
            final(self).en_passant == old(self).en_passant,
            final(self).halfmove_clock == old(self).halfmove_clock,
            final(self).fullmove_number == old(self).fullmove_number,
            final(self).perft_depth == old(self).perft_depth,
            final(self).history() == old(self).history(),
            final(self).tables == old(self).tables,
            final(self).white_castle == (
                Position::right_stands(old(self)@.squares, old(self).white_castle.0, Color::White, 4, 7),
                Position::right_stands(old(self)@.squares, old(self).white_castle.1, Color::White, 4, 0),
            ),
            final(self).black_castle == (
                Position::right_stands(old(self)@.squares, old(self).black_castle.0, Color::Black, 60, 63),
                Position::right_stands(old(self)@.squares, old(self).black_castle.1, Color::Black, 60, 56),
            ),
    {
        let white_king = self.king_home(&Square::new(File::E, Rank::One));
        let black_king = self.king_home(&Square::new(File::E, Rank::Eight));
        let h1 = self.held_by(&Square::new(File::H, Rank::One), &Color::White);
        let a1 = self.held_by(&Square::new(File::A, Rank::One), &Color::White);
        let h8 = self.held_by(&Square::new(File::H, Rank::Eight), &Color::Black);
        let a8 = self.held_by(&Square::new(File::A, Rank::Eight), &Color::Black);
        self.white_castle = (self.white_castle.0 && white_king && h1, self.white_castle.1 && white_king && a1);
        self.black_castle = (self.black_castle.0 && black_king && h8, self.black_castle.1 && black_king && a8);
    }

    /// Whether a king of either color stands on `square`.
    fn king_home(&self, square: &Square) -> (r: bool)
        ensures
            r == (self@.squares[square.index()] matches Some((_, p)) && p == Piece::King),
    {
        proof {
            lemma_square_index(*square);
        }
        let kind = self.get_piece(square);
        let side = self.get_color(square);
        match (side, kind) {
            (Some(_), Some(Piece::King)) => true,
            _ => false,
        }
    }

    /// Whether a man of `color` stands on `square`.
    fn held_by(&self, square: &Square, color: &Color) -> (r: bool)
        ensures
            r == (self@.squares[square.index()] matches Some((c, _)) && c == *color),
    {
        proof {
            lemma_square_index(*square);
        }
        let kind = self.get_piece(square);
        let side = self.get_color(square);
        match (side, kind) {
            (Some(c), Some(_)) => c == *color,
            _ => false,
        }
    }

    /// Makes `mv` on the board.
    pub fn make_move(&mut self, mv: &Move)
        requires
            old(self).wf(),
            old(self)@.admits(*mv),
        ensures
            final(self).wf(),
            final(self)@ == old(self)@.make(*mv),
    {
        let ghost before = old(self)@;
        proof {
            lemma_square_index(mv.from);
            lemma_square_index(mv.to);
            lemma_make_unmake(before, *mv);
        }
        self.push();
        self.perft_depth = self.perft_depth.wrapping_sub(1);
        let next_ep = self.relocate(mv);
        self.update_castling_rights();
        let opposite = self.get_opposite_color(&self.turn);
        self.turn = opposite;
        self.en_passant = next_ep;
        if opposite == Color::White {
            self.fullmove_number = self.fullmove_number.wrapping_add(1);
        }
        proof {
            assert(self@.squares == before.make(*mv).squares);
            assert(self@ == before.make(*mv));
        }
    }

    /// Moves the men as `mv` says and returns the en-passant target that
    /// `mv` leaves behind.
    fn relocate(&mut self, mv: &Move) -> (next_ep: Option<Square>)
        requires
            old(self).board_ok(),
            old(self)@.squares.len() == 64,
            old(self)@.ep_ok(),
            old(self)@.admits(*mv),
        ensures
            final(self).board_ok(),
            final(self).same_state(old(self)),
            final(self)@.squares == old(self)@.squares_after(*mv),
            next_ep == old(self)@.make(*mv).en_passant,
    {
        let ghost before = old(self)@;
        proof {
            lemma_square_index(mv.from);
            lemma_square_index(mv.to);
        }
        let turn = self.turn;
        let opposite = self.get_opposite_color(&turn);
        let moving = self.get_piece(&mv.from).unwrap();
        let mut piece = moving;
        let mut next_ep: Option<Square> = None;
        let from: u32 = mv.from.to_u32();
        let to: u32 = mv.to.to_u32();
        assert(before.squares[mv.src()] == self.man_at(mv.src()));
        assert(moving == before.moving(*mv));

        self.remove_man(&mv.from, moving, turn);
        let ghost lifted = before.squares.update(mv.src(), None);
        assert(self@.squares == lifted);

        match moving {
            Piece::Pawn => {
                if to == from + 16 || from == to + 16 {
                    proof {
                        lemma_index_square(mv.src() + turn.forward());
                    }
                    next_ep = Some(Square::from_u32((from + to) / 2));
                } else {
                    match mv.promotion {
                        Some(promoted) => {
                            piece = promoted;
                        },
                        None => {},
                    }
                }
            },
            Piece::King => {
                if to == from + 2 || from == to + 2 {
                    assert(before.is_castle(*mv));
                    assert(self.man_at(mv.rook_home()) == lifted[mv.rook_home()]);
                    assert(self.man_at(mv.rook_post()) == lifted[mv.rook_post()]);
                    self.make_castling(mv);
                }
            },
            _ => {},
        }
        assert(piece == before.placed(*mv));
        let ghost castled = if before.castles_rook(*mv) {
            lifted.update(mv.rook_home(), None).update(mv.rook_post(), Some((turn, Piece::Rook)))
        } else {
            lifted
        };
        assert(self@.squares == castled);

        match mv.capture {
            Some(captured) => {
                let en_passant = match self.en_passant {
                    Some(target) => piece == Piece::Pawn && captured == Piece::Pawn && target == mv.to,
                    None => false,
                };
                assert(en_passant == before.takes_en_passant(*mv));
                if en_passant {
                    let taken: u32 = match turn {
                        Color::White => to - 8,
                        Color::Black => to + 8,
                    };
                    let taken_square = Square::from_u32(taken);
                    assert(taken_square.index() == before.capture_square(*mv));
                    assert(self.man_at(taken_square.index()) == castled[taken_square.index()]);
                    self.remove_man(&taken_square, captured, opposite);
                } else {
                    assert(self.man_at(mv.dst()) == castled[mv.dst()]);
                    self.remove_man(&mv.to, captured, opposite);
                }
            },
            None => {},
        }
        let ghost cleared = if mv.capture is Some {
            castled.update(before.capture_square(*mv), None)
        } else {
            castled
        };
        assert(self@.squares == cleared);
        assert(self.man_at(mv.dst()) == cleared[mv.dst()]);

        self.put_man(&mv.to, piece, turn);
        next_ep
    }

    /// Takes back `mv`, the move made last.
    pub fn unmake_move(&mut self, mv: &Move)
        requires
            old(self).wf(),
            old(self)@.retracts(*mv),
        ensures
            final(self).wf(),
            final(self)@ == old(self)@.unmake(*mv),
    {
        let ghost after = old(self)@;
        proof {
            lemma_square_index(mv.from);
            lemma_square_index(mv.to);
        }
        self.perft_depth = self.perft_depth.wrapping_add(1);
        let opposite = self.turn;
        let turn = self.get_opposite_color(&opposite);
        self.turn = turn;
        let from: u32 = mv.from.to_u32();
        let to: u32 = mv.to.to_u32();
        assert(after.squares[mv.dst()] == self.man_at(mv.dst()));
        let placed = self.get_piece(&mv.to).unwrap();
        self.remove_man(&mv.to, placed, turn);
        let piece = if mv.promotion.is_some() {
            Piece::Pawn
        } else {
            placed
        };
        assert(piece == after.moved_back(*mv));
        let ghost vacated = after.squares.update(mv.dst(), None);
        assert(self@.squares == vacated);
        assert(self.man_at(mv.src()) == vacated[mv.src()]);
        self.put_man(&mv.from, piece, turn);
        let ghost back = vacated.update(mv.src(), Some((turn, piece)));
        assert(self@.squares == back);

        self.pop();
        assert(self@.squares == back);

        if piece == Piece::King && (to == from + 2 || from == to + 2) {
            assert(after.was_castle(*mv));
            assert(self.man_at(mv.rook_home()) == back[mv.rook_home()]);
            assert(self.man_at(mv.rook_post()) == back[mv.rook_post()]);
            self.unmake_castling(mv);
        }
        let ghost uncastled = if after.castled_rook(*mv) {
            back.update(mv.rook_post(), None).update(mv.rook_home(), Some((turn, Piece::Rook)))
        } else {
            back
        };
        assert(self@.squares == uncastled);
        match mv.capture {
            Some(captured) => {
                let en_passant = match self.en_passant {
                    Some(target) => piece == Piece::Pawn && captured == Piece::Pawn && target == mv.to,
                    None => false,
                };
                assert(en_passant == after.took_en_passant(*mv));
                if en_passant {
                    let taken: u32 = match turn {
                        Color::White => to - 8,
                        Color::Black => to + 8,
                    };
                    let taken_square = Square::from_u32(taken);
                    assert(taken_square.index() == after.restore_square(*mv));
                    assert(self.man_at(taken_square.index()) == uncastled[taken_square.index()]);
                    self.put_man(&taken_square, captured, opposite);
                } else {
                    assert(self.man_at(mv.dst()) == uncastled[mv.dst()]);
                    self.put_man(&mv.to, captured, opposite);
                }
            },
            None => {},
        }
        if turn == Color::Black {
            self.fullmove_number = self.fullmove_number.wrapping_sub(1);
        }
        proof {
            assert(self@.squares == after.squares_before(*mv));
            assert(self@ == after.unmake(*mv));
        }
    }
}

/// Whether `c` is one of the letters `a` to `h`.
pub fn is_file_letter(c: char) -> (r: bool)
    ensures
        r == File::is_letter(c),
{
    c == 'a' || c == 'b' || c == 'c' || c == 'd' || c == 'e' || c == 'f' || c == 'g' || c == 'h'
}

/// Whether `c` is one of the digits `1` to `8`.
pub fn is_rank_letter(c: char) -> (r: bool)
    ensures
        r == Rank::is_letter(c),
{
    c == '1' || c == '2' || c == '3' || c == '4' || c == '5' || c == '6' || c == '7' || c == '8'
}

} // verus!
