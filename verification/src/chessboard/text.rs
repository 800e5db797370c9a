//! The board as text: its description in one line, and its picture.

use vstd::prelude::*;
use vstd::string::StringExecFns;
use crate::chessboard::{Chessboard, Position};
use crate::utils::color::Color;
use crate::utils::piece::Piece;
use crate::utils::square::Square;

verus! {

/// The letter of a man: that of its kind, in upper case for White.
pub open spec fn man_letter(man: (Color, Piece)) -> Seq<char> {
    match man {
        (Color::White, Piece::Pawn) => "P"@,
        (Color::White, Piece::Knight) => "N"@,
        (Color::White, Piece::Bishop) => "B"@,
        (Color::White, Piece::Rook) => "R"@,
        (Color::White, Piece::Queen) => "Q"@,
        (Color::White, Piece::King) => "K"@,
        (Color::Black, Piece::Pawn) => "p"@,
        (Color::Black, Piece::Knight) => "n"@,
        (Color::Black, Piece::Bishop) => "b"@,
        (Color::Black, Piece::Rook) => "r"@,
        (Color::Black, Piece::Queen) => "q"@,
        (Color::Black, Piece::King) => "k"@,
    }
}

/// The sign of a man in the picture of the board.
pub open spec fn man_icon(man: (Color, Piece)) -> Seq<char> {
    match man {
        (Color::White, Piece::Pawn) => "♟︎"@,
        (Color::White, Piece::Knight) => "♞"@,
        (Color::White, Piece::Bishop) => "♝"@,
        (Color::White, Piece::Rook) => "♜"@,
        (Color::White, Piece::Queen) => "♛"@,
        (Color::White, Piece::King) => "♚"@,
        (Color::Black, Piece::Pawn) => "♙"@,
        (Color::Black, Piece::Knight) => "♘"@,
        (Color::Black, Piece::Bishop) => "♗"@,
        (Color::Black, Piece::Rook) => "♖"@,
        (Color::Black, Piece::Queen) => "♕"@,
        (Color::Black, Piece::King) => "♔"@,
    }
}

/// The digit for a number below ten.
pub open spec fn digit_text(d: int) -> Seq<char> {
    if d == 0 {
        "0"@
    }     else if d == 1 {
        "1"@
    }     else if d == 2 {
        "2"@
    }     else if d == 3 {
        "3"@
    }     else if d == 4 {
        "4"@
    }     else if d == 5 {
        "5"@
    }     else if d == 6 {
        "6"@
    }     else if d == 7 {
        "7"@
    }     else if d == 8 {
        "8"@
    } else {
        "9"@
    }
}

/// A number in decimal digits.
pub open spec fn decimal(n: nat) -> Seq<char>
    decreases n,
{
    if n < 10 {
        digit_text(n as int)
    } else {
        decimal(n / 10) + digit_text((n % 10) as int)
    }
}

/// The description of one rank from file `file` on, with `run` empty
/// squares counted before it: a letter for each man, and for each run of
/// empty squares its length.
pub open spec fn rank_text(squares: Seq<Option<(Color, Piece)>>, rank: int, file: int, run: int) -> Seq<char>
    decreases 8 - file,
{
    if file >= 8 {
        if run > 0 {
            digit_text(run)
        } else {
            Seq::empty()
        }
    } else {
        match squares[rank * 8 + file] {
            None => rank_text(squares, rank, file + 1, run + 1),
            Some(man) => (if run > 0 {
                digit_text(run)
            } else {
                Seq::empty()
            }) + man_letter(man) + rank_text(squares, rank, file + 1, 0),
        }
    }
}

/// The description of the ranks from `rank` down to the first, with a `/`
/// between each two.
pub open spec fn placement_text(squares: Seq<Option<(Color, Piece)>>, rank: int) -> Seq<char>
    decreases rank + 1,
{
    if rank < 0 {
        Seq::empty()
    } else if rank == 0 {
        rank_text(squares, rank, 0, 0)
    } else {
        rank_text(squares, rank, 0, 0) + "/"@ + placement_text(squares, rank - 1)
    }
}

/// The castling rights as letters, `-` if there is none.
pub open spec fn rights_text(p: Position) -> Seq<char> {
    let rights = (if p.white_castle.0 {
        "K"@
    } else {
        Seq::empty()
    }) + (if p.white_castle.1 {
        "Q"@
    } else {
        Seq::empty()
    }) + (if p.black_castle.0 {
        "k"@
    } else {
        Seq::empty()
    }) + (if p.black_castle.1 {
        "q"@
    } else {
        Seq::empty()
    });
    if rights.len() == 0 {
        "-"@
    } else {
        rights
    }
}

/// The description of a position in one line: the placement of the men,
/// the side to move, the castling rights, the en-passant target, the two
/// counters, and a search-depth budget of one.
pub open spec fn fen_text(p: Position) -> Seq<char> {
    placement_text(p.squares, 7) + " "@ + (match p.turn {
        Color::White => "w"@,
        Color::Black => "b"@,
    }) + " "@ + rights_text(p) + " "@ + (match p.en_passant {
        Some(square) => seq![square.file.letter(), square.rank.letter()],
        None => "-"@,
    }) + " "@ + decimal(p.halfmove_clock as nat) + " "@ + decimal(p.fullmove_number as nat) + " 1"@
}

/// The picture of one rank from file `file` on: the sign of each man, a dot
/// for each empty square, and a space between each two.
pub open spec fn rank_picture(squares: Seq<Option<(Color, Piece)>>, rank: int, file: int) -> Seq<char>
    decreases 8 - file,
{
    if file >= 8 {
        Seq::empty()
    } else {
        (match squares[rank * 8 + file] {
            None => "."@,
            Some(man) => man_icon(man),
        }) + (if file < 7 {
            " "@
        } else {
            Seq::empty()
        }) + rank_picture(squares, rank, file + 1)
    }
}

/// The picture of the ranks from `rank` down to the first, one line each.
pub open spec fn picture(squares: Seq<Option<(Color, Piece)>>, rank: int) -> Seq<char>
    decreases rank + 1,
{
    if rank < 0 {
        Seq::empty()
    } else {
        rank_picture(squares, rank, 0) + "\n"@ + picture(squares, rank - 1)
    }
}

/// The letter of a man.
fn letter_of(color: Color, piece: Piece) -> (text: &'static str)
    ensures
        text@ == man_letter((color, piece)),
{
    match (color, piece) {
        (Color::White, Piece::Pawn) => "P",
        (Color::White, Piece::Knight) => "N",
        (Color::White, Piece::Bishop) => "B",
        (Color::White, Piece::Rook) => "R",
        (Color::White, Piece::Queen) => "Q",
        (Color::White, Piece::King) => "K",
        (Color::Black, Piece::Pawn) => "p",
        (Color::Black, Piece::Knight) => "n",
        (Color::Black, Piece::Bishop) => "b",
        (Color::Black, Piece::Rook) => "r",
        (Color::Black, Piece::Queen) => "q",
        (Color::Black, Piece::King) => "k",
    }
}

/// The sign of a man.
fn icon_of(color: Color, piece: Piece) -> (text: &'static str)
    ensures
        text@ == man_icon((color, piece)),
{
    match (color, piece) {
        (Color::White, Piece::Pawn) => "♟︎",
        (Color::White, Piece::Knight) => "♞",
        (Color::White, Piece::Bishop) => "♝",
        (Color::White, Piece::Rook) => "♜",
        (Color::White, Piece::Queen) => "♛",
        (Color::White, Piece::King) => "♚",
        (Color::Black, Piece::Pawn) => "♙",
        (Color::Black, Piece::Knight) => "♘",
        (Color::Black, Piece::Bishop) => "♗",
        (Color::Black, Piece::Rook) => "♖",
        (Color::Black, Piece::Queen) => "♕",
        (Color::Black, Piece::King) => "♔",
    }
}

/// The digit for a number below ten.
fn digit_of(d: u32) -> (text: &'static str)
    requires
        d < 10,
    ensures
        text@ == digit_text(d as int),
{
    match d {
        0 => "0",
        1 => "1",
        2 => "2",
        3 => "3",
        4 => "4",
        5 => "5",
        6 => "6",
        7 => "7",
        8 => "8",
        _ => "9",
    }
}

/// Writes `n` in decimal digits behind `text`.
fn write_decimal(text: &mut String, n: u32)
    ensures
        final(text)@ == old(text)@ + decimal(n as nat),
    decreases n,
{
    if n >= 10 {
        write_decimal(text, n / 10);
    }
    text.append(digit_of(n % 10));
    proof {
        if n >= 10 {
            assert(final(text)@ =~= old(text)@ + (decimal((n / 10) as nat) + digit_text((n % 10) as int)));
        }
    }
}

impl Chessboard {
    /// The description of the board in one line.
    pub fn to_fen(&self) -> (text: String)
        requires
            self.board_ok(),
        ensures
            text@ == fen_text(self@),
    {
        let mut fen = String::from_str("");
        proof {
            reveal_strlit("");
            assert(fen@ =~= Seq::<char>::empty());
        }
        let ghost squares = self@.squares;
        let mut rank: u32 = 8;
        while rank > 0
            invariant
                self.board_ok(),
                squares == self@.squares,
                rank <= 8,
                fen@ + placement_text(squares, rank - 1) == placement_text(squares, 7),
            decreases rank,
        {
            rank = rank - 1;
            let ghost before = fen@;
            let mut empty_count: u32 = 0;
            let mut file: u32 = 0;
            while file < 8
                invariant
                    self.board_ok(),
                    squares == self@.squares,
                    rank < 8,
                    file <= 8,
                    empty_count <= file,
                    fen@ + rank_text(squares, rank as int, file as int, empty_count as int) == before + rank_text(
                        squares,
                        rank as int,
                        0,
                        0,
                    ),
                decreases 8 - file,
            {
                let square = Square::from_u32(rank * 8 + file);
                let ghost so_far = fen@;
                let ghost run = empty_count as int;
                match self.man(&square) {
                    None => {
                        empty_count = empty_count + 1;
                    },
                    Some((color, piece)) => {
                        if empty_count > 0 {
                            fen.append(digit_of(empty_count));
                            empty_count = 0;
                        }
                        fen.append(letter_of(color, piece));
                        proof {
                            let tail = rank_text(squares, rank as int, file as int + 1, 0);
                            assert(fen@ + tail =~= so_far + rank_text(squares, rank as int, file as int, run));
                        }
                    },
                }
                file = file + 1;
            }
            if empty_count > 0 {
                fen.append(digit_of(empty_count));
            }
            if rank != 0 {
                fen.append("/");
            }
            proof {
                assert(fen@ + placement_text(squares, rank as int - 1) =~= before + placement_text(
                    squares,
                    rank as int,
                ));
            }
        }
        proof {
            assert(fen@ =~= placement_text(squares, 7));
        }
        fen.append(" ");
        fen.append(
            match self.turn {
                Color::White => "w",
                Color::Black => "b",
            },
        );
        fen.append(" ");
        let mut castle_string = String::from_str("");
        proof {
            reveal_strlit("");
            assert(castle_string@ =~= Seq::<char>::empty());
        }
        if self.white_castle.0 {
            castle_string.append("K");
        }
        if self.white_castle.1 {
            castle_string.append("Q");
        }
        if self.black_castle.0 {
            castle_string.append("k");
        }
        if self.black_castle.1 {
            castle_string.append("q");
        }
        let none = String::from_str("");
        if castle_string == none {
            castle_string.append("-");
        }
        proof {
            assert(castle_string@ =~= rights_text(self@));
        }
        fen.append(castle_string.as_str());
        fen.append(" ");
        match self.en_passant {
            Some(square) => {
                let name = square.to_string();
                fen.append(name.as_str());
            },
            None => {
                fen.append("-");
            },
        }
        fen.append(" ");
        write_decimal(&mut fen, self.halfmove_clock as u32);
        fen.append(" ");
        write_decimal(&mut fen, self.fullmove_number as u32);
        fen.append(" 1");
        proof {
            assert(fen@ =~= fen_text(self@));
        }
        fen
    }

    /// The picture of the board: one line for each rank, the eighth first.
    pub fn pretty_print(&self) -> (text: String)
        requires
            self.board_ok(),
        ensures
            text@ == picture(self@.squares, 7),
    {
        let mut text = String::from_str("");
        proof {
            reveal_strlit("");
            assert(text@ =~= Seq::<char>::empty());
        }
        let ghost squares = self@.squares;
        let mut rank: u32 = 8;
        while rank > 0
            invariant
                self.board_ok(),
                squares == self@.squares,
                rank <= 8,
                text@ + picture(squares, rank - 1) == picture(squares, 7),
            decreases rank,
        {
            rank = rank - 1;
            let ghost before = text@;
            let mut file: u32 = 0;
            while file < 8
                invariant
                    self.board_ok(),
                    squares == self@.squares,
                    rank < 8,
                    file <= 8,
                    text@ + rank_picture(squares, rank as int, file as int) == before + rank_picture(
                        squares,
                        rank as int,
                        0,
                    ),
                decreases 8 - file,
            {
                let square = Square::from_u32(rank * 8 + file);
                let ghost so_far = text@;
                match self.man(&square) {
                    None => {
                        text.append(".");
                    },
                    Some((color, piece)) => {
                        text.append(icon_of(color, piece));
                    },
                }
                if file != 7 {
                    text.append(" ");
                }
                proof {
                    assert(text@ + rank_picture(squares, rank as int, file as int + 1) =~= so_far + rank_picture(
                        squares,
                        rank as int,
                        file as int,
                    ));
                }
                file = file + 1;
            }
            text.append("\n");
            proof {
                assert(text@ + picture(squares, rank as int - 1) =~= before + picture(squares, rank as int));
            }
        }
        proof {
            assert(text@ =~= picture(squares, 7));
        }
        text
    }
}

} // verus!
