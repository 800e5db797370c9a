//! Reading a position from its description in text: six or seven fields
//! with single spaces between them.

use vstd::prelude::*;
use vstd::string::StrSliceExecFns;
use crate::bitboard::{holds, lemma_holds_bitwise};
use crate::chessboard::moves::{is_file_letter, is_rank_letter};
use crate::chessboard::moves::piece::sliding_piece::tables::SlidingTables;
use crate::chessboard::{men, Chessboard, Position, Snapshot, square_sound};
use crate::utils::color::Color;
use crate::utils::file::File;
use crate::utils::piece::Piece;
use crate::utils::rank::Rank;
use crate::utils::square::{lemma_square_index, Square};

verus! {

/// Why a piece of text does not describe a position.
#[derive(Debug, PartialEq, Eq, Clone, Copy)]
pub enum FenError {
    /// There are fewer than six fields.
    Fields,
    /// The placement field holds a character that is no piece letter, digit
    /// or `/`, runs over the end of a rank or below the first rank, or puts
    /// two different men on one square.
    Placement,
    /// The side to move is neither `w` nor `b`.
    Turn,
    /// The en-passant field is neither `-` nor a square, or the square does
    /// not lie behind a pawn that could just have made a double push.
    EnPassant,
    /// The halfmove clock is no number up to 255.
    Halfmove,
    /// The fullmove number is no number up to 65535.
    Fullmove,
    /// The search-depth budget is no number up to 255.
    Depth,
}

/// The place of the first space of `text` at or after `from`; the length
/// of `text` if there is none.
pub open spec fn space_from(text: Seq<char>, from: int) -> int
    decreases text.len() - from,
{
    if from < 0 || from >= text.len() {
        text.len() as int
    } else if text[from] == ' ' {
        from
    } else {
        space_from(text, from + 1)
    }
}

/// Where field number `k` of `text` starts: behind the `k`-th space. One
/// more than the length of `text` if `text` has fewer spaces.
pub open spec fn field_start(text: Seq<char>, k: nat) -> int
    decreases k,
{
    if k == 0 {
        0
    } else if field_start(text, (k - 1) as nat) > text.len() {
        text.len() as int + 1
    } else {
        space_from(text, field_start(text, (k - 1) as nat)) + 1
    }
}

/// `text` has a field number `k`.
pub open spec fn has_field(text: Seq<char>, k: nat) -> bool {
    field_start(text, k) <= text.len()
}

/// Field number `k` of `text`: what stands between the `k`-th space and the
/// next one.
pub open spec fn field(text: Seq<char>, k: nat) -> Seq<char> {
    text.subrange(field_start(text, k), space_from(text, field_start(text, k)))
}

/// The reading head of the placement field, and the men put down so far.
pub struct Cursor {
    pub rank: int,
    pub file: int,
    pub squares: Seq<Option<(Color, Piece)>>,
}

/// `c` is one of the digits `0` to `9`.
pub open spec fn is_digit(c: char) -> bool {
    '0' <= c <= '9'
}

/// The number that the digit `c` stands for.
pub open spec fn digit_value(c: char) -> int {
    c as int - '0' as int
}

/// The color that a piece letter stands for: Black for a lower-case
/// letter, White for an upper-case one.
pub open spec fn letter_color(c: char) -> Color {
    if 'a' <= c <= 'z' {
        Color::Black
    } else {
        Color::White
    }
}

/// What one character of the placement field does. A digit moves the head
/// that many files on, unless that takes it to the end of the rank, where
/// the head stays; beyond the end it is an error. A `/` takes the head to
/// the A file of the rank below. A piece letter puts the man on the square
/// of the head, which must be empty or hold the same man, and moves the
/// head one file on unless it is on the H file.
pub open spec fn step(cursor: Cursor, c: char) -> Option<Cursor> {
    if is_digit(c) {
        let file = cursor.file + digit_value(c);
        if file == 8 {
            Some(cursor)
        } else if file < 8 {
            Some(Cursor { file, ..cursor })
        } else {
            None
        }
    } else if c == '/' {
        if cursor.rank == 0 {
            None
        } else {
            Some(Cursor { rank: cursor.rank - 1, file: 0, ..cursor })
        }
    } else {
        match Piece::of_letter(c) {
            None => None,
            Some(piece) => {
                let man = (letter_color(c), piece);
                let at = cursor.rank * 8 + cursor.file;
                if cursor.squares[at] is Some && cursor.squares[at] != Some(man) {
                    None
                } else {
                    Some(
                        Cursor {
                            file: if cursor.file == 7 {
                                7
                            } else {
                                cursor.file + 1
                            },
                            squares: cursor.squares.update(at, Some(man)),
                            ..cursor
                        },
                    )
                }
            },
        }
    }
}

/// The head and the men after the first `n` characters of the placement
/// field `text`, read from the A file of the eighth rank on an empty board.
pub open spec fn placed(text: Seq<char>, n: nat) -> Option<Cursor>
    decreases n,
{
    if n == 0 {
        Some(Cursor { rank: 7, file: 0, squares: Seq::new(64, |i: int| None) })
    } else {
        match placed(text, (n - 1) as nat) {
            None => None,
            Some(cursor) => step(cursor, text[n - 1]),
        }
    }
}

/// The number that a run of digits stands for.
pub open spec fn digits_value(digits: Seq<char>) -> nat
    decreases digits.len(),
{
    if digits.len() == 0 {
        0
    } else {
        (digits_value(digits.drop_last()) * 10 + digit_value(digits.last())) as nat
    }
}

/// The number that `text` stands for if it is a run of one or more digits
/// and the number is `limit` at most.
pub open spec fn number(text: Seq<char>, limit: nat) -> Option<nat> {
    if text.len() > 0 && (forall|i: int| 0 <= i < text.len() ==> is_digit(#[trigger] text[i])) && digits_value(text)
        <= limit {
        Some(digits_value(text))
    } else {
        None
    }
}

/// `text` without its line feeds.
pub open spec fn without_line_feeds(text: Seq<char>) -> Seq<char>
    decreases text.len(),
{
    if text.len() == 0 {
        Seq::empty()
    } else if text.last() == '\n' {
        without_line_feeds(text.drop_last())
    } else {
        without_line_feeds(text.drop_last()).push(text.last())
    }
}

/// The side to move that a field names.
pub open spec fn turn_of(text: Seq<char>) -> Option<Color> {
    if text == seq!['w'] {
        Some(Color::White)
    } else if text == seq!['b'] {
        Some(Color::Black)
    } else {
        None
    }
}

/// The en-passant target that a field names: none for `-`, else the square
/// that its first two characters name.
pub open spec fn en_passant_of(text: Seq<char>) -> Option<Option<Square>> {
    if text == seq!['-'] {
        Some(None)
    } else if text.len() >= 2 && File::is_letter(text[0]) && Rank::is_letter(text[1]) {
        Some(Some(Square { file: File::of_letter(text[0]), rank: Rank::of_letter(text[1]) }))
    } else {
        None
    }
}

/// The search-depth budget that `text` names: zero if there is no seventh
/// field, else the number in that field without its line feeds.
pub open spec fn depth_of(text: Seq<char>) -> Option<nat> {
    if has_field(text, 6) {
        number(without_line_feeds(field(text, 6)), 255)
    } else {
        Some(0)
    }
}

/// The position that `text` describes, or why it describes none. The fields
/// are the placement of the men, the side to move, the castling rights (a
/// right is there if its letter of `KQkq` occurs), the en-passant target,
/// the halfmove clock, the fullmove number and, if there is a seventh
/// field, the search-depth budget.
pub open spec fn parse_position(text: Seq<char>) -> Result<Position, FenError> {
    if !has_field(text, 5) {
        Err(FenError::Fields)
    } else if placed(field(text, 0), field(text, 0).len()) is None {
        Err(FenError::Placement)
    } else if turn_of(field(text, 1)) is None {
        Err(FenError::Turn)
    } else if en_passant_of(field(text, 3)) is None {
        Err(FenError::EnPassant)
    } else if number(field(text, 4), 255) is None {
        Err(FenError::Halfmove)
    } else if number(field(text, 5), 65535) is None {
        Err(FenError::Fullmove)
    } else if depth_of(text) is None {
        Err(FenError::Depth)
    } else {
        let rights = field(text, 2);
        let p = Position {
            squares: placed(field(text, 0), field(text, 0).len())->Some_0.squares,
            turn: turn_of(field(text, 1))->Some_0,
            white_castle: (rights.contains('K'), rights.contains('Q')),
            black_castle: (rights.contains('k'), rights.contains('q')),
            en_passant: en_passant_of(field(text, 3))->Some_0,
            halfmove_clock: number(field(text, 4), 255)->Some_0 as u8,
            fullmove_number: number(field(text, 5), 65535)->Some_0 as u16,
            perft_depth: depth_of(text)->Some_0 as u8,
            history: Seq::empty(),
        };
        if p.ep_ok() {
            Ok(p)
        } else {
            Err(FenError::EnPassant)
        }
    }
}

/// The characters of `text`, one by one.
fn characters(text: &str) -> (chars: Vec<char>)
    ensures
        chars@ == text@,
{
    let len = text.unicode_len();
    let mut chars: Vec<char> = Vec::new();
    let mut i: usize = 0;
    while i < len
        invariant
            len == text@.len(),
            i <= len,
            chars@ == text@.take(i as int),
        decreases len - i,
    {
        chars.push(text.get_char(i));
        assert(chars@ =~= text@.take(i as int + 1));
        i = i + 1;
    }
    assert(text@.take(len as int) =~= text@);
    chars
}

/// The place of the first space at or after `from`.
fn next_space(chars: &Vec<char>, from: usize) -> (at: usize)
    requires
        from <= chars@.len(),
    ensures
        at == space_from(chars@, from as int),
        from <= at <= chars@.len(),
{
    let mut at = from;
    while at < chars.len() && chars[at] != ' '
        invariant
            from <= at <= chars@.len(),
            space_from(chars@, at as int) == space_from(chars@, from as int),
        decreases chars@.len() - at,
    {
        at = at + 1;
    }
    at
}

/// The start and the end of field number `k`, if there is such a field.
fn field_bounds(chars: &Vec<char>, k: usize) -> (r: Option<(usize, usize)>)
    requires
        k < 100,
    ensures
        r is Some == has_field(chars@, k as nat),
        r matches Some((start, end)) ==> start == field_start(chars@, k as nat) && end == space_from(
            chars@,
            start as int,
        ) && start <= end <= chars@.len() && chars@.subrange(start as int, end as int) == field(chars@, k as nat),
{
    let mut start: usize = 0;
    let mut n: usize = 0;
    while n < k
        invariant
            n <= k,
            k < 100,
            start <= chars@.len(),
            start == field_start(chars@, n as nat),
        decreases k - n,
    {
        let end = next_space(chars, start);
        if end >= chars.len() {
            proof {
                assert(field_start(chars@, (n + 1) as nat) > chars@.len());
                lemma_no_more_fields(chars@, (n + 1) as nat, k as nat);
            }
            return None;
        }
        start = end + 1;
        n = n + 1;
    }
    let end = next_space(chars, start);
    Some((start, end))
}

/// Behind a field that is not there, no field is there.
proof fn lemma_no_more_fields(text: Seq<char>, k: nat, later: nat)
    requires
        k <= later,
        !has_field(text, k),
    ensures
        !has_field(text, later),
    decreases later - k,
{
    if k < later {
        lemma_no_more_fields(text, k, (later - 1) as nat);
    }
}

/// The number that the characters from `start` to `end` stand for, if they
/// are a run of digits and the number is `limit` at most.
fn read_number(chars: &Vec<char>, start: usize, end: usize, limit: u32) -> (r: Option<u32>)
    requires
        start <= end <= chars@.len(),
        limit <= 65535,
    ensures
        r is Some == number(chars@.subrange(start as int, end as int), limit as nat) is Some,
        r matches Some(n) ==> n == number(chars@.subrange(start as int, end as int), limit as nat)->Some_0,
{
    let ghost text = chars@.subrange(start as int, end as int);
    if start == end {
        return None;
    }
    let mut value: u32 = 0;
    let mut i: usize = start;
    proof {
        assert(text.take(0) =~= Seq::<char>::empty());
    }
    while i < end
        invariant
            start <= i <= end <= chars@.len(),
            limit <= 65535,
            text == chars@.subrange(start as int, end as int),
            value == digits_value(text.take(i - start)),
            value <= limit,
            forall|j: int| 0 <= j < i - start ==> is_digit(#[trigger] text[j]),
        decreases end - i,
    {
        let c = chars[i];
        proof {
            assert(text[i - start] == c);
            let upto = text.take(i - start + 1);
            assert(upto.drop_last() =~= text.take(i - start));
            assert(upto.last() == c);
        }
        if !(c >= '0' && c <= '9') {
            return None;
        }
        let digit: u32 = c as u32 - '0' as u32;
        value = value * 10 + digit;
        if value > limit {
            proof {
                lemma_digits_grow(text, i - start + 1);
            }
            return None;
        }
        i = i + 1;
    }
    proof {
        assert(text.take(text.len() as int) =~= text);
    }
    Some(value)
}

/// A run of digits stands for no smaller number than any of its starts.
proof fn lemma_digits_grow(digits: Seq<char>, n: int)
    requires
        0 <= n <= digits.len(),
        forall|j: int| 0 <= j < digits.len() && is_digit(#[trigger] digits[j]) ==> digit_value(digits[j]) >= 0,
    ensures
        (forall|j: int| 0 <= j < digits.len() ==> is_digit(#[trigger] digits[j])) ==> digits_value(digits.take(n))
            <= digits_value(digits),
    decreases digits.len() - n,
{
    if forall|j: int| 0 <= j < digits.len() ==> is_digit(#[trigger] digits[j]) {
        if n < digits.len() {
            lemma_digits_grow(digits, n + 1);
            let upto = digits.take(n + 1);
            assert(upto.drop_last() =~= digits.take(n));
            assert(is_digit(digits[n]));
            assert(upto.last() == digits[n]);
        } else {
            assert(digits.take(n) =~= digits);
        }
    }
}

/// Whether `c` occurs among the characters from `start` to `end`.
fn occurs(chars: &Vec<char>, start: usize, end: usize, c: char) -> (r: bool)
    requires
        start <= end <= chars@.len(),
    ensures
        r == chars@.subrange(start as int, end as int).contains(c),
{
    let ghost text = chars@.subrange(start as int, end as int);
    let mut i: usize = start;
    while i < end
        invariant
            start <= i <= end <= chars@.len(),
            text == chars@.subrange(start as int, end as int),
            forall|j: int| 0 <= j < i - start ==> text[j] != c,
        decreases end - i,
    {
        if chars[i] == c {
            assert(text[i - start] == c);
            return true;
        }
        i = i + 1;
    }
    false
}

/// The characters from `start` to `end` without the line feeds.
fn drop_line_feeds(chars: &Vec<char>, start: usize, end: usize) -> (kept: Vec<char>)
    requires
        start <= end <= chars@.len(),
    ensures
        kept@ == without_line_feeds(chars@.subrange(start as int, end as int)),
{
    let ghost text = chars@.subrange(start as int, end as int);
    let mut kept: Vec<char> = Vec::new();
    let mut i: usize = start;
    proof {
        assert(text.take(0) =~= Seq::<char>::empty());
    }
    while i < end
        invariant
            start <= i <= end <= chars@.len(),
            text == chars@.subrange(start as int, end as int),
            kept@ == without_line_feeds(text.take(i - start)),
        decreases end - i,
    {
        let c = chars[i];
        proof {
            let upto = text.take(i - start + 1);
            assert(upto.drop_last() =~= text.take(i - start));
            assert(upto.last() == c);
        }
        if c != '\n' {
            kept.push(c);
        }
        i = i + 1;
    }
    proof {
        assert(text.take(text.len() as int) =~= text);
    }
    kept
}

impl Chessboard {
    /// The board without a man, with White to move, no rights, no
    /// en-passant target, and all counters at zero.
    pub fn empty() -> (board: Chessboard)
        ensures
            board.wf(),
            board@.squares == Seq::new(64, |i: int| None::<(Color, Piece)>),
            board.turn == Color::White,
            board.white_castle == (false, false),
            board.black_castle == (false, false),
            board.en_passant is None,
            board.halfmove_clock == 0,
            board.fullmove_number == 0,
            board.perft_depth == 0,
            board.history() == Seq::<Snapshot>::empty(),
    {
        let board = Chessboard {
            piece_board: [0;6],
            color_board: [0;2],
            empty_board: 0xffff_ffff_ffff_ffff,
            turn: Color::White,
            white_castle: (false, false),
            black_castle: (false, false),
            en_passant: None,
            halfmove_clock: 0,
            fullmove_number: 0,
            perft_depth: 0,
            undo_stack: Vec::new(),
            tables: SlidingTables::new(),
        };
        proof {
            lemma_holds_bitwise();
            assert forall|s: int| 0 <= s < 64 implies #[trigger] square_sound(
                board.piece_board@,
                board.color_board@,
                board.empty_board,
                s,
            ) by {
                assert forall|p: Piece| !holds(board.piece_board@[p.index()], s) by {}
            }
            assert(board@.squares =~= Seq::new(64, |i: int| None::<(Color, Piece)>));
        }
        board
    }

    /// Puts the men that the characters from `start` to `end` describe on
    /// the board, which has to be without a man. Whether that worked.
    fn place_men(&mut self, chars: &Vec<char>, start: usize, end: usize) -> (done: bool)
        requires
            old(self).board_ok(),
            old(self)@.squares == Seq::new(64, |i: int| None::<(Color, Piece)>),
            start <= end <= chars@.len(),
        ensures
            final(self).board_ok(),
            final(self).same_state(old(self)),
            done == placed(
                chars@.subrange(start as int, end as int),
                chars@.subrange(start as int, end as int).len(),
            ) is Some,
            done ==> final(self)@.squares == placed(
                chars@.subrange(start as int, end as int),
                chars@.subrange(start as int, end as int).len(),
            )->Some_0.squares,
    {
        let ghost text = chars@.subrange(start as int, end as int);
        let mut rank: u32 = 7;
        let mut file: u32 = 0;
        let mut i: usize = start;
        while i < end
            invariant
                self.board_ok(),
                self.same_state(old(self)),
                start <= i <= end <= chars@.len(),
                text == chars@.subrange(start as int, end as int),
                rank < 8,
                file < 8,
                placed(text, (i - start) as nat) == Some(
                    Cursor { rank: rank as int, file: file as int, squares: self@.squares },
                ),
            decreases end - i,
        {
            let c = chars[i];
            let ghost cursor = Cursor { rank: rank as int, file: file as int, squares: self@.squares };
            proof {
                assert(text[i - start] == c);
                assert(placed(text, (i - start + 1) as nat) == step(cursor, c));
            }
            if c >= '0' && c <= '9' {
                let skip: u32 = c as u32 - '0' as u32;
                let new_file = file + skip;
                if new_file > 8 {
                    proof {
                        lemma_placed_fails(text, (i - start + 1) as nat, text.len());
                    }
                    return false;
                }
                if new_file < 8 {
                    file = new_file;
                }
            } else if c == '/' {
                if rank == 0 {
                    proof {
                        lemma_placed_fails(text, (i - start + 1) as nat, text.len());
                    }
                    return false;
                }
                rank = rank - 1;
                file = 0;
            } else {
                let piece = match Piece::from_char(c) {
                    Some(piece) => piece,
                    None => {
                        proof {
                            lemma_placed_fails(text, (i - start + 1) as nat, text.len());
                        }
                        return false;
                    },
                };
                let color = if c >= 'a' && c <= 'z' {
                    Color::Black
                } else {
                    Color::White
                };
                let square = Square::from_u32(rank * 8 + file);
                proof {
                    assert(self.square_ok(square.index()));
                    assert(self@.squares[square.index()] == self.man_at(square.index()));
                }
                match (self.get_color(&square), self.get_piece(&square)) {
                    (Some(held), Some(kind)) => {
                        if held != color || kind != piece {
                            proof {
                                lemma_placed_fails(text, (i - start + 1) as nat, text.len());
                            }
                            return false;
                        }
                        proof {
                            assert(self@.squares.update(square.index(), Some((color, piece))) =~= self@.squares);
                        }
                    },
                    _ => {
                        self.put_man(&square, piece, color);
                    },
                }
                if file != 7 {
                    file = file + 1;
                }
            }
            i = i + 1;
        }
        true
    }

    /// The board that `perft_string` describes, or why it describes none.
    pub fn new(perft_string: String) -> (r: Result<Chessboard, FenError>)
        ensures
            match r {
                Ok(board) => board.wf() && parse_position(perft_string@) == Ok::<Position, FenError>(board@),
                Err(e) => parse_position(perft_string@) == Err::<Position, FenError>(e),
            },
    {
        let chars = characters(perft_string.as_str());
        let ghost text = chars@;
        let (placement_start, placement_end) = match field_bounds(&chars, 0) {
            Some(bounds) => bounds,
            None => {
                return Err(FenError::Fields);
            },
        };
        let (turn_start, turn_end) = match field_bounds(&chars, 1) {
            Some(bounds) => bounds,
            None => {
                proof {
                    lemma_no_more_fields(text, 1, 5);
                }
                return Err(FenError::Fields);
            },
        };
        let (rights_start, rights_end) = match field_bounds(&chars, 2) {
            Some(bounds) => bounds,
            None => {
                proof {
                    lemma_no_more_fields(text, 2, 5);
                }
                return Err(FenError::Fields);
            },
        };
        let (target_start, target_end) = match field_bounds(&chars, 3) {
            Some(bounds) => bounds,
            None => {
                proof {
                    lemma_no_more_fields(text, 3, 5);
                }
                return Err(FenError::Fields);
            },
        };
        let (clock_start, clock_end) = match field_bounds(&chars, 4) {
            Some(bounds) => bounds,
            None => {
                proof {
                    lemma_no_more_fields(text, 4, 5);
                }
                return Err(FenError::Fields);
            },
        };
        let (count_start, count_end) = match field_bounds(&chars, 5) {
            Some(bounds) => bounds,
            None => {
                return Err(FenError::Fields);
            },
        };

        let mut board = Chessboard::empty();
        if !board.place_men(&chars, placement_start, placement_end) {
            return Err(FenError::Placement);
        }

        // The side to move.
        if turn_end - turn_start != 1 {
            proof {
                assert(field(text, 1).len() != 1);
                assert(seq!['w'].len() == 1);
                assert(seq!['b'].len() == 1);
            }
            return Err(FenError::Turn);
        }
        let turn = match chars[turn_start] {
            'w' => Color::White,
            'b' => Color::Black,
            _ => {
                proof {
                    assert(field(text, 1)[0] == chars@[turn_start as int]);
                }
                return Err(FenError::Turn);
            },
        };
        proof {
            assert(field(text, 1) =~= seq![chars@[turn_start as int]]);
        }

        // The castling rights.
        let white_castle = (
            occurs(&chars, rights_start, rights_end, 'K'),
            occurs(&chars, rights_start, rights_end, 'Q'),
        );
        let black_castle = (
            occurs(&chars, rights_start, rights_end, 'k'),
            occurs(&chars, rights_start, rights_end, 'q'),
        );

        // The en-passant target.
        let en_passant = if target_end - target_start == 1 && chars[target_start] == '-' {
            proof {
                assert(field(text, 3) =~= seq!['-']);
            }
            None
        } else {
            if target_end - target_start < 2 {
                proof {
                    if field(text, 3).len() == 1 {
                        assert(field(text, 3)[0] == chars@[target_start as int]);
                    }
                }
                return Err(FenError::EnPassant);
            }
            let f = chars[target_start];
            let r = chars[target_start + 1];
            proof {
                assert(field(text, 3)[0] == f);
                assert(field(text, 3)[1] == r);
                assert(field(text, 3).len() >= 2);
                assert(seq!['-'].len() == 1);
            }
            if !is_file_letter(f) || !is_rank_letter(r) {
                return Err(FenError::EnPassant);
            }
            Some(Square::new(File::from_char(f), Rank::from_char(r)))
        };

        // The counters.
        let halfmove_clock = match read_number(&chars, clock_start, clock_end, 255) {
            Some(n) => n as u8,
            None => {
                return Err(FenError::Halfmove);
            },
        };
        let fullmove_number = match read_number(&chars, count_start, count_end, 65535) {
            Some(n) => n as u16,
            None => {
                return Err(FenError::Fullmove);
            },
        };
        let perft_depth: u8 = match field_bounds(&chars, 6) {
            Some((depth_start, depth_end)) => {
                let depth = drop_line_feeds(&chars, depth_start, depth_end);
                proof {
                    assert(depth@.subrange(0, depth@.len() as int) =~= depth@);
                }
                match read_number(&depth, 0, depth.len(), 255) {
                    Some(n) => n as u8,
                    None => {
                        return Err(FenError::Depth);
                    },
                }
            },
            None => 0,
        };

        board.turn = turn;
        board.white_castle = white_castle;
        board.black_castle = black_castle;
        board.en_passant = en_passant;
        board.halfmove_clock = halfmove_clock;
        board.fullmove_number = fullmove_number;
        board.perft_depth = perft_depth;
        if !board.target_fits() {
            return Err(FenError::EnPassant);
        }
        Ok(board)
    }

    /// Whether the en-passant target, if there is one, is an empty square
    /// on the third rank of the side that just moved, right behind one of
    /// its pawns.
    pub fn target_fits(&self) -> (r: bool)
        requires
            self.board_ok(),
        ensures
            r == self@.ep_ok(),
    {
        match self.en_passant {
            None => true,
            Some(target) => {
                proof {
                    lemma_square_index(target);
                }
                let at: u32 = target.to_u32();
                let (rank, pawn): (u32, u32) = match self.turn {
                    Color::White => (5, at.wrapping_sub(8)),
                    Color::Black => (2, at.wrapping_add(8)),
                };
                if at / 8 != rank {
                    return false;
                }
                let behind = Square::from_u32(pawn);
                proof {
                    assert(self.square_ok(at as int));
                    assert(self.square_ok(pawn as int));
                }
                let free = self.get_piece(&target).is_none() && self.get_color(&target).is_none();
                let opposite = self.get_opposite_color(&self.turn);
                let held = match (self.get_color(&behind), self.get_piece(&behind)) {
                    (Some(c), Some(Piece::Pawn)) => c == opposite,
                    _ => false,
                };
                free && held
            },
        }
    }
}

/// Once the reading of the placement has failed it stays failed.
proof fn lemma_placed_fails(text: Seq<char>, n: nat, later: nat)
    requires
        n <= later,
        placed(text, n) is None,
    ensures
        placed(text, later) is None,
    decreases later - n,
{
    if n < later {
        lemma_placed_fails(text, n, (later - 1) as nat);
    }
}

} // verus!
