//! The commands of the protocol: what each one does to the player and what
//! the player answers. Reading the commands and writing the answers is left
//! to the caller.

use vstd::prelude::*;
use vstd::string::{StrSliceExecFns, StringExecFns};
use crate::chessai::search::best_move;
use crate::chessai::Ai;
use crate::chessboard::fen::{digit_value, is_digit, parse_position};
use crate::chessboard::{Chessboard, Position};
use crate::utils::color::Color;

verus! {

/// What the caller of the protocol does after a command.
#[derive(Debug, PartialEq, Eq)]
pub enum Reply {
    /// Nothing.
    Silent,
    /// It writes the text, which may have several lines.
    Say(String),
    /// It stops reading commands.
    Quit,
}

/// A reply as mathematics sees it.
pub enum Answer {
    Silent,
    Say(Seq<char>),
    Quit,
}

impl View for Reply {
    type V = Answer;

    open spec fn view(&self) -> Answer {
        match self {
            Reply::Silent => Answer::Silent,
            Reply::Say(text) => Answer::Say(text@),
            Reply::Quit => Answer::Quit,
        }
    }
}

/// A player as mathematics sees it.
pub struct Player {
    pub position: Position,
    pub color: Color,
    pub is_end_game: bool,
    pub stalemate_draws: bool,
    pub search_depth: u32,
}

impl View for Ai {
    type V = Player;

    open spec fn view(&self) -> Player {
        Player {
            position: self.chessboard@,
            color: self.color,
            is_end_game: self.is_end_game,
            stalemate_draws: self.stalemate_draws,
            search_depth: self.search_depth,
        }
    }
}

/// Why a piece of text is no unsigned number.
#[derive(Debug, PartialEq, Eq, Clone, Copy)]
pub enum NumberError {
    /// The text is empty.
    Empty,
    /// A character is no digit; a sign alone counts as one.
    InvalidDigit,
    /// The number is larger than a `u64`.
    Overflow,
}

/// The number that the first `n` of `digits` stand for, or what is wrong
/// with the first of them that is wrong.
pub open spec fn scanned(digits: Seq<char>, n: nat) -> Result<nat, NumberError>
    decreases n,
{
    if n == 0 {
        Ok(0)
    } else {
        match scanned(digits, (n - 1) as nat) {
            Err(e) => Err(e),
            Ok(value) => if !is_digit(digits[n - 1]) {
                Err(NumberError::InvalidDigit)
            } else if value * 10 + digit_value(digits[n - 1]) > u64::MAX {
                Err(NumberError::Overflow)
            } else {
                Ok((value * 10 + digit_value(digits[n - 1])) as nat)
            },
        }
    }
}

/// The unsigned number that `text` stands for: digits, with a `+` before
/// them or not.
pub open spec fn unsigned(text: Seq<char>) -> Result<nat, NumberError> {
    let digits = if text.len() > 0 && text[0] == '+' {
        text.skip(1)
    } else {
        text
    };
    if text.len() == 0 {
        Err(NumberError::Empty)
    } else if digits.len() == 0 {
        Err(NumberError::InvalidDigit)
    } else {
        scanned(digits, digits.len())
    }
}

/// What is said of a text that is no number.
pub open spec fn number_complaint(e: NumberError) -> Seq<char> {
    match e {
        NumberError::Empty => "cannot parse integer from empty string"@,
        NumberError::InvalidDigit => "invalid digit found in string"@,
        NumberError::Overflow => "number too large to fit in target type"@,
    }
}

/// The pieces of text from number `from` to number `to`, with one space
/// between each two.
pub open spec fn joined(parts: Seq<Seq<char>>, from: int, to: int) -> Seq<char>
    decreases to - from,
{
    if from >= to {
        Seq::empty()
    } else if from + 1 == to {
        parts[from]
    } else {
        joined(parts, from, to - 1) + seq![' '] + parts[to - 1]
    }
}

/// The position after the moves that `texts` name from number `i` on are
/// made one after the other, and the number of the first text that names
/// no move or a move that does not fit, at which the making stops.
pub open spec fn played(p: Position, texts: Seq<Seq<char>>, i: int) -> (Position, Option<int>)
    decreases texts.len() - i,
{
    if i < 0 || i >= texts.len() {
        (p, None)
    } else {
        match p.parse_move(texts[i]) {
            Ok(m) => if p.admits(m) {
                played(p.make(m), texts, i + 1)
            } else {
                (p, Some(i))
            },
            Err(_) => (p, Some(i)),
        }
    }
}

/// The position from which a game starts.
pub open spec fn start_text() -> Seq<char> {
    "rnbqkbnr/pppppppp/8/8/8/8/PPPPPPPP/RNBQKBNR w KQkq - 0 1"@
}

impl Player {
    /// The answer to a request for the best move: the move that the search
    /// chooses, or four zeros in its place if there is no legal move.
    pub open spec fn best_move_line(self) -> Seq<char> {
        match best_move(self.position, self.stalemate_draws, self.search_depth as nat) {
            Some(m) => "bestmove "@ + m.text(),
            None => "bestmove 0000"@,
        }
    }

    /// The player with `position` on its board.
    pub open spec fn on(self, position: Position) -> Player {
        Player { position, ..self }
    }

    /// After the moves that `command` names from number `from` on: the
    /// player with the moves made, silent; or with the moves made that come
    /// before the first that cannot be, which it names.
    pub open spec fn after_moves(self, command: Seq<Seq<char>>, from: int) -> (Player, Answer) {
        let (position, stopped) = played(self.position, command, from);
        (
            self.on(position),
            match stopped {
                None => Answer::Silent,
                Some(i) => Answer::Say("Invalid move: "@ + command[i]),
            },
        )
    }

    /// After `position` and what follows: the board is set to the start of
    /// the game for `startpos` and to the position that the six pieces of
    /// text behind `fen` describe; then the moves behind `moves` are made.
    pub open spec fn after_position(self, command: Seq<Seq<char>>) -> (Player, Answer) {
        if command.len() < 2 {
            (self, Answer::Silent)
        } else if command[1] != "startpos"@ && command[1] != "fen"@ {
            (self, Answer::Say("Unknown position flag: "@ + command[1]))
        } else {
            let fen = command[1] == "fen"@;
            let moves_at: int = if fen {
                8
            } else {
                2
            };
            let last: int = if command.len() < 8 {
                command.len() as int
            } else {
                8
            };
            let text = if fen {
                joined(command, 2, last)
            } else {
                start_text()
            };
            match parse_position(text) {
                Err(_) => (self, Answer::Say("Invalid position: "@ + text)),
                Ok(position) => {
                    let set = self.on(position);
                    if command.len() < moves_at + 1 {
                        (set, Answer::Silent)
                    } else if command[moves_at] == "moves"@ {
                        set.after_moves(command, moves_at + 1)
                    } else {
                        (set, Answer::Say("Expected: moves\nGot: "@ + command[moves_at]))
                    }
                },
            }
        }
    }

    /// After `go` and what follows: for `movetime` and a number the player
    /// answers with its best move, which it searches for the side to move.
    pub open spec fn after_go(self, command: Seq<Seq<char>>) -> (Player, Answer) {
        if command.len() < 3 {
            (self, Answer::Silent)
        } else if command[1] == "movetime"@ {
            match unsigned(command[2]) {
                Err(e) => (self, Answer::Say("Invalid time: "@ + number_complaint(e))),
                Ok(_) => (Player { color: self.position.turn, ..self }, Answer::Say(self.best_move_line())),
            }
        } else {
            (self, Answer::Say("Unknown go command: "@ + command[1]))
        }
    }

    /// What a command, cut into pieces at its spaces, does to the player,
    /// and what the player answers.
    pub open spec fn after(self, inputs: Seq<Seq<char>>) -> (Player, Answer) {
        if inputs.len() == 0 {
            (self, Answer::Silent)
        } else if inputs[0] == "uci"@ {
            (self, Answer::Say("id name GetRusted\nid author Gilk\nuciok"@))
        } else if inputs[0] == "ucinewgame"@ {
            (self, Answer::Silent)
        } else if inputs[0] == "isready"@ {
            (self, Answer::Say("readyok"@))
        } else if inputs[0] == "position"@ {
            self.after_position(inputs)
        } else if inputs[0] == "go"@ {
            self.after_go(inputs)
        } else if inputs[0] == "quit"@ {
            (self, Answer::Quit)
        } else {
            (self, Answer::Say("Unknown command: "@ + inputs[0]))
        }
    }
}

/// The texts of the pieces of a command.
pub open spec fn texts(command: Seq<String>) -> Seq<Seq<char>> {
    command.map_values(|part: String| part@)
}

/// `head` and `tail`, one after the other.
fn say(head: &str, tail: &str) -> (reply: Reply)
    ensures
        reply@ == Answer::Say(head@ + tail@),
{
    let mut text = String::from_str(head);
    text.append(tail);
    Reply::Say(text)
}

/// Whether `part` reads `word`.
fn reads(part: &String, word: &str) -> (r: bool)
    ensures
        r == (part@ == word@),
{
    let wanted = String::from_str(word);
    *part == wanted
}

/// The unsigned number that `text` stands for.
pub fn parse_unsigned(text: &str) -> (r: Result<u64, NumberError>)
    ensures
        match r {
            Ok(n) => unsigned(text@) == Ok::<nat, NumberError>(n as nat),
            Err(e) => unsigned(text@) == Err::<nat, NumberError>(e),
        },
{
    let len = text.unicode_len();
    if len == 0 {
        return Err(NumberError::Empty);
    }
    let start: usize = if text.get_char(0) == '+' {
        1
    } else {
        0
    };
    if start == len {
        return Err(NumberError::InvalidDigit);
    }
    let ghost digits = if start == 1 {
        text@.skip(1)
    } else {
        text@
    };
    assert(digits.len() == len - start);
    let mut value: u64 = 0;
    let mut i: usize = start;
    while i < len
        invariant
            len == text@.len(),
            len > 0,
            start <= i <= len,
            start <= 1,
            (start == 1) == (text@[0] == '+'),
            digits == (if start == 1 {
                text@.skip(1)
            } else {
                text@
            }),
            scanned(digits, (i - start) as nat) == Ok::<nat, NumberError>(value as nat),
        decreases len - i,
    {
        let c = text.get_char(i);
        proof {
            assert(digits[i - start] == c);
        }
        if !(c >= '0' && c <= '9') {
            proof {
                assert(scanned(digits, (i - start + 1) as nat) == Err::<nat, NumberError>(
                    NumberError::InvalidDigit,
                ));
                lemma_scanned_fails(digits, (i - start + 1) as nat, digits.len());
            }
            return Err(NumberError::InvalidDigit);
        }
        let digit: u64 = (c as u32 - '0' as u32) as u64;
        if value > (u64::MAX - digit) / 10 {
            proof {
                assert(value * 10 + digit > u64::MAX);
                assert(digit == digit_value(c));
                assert(scanned(digits, (i - start + 1) as nat) == Err::<nat, NumberError>(NumberError::Overflow));
                lemma_scanned_fails(digits, (i - start + 1) as nat, digits.len());
            }
            return Err(NumberError::Overflow);
        }
        proof {
            assert(digit == digit_value(c));
        }
        value = value * 10 + digit;
        i = i + 1;
    }
    Ok(value)
}

/// Once the reading of a number has failed it stays failed, in the same
/// way.
proof fn lemma_scanned_fails(digits: Seq<char>, n: nat, later: nat)
    requires
        n <= later,
        scanned(digits, n) is Err,
    ensures
        scanned(digits, later) == scanned(digits, n),
    decreases later - n,
{
    if n < later {
        lemma_scanned_fails(digits, n, (later - 1) as nat);
    }
}

impl Ai {
    /// The player is at rest on a sound board.
    pub open spec fn ready(&self) -> bool {
        self.chessboard.wf() && !self.is_end_game
    }

    /// The answer to `uci`: who the player is.
    pub fn handle_uci_cmd(&self) -> (reply: Reply)
        ensures
            reply@ == Answer::Say("id name GetRusted\nid author Gilk\nuciok"@),
    {
        Reply::Say(String::from_str("id name GetRusted\nid author Gilk\nuciok"))
    }

    /// The answer to `isready`.
    pub fn handle_isready_cmd(&self) -> (reply: Reply)
        ensures
            reply@ == Answer::Say("readyok"@),
    {
        Reply::Say(String::from_str("readyok"))
    }

    /// Makes the moves that `command` names from number `from` on, as far
    /// as they can be made.
    pub fn handle_moves_cmd(&mut self, command: &Vec<String>, from: usize) -> (reply: Reply)
        requires
            old(self).ready(),
            from <= command@.len(),
        ensures
            final(self).ready(),
            (final(self)@, reply@) == old(self)@.after_moves(texts(command@), from as int),
    {
        let ghost all = texts(command@);
        let ghost start = self@;
        let mut i: usize = from;
        while i < command.len()
            invariant
                self.ready(),
                all == texts(command@),
                start == old(self)@,
                from <= i <= command@.len(),
                self@ == start.on(self.chessboard@),
                played(start.position, all, from as int) == played(self.chessboard@, all, i as int),
            decreases command@.len() - i,
        {
            assert(all[i as int] == command@[i as int]@);
            let ghost here = self.chessboard@;
            let part = command[i].clone();
            assert(part@ == all[i as int]);
            let mv = match self.chessboard.generate_move_from_string(part) {
                Ok(mv) => mv,
                Err(_) => {
                    assert(played(here, all, i as int) == (here, Some(i as int)));
                    return say("Invalid move: ", command[i].as_str());
                },
            };
            if !self.chessboard.accepts(&mv) {
                assert(played(here, all, i as int) == (here, Some(i as int)));
                return say("Invalid move: ", command[i].as_str());
            }
            assert(played(here, all, i as int) == played(here.make(mv), all, i as int + 1));
            self.chessboard.make_move(&mv);
            i = i + 1;
        }
        Reply::Silent
    }

    /// Sets the board as `position` and what follows says, and makes the
    /// moves that follow.
    pub fn handle_position_cmd(&mut self, command: &Vec<String>) -> (reply: Reply)
        requires
            old(self).ready(),
        ensures
            final(self).ready(),
            (final(self)@, reply@) == old(self)@.after_position(texts(command@)),
    {
        let ghost all = texts(command@);
        if command.len() < 2 {
            return Reply::Silent;
        }
        assert(all[1] == command@[1]@);
        let fen = reads(&command[1], "fen");
        if !fen && !reads(&command[1], "startpos") {
            return say("Unknown position flag: ", command[1].as_str());
        }
        let index_moves: usize = if fen {
            8
        } else {
            2
        };
        let text = if fen {
            let last: usize = if command.len() < 8 {
                command.len()
            } else {
                8
            };
            join(command, 2, last)
        } else {
            String::from_str("rnbqkbnr/pppppppp/8/8/8/8/PPPPPPPP/RNBQKBNR w KQkq - 0 1")
        };
        match Chessboard::new(text.clone()) {
            Ok(chessboard) => {
                self.chessboard = chessboard;
            },
            Err(_) => {
                return say("Invalid position: ", text.as_str());
            },
        }
        if command.len() < index_moves + 1 {
            return Reply::Silent;
        }
        assert(all[index_moves as int] == command@[index_moves as int]@);
        if reads(&command[index_moves], "moves") {
            self.handle_moves_cmd(command, index_moves + 1)
        } else {
            say("Expected: moves\nGot: ", command[index_moves].as_str())
        }
    }

    /// Answers `go` and what follows.
    pub fn handle_go_cmd(&mut self, command: &Vec<String>) -> (reply: Reply)
        requires
            old(self).ready(),
        ensures
            final(self).ready(),
            (final(self)@, reply@) == old(self)@.after_go(texts(command@)),
    {
        let ghost all = texts(command@);
        if command.len() < 3 {
            return Reply::Silent;
        }
        assert(all[1] == command@[1]@);
        assert(all[2] == command@[2]@);
        if reads(&command[1], "movetime") {
            self.handle_movetime_cmd(command[2].as_str())
        } else {
            say("Unknown go command: ", command[1].as_str())
        }
    }

    /// Answers with the best move if `time` is a number. The time itself
    /// does not bound the search: the search depth of the player does.
    pub fn handle_movetime_cmd(&mut self, time: &str) -> (reply: Reply)
        requires
            old(self).ready(),
        ensures
            final(self).ready(),
            match unsigned(time@) {
                Err(e) => final(self)@ == old(self)@ && reply@ == Answer::Say(
                    "Invalid time: "@ + number_complaint(e),
                ),
                Ok(_) => final(self)@ == (Player { color: old(self).chessboard.turn, ..old(self)@ }) && reply@
                    == Answer::Say(old(self)@.best_move_line()),
            },
    {
        match parse_unsigned(time) {
            Err(e) => {
                let complaint = match e {
                    NumberError::Empty => "cannot parse integer from empty string",
                    NumberError::InvalidDigit => "invalid digit found in string",
                    NumberError::Overflow => "number too large to fit in target type",
                };
                say("Invalid time: ", complaint)
            },
            Ok(_) => self.compute_best_move(),
        }
    }

    /// Answers with the best move for the side to move, or with four zeros
    /// in its place if there is no legal move.
    pub fn compute_best_move(&mut self) -> (reply: Reply)
        requires
            old(self).ready(),
        ensures
            final(self).ready(),
            final(self)@ == (Player { color: old(self).chessboard.turn, ..old(self)@ }),
            reply@ == Answer::Say(old(self)@.best_move_line()),
    {
        let depth = self.search_depth;
        match self.find_best_move(depth) {
            Some(mv) => {
                let text = mv.to_string();
                say("bestmove ", text.as_str())
            },
            None => Reply::Say(String::from_str("bestmove 0000")),
        }
    }

    /// Does what a command says, cut into pieces at its spaces, and gives
    /// the answer to it.
    pub fn handle_command(&mut self, inputs: &Vec<String>) -> (reply: Reply)
        requires
            old(self).ready(),
        ensures
            final(self).ready(),
            (final(self)@, reply@) == old(self)@.after(texts(inputs@)),
    {
        let ghost all = texts(inputs@);
        if inputs.len() == 0 {
            return Reply::Silent;
        }
        assert(all[0] == inputs@[0]@);
        let cmd = &inputs[0];
        if reads(cmd, "uci") {
            self.handle_uci_cmd()
        } else if reads(cmd, "ucinewgame") {
            Reply::Silent
        } else if reads(cmd, "isready") {
            self.handle_isready_cmd()
        } else if reads(cmd, "position") {
            self.handle_position_cmd(inputs)
        } else if reads(cmd, "go") {
            self.handle_go_cmd(inputs)
        } else if reads(cmd, "quit") {
            Reply::Quit
        } else {
            say("Unknown command: ", cmd.as_str())
        }
    }
}

/// The pieces of `command` from number `from` to number `to`, with one
/// space between each two.
fn join(command: &Vec<String>, from: usize, to: usize) -> (text: String)
    requires
        from <= to <= command@.len(),
    ensures
        text@ == joined(texts(command@), from as int, to as int),
{
    let ghost all = texts(command@);
    let mut text = String::from_str("");
    proof {
        reveal_strlit("");
        assert(text@ =~= Seq::<char>::empty());
    }
    let mut i: usize = from;
    while i < to
        invariant
            from <= i <= to <= command@.len(),
            all == texts(command@),
            text@ == joined(all, from as int, i as int),
        decreases to - i,
    {
        assert(all[i as int] == command@[i as int]@);
        if i > from {
            proof {
                reveal_strlit(" ");
                assert(" "@ =~= seq![' ']);
            }
            text.append(" ");
        }
        text.append(command[i].as_str());
        proof {
            assert(text@ =~= joined(all, from as int, i as int + 1));
        }
        i = i + 1;
    }
    text
}

} // verus!
