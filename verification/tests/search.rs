use chessengine::chessai::evaluation::basic::material::{compute_balance_piece, material_balance, piece_value};
use chessengine::chessai::evaluation::{MAX_SCORE, MIN_SCORE};
use chessengine::chessai::uci::{parse_unsigned, NumberError, Reply};
use chessengine::chessai::Ai;
use chessengine::chessboard::moves::Move;
use chessengine::chessboard::Chessboard;
use chessengine::utils::color::Color;
use chessengine::utils::piece::Piece;

fn board(fen: &str) -> Chessboard {
    Chessboard::new(fen.to_string()).unwrap()
}

fn player(fen: &str) -> Ai {
    Ai::new(fen.to_string()).unwrap()
}

fn words(line: &str) -> Vec<String> {
    line.split(' ').map(String::from).collect()
}

fn names(moves: &Vec<Move>) -> Vec<String> {
    moves.iter().map(|m| m.to_string()).collect()
}

#[test]
fn test_piece_values_and_material() {
    assert_eq!(piece_value(&Piece::Pawn), 100);
    assert_eq!(piece_value(&Piece::Knight), 350);
    assert_eq!(piece_value(&Piece::Bishop), 350);
    assert_eq!(piece_value(&Piece::Rook), 525);
    assert_eq!(piece_value(&Piece::Queen), 1000);
    assert_eq!(piece_value(&Piece::King), 2000);
    let start = board("rnbqkbnr/pppppppp/8/8/8/8/PPPPPPPP/RNBQKBNR w KQkq - 0 1");
    assert_eq!(material_balance(&start, &Color::White), 0);
    let ahead = board("4k3/8/8/8/8/8/PP6/RN2K3 w - - 0 1");
    assert_eq!(material_balance(&ahead, &Color::White), 200 + 350 + 525);
    assert_eq!(material_balance(&ahead, &Color::Black), -(200 + 350 + 525));
    assert_eq!(compute_balance_piece(&ahead, &Piece::Pawn, &Color::White), 200);
    assert_eq!(compute_balance_piece(&ahead, &Piece::King, &Color::White), 0);
    assert_eq!(compute_balance_piece(&ahead, &Piece::Rook, &Color::Black), -525);
}

#[test]
fn test_evaluate_board() {
    // A checkmate of the player and one of the opponent.
    let mut mated = player("7k/5KQ1/8/8/8/8/8/8 b - - 0 1");
    mated.is_end_game = true;
    assert_eq!(mated.evaluate_board(&Color::Black), MIN_SCORE);
    assert!(!mated.is_end_game);
    mated.color = Color::White;
    mated.is_end_game = true;
    assert_eq!(mated.evaluate_board(&Color::Black), MAX_SCORE);
    // A stalemate, with the player and with the opponent to move.
    let mut stale = player("7k/5K2/6Q1/8/8/8/8/8 b - - 0 1");
    stale.is_end_game = true;
    assert_eq!(stale.evaluate_board(&Color::Black), 0);
    stale.color = Color::White;
    stale.is_end_game = true;
    assert_eq!(stale.evaluate_board(&Color::Black), 0);
    stale.stalemate_draws = false;
    stale.is_end_game = true;
    assert_eq!(stale.evaluate_board(&Color::Black), -1000);
    // Not at the end of the game the material counts.
    assert_eq!(stale.evaluate_board(&Color::White), 1000);
}

#[test]
fn test_search_scores_a_checkmate_as_lost_at_depth_zero() {
    let mut mated = player("7k/5KQ1/8/8/8/8/8/8 b - - 0 1");
    let before = board("7k/5KQ1/8/8/8/8/8/8 b - - 0 1");
    assert_eq!(mated.alpha_beta(0, MIN_SCORE, MAX_SCORE), MIN_SCORE);
    assert_eq!(mated.alpha_beta(3, MIN_SCORE, MAX_SCORE), MIN_SCORE);
    assert_eq!(mated.chessboard, before);
    mated.color = Color::White;
    assert_eq!(mated.alpha_beta(0, MIN_SCORE, MAX_SCORE), MAX_SCORE);
    let mut stale = player("7k/5K2/6Q1/8/8/8/8/8 b - - 0 1");
    assert_eq!(stale.alpha_beta(0, MIN_SCORE, MAX_SCORE), 0);
    assert_eq!(stale.alpha_beta(2, MIN_SCORE, MAX_SCORE), 0);
}

#[test]
fn test_alpha_beta_at_depth_zero_counts_material() {
    let mut ai = player("4k3/8/8/8/8/8/PP6/RN2K3 w - - 0 1");
    assert_eq!(ai.alpha_beta(0, MIN_SCORE, MAX_SCORE), 200 + 350 + 525);
    assert_eq!(ai.negamax(&Color::White, 0), 200 + 350 + 525);
    assert_eq!(ai.negamax(&Color::Black, 0), 200 + 350 + 525);
}

#[test]
fn test_find_best_move_takes_the_mate() {
    let mut ai = player("7k/8/5KQ1/8/8/8/8/8 w - - 0 1");
    let before = board("7k/8/5KQ1/8/8/8/8/8 w - - 0 1");
    let best = ai.find_best_move(1).unwrap();
    assert_eq!(best.to_string(), "g6g7");
    assert_eq!(ai.chessboard, before);
    assert_eq!(ai.color, Color::White);
    // Asked twice, it answers the same.
    assert_eq!(ai.find_best_move(1), Some(best));
    let mut other = player("7k/8/5KQ1/8/8/8/8/8 w - - 0 1");
    assert_eq!(other.find_best_move(1), Some(best));
}

#[test]
fn test_find_best_move_has_no_move_at_the_end_of_the_game() {
    assert_eq!(player("7k/5KQ1/8/8/8/8/8/8 b - - 0 1").find_best_move(2), None);
    assert_eq!(player("7k/5K2/6Q1/8/8/8/8/8 b - - 0 1").find_best_move(2), None);
    // With every move losing there still is a move.
    let mut lost = player("k7/8/2K5/1Q6/8/8/8/8 b - - 0 1");
    assert_eq!(lost.find_best_move(1).map(|m| m.to_string()), Some("a8a7".to_string()));
}

#[test]
fn test_find_best_move_takes_the_first_of_equal_moves() {
    // Two kings: every move scores the same, so the first in the order of
    // the search is chosen.
    let mut ai = player("7k/8/8/8/8/8/8/K7 w - - 0 1");
    let mut legal = ai.chessboard.generate_legal_moves();
    ai.chessboard.order_moves(&mut legal);
    assert_eq!(names(&legal), vec!["a1a2", "a1b2", "a1b1"]);
    assert_eq!(ai.find_best_move(1), Some(legal[0]));
}

#[test]
fn test_see() {
    // A quiet move is worth nothing.
    let mut chessboard = board("4k3/8/8/3p4/4P3/8/8/4K3 w - - 0 1");
    let before = board("4k3/8/8/3p4/4P3/8/8/4K3 w - - 0 1");
    let quiet = chessboard.generate_move_from_string("e4e5".to_string()).unwrap();
    assert_eq!(chessboard.see(&quiet), 0);
    // A pawn that nothing takes back.
    let free = chessboard.generate_move_from_string("e4d5".to_string()).unwrap();
    assert_eq!(chessboard.see(&free), 100);
    assert_eq!(chessboard, before);
    // A pawn that is taken back by a pawn.
    let mut defended = board("4k3/8/2p5/3p4/4P3/8/8/4K3 w - - 0 1");
    let trade = defended.generate_move_from_string("e4d5".to_string()).unwrap();
    assert_eq!(defended.see(&trade), 100 - 100);
    // A queen takes a defended pawn.
    let mut greedy = board("4k3/8/2p5/3p4/8/8/8/3QK3 w - - 0 1");
    let grab = greedy.generate_move_from_string("d1d5".to_string()).unwrap();
    assert_eq!(greedy.see(&grab), 100 - 1000);
    // A promotion that nothing answers.
    let mut last = board("8/P7/8/8/8/8/8/k1K5 w - - 0 1");
    let queen = last.generate_move_from_string("a7a8q".to_string()).unwrap();
    assert_eq!(last.see(&queen), 1000);
}

#[test]
fn test_order_moves() {
    let mut chessboard = board("4k3/8/2p5/3p1r2/4P3/8/8/4K3 w - - 0 1");
    let before = board("4k3/8/2p5/3p1r2/4P3/8/8/4K3 w - - 0 1");
    let mut moves = chessboard.generate_legal_moves();
    let given = names(&moves);
    chessboard.order_moves(&mut moves);
    assert_eq!(chessboard, before);
    let sorted = names(&moves);
    // The rook is worth most, then come the moves worth nothing in the
    // order they had.
    assert_eq!(sorted[0], "e4f5");
    let rest: Vec<String> = given.iter().filter(|m| *m != "e4f5").cloned().collect();
    assert_eq!(sorted[1..].to_vec(), rest);
    let mut values = Vec::new();
    for mv in moves.iter() {
        values.push(chessboard.see(mv));
    }
    for pair in values.windows(2) {
        assert!(pair[0] >= pair[1]);
    }
    assert_eq!(values[0], 525);
}

#[test]
fn test_parse_unsigned() {
    assert_eq!(parse_unsigned("0"), Ok(0));
    assert_eq!(parse_unsigned("1500"), Ok(1500));
    assert_eq!(parse_unsigned("+42"), Ok(42));
    assert_eq!(parse_unsigned("18446744073709551615"), Ok(u64::MAX));
    assert_eq!(parse_unsigned("18446744073709551616"), Err(NumberError::Overflow));
    assert_eq!(parse_unsigned("99999999999999999999x"), Err(NumberError::Overflow));
    assert_eq!(parse_unsigned(""), Err(NumberError::Empty));
    assert_eq!(parse_unsigned("+"), Err(NumberError::InvalidDigit));
    assert_eq!(parse_unsigned("-1"), Err(NumberError::InvalidDigit));
    assert_eq!(parse_unsigned("12a"), Err(NumberError::InvalidDigit));
    for text in ["0", "1500", "+42", "18446744073709551616", "", "+", "-1", "12a", "007"] {
        assert_eq!(parse_unsigned(text).is_ok(), text.parse::<u64>().is_ok());
        if let Ok(n) = text.parse::<u64>() {
            assert_eq!(parse_unsigned(text), Ok(n));
        }
    }
}

#[test]
fn test_protocol_answers() {
    let mut ai = player("rnbqkbnr/pppppppp/8/8/8/8/PPPPPPPP/RNBQKBNR w KQkq - 0 1");
    assert_eq!(ai.handle_command(&words("uci")), Reply::Say("id name GetRusted\nid author Gilk\nuciok".to_string()));
    assert_eq!(ai.handle_command(&words("isready")), Reply::Say("readyok".to_string()));
    assert_eq!(ai.handle_command(&words("ucinewgame")), Reply::Silent);
    assert_eq!(ai.handle_command(&words("quit")), Reply::Quit);
    assert_eq!(ai.handle_command(&words("hello there")), Reply::Say("Unknown command: hello".to_string()));
    assert_eq!(ai.handle_command(&words("")), Reply::Say("Unknown command: ".to_string()));
    assert_eq!(ai.handle_command(&Vec::new()), Reply::Silent);
    assert_eq!(ai.handle_command(&words("go")), Reply::Silent);
    assert_eq!(ai.handle_command(&words("go depth 3")), Reply::Say("Unknown go command: depth".to_string()));
    assert_eq!(
        ai.handle_command(&words("go movetime soon")),
        Reply::Say("Invalid time: invalid digit found in string".to_string())
    );
    assert_eq!(
        ai.handle_command(&words("go movetime 99999999999999999999")),
        Reply::Say("Invalid time: number too large to fit in target type".to_string())
    );
    assert_eq!(
        ai.handle_command(&words("go movetime ")),
        Reply::Say("Invalid time: cannot parse integer from empty string".to_string())
    );
    assert_eq!(ai.handle_command(&words("position")), Reply::Silent);
    assert_eq!(ai.handle_command(&words("position here")), Reply::Say("Unknown position flag: here".to_string()));
    assert_eq!(ai.handle_uci_cmd(), Reply::Say("id name GetRusted\nid author Gilk\nuciok".to_string()));
    assert_eq!(ai.handle_isready_cmd(), Reply::Say("readyok".to_string()));
}

#[test]
fn test_protocol_sets_the_position_and_makes_the_moves() {
    let mut ai = player("8/8/8/8/8/8/8/K6k w - - 0 1");
    assert_eq!(ai.handle_command(&words("position startpos")), Reply::Silent);
    assert_eq!(ai.chessboard, board("rnbqkbnr/pppppppp/8/8/8/8/PPPPPPPP/RNBQKBNR w KQkq - 0 1"));
    assert_eq!(ai.handle_command(&words("position startpos moves e2e4 e7e5 g1f3")), Reply::Silent);
    assert_eq!(ai.chessboard.to_fen(), "rnbqkbnr/pppp1ppp/8/4p3/4P3/5N2/PPPP1PPP/RNBQKB1R b KQkq - 0 2 1");
    assert_eq!(
        ai.handle_command(&words("position startpos moves e2e4 e2e4 g1f3")),
        Reply::Say("Invalid move: e2e4".to_string())
    );
    assert_eq!(ai.chessboard.to_fen(), "rnbqkbnr/pppppppp/8/8/4P3/8/PPPP1PPP/RNBQKBNR b KQkq e3 0 1 1");
    assert_eq!(
        ai.handle_command(&words("position startpos moves e2e9")),
        Reply::Say("Invalid move: e2e9".to_string())
    );
    assert_eq!(
        ai.handle_command(&words("position startpos now e2e4")),
        Reply::Say("Expected: moves\nGot: now".to_string())
    );
    assert_eq!(ai.handle_command(&words("position fen 7k/8/5KQ1/8/8/8/8/8 w - - 0 1")), Reply::Silent);
    assert_eq!(ai.chessboard, board("7k/8/5KQ1/8/8/8/8/8 w - - 0 1"));
    assert_eq!(ai.handle_command(&words("go movetime 1000")), Reply::Say("bestmove g6g7".to_string()));
    assert_eq!(
        ai.handle_command(&words("position fen 7k/8/5KQ1/8/8/8/8/8 w - - 0 1 moves g6g7")),
        Reply::Silent
    );
    assert_eq!(ai.handle_command(&words("go movetime 1000")), Reply::Say("bestmove 0000".to_string()));
    assert_eq!(
        ai.handle_command(&words("position fen 7k/8/5KQ1/9 w - - 0 1")),
        Reply::Say("Invalid position: 7k/8/5KQ1/9 w - - 0 1".to_string())
    );
    assert_eq!(ai.chessboard.to_fen(), "7k/6Q1/5K2/8/8/8/8/8 b - - 0 1 1");
    assert_eq!(ai.handle_command(&words("position fen")), Reply::Say("Invalid position: ".to_string()));
}

#[test]
fn test_board_as_text() {
    for fen in [
        "rnbqkbnr/pppppppp/8/8/8/8/PPPPPPPP/RNBQKBNR w KQkq - 0 1 1",
        "r3k2r/p1ppqpb1/bn2pnp1/3PN3/1p2P3/2N2Q1p/PPPBBPPP/R3K2R w Kq - 12 345 1",
        "8/8/8/8/8/8/8/8 b - - 255 65535 1",
        "rnbqkbnr/pppp1ppp/8/8/3Pp3/8/PPP1PPPP/RNBQKBNR b KQkq d3 0 3 1",
    ] {
        assert_eq!(board(fen).to_fen(), fen);
    }
    let picture = board("r6k/8/8/8/8/8/8/K6R w - - 0 1").pretty_print();
    let lines: Vec<&str> = picture.lines().collect();
    assert_eq!(lines.len(), 8);
    assert_eq!(lines[0], "\u{2656} . . . . . . \u{2654}");
    assert_eq!(lines[3], ". . . . . . . .");
    assert_eq!(lines[7], "\u{265a} . . . . . . \u{265c}");
    assert!(picture.ends_with('\n'));
    let pawn = board("8/8/8/8/8/8/P7/8 w - - 0 1").pretty_print();
    assert!(pawn.lines().nth(6).unwrap().starts_with("\u{265f}\u{fe0e} ."));
}

#[test]
fn test_alpha_beta_looks_ahead() {
    // At the leaves the side to move counts its material: after the pawn
    // is taken Black counts one pawn less, after a quiet move none.
    let mut ai = player("4k3/8/8/3p4/4P3/8/8/4K3 w - - 0 1");
    let before = board("4k3/8/8/3p4/4P3/8/8/4K3 w - - 0 1");
    assert_eq!(ai.alpha_beta(1, MIN_SCORE, MAX_SCORE), 0);
    assert_eq!(ai.chessboard, before);
    assert!(!ai.is_end_game);
    // Two moves deep White counts again: Black takes the pawn if it can.
    assert_eq!(ai.alpha_beta(2, MIN_SCORE, MAX_SCORE), 100);
    assert_eq!(ai.chessboard, before);
    // A window that the first move already closes ends the search.
    assert_eq!(ai.alpha_beta(1, 0, 0), -100);
    // Mate in one is found two moves deep.
    let mut mating = player("7k/8/5KQ1/8/8/8/8/8 w - - 0 1");
    assert_eq!(mating.alpha_beta(2, MIN_SCORE, MAX_SCORE), MAX_SCORE);
}

#[test]
fn test_negamax_looks_ahead() {
    let mut ai = player("4k3/8/8/3p4/4P3/8/8/4K3 w - - 0 1");
    let before = board("4k3/8/8/3p4/4P3/8/8/4K3 w - - 0 1");
    // One move deep each move scores as the material after it of the side
    // that the search is for: taking the pawn is best for White.
    assert_eq!(ai.negamax(&Color::White, 1), 100);
    assert_eq!(ai.negamax(&Color::Black, 1), 0);
    assert_eq!(ai.chessboard, before);
    // Without a legal move the lowest score comes back.
    let mut mated = player("7k/5KQ1/8/8/8/8/8/8 b - - 0 1");
    assert_eq!(mated.negamax(&Color::Black, 2), MIN_SCORE);
    assert_eq!(mated.negamax(&Color::Black, 0), MIN_SCORE);
    assert_eq!(mated.negamax(&Color::White, 0), 0);
    assert!(!mated.is_end_game);
}

#[test]
fn test_new_player() {
    let ai = player("4k3/8/8/8/8/8/8/4K3 b - - 0 1");
    assert_eq!(ai.color, Color::Black);
    assert!(!ai.is_end_game);
    assert!(ai.stalemate_draws);
    assert_eq!(ai.search_depth, 3);
    assert!(Ai::new("4k3/8/8 w".to_string()).is_err());
}
