use chessengine::chessboard::fen::FenError;
use chessengine::chessboard::moves::{Move, MoveTextError};
use chessengine::chessboard::Chessboard;
use chessengine::utils::color::Color;
use chessengine::utils::file::File;
use chessengine::utils::piece::Piece;
use chessengine::utils::rank::Rank;
use chessengine::utils::square::Square;

fn board(fen: &str) -> Chessboard {
    Chessboard::new(fen.to_string()).unwrap()
}

fn check_is_attacked_square(fen: &str, square: Square, color: &Color, expected: bool) {
    let chessboard = board(fen);
    assert_eq!(chessboard.is_attacked_square(square.to_bitboard(), color), expected);
}

#[test]
fn test_check() {
    check_is_attacked_square("8/8/8/8/8/8/3p4/4K3 w - - 0 1 1", Square::from_string("e1"), &Color::White, true);
    check_is_attacked_square("8/8/8/8/8/8/2n5/4K3 w - - 0 1 1", Square::from_string("e1"), &Color::White, true);
    check_is_attacked_square("8/4r3/8/8/8/8/8/4K3 w - - 0 1 1", Square::from_string("e1"), &Color::White, true);

    // The queen gives check to the white king; the side to move has no king.
    let chessboard = board("8/8/4q3/8/8/8/8/4K3 b - - 0 1 1");
    assert_eq!(chessboard.is_king_attacked(&Color::White), true);
    assert_eq!(chessboard.is_in_check(), false);
    assert_eq!(board("8/8/4q3/8/8/8/8/4K3 w - - 0 1 1").is_in_check(), true);
}

fn compare_chessboard(actual: Chessboard, expected: Chessboard) {
    assert_eq!(actual.get_pieces(&Piece::Pawn), expected.get_pieces(&Piece::Pawn), "Test pawns");
    assert_eq!(actual.get_pieces(&Piece::King), expected.get_pieces(&Piece::King), "Test kings");
    assert_eq!(actual.get_pieces(&Piece::Queen), expected.get_pieces(&Piece::Queen), "Test queens");
    assert_eq!(actual.get_pieces(&Piece::Bishop), expected.get_pieces(&Piece::Bishop), "Test bishops");
    assert_eq!(actual.get_pieces(&Piece::Knight), expected.get_pieces(&Piece::Knight), "Test knights");
    assert_eq!(actual.get_pieces(&Piece::Rook), expected.get_pieces(&Piece::Rook), "Test rooks");
    assert_eq!(actual.get_colors(&Color::White), expected.get_colors(&Color::White), "Test whites");
    assert_eq!(actual.get_colors(&Color::Black), expected.get_colors(&Color::Black), "Test, blacks");
    assert_eq!(actual.empty_board, expected.empty_board, "Test empty board");
    assert_eq!(actual.turn, expected.turn, "Test turn");
    assert_eq!(actual.white_castle, expected.white_castle, "Test white castle");
    assert_eq!(actual.black_castle, expected.black_castle, "Test black castle");
    assert_eq!(actual.en_passant, expected.en_passant, "Test en passant");
    assert_eq!(actual.fullmove_number, expected.fullmove_number, "Test fullmove");
    assert_eq!(actual.perft_depth, expected.perft_depth, "Test depth");
}

#[test]
fn test_generate_move_from_string() {
    let chessboard = board("rnbqkbnr/pppppppp/8/8/8/8/PPPPPPPP/RNBQKBNR w KQkq - 0 1");
    let mv = chessboard.generate_move_from_string("e2e4".to_string()).unwrap();
    let expected: Move = Move {
        from: Square::from_string("e2"),
        to: Square::from_string("e4"),
        capture: None,
        promotion: None,
    };
    assert_eq!(mv, expected);
}

fn check_make_move(fen: &str, mv: &str, expected: &str) {
    let mut chessboard = board(fen);
    let mv = chessboard.generate_move_from_string(mv.to_string()).unwrap();
    chessboard.make_move(&mv);
    let expected = board(expected);
    compare_chessboard(chessboard, expected);
}

#[test]
fn test_make_move_pawn() {
    // Quiet move
    check_make_move("rnbqkbnr/pppppppp/8/8/8/8/PPPPPPPP/RNBQKBNR w KQkq - 0 1 1", "e2e3", "rnbqkbnr/pppppppp/8/8/8/4P3/PPPP1PPP/RNBQKBNR b KQkq - 0 1 0");
    check_make_move("rnbqkbnr/pppppppp/8/8/8/8/PPPPPPPP/RNBQKBNR w KQkq - 0 1 1", "e2e4", "rnbqkbnr/pppppppp/8/8/4P3/8/PPPP1PPP/RNBQKBNR b KQkq e3 0 1 0");

    check_make_move("rnbqkbnr/pppppppp/8/8/8/4P3/PPPP1PPP/RNBQKBNR b KQkq - 0 1 1", "e7e6", "rnbqkbnr/pppp1ppp/4p3/8/8/4P3/PPPP1PPP/RNBQKBNR w KQkq - 0 2 0");
    check_make_move("rnbqkbnr/pppppppp/8/8/4P3/8/PPPP1PPP/RNBQKBNR b KQkq e3 0 1 1", "e7e5", "rnbqkbnr/pppp1ppp/8/4p3/4P3/8/PPPP1PPP/RNBQKBNR w KQkq e6 0 2 0");

    // Capture move
    check_make_move("rnbqkbnr/pppp1ppp/8/4p3/3P4/8/PPP1PPPP/RNBQKBNR w KQkq - 0 2 1", "d4e5", "rnbqkbnr/pppp1ppp/8/4P3/8/8/PPP1PPPP/RNBQKBNR b KQkq - 0 2 0");
    check_make_move("rnbqkbnr/pppp1ppp/8/4p3/3P4/8/PPP1PPPP/RNBQKBNR b KQkq - 0 2 1", "e5d4", "rnbqkbnr/pppp1ppp/8/8/3p4/8/PPP1PPPP/RNBQKBNR w KQkq - 0 3 0");

    // En passant
    check_make_move("rnbqkbnr/pppp1ppp/8/3Pp3/8/8/PPP1PPPP/RNBQKBNR w KQkq e6 0 2 1", "d5e6", "rnbqkbnr/pppp1ppp/4P3/8/8/8/PPP1PPPP/RNBQKBNR b KQkq - 0 2 0");
    check_make_move("rnbqkbnr/pppp1ppp/8/8/3Pp3/8/PPP1PPPP/RNBQKBNR b KQkq d3 0 3 1", "e4d3", "rnbqkbnr/pppp1ppp/8/8/8/3p4/PPP1PPPP/RNBQKBNR w KQkq - 0 4 0");

    // Promotion
    check_make_move("8/P7/8/8/8/8/8/8 w - - 0 1 1", "a7a8q", "Q7/8/8/8/8/8/8/8 b - - 0 1 0");
    check_make_move("8/8/8/8/8/8/p7/8 b - - 0 1 1", "a2a1q", "8/8/8/8/8/8/8/q7 w - - 0 2 0");
}

fn check_unmake_move(fen: &str, mv: &str) {
    let mut chessboard = board(fen);
    let mv = chessboard.generate_move_from_string(mv.to_string()).unwrap();
    chessboard.make_move(&mv);
    chessboard.unmake_move(&mv);
    let expected = board(fen);
    compare_chessboard(chessboard, expected);
}

#[test]
fn test_unmake_move_pawn() {
    // Quiet move
    check_unmake_move("rnbqkbnr/pppppppp/8/8/8/8/PPPPPPPP/RNBQKBNR w KQkq - 0 1 1", "e2e3");
    check_unmake_move("rnbqkbnr/pppppppp/8/8/4P3/8/PPPP1PPP/RNBQKBNR b KQkq e3 0 1 1", "e7e6");

    check_unmake_move("rnbqkbnr/pppppppp/8/8/8/8/PPPPPPPP/RNBQKBNR w KQkq - 0 1 1", "e2e4");
    check_unmake_move("rnbqkbnr/pppppppp/8/8/4P3/8/PPPP1PPP/RNBQKBNR b KQkq e3 0 1 1", "e7e5");

    // Capture move
    check_unmake_move("rnbqkbnr/pppp1ppp/8/4p3/3P4/8/PPP1PPPP/RNBQKBNR w KQkq - 0 2 1", "d4e5");
    check_unmake_move("rnbqkbnr/pppp1ppp/8/4p3/3P4/8/PPP1PPPP/RNBQKBNR b KQkq - 0 2 1", "e5d4");

    // En passant
    check_unmake_move("rnbqkbnr/pppp1ppp/8/3Pp3/8/8/PPP1PPPP/RNBQKBNR w KQkq e6 0 2 1", "d5e6");
    check_unmake_move("rnbqkbnr/pppp1ppp/8/8/3Pp3/8/PPP1PPPP/RNBQKBNR b KQkq d3 0 3 1", "e4d3");

    // Promotion
    check_unmake_move("8/P7/8/8/8/8/8/8 w - - 0 1 1", "a7a8q");
    check_unmake_move("8/8/8/8/8/8/p7/8 b - - 0 1 1", "a2a1q");
}

#[test]
fn test_new_reads_every_field() {
    let chessboard = board("r3k2r/8/8/8/4P3/8/8/R3K2R b Kq e3 7 42 3");
    assert_eq!(chessboard.turn, Color::Black);
    assert_eq!(chessboard.white_castle, (true, false));
    assert_eq!(chessboard.black_castle, (false, true));
    assert_eq!(chessboard.en_passant, Some(Square::new(File::E, Rank::Three)));
    assert_eq!(chessboard.halfmove_clock, 7);
    assert_eq!(chessboard.fullmove_number, 42);
    assert_eq!(chessboard.perft_depth, 3);
    assert_eq!(chessboard.get_piece(&Square::from_string("a8")), Some(Piece::Rook));
    assert_eq!(chessboard.get_color(&Square::from_string("a8")), Some(Color::Black));
    assert_eq!(chessboard.get_piece(&Square::from_string("e1")), Some(Piece::King));
    assert_eq!(chessboard.get_color(&Square::from_string("e1")), Some(Color::White));
    assert_eq!(chessboard.get_piece(&Square::from_string("e4")), Some(Piece::Pawn));
    assert_eq!(chessboard.get_piece(&Square::from_string("d4")), None);
    assert_eq!(chessboard.get_color(&Square::from_string("d4")), None);
    assert_eq!(chessboard.get_pieces(&Piece::Rook), (1 << 0) | (1 << 7) | (1 << 56) | (1 << 63));
    assert_eq!(chessboard.get_pieces_color(&Piece::Rook, &Color::White), (1 << 0) | (1 << 7));
    assert_eq!(chessboard.get_colors(&Color::Black), (1 << 56) | (1 << 60) | (1 << 63));
    assert_eq!(chessboard.empty_board, !(chessboard.get_colors(&Color::White) | chessboard.get_colors(&Color::Black)));
    assert_eq!(chessboard.get_opposite_color(&Color::White), Color::Black);
}

#[test]
fn test_new_without_budget_and_with_line_feed() {
    assert_eq!(board("8/8/8/8/8/8/8/8 w - - 0 1").perft_depth, 0);
    assert_eq!(board("8/8/8/8/8/8/8/8 w - - 0 1 12\n").perft_depth, 12);
    assert_eq!(board("8/8/8/8/8/8/8/8 w - - 255 65535 255").halfmove_clock, 255);
    assert_eq!(board("8/8/8/8/8/8/8/8 w - - 255 65535 255").fullmove_number, 65535);
}

#[test]
fn test_new_reports_malformed_text() {
    let broken = |text: &str| Chessboard::new(text.to_string()).err();
    assert_eq!(broken("8/8/8/8/8/8/8/8 w - - 0"), Some(FenError::Fields));
    assert_eq!(broken(""), Some(FenError::Fields));
    assert_eq!(broken("8/8/8/8/8/8/8/x7 w - - 0 1"), Some(FenError::Placement));
    assert_eq!(broken("9/8/8/8/8/8/8/8 w - - 0 1"), Some(FenError::Placement));
    assert_eq!(broken("8/8/8/8/8/8/8/8/8 w - - 0 1"), Some(FenError::Placement));
    assert_eq!(broken("8/8/8/8/8/8/8/7pP w - - 0 1"), Some(FenError::Placement));
    assert_eq!(broken("8/8/8/8/8/8/8/8 x - - 0 1"), Some(FenError::Turn));
    assert_eq!(broken("8/8/8/8/8/8/8/8 ww - - 0 1"), Some(FenError::Turn));
    assert_eq!(broken("8/8/8/8/8/8/8/8 w - e9 0 1"), Some(FenError::EnPassant));
    assert_eq!(broken("8/8/8/8/8/8/8/8 w - e 0 1"), Some(FenError::EnPassant));
    assert_eq!(broken("8/8/8/8/8/8/8/8 w - e6 0 1"), Some(FenError::EnPassant));
    assert_eq!(broken("8/8/8/8/8/8/8/8 w - - 256 1"), Some(FenError::Halfmove));
    assert_eq!(broken("8/8/8/8/8/8/8/8 w - - x 1"), Some(FenError::Halfmove));
    assert_eq!(broken("8/8/8/8/8/8/8/8 w - - 0 65536"), Some(FenError::Fullmove));
    assert_eq!(broken("8/8/8/8/8/8/8/8 w - - 0 "), Some(FenError::Fullmove));
    assert_eq!(broken("8/8/8/8/8/8/8/8 w - - 0 1 256"), Some(FenError::Depth));
    assert_eq!(broken("8/8/8/8/8/8/8/8 w - - 0 1 \n"), Some(FenError::Depth));
}

#[test]
fn test_placement_head_stays_at_the_end_of_a_rank() {
    // The rank "ppppp2pp" runs to the H file with its digit; the two last
    // pawns both land there.
    let chessboard = board("rnbqkbnr/ppppp2pp/8/5p2/8/2P5/PP1PPPPP/RNBQKBNR w KQkq f6 2 2 1");
    assert_eq!(chessboard.get_piece(&Square::from_string("h7")), Some(Piece::Pawn));
    assert_eq!(chessboard.get_piece(&Square::from_string("g7")), None);
    assert_eq!(chessboard.get_piece(&Square::from_string("f7")), None);
    assert_eq!(chessboard.get_piece(&Square::from_string("e7")), Some(Piece::Pawn));
}

#[test]
fn test_move_text() {
    let chessboard = board("rnbqkbnr/pppppppp/8/8/8/8/PPPPPPPP/RNBQKBNR w KQkq - 0 1");
    assert_eq!(chessboard.generate_move_from_string("e2".to_string()), Err(MoveTextError::Length));
    assert_eq!(chessboard.generate_move_from_string("e2e4qq".to_string()), Err(MoveTextError::Length));
    assert_eq!(chessboard.generate_move_from_string("e2i4".to_string()), Err(MoveTextError::Square));
    assert_eq!(chessboard.generate_move_from_string("e0e4".to_string()), Err(MoveTextError::Square));
    assert_eq!(chessboard.generate_move_from_string("e7e8k".to_string()), Err(MoveTextError::Promotion));
    let knight = chessboard.generate_move_from_string("e7e8n".to_string()).unwrap();
    assert_eq!(knight.promotion, Some(Piece::Knight));
    assert_eq!(knight.capture, Some(Piece::King));
    let bishop = chessboard.generate_move_from_string("e7e8b".to_string()).unwrap();
    assert_eq!(bishop.promotion, Some(Piece::Bishop));
    assert_eq!(chessboard.generate_move_from_string("a7a8r".to_string()).unwrap().promotion, Some(Piece::Rook));
    assert_eq!(knight.to_string(), "e7e8n");
    assert_eq!(Move::new(Square::from_string("g1"), Square::from_string("f3")).to_string(), "g1f3");
}

#[test]
fn test_generate_move_records_captures() {
    let chessboard = board("8/8/8/3Pp3/8/8/8/R6r w - e6 0 1");
    let plain = chessboard.generate_move(Square::from_string("d5"), Square::from_string("d6"));
    assert_eq!(plain, Move::new(Square::from_string("d5"), Square::from_string("d6")));
    let en_passant = chessboard.generate_move(Square::from_string("d5"), Square::from_string("e6"));
    assert_eq!(en_passant.capture, Some(Piece::Pawn));
    let rook = chessboard.generate_move(Square::from_string("a1"), Square::from_string("h1"));
    assert_eq!(rook.capture, Some(Piece::Rook));
    // Only a pawn takes en passant.
    let other = chessboard.generate_move(Square::from_string("a1"), Square::from_string("e6"));
    assert_eq!(other.capture, None);
}

fn check_round_trip(fen: &str, mv: &str) {
    let mut chessboard = board(fen);
    let before = board(fen);
    let mv = chessboard.generate_move_from_string(mv.to_string()).unwrap();
    chessboard.make_move(&mv);
    assert_ne!(chessboard, before);
    chessboard.unmake_move(&mv);
    assert_eq!(chessboard, before);
}

#[test]
fn test_make_then_unmake_gives_the_same_board() {
    // Castling to both sides, for both colors.
    check_round_trip("r3k2r/8/8/8/8/8/8/R3K2R w KQkq - 3 9 2", "e1g1");
    check_round_trip("r3k2r/8/8/8/8/8/8/R3K2R w KQkq - 3 9 2", "e1c1");
    check_round_trip("r3k2r/8/8/8/8/8/8/R3K2R b KQkq - 3 9 2", "e8g8");
    check_round_trip("r3k2r/8/8/8/8/8/8/R3K2R b KQkq - 3 9 2", "e8c8");
    // A capture that takes a castling right away.
    check_round_trip("r3k2r/8/8/8/8/8/8/R3K2R w KQkq - 3 9 2", "a1a8");
    // A capturing promotion.
    check_round_trip("1n6/P7/8/8/8/8/8/8 w - - 0 1 1", "a7b8q");
    // The budget and the fullmove number at the ends of their ranges.
    check_round_trip("8/8/8/8/8/8/P7/8 w - - 0 1", "a2a3");
    check_round_trip("8/p7/8/8/8/8/8/8 b - - 0 65535 255", "a7a6");
    // En passant by both colors.
    check_round_trip("rnbqkbnr/pppp1ppp/8/3Pp3/8/8/PPP1PPPP/RNBQKBNR w KQkq e6 0 2 1", "d5e6");
    check_round_trip("rnbqkbnr/pppp1ppp/8/8/3Pp3/8/PPP1PPPP/RNBQKBNR b KQkq d3 0 3 1", "e4d3");
}

#[test]
fn test_en_passant_clears_the_square_of_the_taken_pawn() {
    let mut chessboard = board("rnbqkbnr/pppp1ppp/8/3Pp3/8/8/PPP1PPPP/RNBQKBNR w KQkq e6 0 2");
    let mv = chessboard.generate_move_from_string("d5e6".to_string()).unwrap();
    assert_eq!(mv.capture, Some(Piece::Pawn));
    chessboard.make_move(&mv);
    assert_eq!(chessboard.get_piece(&Square::from_string("d5")), None);
    assert_eq!(chessboard.get_piece(&Square::from_string("e5")), None);
    assert_eq!(chessboard.get_piece(&Square::from_string("e6")), Some(Piece::Pawn));
    assert_eq!(chessboard.get_color(&Square::from_string("e6")), Some(Color::White));
    assert_eq!(chessboard.en_passant, None);
    chessboard.unmake_move(&mv);
    assert_eq!(chessboard, board("rnbqkbnr/pppp1ppp/8/3Pp3/8/8/PPP1PPPP/RNBQKBNR w KQkq e6 0 2"));
}

#[test]
fn test_make_move_moves_the_castling_rook_and_updates_the_rights() {
    let mut chessboard = board("r3k2r/8/8/8/8/8/8/R3K2R w KQkq - 0 1");
    let mv = chessboard.generate_move_from_string("e1g1".to_string()).unwrap();
    chessboard.make_move(&mv);
    assert_eq!(chessboard.get_piece(&Square::from_string("g1")), Some(Piece::King));
    assert_eq!(chessboard.get_piece(&Square::from_string("f1")), Some(Piece::Rook));
    assert_eq!(chessboard.get_piece(&Square::from_string("h1")), None);
    assert_eq!(chessboard.get_piece(&Square::from_string("e1")), None);
    assert_eq!(chessboard.white_castle, (false, false));
    assert_eq!(chessboard.black_castle, (true, true));
    assert_eq!(chessboard.turn, Color::Black);
    assert_eq!(chessboard.fullmove_number, 1);

    let mv = chessboard.generate_move_from_string("e8c8".to_string()).unwrap();
    chessboard.make_move(&mv);
    assert_eq!(chessboard.get_piece(&Square::from_string("c8")), Some(Piece::King));
    assert_eq!(chessboard.get_piece(&Square::from_string("d8")), Some(Piece::Rook));
    assert_eq!(chessboard.get_piece(&Square::from_string("a8")), None);
    assert_eq!(chessboard.black_castle, (false, false));
    assert_eq!(chessboard.fullmove_number, 2);

    // A rook that is taken on its corner takes the right with it.
    let mut chessboard = board("r3k2r/8/8/8/8/8/8/R3K2R w KQkq - 0 1");
    let mv = chessboard.generate_move_from_string("h1h8".to_string()).unwrap();
    chessboard.make_move(&mv);
    assert_eq!(chessboard.white_castle, (false, true));
    assert_eq!(chessboard.black_castle, (false, true));
}

#[test]
fn test_castling_without_a_rook_moves_the_king_alone() {
    let mut chessboard = board("8/8/8/8/8/8/8/4K3 w KQ - 0 1");
    let before = board("8/8/8/8/8/8/8/4K3 w KQ - 0 1");
    let mv = chessboard.generate_move_from_string("e1c1".to_string()).unwrap();
    chessboard.make_move(&mv);
    assert_eq!(chessboard.get_piece(&Square::from_string("c1")), Some(Piece::King));
    assert_eq!(chessboard.get_pieces(&Piece::Rook), 0);
    assert_eq!(chessboard.get_colors(&Color::White), 1 << 2);
    chessboard.unmake_move(&mv);
    assert_eq!(chessboard, before);
}

#[test]
fn test_counters_wrap_at_the_ends_of_their_ranges() {
    let mut chessboard = board("8/p7/8/8/8/8/8/8 b - - 0 65535 0");
    let mv = chessboard.generate_move_from_string("a7a6".to_string()).unwrap();
    chessboard.make_move(&mv);
    assert_eq!(chessboard.fullmove_number, 0);
    assert_eq!(chessboard.perft_depth, 255);
    chessboard.unmake_move(&mv);
    assert_eq!(chessboard.fullmove_number, 65535);
    assert_eq!(chessboard.perft_depth, 0);
}

#[test]
fn test_push_and_pop() {
    let mut chessboard = board("r3k2r/8/8/8/4P3/8/8/R3K2R b Kq e3 7 42 3");
    let before = board("r3k2r/8/8/8/4P3/8/8/R3K2R b Kq e3 7 42 3");
    chessboard.push();
    chessboard.white_castle = (false, false);
    chessboard.black_castle = (true, true);
    chessboard.en_passant = None;
    chessboard.halfmove_clock = 0;
    chessboard.pop();
    assert_eq!(chessboard, before);
}

#[test]
fn test_attacks_of_every_kind() {
    let attacked = |fen: &str, square: &str, color: &Color| {
        board(fen).is_attacked_square(Square::from_string(square).to_bitboard(), color)
    };
    // Pawns attack ahead only.
    assert!(attacked("8/8/8/8/8/3p4/8/8 w - - 0 1", "c2", &Color::White));
    assert!(attacked("8/8/8/8/8/3p4/8/8 w - - 0 1", "e2", &Color::White));
    assert!(!attacked("8/8/8/8/8/3p4/8/8 w - - 0 1", "d2", &Color::White));
    assert!(!attacked("8/8/8/8/8/3p4/8/8 w - - 0 1", "c4", &Color::White));
    assert!(attacked("8/8/8/8/8/3P4/8/8 w - - 0 1", "c4", &Color::Black));
    assert!(!attacked("8/8/8/8/8/3P4/8/8 w - - 0 1", "c2", &Color::Black));
    // A man does not attack for its own side.
    assert!(!attacked("8/8/8/8/8/3P4/8/8 w - - 0 1", "c4", &Color::White));
    // Sliders are stopped by the first man in the way.
    assert!(attacked("8/8/8/8/8/8/8/r6K w - - 0 1", "h1", &Color::White));
    assert!(!attacked("8/8/8/8/8/8/8/r2P3K w - - 0 1", "h1", &Color::White));
    assert!(attacked("b7/8/8/8/8/8/8/7K w - - 0 1", "h1", &Color::White));
    assert!(!attacked("b7/8/8/3p4/8/8/8/7K w - - 0 1", "h1", &Color::White));
    assert!(attacked("q7/8/8/8/8/8/8/7K w - - 0 1", "h1", &Color::White));
    assert!(attacked("7q/8/8/8/8/8/8/7K w - - 0 1", "h1", &Color::White));
    // Kings and knights.
    assert!(attacked("8/8/8/8/8/8/6k1/7K w - - 0 1", "h1", &Color::White));
    assert!(!attacked("8/8/8/8/8/6k1/8/7K w - - 0 1", "h1", &Color::White));
    assert!(attacked("8/8/8/8/8/6n1/8/7K w - - 0 1", "h1", &Color::White));
    assert!(!attacked("8/8/8/8/8/7n/8/7K w - - 0 1", "h1", &Color::White));
    // No square, no attack.
    assert!(!board("q7/8/8/8/8/8/8/7K w - - 0 1").is_attacked_square(0, &Color::White));
}

#[test]
fn test_is_attacked_by_kind() {
    let chessboard = board("8/8/8/8/8/2n5/8/4K3 w - - 0 1");
    let king = Square::from_string("e1").to_bitboard();
    let knights = chessboard.get_pieces_color(&Piece::Knight, &Color::Black);
    assert!(!chessboard.is_attacked(king, &Color::White, knights, &Piece::Knight));
    let chessboard = board("8/8/8/8/8/3n4/8/4K3 w - - 0 1");
    let knights = chessboard.get_pieces_color(&Piece::Knight, &Color::Black);
    assert!(chessboard.is_attacked(king, &Color::White, knights, &Piece::Knight));
    assert!(!chessboard.is_attacked(king, &Color::White, knights, &Piece::Rook));
    assert_eq!(chessboard.reach_of(king, &Piece::King, &Color::White), (1 << 3) | (1 << 5) | (1 << 11) | (1 << 12) | (1 << 13));
    assert_eq!(chessboard.reach_of(king, &Piece::Pawn, &Color::White), (1 << 11) | (1 << 13));
    assert_eq!(chessboard.reach_of(1 << 28, &Piece::Pawn, &Color::Black), (1 << 19) | (1 << 21));
}

#[test]
fn test_empty_board_is_sound() {
    let chessboard = Chessboard::empty();
    assert!(chessboard.is_sound());
    assert!(chessboard.masks_agree());
    assert!(chessboard.tables.agree());
    assert!(chessboard.board_agrees());
    assert_eq!(chessboard.empty_board, u64::MAX);
    assert_eq!(chessboard, board("8/8/8/8/8/8/8/8 w - - 0 0"));
}

#[test]
fn test_is_sound_finds_masks_that_disagree() {
    let good = board("rnbqkbnr/pppppppp/8/8/4P3/8/PPPP1PPP/RNBQKBNR b KQkq e3 0 1");
    assert!(good.is_sound());
    // A square that is empty and held at once.
    let mut broken = board("rnbqkbnr/pppppppp/8/8/4P3/8/PPPP1PPP/RNBQKBNR b KQkq e3 0 1");
    broken.empty_board |= 1;
    assert!(!broken.masks_agree());
    // A square with two kinds.
    let mut broken = board("rnbqkbnr/pppppppp/8/8/4P3/8/PPPP1PPP/RNBQKBNR b KQkq e3 0 1");
    broken.piece_board[Piece::Pawn.to_usize()] |= 1;
    assert!(!broken.masks_agree());
    // A square with two colors.
    let mut broken = board("rnbqkbnr/pppppppp/8/8/4P3/8/PPPP1PPP/RNBQKBNR b KQkq e3 0 1");
    broken.color_board[1] |= 1;
    assert!(!broken.masks_agree());
    // A kind without a color.
    let mut broken = board("rnbqkbnr/pppppppp/8/8/4P3/8/PPPP1PPP/RNBQKBNR b KQkq e3 0 1");
    broken.piece_board[0] |= 1 << 30;
    assert!(!broken.masks_agree());
    // A table with a wrong entry.
    let mut broken = board("rnbqkbnr/pppppppp/8/8/4P3/8/PPPP1PPP/RNBQKBNR b KQkq e3 0 1");
    broken.tables.mask_rook[12] ^= 1;
    assert!(broken.masks_agree());
    assert!(!broken.tables.agree());
    assert!(!broken.board_agrees());
    assert!(!broken.is_sound());
    // A target that lies behind no pawn.
    let mut broken = board("rnbqkbnr/pppppppp/8/8/4P3/8/PPPP1PPP/RNBQKBNR b KQkq e3 0 1");
    broken.en_passant = Some(Square::from_string("d3"));
    assert!(broken.masks_agree());
    assert!(!broken.target_fits());
    assert!(!broken.is_sound());
}

#[test]
fn test_accepts() {
    let chessboard = board("r3k2r/8/8/3Pp3/8/8/P7/R3K2R w KQkq e6 0 1");
    let fits = |text: &str| chessboard.accepts(&chessboard.generate_move_from_string(text.to_string()).unwrap());
    assert!(fits("a2a3"));
    assert!(fits("a2a4"));
    assert!(fits("d5e6"));
    assert!(fits("e1g1"));
    assert!(fits("e1c1"));
    assert!(fits("a1a8"));
    // No man on the origin, or a man of the other side.
    assert!(!fits("b2b3"));
    assert!(!fits("a8a7"));
    // A man of its own side on the destination.
    assert!(!fits("a1a2"));
    // A move to its own square.
    assert!(!fits("a2a2"));
    // A promotion of a rook, a capture that is not there, a capture that is
    // not recorded.
    assert!(!fits("a1b1q"));
    let mut capture = chessboard.generate_move_from_string("a1b1".to_string()).unwrap();
    capture.capture = Some(Piece::Pawn);
    assert!(!chessboard.accepts(&capture));
    let mut quiet = chessboard.generate_move_from_string("a1a8".to_string()).unwrap();
    quiet.capture = None;
    assert!(!chessboard.accepts(&quiet));
    // A double push from the wrong rank or over a man.
    let blocked = board("4k3/8/8/8/8/P7/P7/4K3 w - - 0 1");
    assert!(!blocked.accepts(&blocked.generate_move_from_string("a2a4".to_string()).unwrap()));
    assert!(!blocked.accepts(&blocked.generate_move_from_string("a3a5".to_string()).unwrap()));
    // Castling over a man.
    let crowded = board("4k3/8/8/8/8/8/8/R3KB1R w KQ - 0 1");
    assert!(!crowded.accepts(&crowded.generate_move_from_string("e1g1".to_string()).unwrap()));
    assert!(crowded.accepts(&crowded.generate_move_from_string("e1c1".to_string()).unwrap()));
    assert_eq!(chessboard.man(&Square::from_string("a1")), Some((Color::White, Piece::Rook)));
    assert_eq!(chessboard.man(&Square::from_string("b1")), None);
}

#[test]
fn test_a_line_of_moves_is_taken_back_in_reverse() {
    let start = "r3k2r/p1ppqpb1/bn2pnp1/3PN3/1p2P3/2N2Q1p/PPPBBPPP/R3K2R w KQkq - 0 1";
    let mut chessboard = board(start);
    let mut line: Vec<Move> = Vec::new();
    for text in ["e1g1", "b4c3", "d5e6", "e8c8", "e6d7", "c8b8", "e5c6", "b8a8", "d7d8q", "c3b2"] {
        let mv = chessboard.generate_move_from_string(text.to_string()).unwrap();
        assert!(chessboard.accepts(&mv), "{}", text);
        chessboard.make_move(&mv);
        assert!(chessboard.is_sound());
        line.push(mv);
    }
    assert_eq!(chessboard.to_fen(), "k2Q3r/p1p1qpb1/bnN2np1/8/4P3/5Q1p/PpPBBPPP/R4RK1 w - - 0 6 1");
    for mv in line.iter().rev() {
        chessboard.unmake_move(mv);
        assert!(chessboard.is_sound());
    }
    assert_eq!(chessboard, board(start));
}
