use chessengine::chessboard::moves::piece::sliding_piece::bishop::get_bishop_targets;
use chessengine::chessboard::moves::piece::sliding_piece::rook::get_rook_targets;
use chessengine::chessboard::moves::piece::sliding_piece::{bishop, flood, mask_of, queen, ring_of, rook, steps_of, SlidingPiece, SlidingTables};
use chessengine::chessboard::moves::piece::{convert_bb_to_moves, king, knight, pawn};
use chessengine::chessboard::moves::Move;
use chessengine::chessboard::Chessboard;
use chessengine::utils::color::Color;
use chessengine::utils::direction;
use chessengine::utils::direction::Direction;
use chessengine::utils::piece::Piece;
use chessengine::utils::square::Square;

fn board(fen: &str) -> Chessboard {
    Chessboard::new(fen.to_string()).unwrap()
}

#[test]
fn test_generate_pseudo_moves() {
    let chessboard = board("8/8/8/8/8/8/8/8 w - - 0 1");
    let color = Color::White;
    let king = chessboard.get_pieces_color(&Piece::King, &color);
    let moves = &mut Vec::new();
    king::generate_pseudo_moves(king, &chessboard, &color, moves);
    assert_eq!(moves.len(), 0);

    let chessboard = board("8/8/8/3K4/8/8/8/8 w - - 0 1");
    let color = Color::White;
    let king = chessboard.get_pieces_color(&Piece::King, &color);
    let moves = &mut Vec::new();
    king::generate_pseudo_moves(king, &chessboard, &color, moves);
    assert_eq!(moves.len(), 8);

    let chessboard = board("8/8/8/8/8/8/8/KP6 w - - 0 1");
    let color = Color::White;
    let king = chessboard.get_pieces_color(&Piece::King, &color);
    let moves = &mut Vec::new();
    king::generate_pseudo_moves(king, &chessboard, &color, moves);
    assert_eq!(moves.len(), 2);
    assert!(moves.contains(&Move::new(Square::from_u32(0), Square::from_u32(8))));
    assert!(moves.contains(&Move::new(Square::from_u32(0), Square::from_u32(9))));
}

fn check_generate_castling_moves(fen: &str, color: &Color, expected_moves: usize) {
    let chessboard = board(fen);
    let moves = king::generate_castling_moves(&chessboard, &color);
    assert_eq!(moves.len(), expected_moves);
}

#[test]
fn test_castling_moves() {
    check_generate_castling_moves("8/8/8/8/8/8/8/RN2K3 w Q - 0 1", &Color::White, 0);
    check_generate_castling_moves("8/8/8/8/8/8/8/4KB1R w K - 0 1", &Color::White, 0);
    check_generate_castling_moves("8/8/8/8/8/8/8/R1B1K3 w Q - 0 1", &Color::White, 0);

    check_generate_castling_moves("8/8/8/8/8/8/7p/4K2R w K - 0 1", &Color::White, 0);
    check_generate_castling_moves("8/8/8/8/8/4q3/8/4K2R w K - 0 1", &Color::White, 0);
    check_generate_castling_moves("8/8/8/4r3/8/8/8/4K2R w K - 0 1", &Color::White, 0);

    check_generate_castling_moves("8/8/8/8/8/8/8/4K2R w K - 0 1", &Color::White, 1);
    check_generate_castling_moves("8/8/8/8/8/8/8/R3K3 w Q - 0 1", &Color::White, 1);
    check_generate_castling_moves("8/8/8/8/8/8/8/4K2R w KQ - 0 1", &Color::White, 2);
    check_generate_castling_moves("4k2r/8/8/8/8/8/8/8 b k - 0 1", &Color::Black, 1);
    check_generate_castling_moves("r3k3/8/8/8/8/8/8/8 b q - 0 1", &Color::Black, 1);
    check_generate_castling_moves("4k2r/8/8/8/8/8/8/8 b kq - 0 1", &Color::Black, 2);

    check_generate_castling_moves("8/8/8/8/4b3/8/8/R3K3 w Q - 0 1", &Color::White, 1);
}

#[test]
fn knight_test_generate_pseudo_moves() {
    let chessboard = board("8/8/8/8/8/8/8/8 w - - 0 1");
    let color = Color::White;
    let knights = chessboard.get_pieces_color(&Piece::Knight, &color);
    let moves = &mut Vec::new();
    knight::generate_pseudo_moves(knights, &chessboard, &color, moves);
    assert_eq!(moves.len(), 0);

    let chessboard = board("8/8/8/3N4/8/8/8/8 w - - 0 1");
    let color = Color::White;
    let knights = chessboard.get_pieces_color(&Piece::Knight, &color);
    let moves = &mut Vec::new();
    knight::generate_pseudo_moves(knights, &chessboard, &color, moves);
    assert_eq!(moves.len(), 8);
}

#[test]
fn test_convert_bb_to_moves() {
    let chessboard = board("8/8/8/8/8/8/8/8 w - - 0 1");
    let bb = 0b00000000;
    let relation = 0;
    let moves = &mut Vec::new();
    convert_bb_to_moves(&chessboard, bb, relation, moves);
    assert_eq!(moves.len(), 0);

    let chessboard = board("8/8/8/8/8/8/8/8 w - - 0 1");
    let bb = 0b00000001_00000000_00000000;
    let relation = direction::SOUT;
    let moves = &mut Vec::new();
    convert_bb_to_moves(&chessboard, bb, relation, moves);
    assert_eq!(moves.len(), 1);
    assert_eq!(moves[0], Move::new(Square::from_u32(8), Square::from_u32(16)));

    let chessboard = board("8/8/8/8/8/8/8/8 w - - 0 1");
    let bb = 0b10000001_00000000_00000000;
    let relation = direction::SOUT;
    let moves = &mut Vec::new();
    convert_bb_to_moves(&chessboard, bb, relation, moves);
    assert_eq!(moves.len(), 2);
    assert_eq!(moves[0], Move::new(Square::from_u32(8), Square::from_u32(16)));
    assert_eq!(moves[1], Move::new(Square::from_u32(15), Square::from_u32(23)));
}

#[test]
fn test_generate_single_push_moves() {
    let chessboard = board("8/8/8/8/8/8/8/8 w - - 0 1");
    let color = Color::White;
    let pawns = chessboard.get_pieces_color(&Piece::Pawn, &color);
    let moves = pawn::generate_single_push_moves(pawns, &chessboard, &color);
    assert_eq!(moves.len(), 0);

    let chessboard = board("8/8/8/8/8/8/P7/8 w - - 0 1");
    let color = Color::White;
    let pawns = chessboard.get_pieces_color(&Piece::Pawn, &color);
    let moves = pawn::generate_single_push_moves(pawns, &chessboard, &color);
    assert_eq!(moves.len(), 1);
    assert_eq!(moves[0], Move::new(Square::from_u32(8), Square::from_u32(16)));

    let chessboard = board("8/8/8/8/8/p7/P7/8 w - - 0 1");
    let color = Color::White;
    let pawns = chessboard.get_pieces_color(&Piece::Pawn, &color);
    let moves = pawn::generate_single_push_moves(pawns, &chessboard, &color);
    assert_eq!(moves.len(), 0);

    let chessboard = board("8/p7/8/8/8/8/8/8 w - - 0 1");
    let color = Color::Black;
    let pawns = chessboard.get_pieces_color(&Piece::Pawn, &color);
    let moves = pawn::generate_single_push_moves(pawns, &chessboard, &color);
    assert_eq!(moves.len(), 1);
    assert_eq!(moves[0], Move::new(Square::from_u32(48), Square::from_u32(40)));

    let chessboard = board("rnbqkbnr/1ppppppp/8/p7/P7/8/1PPPPPPP/RNBQKBNR w - a6 0 1");
    let color = Color::White;
    let pawns = chessboard.get_pieces_color(&Piece::Pawn, &color);
    let moves = pawn::generate_single_push_moves(pawns, &chessboard, &color);
    assert_eq!(moves.len(), 7);
}

#[test]
fn test_generate_double_push_moves() {
    let chessboard = board("8/8/8/8/8/8/8/8 w - - 0 1");
    let color = Color::White;
    let pawns = chessboard.get_pieces_color(&Piece::Pawn, &color);
    let moves = pawn::generate_double_push_moves(pawns, &chessboard, &color);
    assert_eq!(moves.len(), 0);

    let chessboard = board("8/8/8/8/8/8/P7/8 w - - 0 1");
    let color = Color::White;
    let pawns = chessboard.get_pieces_color(&Piece::Pawn, &color);
    let moves = pawn::generate_double_push_moves(pawns, &chessboard, &color);
    assert_eq!(moves.len(), 1);
    assert_eq!(moves[0], Move::new(Square::from_u32(8), Square::from_u32(24)));

    let chessboard = board("8/8/8/8/8/p7/P7/8 w - - 0 1");
    let color = Color::White;
    let pawns = chessboard.get_pieces_color(&Piece::Pawn, &color);
    let moves = pawn::generate_double_push_moves(pawns, &chessboard, &color);
    assert_eq!(moves.len(), 0);

    let chessboard = board("rnbqkbnr/1ppppppp/8/p7/P7/8/1PPPPPPP/RNBQKBNR w - a6 0 1");
    let color = Color::White;
    let pawns = chessboard.get_pieces_color(&Piece::Pawn, &color);
    let moves = pawn::generate_double_push_moves(pawns, &chessboard, &color);
    assert_eq!(moves.len(), 7);
}

#[test]
fn test_generate_capture_moves() {
    let chessboard = board("8/8/8/8/8/8/8/8 w - - 0 1");
    let color = Color::White;
    let pawns = chessboard.get_pieces_color(&Piece::Pawn, &color);
    let enemies = chessboard.get_colors(&Color::Black);
    let moves = pawn::generate_capture_moves(pawns, &enemies, &chessboard, &color);
    assert_eq!(moves.len(), 0);

    let chessboard = board("8/8/8/8/8/p7/P7/8 w - - 0 1");
    let color = Color::White;
    let pawns = chessboard.get_pieces_color(&Piece::Pawn, &color);
    let enemies = chessboard.get_colors(&Color::Black);
    let moves = pawn::generate_capture_moves(pawns, &enemies, &chessboard, &color);
    assert_eq!(moves.len(), 0);

    let chessboard = board("8/8/8/8/8/1p6/P7/8 w - - 0 1");
    let color = Color::White;
    let pawns = chessboard.get_pieces_color(&Piece::Pawn, &color);
    let enemies = chessboard.get_colors(&Color::Black);
    let moves = pawn::generate_capture_moves(pawns, &enemies, &chessboard, &color);
    assert_eq!(moves.len(), 1);
    let mut expected = Move::new(Square::from_u32(8), Square::from_u32(17));
    expected.capture = Some(Piece::Pawn);
    assert_eq!(moves[0], expected);

    let chessboard = board("8/8/8/8/8/p1p5/1P6/8 w - - 0 1");
    let color = Color::White;
    let pawns = chessboard.get_pieces_color(&Piece::Pawn, &color);
    let enemies = chessboard.get_colors(&Color::Black);
    let moves = pawn::generate_capture_moves(pawns, &enemies, &chessboard, &color);
    assert_eq!(moves.len(), 2);
    let mut expected = Move::new(Square::from_u32(9), Square::from_u32(16));
    expected.capture = Some(Piece::Pawn);
    assert!(moves.contains(&expected));
    let mut expected = Move::new(Square::from_u32(9), Square::from_u32(18));
    expected.capture = Some(Piece::Pawn);
    assert!(moves.contains(&expected));

    let chessboard = board("rnbqkbnr/8/8/p7/P7/8/8/RNBQKBNR w - - 0 1");
    let color = Color::White;
    let pawns = chessboard.get_pieces_color(&Piece::Pawn, &color);
    let enemies = chessboard.get_colors(&Color::Black);
    let moves = pawn::generate_capture_moves(pawns, &enemies, &chessboard, &color);
    assert_eq!(moves.len(), 0);

    let chessboard = board("rnbqkbnr/1ppppppp/8/p7/P7/8/1PPPPPPP/RNBQKBNR w - a6 0 1");
    let color = Color::White;
    let pawns = chessboard.get_pieces_color(&Piece::Pawn, &color);
    let enemies = chessboard.get_colors(&Color::Black);
    let moves = pawn::generate_capture_moves(pawns, &enemies, &chessboard, &color);
    assert_eq!(moves.len(), 0);
}

#[test]
fn test_generate_capture_ep_moves() {
    let chessboard = board("8/8/8/pP6/8/8/8/8 w - a6 0 1");
    let color = Color::White;
    let pawns = chessboard.get_pieces_color(&Piece::Pawn, &color);
    let mut enemies = chessboard.get_colors(&Color::Black);
    enemies |= chessboard.en_passant.unwrap().to_bitboard();
    let moves = pawn::generate_capture_moves(pawns, &enemies, &chessboard, &color);
    assert_eq!(moves.len(), 1);
    let mut expected = Move::new(Square::from_u32(33), Square::from_u32(40));
    expected.capture = Some(Piece::Pawn);
    assert_eq!(moves[0], expected);
}

fn check_pawns_generate_pseudo_move(fen: &str, expected: Vec<&str>) {
    let chessboard = board(fen);

    let mut expected_moves = Vec::new();

    for mv in expected {
        expected_moves.push(chessboard.generate_move_from_string(mv.to_string()).unwrap());
    }
    expected_moves.sort();

    let color = chessboard.turn;
    let pawns = chessboard.get_pieces_color(&Piece::Pawn, &color);
    let mut moves = Vec::new();
    pawn::generate_pseudo_moves(pawns, &chessboard, &color, &mut moves);
    moves.sort();
    assert_eq!(moves.len(), expected_moves.len());
    assert_eq!(moves, expected_moves);
}

#[test]
fn test_pawns_moves_generation() {
    check_pawns_generate_pseudo_move(
        "rnbqkbnr/2pppppp/p7/Pp6/8/8/1PPPPPPP/RNBQKBNR w KQkq b6 4 3 1",
        vec![
            "b2b3", "b2b4", "c2c3", "c2c4", "d2d3", "d2d4", "e2e3", "e2e4", "f2f3", "f2f4", "g2g3", "g2g4", "h2h3",
            "h2h4", "a5b6",
        ],
    );
}

#[test]
fn test_get_bishop_targets() {
    let square = 0;
    let empty: u64 = 0xFF_FF_FF_FF_FF_FF_FF_FF;
    let expected: u64 = 0x8040201008040200;
    assert_eq!(get_bishop_targets(square, empty), expected);

    let square = 59;
    let empty: u64 = 0xFF_FF_FF_FF_FF_FF_FF_FF;
    let expected: u64 = 0x14224180000000;
    assert_eq!(get_bishop_targets(square, empty), expected);

    let square = 59;
    let empty: u64 = 0xFF_FF_FD_FF_FF_FF_FF_FF;
    let expected: u64 = 0x14224080000000;
    assert_eq!(get_bishop_targets(square, empty), expected);

    let square = 59;
    let empty: u64 = 0xf7fffdbfffffffff;
    let expected: u64 = 0x14224000000000;
    assert_eq!(get_bishop_targets(square, empty), expected);
}

#[test]
fn test_generate_moves() {
    let piece = Piece::Bishop;
    let color = &Color::White;

    let chessboard = board("8/8/8/8/8/8/8/8 w - - 0 1");
    let bishops: u64 = chessboard.get_pieces_color(&piece, color);
    let moves = &mut Vec::new();
    bishop::generate_pseudo_moves(bishops, &chessboard, color, moves);
    assert!(moves.is_empty());

    let chessboard = board("8/8/8/8/8/8/8/B7 w - - 0 1");
    let bishops: u64 = chessboard.get_pieces_color(&piece, color);
    let moves = &mut Vec::new();
    bishop::generate_pseudo_moves(bishops, &chessboard, color, moves);
    assert_eq!(moves.len(), 7, "\n{:?}", moves);
    assert!(moves.contains(&Move::new(Square::from_string("a1"), Square::from_string("b2"))));
    assert!(moves.contains(&Move::new(Square::from_string("a1"), Square::from_string("h8"))));

    let chessboard = board("8/8/8/8/8/8/1b6/B7 w - - 0 1");
    let bishops: u64 = chessboard.get_pieces_color(&piece, color);
    let moves = &mut Vec::new();
    bishop::generate_pseudo_moves(bishops, &chessboard, color, moves);
    let mut expected = Move::new(Square::from_string("a1"), Square::from_string("b2"));
    expected.capture = Some(Piece::Bishop);
    assert_eq!(moves.len(), 1);
    assert!(moves.contains(&expected));

    let chessboard = board("8/8/8/8/8/8/1P6/B7 w - - 0 1");
    let bishops: u64 = chessboard.get_pieces_color(&piece, color);
    let moves = &mut Vec::new();
    bishop::generate_pseudo_moves(bishops, &chessboard, color, moves);
    assert_eq!(moves.len(), 0);

    let chessboard = board("8/8/8/8/4B3/8/8/8 w - - 0 1");
    let bishops: u64 = chessboard.get_pieces_color(&piece, color);
    let moves = &mut Vec::new();
    bishop::generate_pseudo_moves(bishops, &chessboard, color, moves);
    assert_eq!(moves.len(), 13);
}

#[test]
fn test_get_rook_targets() {
    let square = 0;
    let empty: u64 = 0xFFFFFFFFFFFFFFFF;
    let expected: u64 = 0x1010101010101fe;
    assert_eq!(get_rook_targets(square, empty), expected);

    let square = 20;
    let empty: u64 = 0xFFFFFFFFFFFFFFFF;
    let expected: u64 = 0x1010101010ef1010;
    assert_eq!(get_rook_targets(square, empty), expected);

    let square = 20;
    let empty: u64 = 0xfffffffffff7ffff;
    let expected: u64 = 0x1010101010e81010;
    assert_eq!(get_rook_targets(square, empty), expected);
}

#[test]
fn mod_test_generate_pseudo_moves() {
    let piece = Piece::Rook;
    let color = &Color::White;

    let chessboard = board("8/8/8/8/8/8/8/8 w - - 0 1");
    let rooks = chessboard.get_pieces_color(&piece, color);
    let moves = rook::generate_pseudo_moves(rooks, &chessboard, color);
    assert_eq!(moves.len(), 0);

    let chessboard = board("8/8/8/8/8/8/8/R7 w - - 0 1");
    let rooks = chessboard.get_pieces_color(&piece, color);
    let moves = rook::generate_pseudo_moves(rooks, &chessboard, color);
    assert_eq!(moves.len(), 14);
    assert!(moves.contains(&Move::new(Square::from_string("a1"), Square::from_string("a2"))));

    let chessboard = board("8/8/2p5/8/8/2R5/8/8 w - - 0 1");
    let rooks = chessboard.get_pieces_color(&piece, color);
    let moves = rook::generate_pseudo_moves(rooks, &chessboard, color);
    let mut expected = Move::new(Square::from_string("c3"), Square::from_string("c6"));
    expected.capture = Some(Piece::Pawn);
    assert!(moves.contains(&expected));
}

fn targets(moves: &Vec<Move>) -> Vec<String> {
    moves.iter().map(|m| m.to_string()).collect()
}

#[test]
fn test_promotion_gives_four_moves_to_one_square() {
    let chessboard = board("8/P7/8/8/8/8/8/8 w - - 0 1");
    let pawns = chessboard.get_pieces_color(&Piece::Pawn, &Color::White);
    let mut moves = Vec::new();
    pawn::generate_pseudo_moves(pawns, &chessboard, &Color::White, &mut moves);
    assert_eq!(targets(&moves), vec!["a7a8n", "a7a8b", "a7a8r", "a7a8q"]);
    for mv in moves.iter() {
        assert_eq!(mv.from, Square::from_string("a7"));
        assert_eq!(mv.to, Square::from_string("a8"));
        assert_eq!(mv.capture, None);
    }
    let mut chessboard = board("8/P7/8/8/8/8/8/8 w - - 0 1");
    assert_eq!(targets(&chessboard.generate_legal_moves()), vec!["a7a8n", "a7a8b", "a7a8r", "a7a8q"]);

    // A capturing promotion, for Black.
    let chessboard = board("8/8/8/8/8/8/p7/1R6 b - - 0 1");
    let pawns = chessboard.get_pieces_color(&Piece::Pawn, &Color::Black);
    let mut moves = Vec::new();
    pawn::generate_pseudo_moves(pawns, &chessboard, &Color::Black, &mut moves);
    assert_eq!(targets(&moves), vec!["a2a1n", "a2a1b", "a2a1r", "a2a1q", "a2b1n", "a2b1b", "a2b1r", "a2b1q"]);
    assert_eq!(moves[4].capture, Some(Piece::Rook));
}

#[test]
fn test_generate_promotion_moves() {
    let chessboard = board("8/8/8/8/8/8/8/8 w - - 0 1");
    let mut moves = Vec::new();
    let quiet = Move::new(Square::from_string("a2"), Square::from_string("a3"));
    chessboard.generate_promotion_moves(&mut moves, quiet);
    assert_eq!(moves, vec![quiet]);
    let last = Move::new(Square::from_string("h7"), Square::from_string("h8"));
    chessboard.generate_promotion_moves(&mut moves, last);
    assert_eq!(moves.len(), 5);
    assert_eq!(moves[1].promotion, Some(Piece::Knight));
    assert_eq!(moves[2].promotion, Some(Piece::Bishop));
    assert_eq!(moves[3].promotion, Some(Piece::Rook));
    assert_eq!(moves[4].promotion, Some(Piece::Queen));
}

#[test]
fn test_castling_needs_a_safe_way() {
    let count = |fen: &str, color: &Color| king::generate_castling_moves(&board(fen), color).len();
    assert_eq!(count("4k2r/8/8/8/8/8/8/8 b k - 0 1", &Color::Black), 1);
    // An attacker on the square that the king passes.
    assert_eq!(count("4k2r/8/8/8/8/8/8/5R2 b k - 0 1", &Color::Black), 0);
    // On the square that it reaches, and on the one that it leaves.
    assert_eq!(count("4k2r/8/8/8/8/8/8/6R1 b k - 0 1", &Color::Black), 0);
    assert_eq!(count("4k2r/8/8/8/8/8/8/4R3 b k - 0 1", &Color::Black), 0);
    // An attack on the rook alone does not matter.
    assert_eq!(count("4k2r/8/8/8/8/8/8/7R b k - 0 1", &Color::Black), 1);
    // Nor one on the square beside the queen's rook.
    assert_eq!(count("8/8/8/8/8/8/8/R3K3 w Q - 0 1", &Color::White), 1);
    assert_eq!(count("1r6/8/8/8/8/8/8/R3K3 w Q - 0 1", &Color::White), 1);
    assert_eq!(count("3r4/8/8/8/8/8/8/R3K3 w Q - 0 1", &Color::White), 0);
    // Without the right or the king there is no castling.
    assert_eq!(count("4k2r/8/8/8/8/8/8/8 b K - 0 1", &Color::Black), 0);
    assert_eq!(count("4q2r/8/8/8/8/8/8/8 b k - 0 1", &Color::Black), 0);
    assert_eq!(count("4K2r/8/8/8/8/8/8/8 b k - 0 1", &Color::Black), 0);
    let moves = king::generate_castling_moves(&board("r3k2r/8/8/8/8/8/8/8 b kq - 0 1"), &Color::Black);
    assert_eq!(targets(&moves), vec!["e8g8", "e8c8"]);
    let one = king::generate_castle_move(&board("8/8/8/8/8/8/8/R3K2R w KQ - 0 1"), &Square::from_string("e1"), &Color::White, true);
    assert_eq!(targets(&one), vec!["e1c1"]);
}

#[test]
fn test_legal_moves_leave_no_king_in_check() {
    // The pinned rook may move along the file only.
    let mut chessboard = board("4r3/8/8/8/8/8/4R3/4K3 w - - 0 1");
    let before = board("4r3/8/8/8/8/8/4R3/4K3 w - - 0 1");
    let moves = chessboard.generate_legal_moves();
    assert_eq!(chessboard, before);
    let rook_moves: Vec<String> = targets(&moves).into_iter().filter(|m| m.starts_with("e2")).collect();
    assert_eq!(rook_moves, vec!["e2e8", "e2e7", "e2e6", "e2e5", "e2e4", "e2e3"]);
    assert_eq!(moves.len(), 10);
    for mv in moves.iter() {
        chessboard.make_move(mv);
        assert!(!chessboard.is_king_attacked(&Color::White));
        chessboard.unmake_move(mv);
    }
    assert_eq!(chessboard, before);
}

#[test]
fn test_checkmate_and_stalemate_have_no_legal_move() {
    let mut mate = board("7k/5KQ1/8/8/8/8/8/8 b - - 0 1");
    assert_eq!(mate.generate_legal_moves().len(), 0);
    assert!(mate.is_in_check());
    let mut stale = board("7k/5K2/6Q1/8/8/8/8/8 b - - 0 1");
    assert_eq!(stale.generate_legal_moves().len(), 0);
    assert!(!stale.is_in_check());
    let mut start = board("rnbqkbnr/pppppppp/8/8/8/8/PPPPPPPP/RNBQKBNR w KQkq - 0 1");
    assert_eq!(start.generate_legal_moves().len(), 20);
    assert_eq!(start.generate_moves().len(), 20);
    assert!(!start.is_in_check());
}

#[test]
fn test_pseudo_moves_come_kind_by_kind() {
    let chessboard = board("8/8/8/8/8/8/P7/RNBQK3 w - - 0 1");
    let moves = targets(&chessboard.generate_moves());
    assert_eq!(
        moves,
        vec![
            "a2a3", "a2a4", "b1c3", "b1d2", "b1a3", "e1e2", "e1f2", "e1f1", "e1d2", "c1d2", "c1b2", "c1e3", "c1f4",
            "c1g5", "c1h6", "c1a3", "d1e2", "d1c2", "d1f3", "d1g4", "d1h5", "d1b3", "d1a4", "d1d8", "d1d7", "d1d6",
            "d1d5", "d1d4", "d1d3", "d1d2",
        ]
    );
}

#[test]
fn test_queen_moves_are_bishop_moves_then_rook_moves() {
    let chessboard = board("8/8/8/8/3Q4/8/8/8 w - - 0 1");
    let queens = chessboard.get_pieces_color(&Piece::Queen, &Color::White);
    let mut moves = Vec::new();
    queen::generate_pseudo_moves(queens, &chessboard, &Color::White, &mut moves);
    assert_eq!(moves.len(), 27);
    let mut diagonal = Vec::new();
    bishop::generate_pseudo_moves(queens, &chessboard, &Color::White, &mut diagonal);
    let straight = rook::generate_pseudo_moves(queens, &chessboard, &Color::White);
    assert_eq!(diagonal.len(), 13);
    assert_eq!(straight.len(), 14);
    diagonal.extend(straight);
    assert_eq!(moves, diagonal);
}

#[test]
fn test_sliding_tables() {
    assert_eq!(mask_of(0, false), 0x01010101010101fe);
    assert_eq!(mask_of(0, true), 0x8040201008040200);
    assert_eq!(mask_of(27, true), 0x8041221400142241);
    assert_eq!(ring_of(0, false), (1 << 1) | (1 << 8));
    assert_eq!(ring_of(0, true), 1 << 9);
    assert_eq!(ring_of(27, true), (1 << 18) | (1 << 20) | (1 << 34) | (1 << 36));
    assert_eq!(ring_of(27, false), (1 << 19) | (1 << 26) | (1 << 28) | (1 << 35));
    assert_eq!(steps_of(0, false), 7);
    assert_eq!(steps_of(27, false), 4);
    assert_eq!(steps_of(0, true), 7);
    assert_eq!(steps_of(27, true), 4);
    assert_eq!(steps_of(1, true), 6);
    let masks = bishop::make_mask_bishop();
    let rings = bishop::make_init_bishop();
    let steps = bishop::make_step_bishop();
    let rook_masks = rook::make_mask_rook();
    let rook_rings = rook::make_init_rook();
    let rook_steps = rook::make_step_rook();
    let tables = SlidingTables::new();
    assert!(tables.agree());
    assert_eq!(tables.mask_bishop, masks);
    assert_eq!(tables.init_rook, rook_rings);
    assert_eq!(tables.flood(20, 0xfffffffffff7ffff, false), 0x1010101010e81010);
    assert_eq!(tables.flood(59, 0xf7fffdbfffffffff, true), 0x14224000000000);
    for square in 0..64 {
        assert_eq!(tables.mask_at(square, false), mask_of(square, false));
        assert_eq!(tables.ring_at(square, true), ring_of(square, true));
        assert_eq!(tables.steps_at(square, true), steps_of(square, true));
        assert_eq!(masks[square], mask_of(square, true));
        assert_eq!(rings[square], ring_of(square, true));
        assert_eq!(steps[square], steps_of(square, true));
        assert_eq!(rook_masks[square], mask_of(square, false));
        assert_eq!(rook_rings[square], ring_of(square, false));
        assert_eq!(rook_steps[square], steps_of(square, false));
        assert_eq!(flood(square, u64::MAX, true), mask_of(square, true));
        assert_eq!(flood(square, u64::MAX, false), mask_of(square, false));
        assert_eq!(flood(square, 0, true), ring_of(square, true));
    }
}

#[test]
fn test_generate_sliding_piece_moves() {
    let chessboard = board("8/8/8/8/8/2p5/1P6/R1N5 w - - 0 1");
    let allies = chessboard.get_colors(&Color::White);
    let sliding = SlidingPiece {
        mask: mask_of(0, false),
        init: ring_of(0, false),
        step: steps_of(0, false),
        directions: vec![Direction::North, Direction::East, Direction::South, Direction::West],
    };
    let mut moves = Vec::new();
    chessboard.generate_sliding_piece_moves(0, allies, &sliding, &mut moves);
    assert_eq!(targets(&moves), vec!["a1a2", "a1b1", "a1a3", "a1a4", "a1a5", "a1a6", "a1a7", "a1a8"]);
    let mut moves = Vec::new();
    chessboard.generate_bishop_moves(2, allies, &mut moves);
    assert_eq!(targets(&moves), vec!["c1d2", "c1e3", "c1f4", "c1g5", "c1h6"]);
    let chessboard = board("8/8/8/8/8/2p5/1B6/8 w - - 0 1");
    let mut moves = Vec::new();
    chessboard.generate_bishop_moves(9, chessboard.get_colors(&Color::White), &mut moves);
    assert_eq!(targets(&moves), vec!["b2c3", "b2a3", "b2c1", "b2a1"]);
    assert_eq!(moves[0].capture, Some(Piece::Pawn));
    assert_eq!(chessboard.convert_bb_to_move(Square::from_string("b2"), (1 << 18) | (1 << 2)).to_string(), "b2c3");
}
