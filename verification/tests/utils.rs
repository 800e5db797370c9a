use chessengine::utils::color::Color;
use chessengine::utils::file::File;
use chessengine::utils::piece::Piece;
use chessengine::utils::rank::Rank;
use chessengine::utils::square::Square;
use chessengine::utils::{parse_args, Flag};

#[test]
fn test_file_from_u32() {
    assert_eq!(File::from_u32(0), File::A);
    assert_eq!(File::from_u32(1), File::B);
    assert_eq!(File::from_u32(2), File::C);
    assert_eq!(File::from_u32(3), File::D);
    assert_eq!(File::from_u32(4), File::E);
    assert_eq!(File::from_u32(5), File::F);
    assert_eq!(File::from_u32(6), File::G);
    assert_eq!(File::from_u32(7), File::H);
}

#[test]
fn test_rank_from_u32() {
    assert_eq!(Rank::from_u32(0), Rank::One);
    assert_eq!(Rank::from_u32(1), Rank::Two);
    assert_eq!(Rank::from_u32(2), Rank::Three);
    assert_eq!(Rank::from_u32(3), Rank::Four);
    assert_eq!(Rank::from_u32(4), Rank::Five);
    assert_eq!(Rank::from_u32(5), Rank::Six);
    assert_eq!(Rank::from_u32(6), Rank::Seven);
    assert_eq!(Rank::from_u32(7), Rank::Eight);
}

#[test]
fn test_parse_args_no_args() {
    let args = vec![String::from("chessengine")];
    let parsed_args = parse_args(args);
    assert_eq!(parsed_args.get_flag(), &Flag::Ai);
    assert_eq!(parsed_args.get_file_path(), &String::from(""));
}

#[test]
fn test_parse_args_help() {
    let args = vec![String::from("chessengine"), String::from("-h")];
    let parsed_args = parse_args(args);
    assert_eq!(parsed_args.get_flag(), &Flag::Help);
    assert_eq!(parsed_args.get_file_path(), &String::from(""));
}

#[test]
fn test_parse_args_perft() {
    let args = vec![String::from("chessengine"), String::from("--perft"), String::from("test.perft")];
    let parsed_args = parse_args(args);
    assert_eq!(parsed_args.get_flag(), &Flag::Perft);
    assert_eq!(parsed_args.get_file_path(), &String::from("test.perft"));
}

#[test]
fn test_parse_args_invalid() {
    let args = vec![String::from("chessengine"), String::from("--invalid")];
    let parsed_args = parse_args(args);
    assert_eq!(parsed_args.get_flag(), &Flag::Invalid);
    assert_eq!(parsed_args.get_file_path(), &String::from("--invalid"));
}

#[test]
fn test_color_values() {
    assert_eq!(Color::White.to_char(), 'w');
    assert_eq!(Color::Black.to_char(), 'b');
    assert_eq!(Color::White.to_usize(), 0);
    assert_eq!(Color::Black.to_usize(), 1);
    assert_eq!(Color::White.opposite(), Color::Black);
    assert_eq!(Color::Black.opposite(), Color::White);
}

#[test]
fn test_file_and_rank_characters() {
    assert_eq!(File::from_char('a'), File::A);
    assert_eq!(File::from_char('h'), File::H);
    assert_eq!(File::C.to_char(), 'c');
    assert_eq!(File::H.to_u32(), 7);
    assert_eq!(Rank::from_char('1'), Rank::One);
    assert_eq!(Rank::from_char('8'), Rank::Eight);
    assert_eq!(Rank::Three.to_char(), '3');
    assert_eq!(Rank::Eight.to_u32(), 7);
    assert_eq!(File::G.to_str(), "g");
    assert_eq!(Rank::Two.to_str(), "2");
}

#[test]
fn test_piece_values() {
    assert_eq!(Piece::Pawn.to_usize(), 0);
    assert_eq!(Piece::King.to_usize(), 5);
    assert_eq!(Piece::Knight.to_char(), 'n');
    assert_eq!(Piece::Queen.to_str(), "q");
    assert_eq!(Piece::from_char('R'), Some(Piece::Rook));
    assert_eq!(Piece::from_char('b'), Some(Piece::Bishop));
    assert_eq!(Piece::from_char('x'), None);
}

#[test]
fn test_square_numbers_and_names() {
    let e4 = Square::from_string("e4");
    assert_eq!(e4, Square::new(File::E, Rank::Four));
    assert_eq!(e4.to_u32(), 28);
    assert_eq!(e4.to_bitboard(), 1 << 28);
    assert_eq!(e4.to_string(), "e4");
    assert_eq!(Square::from_u32(0).to_string(), "a1");
    assert_eq!(Square::from_u32(63).to_string(), "h8");
    assert_eq!(Square::from_u32(63).to_bitboard(), 1 << 63);
    for n in 0..64 {
        assert_eq!(Square::from_u32(n).to_u32(), n);
    }
}
