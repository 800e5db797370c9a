use chessengine::chessboard::Chessboard;

fn check_perft(fen: &str, expected: u64) {
    let mut chessboard = Chessboard::new(String::from(fen)).unwrap();
    let before = Chessboard::new(String::from(fen)).unwrap();
    let actual = chessboard.perft();
    assert_eq!(actual, expected);
    assert_eq!(chessboard, before);
}

#[test]
fn base() {
    check_perft("rnbqkbnr/pppppppp/8/8/8/8/PPPPPPPP/RNBQKBNR w KQkq - 0 1 0", 1);
    check_perft("rnbqkbnr/pppppppp/8/8/8/8/PPPPPPPP/RNBQKBNR w KQkq - 0 1 1", 20);
    check_perft("rnbqkbnr/pppppppp/8/8/8/8/PPPPPPPP/RNBQKBNR w KQkq - 0 1 2", 400);
    check_perft("rnbqkbnr/pppppppp/8/8/8/8/PPPPPPPP/RNBQKBNR w KQkq - 0 1 3", 8902);
}

#[test]
fn kiwipete() {
    check_perft("r3k2r/p1ppqpb1/bn2pnp1/3PN3/1p2P3/2N2Q1p/PPPBBPPP/R3K2R w KQkq - 0 1 1", 48);
    check_perft("r3k2r/p1ppqpb1/bn2pnp1/3PN3/1p2P3/2N2Q1p/PPPBBPPP/R3K2R w KQkq - 0 1 2", 2039);
    check_perft("r3k2r/p1ppqpb1/bn2pnp1/3PN3/1p2P3/2N2Q1p/PPPBBPPP/R3K2R w KQkq - 0 1 3", 97862);
}

#[test]
fn forbidden_castling() {
    check_perft("8/2p5/3p4/KP5r/1R3p1k/8/4P1P1/8 w - - 0 1 1", 14);
    check_perft("8/2p5/3p4/KP5r/1R3p1k/8/4P1P1/8 w - - 0 1 2", 191);
    check_perft("8/2p5/3p4/KP5r/1R3p1k/8/4P1P1/8 w - - 0 1 3", 2812);
}

#[test]
fn mirrored() {
    check_perft("r3k2r/Pppp1ppp/1b3nbN/nP6/BBP1P3/q4N2/Pp1P2PP/R2Q1RK1 w kq - 0 1 1", 6);
    check_perft("r3k2r/Pppp1ppp/1b3nbN/nP6/BBP1P3/q4N2/Pp1P2PP/R2Q1RK1 w kq - 0 1 2", 264);
    check_perft("r3k2r/Pppp1ppp/1b3nbN/nP6/BBP1P3/q4N2/Pp1P2PP/R2Q1RK1 w kq - 0 1 3", 9467);

    check_perft("r2q1rk1/pP1p2pp/Q4n2/bbp1p3/Np6/1B3NBn/pPPP1PPP/R3K2R b KQ - 0 1 1", 6);
    check_perft("r2q1rk1/pP1p2pp/Q4n2/bbp1p3/Np6/1B3NBn/pPPP1PPP/R3K2R b KQ - 0 1 2", 264);
    check_perft("r2q1rk1/pP1p2pp/Q4n2/bbp1p3/Np6/1B3NBn/pPPP1PPP/R3K2R b KQ - 0 1 3", 9467);
}

#[test]
fn edwards() {
    check_perft("rnbq1k1r/pp1Pbppp/2p5/8/2B5/8/PPP1NnPP/RNBQK2R w KQ - 1 8 1", 44);
    check_perft("rnbq1k1r/pp1Pbppp/2p5/8/2B5/8/PPP1NnPP/RNBQK2R w KQ - 1 8 2", 1486);
    check_perft("rnbq1k1r/pp1Pbppp/2p5/8/2B5/8/PPP1NnPP/RNBQK2R w KQ - 1 8 3", 62379);
}

#[test]
fn edwards_bis() {
    check_perft("r4rk1/1pp1qppp/p1np1n2/2b1p1B1/2B1P1b1/P1NP1N2/1PP1QPPP/R4RK1 w - - 0 10 1", 46);
    check_perft("r4rk1/1pp1qppp/p1np1n2/2b1p1B1/2B1P1b1/P1NP1N2/1PP1QPPP/R4RK1 w - - 0 10 2", 2079);
    check_perft("r4rk1/1pp1qppp/p1np1n2/2b1p1B1/2B1P1b1/P1NP1N2/1PP1QPPP/R4RK1 w - - 0 10 3", 89890);
}

#[test]
fn misc() {
    check_perft("rnbqkbnr/ppppp2pp/8/5p2/8/2P5/PP1PPPPP/RNBQKBNR w KQkq f6 2 2 1", 21);
    check_perft("rnbqkbnr/1pppppp1/p7/7p/8/P1P5/1P1PPPPP/RNBQKBNR w KQkq h6 4 3 1", 20);
    check_perft("rnbqkbnr/1ppp1ppp/p7/4p3/8/PP6/2PPPPPP/RNBQKBNR w KQkq e6 4 3 1", 19);
    check_perft("rnbqk1nr/pppp1ppp/4p3/8/Qb6/2P5/PP1PPPPP/RNB1KBNR w KQkq - 4 3 1", 29);
    check_perft("rnbqkbnr/2pppppp/p7/Pp6/8/8/1PPPPPPP/RNBQKBNR w KQkq b6 4 3 1", 22);
    check_perft("r3k3/p1ppqpb1/bn2pnp1/3PN3/1p2P2r/5Q1p/PPPBBPPP/RN2K2R w KQq - 2 2 1", 49);
}
