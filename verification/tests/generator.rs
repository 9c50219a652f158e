use std::sync::OnceLock;

use luna_chess::board::Board;
use luna_chess::movegen::MoveGen;
use luna_chess::pieces::Piece;
use luna_chess::tables::Tables;

static TABLES: OnceLock<Tables> = OnceLock::new();

fn tables() -> &'static Tables {
    TABLES.get_or_init(|| Tables::new().expect("magic search gave up"))
}

fn movegen_perft_test(fen: &str, depth: usize, result: usize) {
    let board = Board::from_fen(fen, tables()).unwrap();
    assert_eq!(MoveGen::perft_test(&board, tables(), depth), result);
}

#[test]
fn movegen_max_movents() {
    let fen = "R6R/3Q4/1Q4Q1/4Q3/2Q4Q/Q4Q2/pp1Q4/kBNN1KB1 w - - 0 1";
    let board = Board::from_fen(fen, tables()).unwrap();
    let movements = MoveGen::new_legal(&board, tables());
    assert_eq!(movements.len(), 218);
}

#[test]
fn movegen_perft() {
    movegen_perft_test("5k2/8/8/8/8/8/8/4K2R w K - 0 1", 6, 661072);
}

#[test]
fn movegen_perft_1() {
    movegen_perft_test("8/5bk1/8/2Pp4/8/1K6/8/8 w - d6 0 1", 6, 824064);
}

#[test]
fn movegen_perft_2() {
    movegen_perft_test("8/8/1k6/8/2pP4/8/5BK1/8 b - d3 0 1", 6, 824064);
}

#[test]
fn movegen_perft_3() {
    movegen_perft_test("8/8/1k6/2b5/2pP4/8/5K2/8 b - d3 0 1", 6, 1440467);
}

#[test]
fn movegen_perft_4() {
    movegen_perft_test("8/5k2/8/2Pp4/2B5/1K6/8/8 w - d6 0 1", 6, 1440467);
}

#[test]
fn movegen_perft_5() {
    movegen_perft_test("5k2/8/8/8/8/8/8/4K2R w K - 0 1", 6, 661072);
}

#[test]
fn movegen_perft_6() {
    movegen_perft_test("4k2r/8/8/8/8/8/8/5K2 b k - 0 1", 6, 661072);
}

#[test]
fn movegen_perft_7() {
    movegen_perft_test("3k4/8/8/8/8/8/8/R3K3 w Q - 0 1", 6, 803711);
}

#[test]
fn movegen_perft_8() {
    movegen_perft_test("r3k3/8/8/8/8/8/8/3K4 b q - 0 1", 6, 803711);
}

#[test]
fn movegen_perft_9() {
    movegen_perft_test("r3k2r/1b4bq/8/8/8/8/7B/R3K2R w KQkq - 0 1", 4, 1274206);
}

#[test]
fn movegen_perft_10() {
    movegen_perft_test("r3k2r/7b/8/8/8/8/1B4BQ/R3K2R b KQkq - 0 1", 4, 1274206);
}

#[test]
fn movegen_perft_11() {
    movegen_perft_test("r3k2r/8/3Q4/8/8/5q2/8/R3K2R b KQkq - 0 1", 4, 1720476);
}

#[test]
fn movegen_perft_12() {
    movegen_perft_test("r3k2r/8/5Q2/8/8/3q4/8/R3K2R w KQkq - 0 1", 4, 1720476);
}

#[test]
fn movegen_perft_13() {
    movegen_perft_test("2K2r2/4P3/8/8/8/8/8/3k4 w - - 0 1", 6, 3821001);
}

#[test]
fn movegen_perft_14() {
    movegen_perft_test("3K4/8/8/8/8/8/4p3/2k2R2 b - - 0 1", 6, 3821001);
}

#[test]
fn movegen_perft_15() {
    movegen_perft_test("8/8/1P2K3/8/2n5/1q6/8/5k2 b - - 0 1", 5, 1004658);
}

#[test]
fn movegen_perft_16() {
    movegen_perft_test("5K2/8/1Q6/2N5/8/1p2k3/8/8 w - - 0 1", 5, 1004658);
}

#[test]
fn movegen_perft_17() {
    movegen_perft_test("4k3/1P6/8/8/8/8/K7/8 w - - 0 1", 6, 217342);
}

#[test]
fn movegen_perft_18() {
    movegen_perft_test("8/k7/8/8/8/8/1p6/4K3 b - - 0 1", 6, 217342);
}

#[test]
fn movegen_perft_19() {
    movegen_perft_test("8/P1k5/K7/8/8/8/8/8 w - - 0 1", 6, 92683);
}

#[test]
fn movegen_perft_20() {
    movegen_perft_test("8/8/8/8/8/k7/p1K5/8 b - - 0 1", 6, 92683);
}

#[test]
fn movegen_perft_21() {
    movegen_perft_test("K1k5/8/P7/8/8/8/8/8 w - - 0 1", 6, 2217);
}

#[test]
fn movegen_perft_22() {
    movegen_perft_test("8/8/8/8/8/p7/8/k1K5 b - - 0 1", 6, 2217);
}

#[test]
fn movegen_perft_23() {
    movegen_perft_test("8/k1P5/8/1K6/8/8/8/8 w - - 0 1", 7, 567584);
}

#[test]
fn movegen_perft_24() {
    movegen_perft_test("8/8/8/8/1k6/8/K1p5/8 b - - 0 1", 7, 567584);
}

#[test]
fn movegen_perft_25() {
    movegen_perft_test("8/8/2k5/5q2/5n2/8/5K2/8 b - - 0 1", 4, 23527);
}

#[test]
fn movegen_perft_26() {
    movegen_perft_test("8/5k2/8/5N2/5Q2/2K5/8/8 w - - 0 1", 4, 23527);
}

#[test]
fn promotions_come_in_queen_rook_bishop_knight_order() {
    let board = Board::from_fen("4k3/1P6/8/8/8/8/K7/8 w - - 0 1", tables()).unwrap();
    let mut gen = MoveGen::new_legal(&board, tables());
    let mut promos = Vec::new();
    while let Some(m) = gen.next_move() {
        if let Some(p) = m.promotion {
            promos.push(p);
        }
    }
    assert_eq!(
        promos,
        vec![Piece::Queen, Piece::Rook, Piece::Bishop, Piece::Knight]
    );
}

#[test]
fn double_check_allows_only_king_moves() {
    // The black king stands in check from both the rook and the bishop.
    let board = Board::from_fen("4k3/8/8/1B6/8/8/8/3RK3 b - - 0 1", tables()).unwrap();
    let mut gen = MoveGen::new_legal(&board, tables());
    while let Some(m) = gen.next_move() {
        assert_eq!(m.source.to_index(), 60);
    }
}

#[test]
fn castling_emitted_exactly_when_allowed() {
    // Rights present and the corridor free: both castles appear.
    let board = Board::from_fen("r3k2r/8/8/8/8/8/8/R3K2R w KQkq - 0 1", tables()).unwrap();
    let mut gen = MoveGen::new_legal(&board, tables());
    let mut kingside = false;
    let mut queenside = false;
    while let Some(m) = gen.next_move() {
        if m.source.to_index() == 4 && m.dest.to_index() == 6 {
            kingside = true;
        }
        if m.source.to_index() == 4 && m.dest.to_index() == 2 {
            queenside = true;
        }
    }
    assert!(kingside && queenside);
    // No rights: no castle is emitted.
    let board = Board::from_fen("r3k2r/8/8/8/8/8/8/R3K2R w - - 0 1", tables()).unwrap();
    let mut gen = MoveGen::new_legal(&board, tables());
    while let Some(m) = gen.next_move() {
        if m.source.to_index() == 4 {
            assert!(m.dest.to_index() != 6 && m.dest.to_index() != 2);
        }
    }
}

#[test]
fn en_passant_emitted_exactly_when_legal() {
    // A plain en-passant capture is offered.
    let board = Board::from_fen("4k3/8/8/2Pp4/8/8/8/4K3 w - d6 0 1", tables()).unwrap();
    let mut gen = MoveGen::new_legal(&board, tables());
    let mut found = false;
    while let Some(m) = gen.next_move() {
        if m.source.to_index() == 34 && m.dest.to_index() == 43 {
            found = true;
        }
    }
    assert!(found);
    // Capturing would uncover the king to the rook: not offered.
    let board = Board::from_fen("8/8/8/KPp4r/8/8/8/4k3 w - c6 0 1", tables()).unwrap();
    let mut gen = MoveGen::new_legal(&board, tables());
    while let Some(m) = gen.next_move() {
        assert!(!(m.source.to_index() == 33 && m.dest.to_index() == 42));
    }
}

#[test]
fn movegen_mate_has_no_moves() {
    movegen_perft_test("7k/6Q1/6K1/8/8/8/8/8 b - - 0 1", 1, 0);
}

#[test]
fn movegen_stalemate_has_no_moves() {
    movegen_perft_test("7k/5Q2/6K1/8/8/8/8/8 b - - 0 1", 1, 0);
}
