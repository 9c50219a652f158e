use std::sync::OnceLock;

use luna_chess::board::Board;
use luna_chess::pieces::Piece;
use luna_chess::square::Square;
use luna_chess::errors::FenError;
use luna_chess::tables::Tables;

static TABLES: OnceLock<Tables> = OnceLock::new();

fn tables() -> &'static Tables {
    TABLES.get_or_init(|| Tables::new().expect("magic search gave up"))
}

#[test]
fn test_board_initial_position() {
    let initial_fen = "rnbqkbnr/pppppppp/8/8/8/8/PPPPPPPP/RNBQKBNR w KQkq - 0 1";
    let board = Board::from_fen(initial_fen, tables()).unwrap();
    let board_fen = board.to_fen();
    assert_eq!(board_fen, initial_fen);
}

#[test]
fn test_board_from_str() {
    assert!(
        Board::from_fen("rnbqkbnr/pppppppp/8/8/4P3/8/PPPP1PPP/RNBQKBNR b KQkq e3 0 1", tables())
            .is_ok()
    );
    assert!(
        Board::from_fen(
            "rnbqkbnr/pp1ppppp/8/2p5/4P3/5N2/PPPP1PPP/RNBQKB1R b KQkq - 1 2",
            tables()
        )
        .is_ok()
    );
}

#[test]
fn test_board_rejects_garbage() {
    assert_eq!(
        Board::from_fen("nonsense", tables()).unwrap_err(),
        FenError::WrongFieldCount
    );
    assert_eq!(
        Board::from_fen("rnbqkbnr/pppppppp/8/8/8/8/PPPPPPPP/RNBQKBNR x KQkq - 0 1", tables())
            .unwrap_err(),
        FenError::BadSide
    );
    assert_eq!(
        Board::from_fen("rnbqkbnr/pppppppp/8/8/8/8/PPPPPPPP/RNBQKBNR w KQxq - 0 1", tables())
            .unwrap_err(),
        FenError::BadCastleRights
    );
    assert_eq!(
        Board::from_fen("rnbqkbnr/pppppppp/8/8/8/8/PPPPPPPP/RNBQKBNR w KQkq zz 0 1", tables())
            .unwrap_err(),
        FenError::BadEnPassant
    );
    assert_eq!(
        Board::from_fen("rnbqkbnr/ppppppp/8/8/8/8/PPPPPPPP/RNBQKBNR w KQkq - 0 1", tables())
            .unwrap_err(),
        FenError::BadPlacement
    );
    // Two kings of one side break a board invariant.
    assert_eq!(
        Board::from_fen("rnbqkbnk/pppppppp/8/8/8/8/PPPPPPPP/RNBQKBNR w - - 0 1", tables())
            .unwrap_err(),
        FenError::IllegalPosition
    );
}

#[test]
fn test_en_passant_dropped_without_capturer() {
    // White just pushed e2 to e4, but no black pawn stands beside e4,
    // so the passed square is not recorded.
    let board =
        Board::from_fen("rnbqkbnr/pppppppp/8/8/4P3/8/PPPP1PPP/RNBQKBNR b KQkq e3 0 1", tables())
            .unwrap();
    assert!(board.en_passant().is_none());
}

#[test]
fn test_en_passant_kept_with_capturer() {
    let board = Board::from_fen("8/5bk1/8/2Pp4/8/1K6/8/8 w - d6 0 1", tables()).unwrap();
    assert!(board.en_passant().is_some());
}

#[test]
fn test_knight_and_king_tables_are_symmetric() {
    let t = tables();
    for a in 0..64usize {
        for b in 0..64usize {
            let ka = t.knight_moves[a] & (1u64 << b) != 0;
            let kb = t.knight_moves[b] & (1u64 << a) != 0;
            assert_eq!(ka, kb);
            let ga = t.king_moves[a] & (1u64 << b) != 0;
            let gb = t.king_moves[b] & (1u64 << a) != 0;
            assert_eq!(ga, gb);
        }
    }
}

#[test]
fn test_magic_lookup_matches_ray_walk() {
    // The hashed lookup must agree with the ground-truth attack map on
    // every enumerated blocker subset.
    let t = tables();
    for s in [0u8, 7, 28, 36, 63] {
        let sq = Square::from_index(s);
        for piece in [Piece::Rook, Piece::Bishop] {
            let (blockers, attacks) = t.gen_magic_attack_map(sq, piece);
            for i in 0..blockers.len() {
                let looked = match piece {
                    Piece::Rook => t.get_rook_moves(sq, blockers[i]),
                    _ => t.get_bishop_moves(sq, blockers[i]),
                };
                assert_eq!(looked.0, attacks[i].0);
            }
        }
    }
}
