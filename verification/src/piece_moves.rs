//! Pseudo-legal move sets per piece kind, and the two king-safety
//! probes: whether a king may stand on a square, and whether an
//! en-passant capture uncovers the own king.

use vstd::prelude::*;
use crate::bitboard::BitBoard;
use crate::bits::has_bit;
use crate::board::Board;
use crate::color::Color;
use crate::geometry::{rk, fl, on_board, absi, knight_cond, king_cond, pawn_attack_cond,
    pawn_push_cond, slider_reach};
use crate::pieces::Piece;
use crate::square::Square;
use crate::tables::Tables;

verus! {

broadcast use crate::bits::group_has_lemmas;

/// Marker for move generation while the king is in check.
pub struct InCheck;

/// Marker for move generation with the king safe.
pub struct NotInCheck;

/// Compile-time flag that picks the in-check or quiet generation path.
pub trait CheckStatus {
    spec fn spec_in_check() -> bool;

    fn in_check() -> (r: bool)
        ensures
            r == Self::spec_in_check(),
    ;
}

impl CheckStatus for InCheck {
    open spec fn spec_in_check() -> bool {
        true
    }

    fn in_check() -> (r: bool) {
        true
    }
}

impl CheckStatus for NotInCheck {
    open spec fn spec_in_check() -> bool {
        false
    }

    fn in_check() -> (r: bool) {
        false
    }
}

/// The piece kind a move strategy generates for.
pub trait AsPiece {
    spec fn spec_piece() -> Piece;

    fn piece() -> (r: Piece)
        ensures
            r == Self::spec_piece(),
    ;
}

/// One per-piece strategy: the squares a piece of this kind on `square`
/// may step to under `combined` occupancy, cut to `mask`.
pub trait PieceMoves: AsPiece {
    /// The defining condition of this piece's pseudo-legal steps.
    spec fn step_cond(s: int, white: bool, occ: u64, t: int) -> bool;

    fn pseudo_legals(tables: &Tables, square: Square, color: Color, combined: BitBoard, mask:
        BitBoard) -> (r: BitBoard)
        requires
            tables.wf(),
            Self::spec_piece() is Pawn ==> (color is White ==> square.idx() / 8 != 7) && (
            color is Black ==> square.idx() / 8 != 0),
        ensures
            forall|t: int| #[trigger] r.has(t) == (on_board(t) && Self::step_cond(
                square.idx(),
                color is White,
                combined.0,
                t,
            ) && mask.has(t)),
            forall|t: int| #[trigger] r.has(t) ==> t != square.idx(),
    ;
}

pub struct RookMoves;

pub struct BishopMoves;

pub struct QueenMoves;

pub struct KnightMoves;

pub struct PawnMoves;

pub struct KingMoves;

impl AsPiece for RookMoves {
    open spec fn spec_piece() -> Piece {
        Piece::Rook
    }

    fn piece() -> (r: Piece) {
        Piece::Rook
    }
}

impl PieceMoves for RookMoves {
    open spec fn step_cond(s: int, white: bool, occ: u64, t: int) -> bool {
        slider_reach(false, s, occ, t)
    }

    fn pseudo_legals(tables: &Tables, square: Square, color: Color, combined: BitBoard, mask:
        BitBoard) -> (r: BitBoard) {
        tables.get_rook_moves(square, combined).and(mask)
    }
}

impl AsPiece for BishopMoves {
    open spec fn spec_piece() -> Piece {
        Piece::Bishop
    }

    fn piece() -> (r: Piece) {
        Piece::Bishop
    }
}

impl PieceMoves for BishopMoves {
    open spec fn step_cond(s: int, white: bool, occ: u64, t: int) -> bool {
        slider_reach(true, s, occ, t)
    }

    fn pseudo_legals(tables: &Tables, square: Square, color: Color, combined: BitBoard, mask:
        BitBoard) -> (r: BitBoard) {
        tables.get_bishop_moves(square, combined).and(mask)
    }
}

impl AsPiece for QueenMoves {
    open spec fn spec_piece() -> Piece {
        Piece::Queen
    }

    fn piece() -> (r: Piece) {
        Piece::Queen
    }
}

impl PieceMoves for QueenMoves {
    open spec fn step_cond(s: int, white: bool, occ: u64, t: int) -> bool {
        slider_reach(false, s, occ, t) || slider_reach(true, s, occ, t)
    }

    fn pseudo_legals(tables: &Tables, square: Square, color: Color, combined: BitBoard, mask:
        BitBoard) -> (r: BitBoard) {
        let rm = tables.get_rook_moves(square, combined);
        let bm = tables.get_bishop_moves(square, combined);
        rm.xor(bm).and(mask)
    }
}

impl AsPiece for KnightMoves {
    open spec fn spec_piece() -> Piece {
        Piece::Knight
    }

    fn piece() -> (r: Piece) {
        Piece::Knight
    }
}

impl PieceMoves for KnightMoves {
    open spec fn step_cond(s: int, white: bool, occ: u64, t: int) -> bool {
        knight_cond(s, t)
    }

    fn pseudo_legals(tables: &Tables, square: Square, color: Color, combined: BitBoard, mask:
        BitBoard) -> (r: BitBoard) {
        tables.get_knight_moves(square).and(mask)
    }
}

impl AsPiece for KingMoves {
    open spec fn spec_piece() -> Piece {
        Piece::King
    }

    fn piece() -> (r: Piece) {
        Piece::King
    }
}

impl PieceMoves for KingMoves {
    open spec fn step_cond(s: int, white: bool, occ: u64, t: int) -> bool {
        king_cond(s, t)
    }

    fn pseudo_legals(tables: &Tables, square: Square, color: Color, combined: BitBoard, mask:
        BitBoard) -> (r: BitBoard) {
        tables.get_king_moves(square).and(mask)
    }
}

impl AsPiece for PawnMoves {
    open spec fn spec_piece() -> Piece {
        Piece::Pawn
    }

    fn piece() -> (r: Piece) {
        Piece::Pawn
    }
}

impl PieceMoves for PawnMoves {
    open spec fn step_cond(s: int, white: bool, occ: u64, t: int) -> bool {
        (pawn_attack_cond(white, s, t) && has_bit(occ, t as u64)) || (pawn_push_cond(white, s, t)
            && !has_bit(occ, t as u64) && !has_bit(
            occ,
            (s + (if white {
                8int
            } else {
                -8int
            })) as u64,
        ))
    }

    fn pseudo_legals(tables: &Tables, square: Square, color: Color, combined: BitBoard, mask:
        BitBoard) -> (r: BitBoard) {
        tables.get_pawn_moves(square, color, combined).and(mask)
    }
}

/// An enemy rook, bishop or queen reaches `t` under occupancy `occ`.
pub open spec fn sliders_attack(board: Board, occ: u64, t: int) -> bool {
    ||| exists|a: int|
        #![trigger slider_reach(false, a, occ, t)]
        0 <= a < 64 && has_bit((board.rooks.0 | board.queens.0) & board.theirs(), a as u64)
            && slider_reach(false, a, occ, t)
    ||| exists|a: int|
        #![trigger slider_reach(true, a, occ, t)]
        0 <= a < 64 && has_bit((board.bishops.0 | board.queens.0) & board.theirs(), a as u64)
            && slider_reach(true, a, occ, t)
}

/// The occupancy an en-passant capture leaves behind: both pawns
/// lifted, the capturer dropped on the passed square.
pub open spec fn ep_probe_occ(board: Board, source: int, dest: int) -> u64 {
    board.occ() ^ (1u64 << ((dest - board.dir()) as u64)) ^ (1u64 << (source as u64)) ^ (1u64
        << (dest as u64))
}

/// An en-passant capture from `source` onto `dest` uncovers no enemy
/// slider against the own king.
pub open spec fn ep_safe(board: Board, source: int, dest: int) -> bool {
    forall|k: int|
        0 <= k < 64 && #[trigger] has_bit(board.kings.0 & board.mine(), k as u64)
            ==> !sliders_attack(board, ep_probe_occ(board, source, dest), k)
}

/// An en-passant capture from `source` onto `dest` is legal when
/// lifting both pawns off the board and dropping the capturer on `dest`
/// leaves the own king unattacked by any enemy slider.
impl PawnMoves {
    #[verifier::rlimit(60)]
    pub fn legal_ep_move(board: &Board, tables: &Tables, source: Square, dest: Square) -> (r:
        bool)
        requires
            tables.wf(),
            board.wf(),
            board.en_passant matches Some(e) && e.idx() == dest.idx(),
        ensures
            r == ep_safe(*board, source.idx(), dest.idx()),
    {
        let stm = board.side_to_move();
        let captured_pawn = match dest.forward(board.side_to_move().flip()) {
            Some(sq) => sq,
            None => dest,  // ruled out: the passed square is mid-board
        };
        proof {
            assert(captured_pawn.idx() == dest.idx() - board.dir());
        }
        let combined = board.get_combined_bitboard().xor(
            BitBoard::from_square(captured_pawn),
        ).xor(BitBoard::from_square(source)).xor(BitBoard::from_square(dest));
        proof {
            assert(combined.0 == ep_probe_occ(*board, source.idx(), dest.idx()));
        }

        let king_square = board.get_king_square(stm);
        let ghost ks = king_square.idx();
        proof {
            assert(board.mine() == board.color_bits(board.side_to_move.idx()));
            assert(has_bit(board.kings.0 & board.mine(), ks as u64));
            crate::bits::lemma_pop_one(board.kings.0 & board.mine());
            let tz = vstd::std_specs::bits::u64_trailing_zeros(board.kings.0 & board.mine())
                as u64;
            assert forall|k: int|
                0 <= k < 64 && #[trigger] has_bit(board.kings.0 & board.mine(), k as u64)
                implies k == ks by {
                assert(has_bit(1u64 << tz, k as u64) && has_bit(1u64 << tz, ks as u64));
            }
        }
        let ghost occ2 = ep_probe_occ(*board, source.idx(), dest.idx());

        let enemy_rooks = (board.get_piece_bitboard(Piece::Rook).or(
            board.get_piece_bitboard(Piece::Queen),
        )).and(board.get_color_bitboard(stm.flip()));
        proof {
            assert(enemy_rooks.0 == (board.rooks.0 | board.queens.0) & board.theirs());
        }
        let ray_hits = tables.get_rook_rays(king_square).and(enemy_rooks);
        let reach_hits = tables.get_rook_moves(king_square, combined).and(enemy_rooks);
        proof {
            if ray_hits.0 == 0 {
                assert forall|a: int|
                    0 <= a < 64 && has_bit(
                        (board.rooks.0 | board.queens.0) & board.theirs(),
                        a as u64,
                    ) implies !slider_reach(false, a, occ2, ks) by {
                    if slider_reach(false, a, occ2, ks) {
                        crate::geometry::lemma_reach_sym(false, a, occ2, ks);
                        assert(ray_hits.has(a));
                        assert(!has_bit(0u64, a as u64));
                    }
                }
            }
            if reach_hits.0 != 0 {
                crate::bits::lemma_nonzero_lowest(reach_hits.0);
                let a = vstd::std_specs::bits::u64_trailing_zeros(reach_hits.0) as int;
                assert(reach_hits.has(a));
                crate::geometry::lemma_reach_sym(false, ks, occ2, a);
                assert(slider_reach(false, a, occ2, ks));
                assert(sliders_attack(*board, occ2, ks));
            }
        }
        if !ray_hits.is_empty() && !reach_hits.is_empty() {
            return false;
        }
        let enemy_bishops = (board.get_piece_bitboard(Piece::Bishop).or(
            board.get_piece_bitboard(Piece::Queen),
        )).and(board.get_color_bitboard(stm.flip()));
        proof {
            assert(enemy_bishops.0 == (board.bishops.0 | board.queens.0) & board.theirs());
        }
        let bray_hits = tables.get_bishop_rays(king_square).and(enemy_bishops);
        let breach_hits = tables.get_bishop_moves(king_square, combined).and(enemy_bishops);
        proof {
            if bray_hits.0 == 0 {
                assert forall|a: int|
                    0 <= a < 64 && has_bit(
                        (board.bishops.0 | board.queens.0) & board.theirs(),
                        a as u64,
                    ) implies !slider_reach(true, a, occ2, ks) by {
                    if slider_reach(true, a, occ2, ks) {
                        crate::geometry::lemma_reach_sym(true, a, occ2, ks);
                        assert(bray_hits.has(a));
                        assert(!has_bit(0u64, a as u64));
                    }
                }
            }
            if breach_hits.0 != 0 {
                crate::bits::lemma_nonzero_lowest(breach_hits.0);
                let a = vstd::std_specs::bits::u64_trailing_zeros(breach_hits.0) as int;
                assert(breach_hits.has(a));
                crate::geometry::lemma_reach_sym(true, ks, occ2, a);
                assert(slider_reach(true, a, occ2, ks));
                assert(sliders_attack(*board, occ2, ks));
            }
            if ray_hits.0 != 0 && reach_hits.0 == 0 {
                assert forall|a: int|
                    0 <= a < 64 && has_bit(
                        (board.rooks.0 | board.queens.0) & board.theirs(),
                        a as u64,
                    ) implies !slider_reach(false, a, occ2, ks) by {
                    if slider_reach(false, a, occ2, ks) {
                        crate::geometry::lemma_reach_sym(false, a, occ2, ks);
                        assert(reach_hits.has(a));
                        assert(!has_bit(0u64, a as u64));
                    }
                }
            }
        }
        if !bray_hits.is_empty() && !breach_hits.is_empty() {
            return false;
        }
        proof {
            if bray_hits.0 != 0 && breach_hits.0 == 0 {
                assert forall|a: int|
                    0 <= a < 64 && has_bit(
                        (board.bishops.0 | board.queens.0) & board.theirs(),
                        a as u64,
                    ) implies !slider_reach(true, a, occ2, ks) by {
                    if slider_reach(true, a, occ2, ks) {
                        crate::geometry::lemma_reach_sym(true, a, occ2, ks);
                        assert(breach_hits.has(a));
                        assert(!has_bit(0u64, a as u64));
                    }
                }
            }
            assert(!sliders_attack(*board, occ2, ks)) by {
                if sliders_attack(*board, occ2, ks) {
                    if exists|a: int|
                        0 <= a < 64 && has_bit(
                            (board.rooks.0 | board.queens.0) & board.theirs(),
                            a as u64,
                        ) && #[trigger] slider_reach(false, a, occ2, ks) {
                        let a = choose|a: int|
                            0 <= a < 64 && has_bit(
                                (board.rooks.0 | board.queens.0) & board.theirs(),
                                a as u64,
                            ) && #[trigger] slider_reach(false, a, occ2, ks);
                        assert(!slider_reach(false, a, occ2, ks));
                    } else {
                        let a = choose|a: int|
                            0 <= a < 64 && has_bit(
                                (board.bishops.0 | board.queens.0) & board.theirs(),
                                a as u64,
                            ) && #[trigger] slider_reach(true, a, occ2, ks);
                        assert(!slider_reach(true, a, occ2, ks));
                    }
                }
            }
        }
        true
    }
}

/// Whether any enemy piece attacks `t` under occupancy `occ` on this
/// board: the exact condition `legal_move` rules out.
pub open spec fn attacked_cond(board: Board, occ: u64, t: int) -> bool {
    ||| sliders_attack(board, occ, t)
    ||| exists|a: int|
        #![trigger knight_cond(a, t)]
        0 <= a < 64 && has_bit(board.knights.0 & board.theirs(), a as u64) && knight_cond(a, t)
    ||| exists|a: int|
        #![trigger king_cond(a, t)]
        0 <= a < 64 && has_bit(board.kings.0 & board.theirs(), a as u64) && king_cond(a, t)
    ||| exists|a: int|
        #![trigger pawn_attack_cond(board.side_to_move is Black, a, t)]
        0 <= a < 64 && has_bit(board.pawns.0 & board.theirs(), a as u64) && pawn_attack_cond(
            board.side_to_move is Black,
            a,
            t,
        )
}

/// The occupancy the king-safety probe works on: the own king lifted,
/// the probed square filled.
pub open spec fn king_probe_occ(board: Board, dest: int) -> u64 {
    (board.occ() ^ (board.kings.0 & board.mine())) | (1u64 << (dest as u64))
}

impl KingMoves {
    /// Whether the own king could stand on `dest`: the king is lifted
    /// off the board, `dest` is filled, and every enemy attack pattern
    /// is probed from `dest` outward.
    #[verifier::rlimit(100)]
    pub fn legal_move(board: &Board, tables: &Tables, dest: Square) -> (r: bool)
        requires
            tables.wf(),
            board.wf(),
        ensures
            r == !attacked_cond(*board, king_probe_occ(*board, dest.idx()), dest.idx()),
    {
        let stm = board.side_to_move();
        let combined = board.get_combined_bitboard().xor(
            board.get_piece_bitboard(Piece::King).and(board.get_color_bitboard(stm)),
        ).or(BitBoard::from_square(dest));
        let ghost d = dest.idx();
        let ghost occ2 = king_probe_occ(*board, d);
        proof {
            assert(board.mine() == board.color_bits(board.side_to_move.idx()));
            assert(combined.0 == occ2);
            assert(board.theirs() == board.color_bits(1 - board.side_to_move.idx()));
        }

        let enemy_rooks = (board.get_piece_bitboard(Piece::Rook).or(
            board.get_piece_bitboard(Piece::Queen),
        )).and(board.get_color_bitboard(stm.flip()));
        let enemy_bishops = (board.get_piece_bitboard(Piece::Bishop).or(
            board.get_piece_bitboard(Piece::Queen),
        )).and(board.get_color_bitboard(stm.flip()));
        let p_rook = tables.get_rook_moves(dest, combined).and(enemy_rooks);
        let p_bishop = tables.get_bishop_moves(dest, combined).and(enemy_bishops);
        let p_knight = tables.get_knight_moves(dest).and(
            board.get_piece_bitboard(Piece::Knight),
        ).and(board.get_color_bitboard(stm.flip()));
        let p_king = tables.get_king_moves(dest).and(board.get_piece_bitboard(Piece::King)).and(
            board.get_color_bitboard(stm.flip()),
        );
        let p_pawn = tables.get_pawn_attacks(
            dest,
            stm,
            board.get_piece_bitboard(Piece::Pawn).and(board.get_color_bitboard(stm.flip())),
        );
        let attackers = p_rook.or(p_bishop).or(p_knight).or(p_king).or(p_pawn);
        proof {
            assert(enemy_rooks.0 == (board.rooks.0 | board.queens.0) & board.theirs());
            assert(enemy_bishops.0 == (board.bishops.0 | board.queens.0) & board.theirs());
            if attackers.0 != 0 {
                crate::bits::lemma_nonzero_lowest(attackers.0);
                let a = vstd::std_specs::bits::u64_trailing_zeros(attackers.0) as int;
                assert(attackers.has(a));
                if p_rook.has(a) {
                    crate::geometry::lemma_reach_sym(false, d, occ2, a);
                    assert(slider_reach(false, a, occ2, d));
                    assert(attacked_cond(*board, occ2, d));
                } else if p_bishop.has(a) {
                    crate::geometry::lemma_reach_sym(true, d, occ2, a);
                    assert(slider_reach(true, a, occ2, d));
                    assert(attacked_cond(*board, occ2, d));
                } else if p_knight.has(a) {
                    assert(has_bit(board.knights.0 & board.theirs(), a as u64));
                    assert(knight_cond(a, d));
                    assert(attacked_cond(*board, occ2, d));
                } else if p_king.has(a) {
                    assert(has_bit(board.kings.0 & board.theirs(), a as u64));
                    assert(king_cond(a, d));
                    assert(attacked_cond(*board, occ2, d));
                } else {
                    assert(p_pawn.has(a));
                    crate::geometry::lemma_pawn_attack_sym(
                        board.side_to_move is White,
                        d,
                        a,
                    );
                    assert((board.side_to_move is Black) == !(board.side_to_move is White));
                    assert(pawn_attack_cond(board.side_to_move is Black, a, d));
                    assert(attacked_cond(*board, occ2, d));
                }
            } else {
                assert(!attacked_cond(*board, occ2, d)) by {
                    if sliders_attack(*board, occ2, d) {
                        if exists|a: int|
                            0 <= a < 64 && has_bit(
                                (board.rooks.0 | board.queens.0) & board.theirs(),
                                a as u64,
                            ) && #[trigger] slider_reach(false, a, occ2, d) {
                            let a = choose|a: int|
                                0 <= a < 64 && has_bit(
                                    (board.rooks.0 | board.queens.0) & board.theirs(),
                                    a as u64,
                                ) && #[trigger] slider_reach(false, a, occ2, d);
                            crate::geometry::lemma_reach_sym(false, a, occ2, d);
                            assert(p_rook.has(a));
                            assert(attackers.has(a));
                            assert(!has_bit(0u64, a as u64));
                        } else {
                            let a = choose|a: int|
                                0 <= a < 64 && has_bit(
                                    (board.bishops.0 | board.queens.0) & board.theirs(),
                                    a as u64,
                                ) && #[trigger] slider_reach(true, a, occ2, d);
                            crate::geometry::lemma_reach_sym(true, a, occ2, d);
                            assert(p_bishop.has(a));
                            assert(attackers.has(a));
                            assert(!has_bit(0u64, a as u64));
                        }
                    }
                    if exists|a: int|
                        0 <= a < 64 && has_bit(board.knights.0 & board.theirs(), a as u64)
                            && #[trigger] knight_cond(a, d) {
                        let a = choose|a: int|
                            0 <= a < 64 && has_bit(board.knights.0 & board.theirs(), a as u64)
                                && #[trigger] knight_cond(a, d);
                        assert(knight_cond(d, a));
                        assert(p_knight.has(a));
                        assert(attackers.has(a));
                        assert(!has_bit(0u64, a as u64));
                    }
                    if exists|a: int|
                        0 <= a < 64 && has_bit(board.kings.0 & board.theirs(), a as u64)
                            && #[trigger] king_cond(a, d) {
                        let a = choose|a: int|
                            0 <= a < 64 && has_bit(board.kings.0 & board.theirs(), a as u64)
                                && #[trigger] king_cond(a, d);
                        assert(king_cond(d, a));
                        assert(p_king.has(a));
                        assert(attackers.has(a));
                        assert(!has_bit(0u64, a as u64));
                    }
                    if exists|a: int|
                        0 <= a < 64 && has_bit(board.pawns.0 & board.theirs(), a as u64)
                            && #[trigger] pawn_attack_cond(board.side_to_move is Black, a, d) {
                        let a = choose|a: int|
                            0 <= a < 64 && has_bit(board.pawns.0 & board.theirs(), a as u64)
                                && #[trigger] pawn_attack_cond(
                                board.side_to_move is Black,
                                a,
                                d,
                            );
                        crate::geometry::lemma_pawn_attack_sym(
                            board.side_to_move is Black,
                            a,
                            d,
                        );
                        assert(pawn_attack_cond(board.side_to_move is White, d, a));
                        assert(p_pawn.has(a));
                        assert(attackers.has(a));
                        assert(!has_bit(0u64, a as u64));
                    }
                }
            }
        }
        attackers.is_empty()
    }
}

} // verus!
