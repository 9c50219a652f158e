//! The legal move enumerator: per-piece staged generation filtered by
//! pins and checkers, a move iterator that unfolds promotions in a
//! fixed order, and the perft driver.

use vstd::prelude::*;
use crate::bitboard::BitBoard;
use crate::bits::{has_bit, pop64};
use crate::board::Board;
use crate::chess_move::ChessMove;
use crate::color::Color;
use crate::geometry::{rk, fl, on_board, absi, line_cond, between_cond, knight_cond, king_cond};
use crate::piece_moves::{PieceMoves, AsPiece, CheckStatus, InCheck, NotInCheck, RookMoves,
    BishopMoves, QueenMoves, KnightMoves, PawnMoves, KingMoves};
use crate::pieces::Piece;
use crate::square::Square;
use crate::tables::Tables;

verus! {

broadcast use crate::bits::group_has_lemmas;

/// One generated batch: a source square, the set of its destinations,
/// and whether each destination promotes.
#[derive(Copy, Clone)]
pub struct BitBoardMove {
    pub square: Square,
    pub bitboard: BitBoard,
    pub promotion: bool,
}

impl BitBoardMove {
    pub fn new(square: Square, bitboard: BitBoard, promotion: bool) -> (r: BitBoardMove)
        ensures
            r.square == square,
            r.bitboard == bitboard,
            r.promotion == promotion,
    {
        BitBoardMove { square, bitboard, promotion }
    }
}

/// Every destination of the batch is a move of a legal shape from the
/// batch's source square, and the promotion flag is set exactly for
/// pawns reaching the last rank.
pub open spec fn entry_ok(b: Board, e: BitBoardMove) -> bool {
    &&& on_board(e.square.idx())
    &&& has_bit(b.mine(), e.square.idx() as u64)
    &&& e.bitboard.0 != 0
    &&& forall|t: int|
        #[trigger] e.bitboard.has(t) ==> (t != e.square.idx() && !has_bit(b.mine(), t as u64) && (
        e.promotion == (has_bit(b.pawns.0, e.square.idx() as u64) && rk(t) == (
        if b.side_to_move is White {
            7int
        } else {
            0int
        }))) && (has_bit(b.pawns.0, e.square.idx() as u64) ==> b.pawn_move_ok(e.square.idx(), t))
            && (has_bit(b.kings.0, e.square.idx() as u64) ==> b.king_move_ok(e.square.idx(), t)))
}

/// The destination is allowed while evading the one checker: it blocks
/// the checking ray or captures the checker itself.
pub open spec fn evasion_ok(b: Board, t: int) -> bool {
    between_cond(
        vstd::std_specs::bits::u64_trailing_zeros(b.checkers_bitboard.0) as int,
        b.king_sq(b.side_to_move.idx()),
        t,
    ) != has_bit(b.checkers_bitboard.0, t as u64)
}

/// The destination set of a knight, bishop, rook or queen on `s`: its
/// pseudo-legal steps onto non-own squares, cut to the evasion mask
/// while in check, and to the line through the king while pinned.
/// A pinned piece moves nowhere while the king is in check.
pub open spec fn minor_dest_cond<P: PieceMoves>(b: Board, in_check: bool, s: int, t: int) -> bool {
    &&& on_board(t)
    &&& P::step_cond(s, b.side_to_move is White, b.occ(), t)
    &&& !has_bit(b.mine(), t as u64)
    &&& (if in_check {
        !has_bit(b.pinned_bitboard.0, s as u64) && evasion_ok(b, t)
    } else {
        has_bit(b.pinned_bitboard.0, s as u64) ==> line_cond(
            s,
            b.king_sq(b.side_to_move.idx()),
            t,
        )
    })
}

/// The check evasion mask: everything when the king is safe; with a
/// single checker, only its square and the squares between it and the
/// king.
fn check_mask_of<C: CheckStatus>(board: &Board, tables: &Tables) -> (r: BitBoard)
    requires
        tables.wf(),
        board.wf(),
        C::spec_in_check() ==> board.checkers_bitboard.0 != 0,
    ensures
        forall|t: int|
            0 <= t < 64 ==> #[trigger] r.has(t) == (if C::spec_in_check() {
                evasion_ok(*board, t)
            } else {
                true
            }),
{
    if C::in_check() {
        let ksq = board.get_king_square(board.side_to_move());
        let cbb = board.get_checkers_bitboard();
        let checker = cbb.to_square();
        proof {
            crate::bits::lemma_nonzero_lowest(board.checkers_bitboard.0);
            let tz = vstd::std_specs::bits::u64_trailing_zeros(board.checkers_bitboard.0) as int;
            assert(checker.idx() == tz) by {
                assert(cbb.has(checker.idx()));
                if checker.idx() < tz {
                    assert(!has_bit(board.checkers_bitboard.0, checker.idx() as u64));
                }
                if tz < checker.idx() {
                    assert(!cbb.has(tz));
                    assert(has_bit(board.checkers_bitboard.0, tz as u64));
                }
            }
        }
        tables.get_between(checker, ksq).xor(cbb)
    } else {
        let r = BitBoard(0).complement();
        proof {
            assert forall|t: int| 0 <= t < 64 implies #[trigger] r.has(t) by {
                assert(!has_bit(0u64, t as u64));
            }
        }
        r
    }
}

/// Generates the batches of one non-pawn, non-king piece kind: pieces
/// off the pin mask move within the check mask; pinned pieces move only
/// along the line through the king, and only while the king is safe.
fn push_piece_legals<P: PieceMoves, C: CheckStatus>(
    movelist: &mut Vec<BitBoardMove>,
    board: &Board,
    tables: &Tables,
    mask: BitBoard,
) -> (pushed: usize)
    requires
        tables.wf(),
        board.wf(),
        P::spec_piece() is Knight || P::spec_piece() is Bishop || P::spec_piece() is Rook
            || P::spec_piece() is Queen,
        C::spec_in_check() ==> board.checkers_bitboard.0 != 0,
        forall|t: int| #[trigger] mask.has(t) == (on_board(t) && !has_bit(board.mine(), t as u64)),
    ensures
        final(movelist)@.len() == old(movelist)@.len() + pushed,
        pushed <= 128,
        forall|k: int|
            0 <= k < old(movelist)@.len() ==> #[trigger] final(movelist)@[k] == old(movelist)@[k],
        forall|k: int|
            old(movelist)@.len() <= k < final(movelist)@.len() ==> entry_ok(
                *board,
                #[trigger] final(movelist)@[k],
            ) && has_bit(
                board.piece_bits(P::spec_piece().idx()) & board.mine(),
                (#[trigger] final(movelist)@[k]).square.idx() as u64,
            ),
        forall|k: int, t: int|
            old(movelist)@.len() <= k < final(movelist)@.len()
                ==> (#[trigger] final(movelist)@[k].bitboard.has(t)) == minor_dest_cond::<P>(
                *board,
                C::spec_in_check(),
                final(movelist)@[k].square.idx(),
                t,
            ),
        forall|s: int|
            0 <= s < 64 && #[trigger] has_bit(
                board.piece_bits(P::spec_piece().idx()) & board.mine(),
                s as u64,
            ) && (exists|t: int|
                minor_dest_cond::<P>(*board, C::spec_in_check(), s, t)) ==> exists|k: int|
                old(movelist)@.len() <= k < final(movelist)@.len()
                    && (#[trigger] final(movelist)@[k]).square.idx() == s,
{
    let combined = board.get_combined_bitboard();
    let color = board.side_to_move();
    let my_pieces = board.get_color_bitboard(color);
    let king_square = board.get_king_square(color);
    let pieces = board.get_piece_bitboard(P::piece()).and(my_pieces);
    let pinned = board.get_pinned_bitboard();
    let check_mask = check_mask_of::<C>(board, tables);
    let mut pushed: usize = 0;

    let free_bb = pieces.and(pinned.complement());
    let free = free_bb.get_squares();
    proof {
        crate::bits::lemma_pop_le_64(free_bb.0);
        assert forall|k1: int|
            0 <= k1 < free@.len() implies on_board((#[trigger] free@[k1]).idx()) && has_bit(
            board.piece_bits(P::spec_piece().idx()) & board.mine(),
            free@[k1].idx() as u64,
        ) && !has_bit(board.pinned_bitboard.0, free@[k1].idx() as u64) by {
            assert(free_bb.has(free@[k1].idx()));
            assert(pieces.has(free@[k1].idx()));
        }
        assert forall|a: int| #[trigger] free_bb.has(a) == (on_board(a) && has_bit(
            board.piece_bits(P::spec_piece().idx()) & board.mine(),
            a as u64,
        ) && !has_bit(board.pinned_bitboard.0, a as u64)) by {
            if 0 <= a < 64 {
                assert(pieces.has(a) == has_bit(
                    board.piece_bits(P::spec_piece().idx()) & board.mine(),
                    a as u64,
                ));
            }
        }
    }
    let mut k: usize = 0;
    while k < free.len()
        invariant
            tables.wf(),
            board.wf(),
            P::spec_piece() is Knight || P::spec_piece() is Bishop || P::spec_piece() is Rook
                || P::spec_piece() is Queen,
            C::spec_in_check() ==> board.checkers_bitboard.0 != 0,
            forall|t: int| #[trigger] mask.has(t) == (on_board(t) && !has_bit(
                board.mine(),
                t as u64,
            )),
            forall|t: int|
                0 <= t < 64 ==> #[trigger] check_mask.has(t) == (if C::spec_in_check() {
                    evasion_ok(*board, t)
                } else {
                    true
                }),
            forall|k1: int|
                0 <= k1 < free@.len() ==> on_board((#[trigger] free@[k1]).idx()) && has_bit(
                    board.piece_bits(P::spec_piece().idx()) & board.mine(),
                    free@[k1].idx() as u64,
                ) && !has_bit(board.pinned_bitboard.0, free@[k1].idx() as u64),
            forall|a: int| #[trigger] free_bb.has(a) ==> exists|k1: int|
                0 <= k1 < free@.len() && free@[k1].idx() == a,
            forall|a: int| #[trigger] free_bb.has(a) == (on_board(a) && has_bit(
                board.piece_bits(P::spec_piece().idx()) & board.mine(),
                a as u64,
            ) && !has_bit(board.pinned_bitboard.0, a as u64)),
            k <= free@.len(),
            free@.len() <= 64,
            color == board.side_to_move,
            combined.0 == board.occ(),
            king_square.idx() == board.king_sq(board.side_to_move.idx()),
            pushed == movelist@.len() - old(movelist)@.len(),
            pushed <= k,
            forall|k1: int|
                0 <= k1 < old(movelist)@.len() ==> #[trigger] movelist@[k1] == old(
                    movelist,
                )@[k1],
            forall|k1: int|
                old(movelist)@.len() <= k1 < movelist@.len() ==> entry_ok(
                    *board,
                    #[trigger] movelist@[k1],
                ) && has_bit(
                    board.piece_bits(P::spec_piece().idx()) & board.mine(),
                    (#[trigger] movelist@[k1]).square.idx() as u64,
                ),
            forall|k1: int, t: int|
                old(movelist)@.len() <= k1 < movelist@.len() ==> (#[trigger] movelist@[
                k1].bitboard.has(t)) == minor_dest_cond::<P>(
                    *board,
                    C::spec_in_check(),
                    movelist@[k1].square.idx(),
                    t,
                ),
            forall|k1: int|
                0 <= k1 < k && (exists|t: int|
                    minor_dest_cond::<P>(
                        *board,
                        C::spec_in_check(),
                        (#[trigger] free@[k1]).idx(),
                        t,
                    )) ==> exists|j: int|
                    old(movelist)@.len() <= j < movelist@.len() && movelist@[j].square.idx()
                        == free@[k1].idx(),
        decreases free@.len() - k,
    {
        let square = free[k];
        let ps = P::pseudo_legals(tables, square, color, combined, mask);
        let moves = ps.and(check_mask);
        proof {
            assert forall|t: int| #[trigger] moves.has(t) == minor_dest_cond::<P>(
                *board,
                C::spec_in_check(),
                square.idx(),
                t,
            ) by {
                assert(ps.has(t) == (on_board(t) && P::step_cond(
                    square.idx(),
                    board.side_to_move is White,
                    board.occ(),
                    t,
                ) && mask.has(t)));
                if 0 <= t < 64 {
                    assert(check_mask.has(t) == (if C::spec_in_check() {
                        evasion_ok(*board, t)
                    } else {
                        true
                    }));
                }
            }
        }
        if !moves.is_empty() {
            proof {
                assert forall|t: int| #[trigger] moves.has(t) implies (on_board(t)
                    && P::step_cond(square.idx(), board.side_to_move is White, board.occ(), t)
                    && t != square.idx() && !has_bit(board.mine(), t as u64)) by {
                    assert(ps.has(t));
                    assert(mask.has(t));
                }
                lemma_minor_entry::<P>(*board, square, moves);
            }
            let ghost old_ml = movelist@;
            movelist.push(BitBoardMove { square, bitboard: moves, promotion: false });
            proof {
                assert forall|k1: int|
                    0 <= k1 < k + 1 && (exists|t: int|
                        minor_dest_cond::<P>(
                            *board,
                            C::spec_in_check(),
                            (#[trigger] free@[k1]).idx(),
                            t,
                        )) implies exists|j: int|
                    old(movelist)@.len() <= j < movelist@.len() && movelist@[j].square.idx()
                        == free@[k1].idx() by {
                    if k1 < k {
                        let j = choose|j: int|
                            old(movelist)@.len() <= j < old_ml.len() && old_ml[j].square.idx()
                                == free@[k1].idx();
                        assert(movelist@[j].square.idx() == free@[k1].idx());
                    } else {
                        assert(movelist@[old_ml.len() as int].square.idx() == free@[k1].idx());
                    }
                }
            }
            pushed = pushed + 1;
        } else {
            proof {
                assert forall|t: int|
                    !minor_dest_cond::<P>(
                        *board,
                        C::spec_in_check(),
                        square.idx(),
                        t,
                    ) by {
                    assert(moves.has(t) == has_bit(0u64, t as u64));
                }
            }
        }
        k = k + 1;
    }

    if !C::in_check() {
        let caged_bb = pieces.and(pinned);
        let caged = caged_bb.get_squares();
        proof {
            crate::bits::lemma_pop_le_64(caged_bb.0);
            assert forall|k1: int|
                0 <= k1 < caged@.len() implies on_board((#[trigger] caged@[k1]).idx())
                && has_bit(
                board.piece_bits(P::spec_piece().idx()) & board.mine(),
                caged@[k1].idx() as u64,
            ) && has_bit(board.pinned_bitboard.0, caged@[k1].idx() as u64) by {
                assert(caged_bb.has(caged@[k1].idx()));
                assert(pieces.has(caged@[k1].idx()));
                assert(pinned.has(caged@[k1].idx()));
            }
            assert forall|a: int| #[trigger] caged_bb.has(a) == (on_board(a) && has_bit(
                board.piece_bits(P::spec_piece().idx()) & board.mine(),
                a as u64,
            ) && has_bit(board.pinned_bitboard.0, a as u64)) by {
                if 0 <= a < 64 {
                    assert(pieces.has(a) == has_bit(
                        board.piece_bits(P::spec_piece().idx()) & board.mine(),
                        a as u64,
                    ));
                }
            }
        }
        let mut k2: usize = 0;
        while k2 < caged.len()
            invariant
                tables.wf(),
                board.wf(),
                P::spec_piece() is Knight || P::spec_piece() is Bishop || P::spec_piece() is Rook
                    || P::spec_piece() is Queen,
                !C::spec_in_check(),
                forall|t: int| #[trigger] mask.has(t) == (on_board(t) && !has_bit(
                    board.mine(),
                    t as u64,
                )),
                forall|k1: int|
                    0 <= k1 < caged@.len() ==> on_board((#[trigger] caged@[k1]).idx())
                        && has_bit(
                        board.piece_bits(P::spec_piece().idx()) & board.mine(),
                        caged@[k1].idx() as u64,
                    ) && has_bit(board.pinned_bitboard.0, caged@[k1].idx() as u64),
                forall|a: int| #[trigger] caged_bb.has(a) ==> exists|k1: int|
                    0 <= k1 < caged@.len() && caged@[k1].idx() == a,
                forall|a: int| #[trigger] caged_bb.has(a) == (on_board(a) && has_bit(
                    board.piece_bits(P::spec_piece().idx()) & board.mine(),
                    a as u64,
                ) && has_bit(board.pinned_bitboard.0, a as u64)),
                forall|a: int| #[trigger] free_bb.has(a) ==> exists|k1: int|
                    0 <= k1 < free@.len() && free@[k1].idx() == a,
                forall|a: int| #[trigger] free_bb.has(a) == (on_board(a) && has_bit(
                    board.piece_bits(P::spec_piece().idx()) & board.mine(),
                    a as u64,
                ) && !has_bit(board.pinned_bitboard.0, a as u64)),
                forall|k1: int|
                    0 <= k1 < free@.len() && (exists|t: int|
                        minor_dest_cond::<P>(
                            *board,
                            C::spec_in_check(),
                            (#[trigger] free@[k1]).idx(),
                            t,
                        )) ==> exists|j: int|
                        old(movelist)@.len() <= j < movelist@.len() && movelist@[j].square.idx()
                            == free@[k1].idx(),
                k2 <= caged@.len(),
                caged@.len() <= 64,
                color == board.side_to_move,
                combined.0 == board.occ(),
                king_square.idx() == board.king_sq(board.side_to_move.idx()),
                pushed == movelist@.len() - old(movelist)@.len(),
                pushed <= 64 + k2,
                forall|k1: int|
                    0 <= k1 < old(movelist)@.len() ==> #[trigger] movelist@[k1] == old(
                        movelist,
                    )@[k1],
                forall|k1: int|
                    old(movelist)@.len() <= k1 < movelist@.len() ==> entry_ok(
                        *board,
                        #[trigger] movelist@[k1],
                    ) && has_bit(
                        board.piece_bits(P::spec_piece().idx()) & board.mine(),
                        (#[trigger] movelist@[k1]).square.idx() as u64,
                    ),
                forall|k1: int, t: int|
                    old(movelist)@.len() <= k1 < movelist@.len() ==> (#[trigger] movelist@[
                    k1].bitboard.has(t)) == minor_dest_cond::<P>(
                        *board,
                        C::spec_in_check(),
                        movelist@[k1].square.idx(),
                        t,
                    ),
                forall|k1: int|
                    0 <= k1 < k2 && (exists|t: int|
                        minor_dest_cond::<P>(
                            *board,
                            C::spec_in_check(),
                            (#[trigger] caged@[k1]).idx(),
                            t,
                        )) ==> exists|j: int|
                        old(movelist)@.len() <= j < movelist@.len() && movelist@[j].square.idx()
                            == caged@[k1].idx(),
            decreases caged@.len() - k2,
        {
            let square = caged[k2];
            let ps = P::pseudo_legals(tables, square, color, combined, mask);
            let moves = ps.and(tables.get_line(square, king_square));
            proof {
                assert forall|t: int| #[trigger] moves.has(t) == minor_dest_cond::<P>(
                    *board,
                    C::spec_in_check(),
                    square.idx(),
                    t,
                ) by {
                    assert(ps.has(t) == (on_board(t) && P::step_cond(
                        square.idx(),
                        board.side_to_move is White,
                        board.occ(),
                        t,
                    ) && mask.has(t)));
                }
            }
            if !moves.is_empty() {
                proof {
                    assert forall|t: int| #[trigger] moves.has(t) implies (on_board(t)
                        && P::step_cond(
                        square.idx(),
                        board.side_to_move is White,
                        board.occ(),
                        t,
                    ) && t != square.idx() && !has_bit(board.mine(), t as u64)) by {
                        assert(ps.has(t));
                        assert(mask.has(t));
                    }
                    lemma_minor_entry::<P>(*board, square, moves);
                }
                let ghost old_ml = movelist@;
                movelist.push(BitBoardMove { square, bitboard: moves, promotion: false });
                proof {
                    assert forall|k1: int|
                        0 <= k1 < free@.len() && (exists|t: int|
                            minor_dest_cond::<P>(
                                *board,
                                C::spec_in_check(),
                                (#[trigger] free@[k1]).idx(),
                                t,
                            )) implies exists|j: int|
                        old(movelist)@.len() <= j < movelist@.len() && movelist@[j].square.idx()
                            == free@[k1].idx() by {
                        let j = choose|j: int|
                            old(movelist)@.len() <= j < old_ml.len() && old_ml[j].square.idx()
                                == free@[k1].idx();
                        assert(movelist@[j].square.idx() == free@[k1].idx());
                    }
                    assert forall|k1: int|
                        0 <= k1 < k2 + 1 && (exists|t: int|
                            minor_dest_cond::<P>(
                                *board,
                                C::spec_in_check(),
                                (#[trigger] caged@[k1]).idx(),
                                t,
                            )) implies exists|j: int|
                        old(movelist)@.len() <= j < movelist@.len() && movelist@[j].square.idx()
                            == caged@[k1].idx() by {
                        if k1 < k2 {
                            let j = choose|j: int|
                                old(movelist)@.len() <= j < old_ml.len() && old_ml[
                                j].square.idx() == caged@[k1].idx();
                            assert(movelist@[j].square.idx() == caged@[k1].idx());
                        } else {
                            assert(movelist@[old_ml.len() as int].square.idx() == caged@[
                            k1].idx());
                        }
                    }
                }
                pushed = pushed + 1;
            } else {
                proof {
                    assert forall|t: int|
                        !minor_dest_cond::<P>(
                            *board,
                            C::spec_in_check(),
                            square.idx(),
                            t,
                        ) by {
                        assert(moves.has(t) == has_bit(0u64, t as u64));
                    }
                }
            }
            k2 = k2 + 1;
        }
        proof {
            assert forall|s: int|
                0 <= s < 64 && #[trigger] has_bit(
                    board.piece_bits(P::spec_piece().idx()) & board.mine(),
                    s as u64,
                ) && has_bit(board.pinned_bitboard.0, s as u64) && (exists|t: int|
                    minor_dest_cond::<P>(
                        *board,
                        C::spec_in_check(),
                        s,
                        t,
                    )) implies exists|k1: int|
                old(movelist)@.len() <= k1 < movelist@.len() && (#[trigger] movelist@[
                k1]).square.idx() == s by {
                assert(caged_bb.has(s));
                let k1 = choose|k1: int| 0 <= k1 < caged@.len() && caged@[k1].idx() == s;
                assert(exists|t: int|
                    minor_dest_cond::<P>(*board, C::spec_in_check(), caged@[k1].idx(), t));
            }
        }
    }
    proof {
        assert forall|s: int|
            0 <= s < 64 && #[trigger] has_bit(
                board.piece_bits(P::spec_piece().idx()) & board.mine(),
                s as u64,
            ) && (exists|t: int|
                minor_dest_cond::<P>(*board, C::spec_in_check(), s, t)) implies exists|k1: int|
            old(movelist)@.len() <= k1 < movelist@.len() && (#[trigger] movelist@[
            k1]).square.idx() == s by {
            if has_bit(board.pinned_bitboard.0, s as u64) {
                if C::spec_in_check() {
                    let t = choose|t: int|
                        minor_dest_cond::<P>(*board, C::spec_in_check(), s, t);
                    assert(false);
                }
            } else {
                assert(free_bb.has(s));
                let k1 = choose|k1: int| 0 <= k1 < free@.len() && free@[k1].idx() == s;
                assert(exists|t: int|
                    minor_dest_cond::<P>(*board, C::spec_in_check(), free@[k1].idx(), t));
            }
        }
    }
    pushed
}

/// A nonempty batch of a knight, bishop, rook or queen is a batch of
/// legal move shapes.
proof fn lemma_minor_entry<P: PieceMoves>(b: Board, square: Square, moves: BitBoard)
    requires
        b.wf(),
        on_board(square.idx()),
        P::spec_piece() is Knight || P::spec_piece() is Bishop || P::spec_piece() is Rook
            || P::spec_piece() is Queen,
        has_bit(b.piece_bits(P::spec_piece().idx()) & b.mine(), square.idx() as u64),
        moves.0 != 0,
        forall|t: int| #[trigger] moves.has(t) ==> (on_board(t) && P::step_cond(
            square.idx(),
            b.side_to_move is White,
            b.occ(),
            t,
        ) && t != square.idx() && !has_bit(b.mine(), t as u64)),
    ensures
        entry_ok(b, BitBoardMove { square, bitboard: moves, promotion: false }),
{
    let s = square.idx();
    assert(has_bit(b.mine(), s as u64));
    let p = P::spec_piece().idx();
    assert(has_bit(b.piece_bits(p), s as u64));
    assert(!has_bit(b.pawns.0, s as u64) && !has_bit(b.kings.0, s as u64)) by {
        assert(b.piece_bits(0) == b.pawns.0 && b.piece_bits(5) == b.kings.0);
        assert(!(has_bit(b.piece_bits(0), s as u64) && has_bit(b.piece_bits(p), s as u64)));
        assert(!(has_bit(b.piece_bits(p), s as u64) && has_bit(b.piece_bits(5), s as u64)));
    }
    assert forall|t: int| #[trigger] moves.has(t) implies (t != s && !has_bit(
        b.mine(),
        t as u64,
    ) && (false == (has_bit(b.pawns.0, s as u64) && rk(t) == (if b.side_to_move is White {
        7int
    } else {
        0int
    }))) && (has_bit(b.pawns.0, s as u64) ==> b.pawn_move_ok(s, t)) && (has_bit(
        b.kings.0,
        s as u64,
    ) ==> b.king_move_ok(s, t))) by {
        assert(P::step_cond(s, b.side_to_move is White, b.occ(), t));
    }
}

/// Generates the pawn batches: pushes and captures masked by pins and
/// checks, with the promotion flag on pre-promotion pawns, and the
/// en-passant captures that survive the uncovered-check probe.
#[verifier::rlimit(100)]
fn push_pawn_legals<C: CheckStatus>(
    movelist: &mut Vec<BitBoardMove>,
    board: &Board,
    tables: &Tables,
    mask: BitBoard,
) -> (pushed: usize)
    requires
        tables.wf(),
        board.wf(),
        C::spec_in_check() ==> board.checkers_bitboard.0 != 0,
        forall|t: int| #[trigger] mask.has(t) == (on_board(t) && !has_bit(board.mine(), t as u64)),
    ensures
        final(movelist)@.len() == old(movelist)@.len() + pushed,
        pushed <= 192,
        forall|k: int|
            0 <= k < old(movelist)@.len() ==> #[trigger] final(movelist)@[k] == old(movelist)@[k],
        forall|k: int|
            old(movelist)@.len() <= k < final(movelist)@.len() ==> entry_ok(
                *board,
                #[trigger] final(movelist)@[k],
            ),
        forall|k: int|
            old(movelist)@.len() <= k < final(movelist)@.len() ==> has_bit(
                board.pawns.0 & board.mine(),
                (#[trigger] final(movelist)@[k]).square.idx() as u64,
            ),
        forall|k: int|
            old(movelist)@.len() <= k < final(movelist)@.len() ==> ((forall|t: int|
                (#[trigger] final(movelist)@[k].bitboard.has(t)) == minor_dest_cond::<
                    PawnMoves,
                >(*board, C::spec_in_check(), final(movelist)@[k].square.idx(), t))
                || pawn_ep_entry(*board, #[trigger] final(movelist)@[k])),
        forall|s: int|
            0 <= s < 64 && #[trigger] has_bit(
                board.piece_bits(0) & board.mine(),
                s as u64,
            ) && (exists|t: int|
                minor_dest_cond::<PawnMoves>(*board, C::spec_in_check(), s, t)) ==> exists|k: int|
                old(movelist)@.len() <= k < final(movelist)@.len()
                    && (#[trigger] final(movelist)@[k]).square.idx() == s && (forall|t: int|
                    (#[trigger] final(movelist)@[k].bitboard.has(t)) == minor_dest_cond::<
                        PawnMoves,
                    >(*board, C::spec_in_check(), s, t)),
        board.en_passant matches Some(ep) ==> forall|s: int|
            0 <= s < 64 && absi(fl(s) - fl(ep.idx())) == 1 ==> ((exists|k: int|
                old(movelist)@.len() <= k < final(movelist)@.len()
                    && (#[trigger] final(movelist)@[k]).square.idx() == s
                    && final(movelist)@[k].bitboard.has(ep.idx())) == (has_bit(
                board.pawns.0 & board.mine(),
                s as u64,
            )
                && rk(s) == rk(ep.idx()) + (if board.side_to_move is White {
                -1int
            } else {
                1int
            }) && crate::piece_moves::ep_safe(*board, s, ep.idx()))),
{
    let combined = board.get_combined_bitboard();
    let color = board.side_to_move();
    let my_pieces = board.get_color_bitboard(color);
    let king_square = board.get_king_square(color);
    let pieces = board.get_piece_bitboard(Piece::Pawn).and(my_pieces);
    let pinned = board.get_pinned_bitboard();
    let check_mask = check_mask_of::<C>(board, tables);
    let pre_promotion = color.pre_promotion_rank();
    let mut pushed: usize = 0;

    let free_bb = pieces.and(pinned.complement());
    let free = free_bb.get_squares();
    proof {
        crate::bits::lemma_pop_le_64(free_bb.0);
        assert forall|k1: int|
            0 <= k1 < free@.len() implies on_board((#[trigger] free@[k1]).idx()) && has_bit(
            board.piece_bits(0) & board.mine(),
            free@[k1].idx() as u64,
        ) && !has_bit(board.pinned_bitboard.0, free@[k1].idx() as u64) by {
            assert(free_bb.has(free@[k1].idx()));
            assert(pieces.has(free@[k1].idx()));
        }
        assert forall|a: int| #[trigger] free_bb.has(a) == (on_board(a) && has_bit(
            board.piece_bits(0) & board.mine(),
            a as u64,
        ) && !has_bit(board.pinned_bitboard.0, a as u64)) by {
            if 0 <= a < 64 {
                assert(pieces.has(a) == has_bit(
                    board.piece_bits(0) & board.mine(),
                    a as u64,
                ));
            }
        }
    }
    let mut k: usize = 0;
    while k < free.len()
        invariant
            tables.wf(),
            board.wf(),
            C::spec_in_check() ==> board.checkers_bitboard.0 != 0,
            forall|t: int| #[trigger] mask.has(t) == (on_board(t) && !has_bit(
                board.mine(),
                t as u64,
            )),
            forall|t: int|
                0 <= t < 64 ==> #[trigger] check_mask.has(t) == (if C::spec_in_check() {
                    evasion_ok(*board, t)
                } else {
                    true
                }),
            forall|k1: int|
                0 <= k1 < free@.len() ==> on_board((#[trigger] free@[k1]).idx()) && has_bit(
                    board.piece_bits(0) & board.mine(),
                    free@[k1].idx() as u64,
                ) && !has_bit(board.pinned_bitboard.0, free@[k1].idx() as u64),
            forall|a: int| #[trigger] free_bb.has(a) ==> exists|k1: int|
                0 <= k1 < free@.len() && free@[k1].idx() == a,
            forall|a: int| #[trigger] free_bb.has(a) == (on_board(a) && has_bit(
                board.piece_bits(0) & board.mine(),
                a as u64,
            ) && !has_bit(board.pinned_bitboard.0, a as u64)),
            k <= free@.len(),
            free@.len() <= 64,
            color == board.side_to_move,
            combined.0 == board.occ(),
            king_square.idx() == board.king_sq(board.side_to_move.idx()),
            pre_promotion.idx() == (if color is White {
                6int
            } else {
                1int
            }),
            pushed == movelist@.len() - old(movelist)@.len(),
            pushed <= k,
            forall|k1: int|
                0 <= k1 < old(movelist)@.len() ==> #[trigger] movelist@[k1] == old(
                    movelist,
                )@[k1],
            forall|k1: int|
                old(movelist)@.len() <= k1 < movelist@.len() ==> entry_ok(
                    *board,
                    #[trigger] movelist@[k1],
                ),
            forall|k1: int|
                old(movelist)@.len() <= k1 < movelist@.len() ==> has_bit(
                    board.pawns.0 & board.mine(),
                    (#[trigger] movelist@[k1]).square.idx() as u64,
                ),
            forall|k1: int, t: int|
                old(movelist)@.len() <= k1 < movelist@.len() ==> (#[trigger] movelist@[
                k1].bitboard.has(t)) == minor_dest_cond::<PawnMoves>(
                    *board,
                    C::spec_in_check(),
                    movelist@[k1].square.idx(),
                    t,
                ),
            forall|k1: int|
                0 <= k1 < k && (exists|t: int|
                    minor_dest_cond::<PawnMoves>(
                        *board,
                        C::spec_in_check(),
                        (#[trigger] free@[k1]).idx(),
                        t,
                    )) ==> exists|j: int|
                    old(movelist)@.len() <= j < movelist@.len() && movelist@[j].square.idx()
                        == free@[k1].idx(),
        decreases free@.len() - k,
    {
        let square = free[k];
        proof {
            assert(has_bit(board.pawns.0, square.idx() as u64)) by {
                assert(board.piece_bits(0) == board.pawns.0);
            }
            assert(0 < rk(square.idx()) < 7);
        }
        let ps = PawnMoves::pseudo_legals(tables, square, color, combined, mask);
        let moves = ps.and(check_mask);
        proof {
            assert forall|t: int| #[trigger] moves.has(t) == minor_dest_cond::<PawnMoves>(
                *board,
                C::spec_in_check(),
                square.idx(),
                t,
            ) by {
                assert(ps.has(t) == (on_board(t) && PawnMoves::step_cond(
                    square.idx(),
                    board.side_to_move is White,
                    board.occ(),
                    t,
                ) && mask.has(t)));
                if 0 <= t < 64 {
                    assert(check_mask.has(t) == (if C::spec_in_check() {
                        evasion_ok(*board, t)
                    } else {
                        true
                    }));
                }
            }
        }
        if !moves.is_empty() {
            proof {
                assert forall|t: int| #[trigger] moves.has(t) implies (on_board(t)
                    && PawnMoves::step_cond(square.idx(), board.side_to_move is White, board.occ(), t)
                    && t != square.idx() && !has_bit(board.mine(), t as u64)) by {
                    assert(ps.has(t));
                    assert(mask.has(t));
                }
            }
            let promo = square.get_rank().to_index() == pre_promotion.to_index();
            proof {
                assert(board.piece_bits(0) == board.pawns.0);
                lemma_pawn_entry(*board, square, moves, promo);
            }
            let ghost old_ml = movelist@;
            movelist.push(BitBoardMove { square, bitboard: moves, promotion: promo });
            proof {
                assert forall|k1: int|
                    0 <= k1 < k + 1 && (exists|t: int|
                        minor_dest_cond::<PawnMoves>(
                            *board,
                            C::spec_in_check(),
                            (#[trigger] free@[k1]).idx(),
                            t,
                        )) implies exists|j: int|
                    old(movelist)@.len() <= j < movelist@.len() && movelist@[j].square.idx()
                        == free@[k1].idx() by {
                    if k1 < k {
                        let j = choose|j: int|
                            old(movelist)@.len() <= j < old_ml.len() && old_ml[j].square.idx()
                                == free@[k1].idx();
                        assert(movelist@[j].square.idx() == free@[k1].idx());
                    } else {
                        assert(movelist@[old_ml.len() as int].square.idx() == free@[k1].idx());
                    }
                }
            }
            pushed = pushed + 1;
        } else {
            proof {
                assert forall|t: int|
                    !minor_dest_cond::<PawnMoves>(
                        *board,
                        C::spec_in_check(),
                        square.idx(),
                        t,
                    ) by {
                    assert(moves.has(t) == has_bit(0u64, t as u64));
                }
            }
        }
        k = k + 1;
    }

    if !C::in_check() {
        let caged_bb = pieces.and(pinned);
        let caged = caged_bb.get_squares();
        proof {
            crate::bits::lemma_pop_le_64(caged_bb.0);
            assert forall|k1: int|
                0 <= k1 < caged@.len() implies on_board((#[trigger] caged@[k1]).idx())
                && has_bit(
                board.piece_bits(0) & board.mine(),
                caged@[k1].idx() as u64,
            ) && has_bit(board.pinned_bitboard.0, caged@[k1].idx() as u64) by {
                assert(caged_bb.has(caged@[k1].idx()));
                assert(pieces.has(caged@[k1].idx()));
                assert(pinned.has(caged@[k1].idx()));
            }
            assert forall|a: int| #[trigger] caged_bb.has(a) == (on_board(a) && has_bit(
                board.piece_bits(0) & board.mine(),
                a as u64,
            ) && has_bit(board.pinned_bitboard.0, a as u64)) by {
                if 0 <= a < 64 {
                    assert(pieces.has(a) == has_bit(
                        board.piece_bits(0) & board.mine(),
                        a as u64,
                    ));
                }
            }
        }
        let mut k2: usize = 0;
        while k2 < caged.len()
            invariant
                tables.wf(),
                board.wf(),
                !C::spec_in_check(),
                forall|t: int| #[trigger] mask.has(t) == (on_board(t) && !has_bit(
                    board.mine(),
                    t as u64,
                )),
                forall|k1: int|
                    0 <= k1 < caged@.len() ==> on_board((#[trigger] caged@[k1]).idx())
                        && has_bit(
                        board.piece_bits(0) & board.mine(),
                        caged@[k1].idx() as u64,
                    ) && has_bit(board.pinned_bitboard.0, caged@[k1].idx() as u64),
                forall|a: int| #[trigger] caged_bb.has(a) ==> exists|k1: int|
                    0 <= k1 < caged@.len() && caged@[k1].idx() == a,
                forall|a: int| #[trigger] caged_bb.has(a) == (on_board(a) && has_bit(
                    board.piece_bits(0) & board.mine(),
                    a as u64,
                ) && has_bit(board.pinned_bitboard.0, a as u64)),
                forall|a: int| #[trigger] free_bb.has(a) ==> exists|k1: int|
                    0 <= k1 < free@.len() && free@[k1].idx() == a,
                forall|a: int| #[trigger] free_bb.has(a) == (on_board(a) && has_bit(
                    board.piece_bits(0) & board.mine(),
                    a as u64,
                ) && !has_bit(board.pinned_bitboard.0, a as u64)),
                forall|k1: int|
                    0 <= k1 < free@.len() && (exists|t: int|
                        minor_dest_cond::<PawnMoves>(
                            *board,
                            C::spec_in_check(),
                            (#[trigger] free@[k1]).idx(),
                            t,
                        )) ==> exists|j: int|
                        old(movelist)@.len() <= j < movelist@.len() && movelist@[j].square.idx()
                            == free@[k1].idx(),
                k2 <= caged@.len(),
                caged@.len() <= 64,
                color == board.side_to_move,
                combined.0 == board.occ(),
                king_square.idx() == board.king_sq(board.side_to_move.idx()),
                pre_promotion.idx() == (if color is White {
                    6int
                } else {
                    1int
                }),
                pushed == movelist@.len() - old(movelist)@.len(),
                pushed <= 64 + k2,
                forall|k1: int|
                    0 <= k1 < old(movelist)@.len() ==> #[trigger] movelist@[k1] == old(
                        movelist,
                    )@[k1],
                forall|k1: int|
                    old(movelist)@.len() <= k1 < movelist@.len() ==> entry_ok(
                        *board,
                        #[trigger] movelist@[k1],
                    ),
                forall|k1: int|
                    old(movelist)@.len() <= k1 < movelist@.len() ==> has_bit(
                        board.pawns.0 & board.mine(),
                        (#[trigger] movelist@[k1]).square.idx() as u64,
                    ),
                forall|k1: int, t: int|
                    old(movelist)@.len() <= k1 < movelist@.len() ==> (#[trigger] movelist@[
                    k1].bitboard.has(t)) == minor_dest_cond::<PawnMoves>(
                        *board,
                        C::spec_in_check(),
                        movelist@[k1].square.idx(),
                        t,
                    ),
                forall|k1: int|
                    0 <= k1 < k2 && (exists|t: int|
                        minor_dest_cond::<PawnMoves>(
                            *board,
                            C::spec_in_check(),
                            (#[trigger] caged@[k1]).idx(),
                            t,
                        )) ==> exists|j: int|
                        old(movelist)@.len() <= j < movelist@.len() && movelist@[j].square.idx()
                            == caged@[k1].idx(),
            decreases caged@.len() - k2,
        {
            let square = caged[k2];
            proof {
                assert(has_bit(board.pawns.0, square.idx() as u64)) by {
                    assert(board.piece_bits(0) == board.pawns.0);
                }
                assert(0 < rk(square.idx()) < 7);
            }
            let ps = PawnMoves::pseudo_legals(tables, square, color, combined, mask);
            let moves = ps.and(tables.get_line(king_square, square));
            proof {
                assert forall|t: int| #[trigger] moves.has(t) == minor_dest_cond::<PawnMoves>(
                    *board,
                    C::spec_in_check(),
                    square.idx(),
                    t,
                ) by {
                    assert(ps.has(t) == (on_board(t) && PawnMoves::step_cond(
                        square.idx(),
                        board.side_to_move is White,
                        board.occ(),
                        t,
                    ) && mask.has(t)));
                    crate::geometry::lemma_line_sym(
                        board.king_sq(board.side_to_move.idx()),
                        square.idx(),
                        t,
                    );
                }
            }
            if !moves.is_empty() {
                proof {
                    assert forall|t: int| #[trigger] moves.has(t) implies (on_board(t)
                        && PawnMoves::step_cond(
                        square.idx(),
                        board.side_to_move is White,
                        board.occ(),
                        t,
                    ) && t != square.idx() && !has_bit(board.mine(), t as u64)) by {
                        assert(ps.has(t));
                        assert(mask.has(t));
                    }
                }
                let promo = square.get_rank().to_index() == pre_promotion.to_index();
                proof {
                    assert(board.piece_bits(0) == board.pawns.0);
                    lemma_pawn_entry(*board, square, moves, promo);
                }
                let ghost old_ml = movelist@;
                movelist.push(BitBoardMove { square, bitboard: moves, promotion: promo });
                proof {
                    assert forall|k1: int|
                        0 <= k1 < free@.len() && (exists|t: int|
                            minor_dest_cond::<PawnMoves>(
                                *board,
                                C::spec_in_check(),
                                (#[trigger] free@[k1]).idx(),
                                t,
                            )) implies exists|j: int|
                        old(movelist)@.len() <= j < movelist@.len() && movelist@[j].square.idx()
                            == free@[k1].idx() by {
                        let j = choose|j: int|
                            old(movelist)@.len() <= j < old_ml.len() && old_ml[j].square.idx()
                                == free@[k1].idx();
                        assert(movelist@[j].square.idx() == free@[k1].idx());
                    }
                    assert forall|k1: int|
                        0 <= k1 < k2 + 1 && (exists|t: int|
                            minor_dest_cond::<PawnMoves>(
                                *board,
                                C::spec_in_check(),
                                (#[trigger] caged@[k1]).idx(),
                                t,
                            )) implies exists|j: int|
                        old(movelist)@.len() <= j < movelist@.len() && movelist@[j].square.idx()
                            == caged@[k1].idx() by {
                        if k1 < k2 {
                            let j = choose|j: int|
                                old(movelist)@.len() <= j < old_ml.len() && old_ml[
                                j].square.idx() == caged@[k1].idx();
                            assert(movelist@[j].square.idx() == caged@[k1].idx());
                        } else {
                            assert(movelist@[old_ml.len() as int].square.idx() == caged@[
                            k1].idx());
                        }
                    }
                }
                pushed = pushed + 1;
            } else {
                proof {
                    assert forall|t: int|
                        !minor_dest_cond::<PawnMoves>(
                            *board,
                            C::spec_in_check(),
                            square.idx(),
                            t,
                        ) by {
                        assert(moves.has(t) == has_bit(0u64, t as u64));
                    }
                }
            }
            k2 = k2 + 1;
        }
        proof {
            assert forall|s: int|
                0 <= s < 64 && #[trigger] has_bit(
                    board.piece_bits(0) & board.mine(),
                    s as u64,
                ) && has_bit(board.pinned_bitboard.0, s as u64) && (exists|t: int|
                    minor_dest_cond::<PawnMoves>(
                        *board,
                        C::spec_in_check(),
                        s,
                        t,
                    )) implies exists|k1: int|
                old(movelist)@.len() <= k1 < movelist@.len() && (#[trigger] movelist@[
                k1]).square.idx() == s by {
                assert(caged_bb.has(s));
                let k1 = choose|k1: int| 0 <= k1 < caged@.len() && caged@[k1].idx() == s;
                assert(exists|t: int|
                    minor_dest_cond::<PawnMoves>(*board, C::spec_in_check(), caged@[k1].idx(), t));
            }
        }
    }
    proof {
        assert forall|s: int|
            0 <= s < 64 && #[trigger] has_bit(
                board.piece_bits(0) & board.mine(),
                s as u64,
            ) && (exists|t: int|
                minor_dest_cond::<PawnMoves>(*board, C::spec_in_check(), s, t)) implies exists|k1: int|
            old(movelist)@.len() <= k1 < movelist@.len() && (#[trigger] movelist@[
            k1]).square.idx() == s by {
            if has_bit(board.pinned_bitboard.0, s as u64) {
                if C::spec_in_check() {
                    let t = choose|t: int|
                        minor_dest_cond::<PawnMoves>(*board, C::spec_in_check(), s, t);
                    assert(false);
                }
            } else {
                assert(free_bb.has(s));
                let k1 = choose|k1: int| 0 <= k1 < free@.len() && free@[k1].idx() == s;
                assert(exists|t: int|
                    minor_dest_cond::<PawnMoves>(*board, C::spec_in_check(), free@[k1].idx(), t));
            }
        }
    }
    let ghost main_hi = movelist@.len();
    match board.en_passant() {
        Some(ep_square) => {
            let behind_rank = ep_square.get_rank().forward(color.flip());
            let rank_bb = tables.get_rank_bitboard(behind_rank);
            let adj_bb = tables.get_adjacent_files(ep_square.get_file());
            let pieces2 = board.get_piece_bitboard(Piece::Pawn).and(
                board.get_color_bitboard(color),
            );
            let candidates_bb = rank_bb.and(adj_bb).and(pieces2);
            let candidates = candidates_bb.get_squares();
            proof {
                crate::bits::lemma_pop_le_64(candidates_bb.0);
                assert(rk(ep_square.idx()) == (if color is White {
                    5int
                } else {
                    2int
                }));
                assert(behind_rank.idx() == rk(ep_square.idx()) + (if color is White {
                    -1int
                } else {
                    1int
                }));
                assert forall|a: int| #[trigger] candidates_bb.has(a) == (on_board(a) && has_bit(
                    board.pawns.0 & board.mine(),
                    a as u64,
                ) && rk(a) == rk(ep_square.idx()) + (if color is White {
                    -1int
                } else {
                    1int
                }) && absi(fl(a) - fl(ep_square.idx())) == 1) by {
                    if 0 <= a < 64 {
                        assert(pieces2.has(a) == has_bit(
                            board.pawns.0 & board.mine(),
                            a as u64,
                        ));
                    }
                }
            }
            let mut k3: usize = 0;
            while k3 < candidates.len()
                invariant
                    tables.wf(),
                    board.wf(),
                    board.en_passant == Some(ep_square),
                    k3 <= candidates@.len(),
                    candidates@.len() <= 64,
                    color == board.side_to_move,
                    0 <= ep_square.idx() < 64,
                    forall|a: int| #[trigger] candidates_bb.has(a) == (on_board(a) && has_bit(
                        board.pawns.0 & board.mine(),
                        a as u64,
                    ) && rk(a) == rk(ep_square.idx()) + (if color is White {
                        -1int
                    } else {
                        1int
                    }) && absi(fl(a) - fl(ep_square.idx())) == 1),
                    forall|k1: int|
                        0 <= k1 < candidates@.len() ==> candidates_bb.has(
                            (#[trigger] candidates@[k1]).idx(),
                        ),
                    forall|a: int| #[trigger] candidates_bb.has(a) ==> exists|k1: int|
                        0 <= k1 < candidates@.len() && candidates@[k1].idx() == a,
                    old(movelist)@.len() <= main_hi <= movelist@.len(),
                    pushed == movelist@.len() - old(movelist)@.len(),
                    pushed <= 128 + k3,
                    forall|k1: int|
                        0 <= k1 < old(movelist)@.len() ==> #[trigger] movelist@[k1] == old(
                            movelist,
                        )@[k1],
                    forall|k1: int|
                        old(movelist)@.len() <= k1 < movelist@.len() ==> entry_ok(
                            *board,
                            #[trigger] movelist@[k1],
                        ),
                    forall|k1: int|
                        old(movelist)@.len() <= k1 < movelist@.len() ==> has_bit(
                            board.pawns.0 & board.mine(),
                            (#[trigger] movelist@[k1]).square.idx() as u64,
                        ),
                    forall|k1: int, t: int|
                        old(movelist)@.len() <= k1 < main_hi ==> (#[trigger] movelist@[
                        k1].bitboard.has(t)) == minor_dest_cond::<PawnMoves>(
                            *board,
                            C::spec_in_check(),
                            movelist@[k1].square.idx(),
                            t,
                        ),
                    forall|k1: int|
                        main_hi <= k1 < movelist@.len() ==> pawn_ep_entry(
                            *board,
                            #[trigger] movelist@[k1],
                        ),
                    forall|s: int|
                        0 <= s < 64 && #[trigger] has_bit(
                            board.piece_bits(0) & board.mine(),
                            s as u64,
                        ) && (exists|t: int|
                            minor_dest_cond::<PawnMoves>(*board, C::spec_in_check(), s, t))
                            ==> exists|k1: int|
                            old(movelist)@.len() <= k1 < main_hi && (#[trigger] movelist@[
                            k1]).square.idx() == s,
                    forall|k1: int|
                        0 <= k1 < k3 && crate::piece_moves::ep_safe(
                            *board,
                            (#[trigger] candidates@[k1]).idx(),
                            ep_square.idx(),
                        ) ==> exists|j: int|
                            main_hi <= j < movelist@.len() && movelist@[j].square.idx()
                                == candidates@[k1].idx(),
                decreases candidates@.len() - k3,
            {
                let square = candidates[k3];
                proof {
                    assert(candidates_bb.has(square.idx()));
                }
                if PawnMoves::legal_ep_move(board, tables, square, ep_square) {
                    let bb = BitBoard::from_square(ep_square);
                    proof {
                        assert(bb.has(ep_square.idx()));
                        assert(bb.0 != 0) by {
                            if bb.0 == 0 {
                                assert(!has_bit(0u64, ep_square.idx() as u64));
                            }
                        }
                        lemma_ep_entry(*board, square, ep_square, bb);
                        assert(pawn_ep_entry(
                            *board,
                            BitBoardMove { square, bitboard: bb, promotion: false },
                        ));
                    }
                    let ghost old_ml = movelist@;
                    movelist.push(
                        BitBoardMove { square, bitboard: bb, promotion: false },
                    );
                    proof {
                        assert forall|s: int|
                            0 <= s < 64 && #[trigger] has_bit(
                                board.piece_bits(0) & board.mine(),
                                s as u64,
                            ) && (exists|t: int|
                                minor_dest_cond::<PawnMoves>(
                                    *board,
                                    C::spec_in_check(),
                                    s,
                                    t,
                                )) implies exists|k1: int|
                            old(movelist)@.len() <= k1 < main_hi && (#[trigger] movelist@[
                            k1]).square.idx() == s by {
                            let k1 = choose|k1: int|
                                old(movelist)@.len() <= k1 < main_hi && (old_ml[
                                k1]).square.idx() == s;
                            assert(movelist@[k1].square.idx() == s);
                        }
                        assert forall|k1: int|
                            0 <= k1 < k3 + 1 && crate::piece_moves::ep_safe(
                                *board,
                                (#[trigger] candidates@[k1]).idx(),
                                ep_square.idx(),
                            ) implies exists|j: int|
                            main_hi <= j < movelist@.len() && movelist@[j].square.idx()
                                == candidates@[k1].idx() by {
                            if k1 < k3 {
                                let j = choose|j: int|
                                    main_hi <= j < old_ml.len() && old_ml[j].square.idx()
                                        == candidates@[k1].idx();
                                assert(movelist@[j].square.idx() == candidates@[k1].idx());
                            } else {
                                assert(movelist@[old_ml.len() as int].square.idx()
                                    == candidates@[k1].idx());
                            }
                        }
                    }
                    pushed = pushed + 1;
                }
                k3 = k3 + 1;
            }
            proof {
                assert forall|s: int|
                    0 <= s < 64 && absi(fl(s) - fl(ep_square.idx())) == 1 implies ((exists|
                    k: int,
                |
                    old(movelist)@.len() <= k < movelist@.len() && (#[trigger] movelist@[
                    k]).square.idx() == s && movelist@[k].bitboard.has(ep_square.idx())) == (
                has_bit(board.pawns.0 & board.mine(), s as u64) && rk(s) == rk(ep_square.idx())
                    + (if board.side_to_move is White {
                    -1int
                } else {
                    1int
                }) && crate::piece_moves::ep_safe(*board, s, ep_square.idx()))) by {
                    let e = ep_square.idx();
                    if has_bit(board.pawns.0 & board.mine(), s as u64) && rk(s) == rk(e) + (
                    if board.side_to_move is White {
                        -1int
                    } else {
                        1int
                    }) && crate::piece_moves::ep_safe(*board, s, e) {
                        assert(candidates_bb.has(s));
                        let k1 = choose|k1: int|
                            0 <= k1 < candidates@.len() && candidates@[k1].idx() == s;
                        assert(crate::piece_moves::ep_safe(
                            *board,
                            candidates@[k1].idx(),
                            e,
                        ));
                        let j = choose|j: int|
                            main_hi <= j < movelist@.len() && movelist@[j].square.idx()
                                == candidates@[k1].idx();
                        assert(pawn_ep_entry(*board, movelist@[j]));
                        assert(movelist@[j].bitboard.has(e));
                    }
                    if exists|k: int|
                        old(movelist)@.len() <= k < movelist@.len() && (#[trigger] movelist@[
                        k]).square.idx() == s && movelist@[k].bitboard.has(e) {
                        let k = choose|k: int|
                            old(movelist)@.len() <= k < movelist@.len() && (#[trigger] movelist@[
                            k]).square.idx() == s && movelist@[k].bitboard.has(e);
                        if k < main_hi {
                            assert(movelist@[k].bitboard.has(e) == minor_dest_cond::<PawnMoves>(
                                *board,
                                C::spec_in_check(),
                                s,
                                e,
                            ));
                            assert(!has_bit(board.occ(), e as u64));
                            assert(!PawnMoves::step_cond(
                                s,
                                board.side_to_move is White,
                                board.occ(),
                                e,
                            )) by {
                                if crate::geometry::pawn_push_cond(
                                    board.side_to_move is White,
                                    s,
                                    e,
                                ) {
                                    assert(fl(e) == fl(s));
                                }
                            }
                            assert(false);
                        } else {
                            assert(pawn_ep_entry(*board, movelist@[k]));
                        }
                    }
                }
            }
        },
        None => {},
    }
    pushed
}

/// A batch serving the recorded en-passant capture: a single
/// destination, the passed square, reached by an adjacent own pawn
/// whose capture uncovers no slider against the king.
pub open spec fn pawn_ep_entry(b: Board, e: BitBoardMove) -> bool {
    &&& b.en_passant matches Some(ep) && ({
        &&& on_board(e.square.idx())
        &&& !e.promotion
        &&& forall|t: int| #[trigger] e.bitboard.has(t) == (t == ep.idx())
        &&& e.bitboard.0 != 0
        &&& has_bit(b.pawns.0 & b.mine(), e.square.idx() as u64)
        &&& rk(e.square.idx()) == rk(ep.idx()) + (if b.side_to_move is White {
            -1int
        } else {
            1int
        })
        &&& absi(fl(e.square.idx()) - fl(ep.idx())) == 1
        &&& crate::piece_moves::ep_safe(b, e.square.idx(), ep.idx())
    })
}


/// A nonempty pawn batch is a batch of legal move shapes, and its
/// promotion flag matches the pre-promotion rank.
proof fn lemma_pawn_entry(b: Board, square: Square, moves: BitBoard, promo: bool)
    requires
        b.wf(),
        on_board(square.idx()),
        has_bit(b.pawns.0 & b.mine(), square.idx() as u64),
        moves.0 != 0,
        promo == (rk(square.idx()) == (if b.side_to_move is White {
            6int
        } else {
            1int
        })),
        forall|t: int| #[trigger] moves.has(t) ==> (on_board(t)
            && crate::piece_moves::PawnMoves::step_cond(
            square.idx(),
            b.side_to_move is White,
            b.occ(),
            t,
        ) && t != square.idx() && !has_bit(b.mine(), t as u64)),
    ensures
        entry_ok(b, BitBoardMove { square, bitboard: moves, promotion: promo }),
{
    let s = square.idx();
    assert(has_bit(b.pawns.0, s as u64) && has_bit(b.mine(), s as u64));
    assert(!has_bit(b.kings.0, s as u64)) by {
        assert(b.piece_bits(0) == b.pawns.0 && b.piece_bits(5) == b.kings.0);
        assert(!(has_bit(b.piece_bits(0), s as u64) && has_bit(b.piece_bits(5), s as u64)));
    }
    assert(0 < rk(s) < 7);
    assert forall|t: int| #[trigger] moves.has(t) implies (t != s && !has_bit(
        b.mine(),
        t as u64,
    ) && (promo == (has_bit(b.pawns.0, s as u64) && rk(t) == (if b.side_to_move is White {
        7int
    } else {
        0int
    }))) && (has_bit(b.pawns.0, s as u64) ==> b.pawn_move_ok(s, t)) && (has_bit(
        b.kings.0,
        s as u64,
    ) ==> b.king_move_ok(s, t))) by {
        assert(crate::piece_moves::PawnMoves::step_cond(s, b.side_to_move is White, b.occ(), t));
        if crate::geometry::pawn_attack_cond(b.side_to_move is White, s, t) && has_bit(
            b.occ(),
            t as u64,
        ) {
            assert(has_bit(b.occ(), t as u64) == (has_bit(b.white.0, t as u64) || has_bit(
                b.black.0,
                t as u64,
            )));
            assert(has_bit(b.theirs(), t as u64));
            assert(b.pawn_move_ok(s, t));
            assert(rk(t) == rk(s) + (if b.side_to_move is White {
                1int
            } else {
                -1int
            }));
        } else {
            assert(crate::geometry::pawn_push_cond(b.side_to_move is White, s, t) && !has_bit(
                b.occ(),
                t as u64,
            ) && !has_bit(
                b.occ(),
                (s + (if b.side_to_move is White {
                    8int
                } else {
                    -8int
                })) as u64,
            ));
            assert(b.pawn_move_ok(s, t));
        }
    }
}

/// An en-passant capture that survived the uncovered-check probe is a
/// legal move shape.
proof fn lemma_ep_entry(b: Board, square: Square, ep_square: Square, bb: BitBoard)
    requires
        b.wf(),
        b.en_passant == Some(ep_square),
        on_board(square.idx()),
        has_bit(b.pawns.0 & b.mine(), square.idx() as u64),
        rk(square.idx()) == rk(ep_square.idx()) + (if b.side_to_move is White {
            -1int
        } else {
            1int
        }),
        absi(fl(square.idx()) - fl(ep_square.idx())) == 1,
        forall|i: int| bb.has(i) == (i == ep_square.idx()),
        bb.0 != 0,
    ensures
        entry_ok(b, BitBoardMove { square, bitboard: bb, promotion: false }),
{
    let s = square.idx();
    let e = ep_square.idx();
    assert(on_board(e) && rk(e) == (if b.side_to_move is White {
        5int
    } else {
        2int
    }) && !has_bit(b.occ(), e as u64));
    assert(!has_bit(b.mine(), e as u64)) by {
        if has_bit(b.mine(), e as u64) {
            assert(has_bit(b.occ(), e as u64) == (has_bit(b.white.0, e as u64) || has_bit(
                b.black.0,
                e as u64,
            )));
        }
    }
    assert(!has_bit(b.kings.0, s as u64)) by {
        assert(b.piece_bits(0) == b.pawns.0 && b.piece_bits(5) == b.kings.0);
        assert(!(has_bit(b.piece_bits(0), s as u64) && has_bit(b.piece_bits(5), s as u64)));
    }
    assert forall|t: int| #[trigger] bb.has(t) implies (t != s && !has_bit(b.mine(), t as u64)
        && (false == (has_bit(b.pawns.0, s as u64) && rk(t) == (if b.side_to_move is White {
        7int
    } else {
        0int
    }))) && (has_bit(b.pawns.0, s as u64) ==> b.pawn_move_ok(s, t)) && (has_bit(
        b.kings.0,
        s as u64,
    ) ==> b.king_move_ok(s, t))) by {
        assert(t == e);
        assert(rk(t) == rk(s) + (if b.side_to_move is White {
            1int
        } else {
            -1int
        }));
        assert(b.pawn_move_ok(s, t));
    }
}

/// The probed square is free of enemy attacks once the king stands on
/// it: the exact condition `legal_move` computes.
pub open spec fn king_safe(b: Board, t: int) -> bool {
    !crate::piece_moves::attacked_cond(b, crate::piece_moves::king_probe_occ(b, t), t)
}

/// The destination set of the king: its safe single steps onto non-own
/// squares, and, while not in check, the castle squares whose right is
/// held, whose corridor is empty and whose transit squares are safe.
pub open spec fn king_dest_cond(b: Board, in_check: bool, t: int) -> bool {
    let ks = b.king_sq(b.side_to_move.idx());
    ||| (on_board(t) && king_cond(ks, t) && !has_bit(b.mine(), t as u64) && king_safe(b, t))
    ||| (!in_check && t == ks + 2 && b.castle_rights.spec_kingside(b.side_to_move) && !has_bit(
        b.occ(),
        (ks + 1) as u64,
    ) && !has_bit(b.occ(), (ks + 2) as u64) && king_safe(b, ks + 1) && king_safe(b, ks + 2))
    ||| (!in_check && t == ks - 2 && b.castle_rights.spec_queenside(b.side_to_move) && !has_bit(
        b.occ(),
        (ks - 1) as u64,
    ) && !has_bit(b.occ(), (ks - 2) as u64) && !has_bit(b.occ(), (ks - 3) as u64) && king_safe(
        b,
        ks - 1,
    ) && king_safe(b, ks - 2))
}

/// Generates the king's batch: single steps that survive the attack
/// probe, and the castles whose rights, corridor and transit squares
/// allow them. The batch holds exactly the king's allowed
/// destinations; nothing is appended when there is none.
#[verifier::rlimit(100)]
fn push_king_legals<C: CheckStatus>(
    movelist: &mut Vec<BitBoardMove>,
    board: &Board,
    tables: &Tables,
    mask: BitBoard,
) -> (pushed: usize)
    requires
        tables.wf(),
        board.wf(),
        forall|t: int| #[trigger] mask.has(t) == (on_board(t) && !has_bit(board.mine(), t as u64)),
    ensures
        final(movelist)@.len() == old(movelist)@.len() + pushed,
        pushed <= 1,
        forall|k: int|
            0 <= k < old(movelist)@.len() ==> #[trigger] final(movelist)@[k] == old(movelist)@[k],
        forall|k: int|
            old(movelist)@.len() <= k < final(movelist)@.len() ==> entry_ok(
                *board,
                #[trigger] final(movelist)@[k],
            ) && has_bit(
                board.kings.0 & board.mine(),
                (#[trigger] final(movelist)@[k]).square.idx() as u64,
            ),
        C::spec_in_check() ==> forall|k: int, t: int|
            old(movelist)@.len() <= k < final(movelist)@.len()
                && #[trigger] final(movelist)@[k].bitboard.has(t) ==> king_cond(
                final(movelist)@[k].square.idx(),
                t,
            ),
        forall|k: int, t: int|
            old(movelist)@.len() <= k < final(movelist)@.len()
                ==> (#[trigger] final(movelist)@[k].bitboard.has(t)) == king_dest_cond(
                *board,
                C::spec_in_check(),
                t,
            ),
        (exists|t: int| king_dest_cond(*board, C::spec_in_check(), t)) ==> pushed == 1,
{
    let combined = board.get_combined_bitboard();
    let color = board.side_to_move();
    let king_square = board.get_king_square(color);
    let ghost ks = king_square.idx();
    proof {
        assert(has_bit(board.kings.0 & board.color_bits(color.idx()), ks as u64));
        assert(has_bit(board.kings.0, ks as u64) && has_bit(
            board.color_bits(color.idx()),
            ks as u64,
        ));
        assert(board.mine() == board.color_bits(board.side_to_move.idx()));
        assert(has_bit(board.kings.0 & board.mine(), ks as u64));
        assert(on_board(ks));
    }
    let mut moves = KingMoves::pseudo_legals(tables, king_square, color, combined, mask);
    let dests = moves.get_squares();
    let ghost orig = moves;
    let mut k: usize = 0;
    while k < dests.len()
        invariant
            tables.wf(),
            board.wf(),
            k <= dests@.len(),
            ks == king_square.idx(),
            forall|t: int| #[trigger] orig.has(t) == (on_board(t) && king_cond(ks, t)
                && mask.has(t)),
            forall|t: int| #[trigger] mask.has(t) == (on_board(t) && !has_bit(
                board.mine(),
                t as u64,
            )),
            forall|k1: int| 0 <= k1 < dests@.len() ==> orig.has((#[trigger] dests@[k1]).idx()),
            forall|a: int| #[trigger] orig.has(a) ==> exists|k1: int|
                0 <= k1 < dests@.len() && dests@[k1].idx() == a,
            forall|k1: int, k2: int|
                0 <= k1 < k2 < dests@.len() ==> #[trigger] dests@[k1].idx()
                    < #[trigger] dests@[k2].idx(),
            forall|t: int| #[trigger] moves.has(t) ==> orig.has(t),
            forall|t: int| #[trigger] moves.has(t) == (orig.has(t) && !(exists|k1: int|
                0 <= k1 < k && (#[trigger] dests@[k1]).idx() == t && !king_safe(*board, t))),
        decreases dests@.len() - k,
    {
        let dest = dests[k];
        if !KingMoves::legal_move(board, tables, dest) {
            let ghost before = moves;
            moves = moves.xor(BitBoard::from_square(dest));
            proof {
                assert forall|t: int| #[trigger] moves.has(t) == (orig.has(t) && !(exists|
                    k1: int,
                |
                    0 <= k1 < k + 1 && (#[trigger] dests@[k1]).idx() == t && !king_safe(
                        *board,
                        t,
                    ))) by {
                    assert(moves.has(t) == (before.has(t) != (t == dest.idx())));
                    if t == dest.idx() {
                        assert(orig.has(dests@[k as int].idx()));
                        assert(!king_safe(*board, t));
                        assert(dests@[k as int].idx() == t && !king_safe(*board, t));
                        if before.has(t) {
                        } else {
                            let k1 = choose|k1: int|
                                0 <= k1 < k && (#[trigger] dests@[k1]).idx() == t && !king_safe(
                                    *board,
                                    t,
                                );
                            assert(dests@[k1].idx() < dests@[k as int].idx());
                            assert(false);
                        }
                    } else {
                        if moves.has(t) {
                            assert(before.has(t));
                        }
                    }
                }
            }
        } else {
            proof {
                assert forall|t: int| #[trigger] moves.has(t) == (orig.has(t) && !(exists|
                    k1: int,
                |
                    0 <= k1 < k + 1 && (#[trigger] dests@[k1]).idx() == t && !king_safe(
                        *board,
                        t,
                    ))) by {
                    if t == dest.idx() {
                        assert(king_safe(*board, t));
                    }
                }
            }
        }
        k = k + 1;
    }
    proof {
        assert forall|t: int| #[trigger] moves.has(t) == (orig.has(t) && king_safe(
            *board,
            t,
        )) by {
            if orig.has(t) && !king_safe(*board, t) {
                let k1 = choose|k1: int| 0 <= k1 < dests@.len() && dests@[k1].idx() == t;
                assert(dests@[k1].idx() == t && !king_safe(*board, t));
            }
        }
    }

    let ghost base = moves;
    let ghost mut ks_added: bool = false;
    let ghost mut qs_added: bool = false;
    if !C::in_check() {
        let ks_corridor = combined.and(board.castle_rights().kingside_squares(color));
        let ks_allowed = board.castle_rights().has_kingside(color) && ks_corridor.is_empty();
        proof {
            if board.castle_rights.spec_kingside(board.side_to_move) {
                lemma_king_home(*board, ks);
                assert forall|j: int| #[trigger] ks_corridor.has(j) == (has_bit(
                    board.occ(),
                    j as u64,
                ) && (j == ks + 1 || j == ks + 2)) by {}
                if !has_bit(board.occ(), (ks + 1) as u64) && !has_bit(
                    board.occ(),
                    (ks + 2) as u64,
                ) {
                    assert forall|j: u64|
                        j < 64 implies has_bit(ks_corridor.0, j) == has_bit(0u64, j) by {
                        assert(ks_corridor.has(j as int) == (has_bit(board.occ(), j) && (j as int
                            == ks + 1 || j as int == ks + 2)));
                    }
                    crate::bits::lemma_bits_eq(ks_corridor.0, 0u64);
                }
                if ks_corridor.0 != 0 {
                    crate::bits::lemma_nonzero_lowest(ks_corridor.0);
                    let j = vstd::std_specs::bits::u64_trailing_zeros(ks_corridor.0) as int;
                    assert(ks_corridor.has(j));
                    assert(has_bit(board.occ(), (ks + 1) as u64) || has_bit(
                        board.occ(),
                        (ks + 2) as u64,
                    ));
                }
            }
        }
        if ks_allowed {
            proof {
                lemma_king_home(*board, ks);
                assert(!has_bit(board.occ(), (ks + 1) as u64) && !has_bit(
                    board.occ(),
                    (ks + 2) as u64,
                )) by {
                    assert(!ks_corridor.has(ks + 1) && !ks_corridor.has(ks + 2)) by {
                        assert(!has_bit(0u64, (ks + 1) as u64) && !has_bit(
                            0u64,
                            (ks + 2) as u64,
                        ));
                    }
                }
            }
            let first = match king_square.right() {
                Some(sq) => sq,
                None => king_square,  // ruled out: the king is at home
            };
            let second = match first.right() {
                Some(sq) => sq,
                None => king_square,  // ruled out: the king is at home
            };
            if KingMoves::legal_move(board, tables, first) && KingMoves::legal_move(
                board,
                tables,
                second,
            ) {
                let ghost before = moves;
                moves = moves.xor(BitBoard::from_square(second));
                proof {
                    ks_added = true;
                    assert(!before.has(ks + 2)) by {
                        if base.has(ks + 2) {
                            assert(king_cond(ks, ks + 2));
                        }
                    }
                    assert forall|t: int| #[trigger] moves.has(t) == (base.has(t) && king_safe(
                        *board,
                        t,
                    ) || t == ks + 2) by {
                        assert(moves.has(t) == (before.has(t) != (t == second.idx())));
                    }
                }
            }
        }
        let qs_corridor = combined.and(board.castle_rights().queenside_squares(color));
        let qs_allowed = board.castle_rights().has_queenside(color) && qs_corridor.is_empty();
        proof {
            if board.castle_rights.spec_queenside(board.side_to_move) {
                lemma_king_home(*board, ks);
                assert forall|j: int| #[trigger] qs_corridor.has(j) == (has_bit(
                    board.occ(),
                    j as u64,
                ) && (j == ks - 1 || j == ks - 2 || j == ks - 3)) by {}
                if !has_bit(board.occ(), (ks - 1) as u64) && !has_bit(
                    board.occ(),
                    (ks - 2) as u64,
                ) && !has_bit(board.occ(), (ks - 3) as u64) {
                    assert forall|j: u64|
                        j < 64 implies has_bit(qs_corridor.0, j) == has_bit(0u64, j) by {
                        assert(qs_corridor.has(j as int) == (has_bit(board.occ(), j) && (j as int
                            == ks - 1 || j as int == ks - 2 || j as int == ks - 3)));
                    }
                    crate::bits::lemma_bits_eq(qs_corridor.0, 0u64);
                }
                if qs_corridor.0 != 0 {
                    crate::bits::lemma_nonzero_lowest(qs_corridor.0);
                    let j = vstd::std_specs::bits::u64_trailing_zeros(qs_corridor.0) as int;
                    assert(qs_corridor.has(j));
                    assert(has_bit(board.occ(), (ks - 1) as u64) || has_bit(
                        board.occ(),
                        (ks - 2) as u64,
                    ) || has_bit(board.occ(), (ks - 3) as u64));
                }
            }
        }
        if qs_allowed {
            proof {
                lemma_king_home(*board, ks);
                assert(!has_bit(board.occ(), (ks - 1) as u64) && !has_bit(
                    board.occ(),
                    (ks - 2) as u64,
                ) && !has_bit(board.occ(), (ks - 3) as u64)) by {
                    assert(!qs_corridor.has(ks - 1) && !qs_corridor.has(ks - 2)
                        && !qs_corridor.has(ks - 3)) by {
                        assert(!has_bit(0u64, (ks - 1) as u64) && !has_bit(
                            0u64,
                            (ks - 2) as u64,
                        ) && !has_bit(0u64, (ks - 3) as u64));
                    }
                }
            }
            let first = match king_square.left() {
                Some(sq) => sq,
                None => king_square,  // ruled out: the king is at home
            };
            let second = match first.left() {
                Some(sq) => sq,
                None => king_square,  // ruled out: the king is at home
            };
            if KingMoves::legal_move(board, tables, first) && KingMoves::legal_move(
                board,
                tables,
                second,
            ) {
                let ghost before = moves;
                moves = moves.xor(BitBoard::from_square(second));
                proof {
                    qs_added = true;
                    assert(!before.has(ks - 2)) by {
                        if base.has(ks - 2) {
                            assert(king_cond(ks, ks - 2));
                        }
                    }
                    assert forall|t: int| #[trigger] moves.has(t) == ((base.has(t) && king_safe(
                        *board,
                        t,
                    ) || (ks_added && t == ks + 2)) || t == ks - 2) by {
                        assert(moves.has(t) == (before.has(t) != (t == second.idx())));
                    }
                }
            }
        }
        proof {
            assert(ks_added == (board.castle_rights.spec_kingside(board.side_to_move)
                && !has_bit(board.occ(), (ks + 1) as u64) && !has_bit(
                board.occ(),
                (ks + 2) as u64,
            ) && king_safe(*board, ks + 1) && king_safe(*board, ks + 2)));
            assert(qs_added == (board.castle_rights.spec_queenside(board.side_to_move)
                && !has_bit(board.occ(), (ks - 1) as u64) && !has_bit(
                board.occ(),
                (ks - 2) as u64,
            ) && !has_bit(board.occ(), (ks - 3) as u64) && king_safe(*board, ks - 1)
                && king_safe(*board, ks - 2)));
        }
    }
    proof {
        assert(ks == board.king_sq(board.side_to_move.idx()));
        assert forall|t: int| #[trigger] moves.has(t) == king_dest_cond(
            *board,
            C::spec_in_check(),
            t,
        ) by {
            assert((base.has(t) && king_safe(*board, t)) == (on_board(t) && king_cond(ks, t)
                && !has_bit(board.mine(), t as u64) && king_safe(*board, t)));
            if C::spec_in_check() {
                assert(moves.has(t) == (base.has(t) && king_safe(*board, t)));
            } else {
                assert(moves.has(t) == ((base.has(t) && king_safe(*board, t)) || (ks_added && t
                    == ks + 2) || (qs_added && t == ks - 2)));
                if t == ks + 2 && king_cond(ks, t) {
                    assert(false);
                }
                if t == ks - 2 && king_cond(ks, t) {
                    assert(false);
                }
            }
        }
    }

    if !moves.is_empty() {
        proof {
            assert forall|t: int| #[trigger] moves.has(t) implies (t != ks && !has_bit(
                board.mine(),
                t as u64,
            ) && (false == (has_bit(board.pawns.0, ks as u64) && rk(t) == (
            if board.side_to_move is White {
                7int
            } else {
                0int
            }))) && (has_bit(board.pawns.0, ks as u64) ==> board.pawn_move_ok(ks, t)) && (
            has_bit(board.kings.0, ks as u64) ==> board.king_move_ok(ks, t))) by {
                assert(!has_bit(board.pawns.0, ks as u64)) by {
                    assert(board.piece_bits(0) == board.pawns.0 && board.piece_bits(5)
                        == board.kings.0);
                    assert(!(has_bit(board.piece_bits(0), ks as u64) && has_bit(
                        board.piece_bits(5),
                        ks as u64,
                    )));
                }
                assert(king_dest_cond(*board, C::spec_in_check(), t));
                if on_board(t) && king_cond(ks, t) && !has_bit(board.mine(), t as u64)
                    && king_safe(*board, t) {
                    assert(board.king_move_ok(ks, t));
                } else {
                    assert(!has_bit(board.mine(), t as u64)) by {
                        if t == ks + 2 || t == ks - 2 {
                            assert(!has_bit(board.occ(), t as u64));
                            if has_bit(board.mine(), t as u64) {
                                assert(has_bit(board.occ(), t as u64) == (has_bit(
                                    board.white.0,
                                    t as u64,
                                ) || has_bit(board.black.0, t as u64)));
                            }
                        }
                    }
                    lemma_king_home(*board, ks);
                    assert(board.king_move_ok(ks, t));
                }
            }
            if C::spec_in_check() {
                assert forall|t: int| #[trigger] moves.has(t) implies king_cond(ks, t) by {}
            }
        }
        movelist.push(BitBoardMove { square: king_square, bitboard: moves, promotion: false });
        1
    } else {
        proof {
            assert forall|t: int| !king_dest_cond(*board, C::spec_in_check(), t) by {
                assert(moves.has(t) == has_bit(0u64, t as u64));
            }
        }
        0
    }
}

/// A castling right of the side to move puts its king on the home
/// square.
proof fn lemma_king_home(b: Board, ks: int)
    requires
        b.wf(),
        0 <= ks < 64,
        has_bit(b.kings.0 & b.mine(), ks as u64),
        b.castle_rights.spec_kingside(b.side_to_move) || b.castle_rights.spec_queenside(
            b.side_to_move,
        ),
    ensures
        ks == (if b.side_to_move is White {
            4int
        } else {
            60int
        }),
{
    if b.side_to_move is White {
        assert(has_bit(b.kings.0 & b.white.0, 4));
        assert(has_bit(b.kings.0 & b.white.0, ks as u64));
        crate::bits::lemma_pop_one(b.kings.0 & b.white.0);
        let tz = vstd::std_specs::bits::u64_trailing_zeros(b.kings.0 & b.white.0) as u64;
        assert(has_bit(1u64 << tz, 4) && has_bit(1u64 << tz, ks as u64));
    } else {
        assert(has_bit(b.kings.0 & b.black.0, 60));
        assert(has_bit(b.kings.0 & b.black.0, ks as u64));
        crate::bits::lemma_pop_one(b.kings.0 & b.black.0);
        let tz = vstd::std_specs::bits::u64_trailing_zeros(b.kings.0 & b.black.0) as u64;
        assert(has_bit(1u64 << tz, 60) && has_bit(1u64 << tz, ks as u64));
    }
}

/// No square carries two piece kinds of the side to move: two kinds
/// found on one square are the same kind.
proof fn lemma_kind_unique(b: Board, p: int, q: int, s: int)
    requires
        b.wf(),
        0 <= p < 6,
        0 <= q < 6,
        0 <= s < 64,
        has_bit(b.piece_bits(p) & b.mine(), s as u64),
        has_bit(b.piece_bits(q) & b.mine(), s as u64),
    ensures
        p == q,
{
    assert(has_bit(b.piece_bits(p), s as u64));
    assert(has_bit(b.piece_bits(q), s as u64));
    if p < q {
        assert(!(has_bit(b.piece_bits(p), s as u64) && has_bit(b.piece_bits(q), s as u64)));
    } else if q < p {
        assert(!(has_bit(b.piece_bits(q), s as u64) && has_bit(b.piece_bits(p), s as u64)));
    }
}

/// The side to move is in check: the checkers mask is nonempty.
pub open spec fn in_check_flag(b: Board) -> bool {
    b.checkers_bitboard.0 != 0
}

/// Every batch of the list is the exact destination set of the piece
/// kind standing on its source square: knight, bishop, rook and queen
/// batches carry `minor_dest_cond` of their kind, a pawn batch carries
/// the pawn destinations or a lone en-passant capture, and a king
/// batch carries `king_dest_cond`.
pub open spec fn batches_exact(b: Board, l: Seq<BitBoardMove>) -> bool {
    let g = in_check_flag(b);
    &&& forall|k: int, t: int|
        0 <= k < l.len() && has_bit(b.knights.0 & b.mine(), l[k].square.idx() as u64)
            ==> (#[trigger] l[k].bitboard.has(t)) == minor_dest_cond::<KnightMoves>(
            b,
            g,
            l[k].square.idx(),
            t,
        )
    &&& forall|k: int, t: int|
        0 <= k < l.len() && has_bit(b.bishops.0 & b.mine(), l[k].square.idx() as u64)
            ==> (#[trigger] l[k].bitboard.has(t)) == minor_dest_cond::<BishopMoves>(
            b,
            g,
            l[k].square.idx(),
            t,
        )
    &&& forall|k: int, t: int|
        0 <= k < l.len() && has_bit(b.rooks.0 & b.mine(), l[k].square.idx() as u64)
            ==> (#[trigger] l[k].bitboard.has(t)) == minor_dest_cond::<RookMoves>(
            b,
            g,
            l[k].square.idx(),
            t,
        )
    &&& forall|k: int, t: int|
        0 <= k < l.len() && has_bit(b.queens.0 & b.mine(), l[k].square.idx() as u64)
            ==> (#[trigger] l[k].bitboard.has(t)) == minor_dest_cond::<QueenMoves>(
            b,
            g,
            l[k].square.idx(),
            t,
        )
    &&& forall|k: int|
        0 <= k < l.len() && has_bit(b.pawns.0 & b.mine(), (#[trigger] l[k]).square.idx() as u64)
            ==> ((forall|t: int|
            (#[trigger] l[k].bitboard.has(t)) == minor_dest_cond::<PawnMoves>(
                b,
                g,
                l[k].square.idx(),
                t,
            )) || pawn_ep_entry(b, l[k]))
    &&& forall|k: int, t: int|
        0 <= k < l.len() && has_bit(b.kings.0 & b.mine(), l[k].square.idx() as u64)
            ==> (#[trigger] l[k].bitboard.has(t)) == king_dest_cond(b, g, t)
}

/// Every piece of the kind of `P` that has a destination has its batch
/// in the list, carrying those destinations exactly.
pub open spec fn minor_complete<P: PieceMoves>(b: Board, l: Seq<BitBoardMove>) -> bool {
    let g = in_check_flag(b);
    forall|s: int|
        0 <= s < 64 && #[trigger] has_bit(
            b.piece_bits(P::spec_piece().idx()) & b.mine(),
            s as u64,
        ) && (exists|t: int| minor_dest_cond::<P>(b, g, s, t)) ==> exists|k: int|
            0 <= k < l.len() && (#[trigger] l[k]).square.idx() == s && (forall|t: int|
                (#[trigger] l[k].bitboard.has(t)) == minor_dest_cond::<P>(b, g, s, t))
}

/// No legal move is missing from the list: every pawn, knight, bishop,
/// rook or queen with a destination has its exact batch, a king with a
/// destination has its batch, and an en-passant batch stands in the
/// list exactly for the adjacent pawns whose capture is safe.
pub open spec fn batches_complete(b: Board, l: Seq<BitBoardMove>) -> bool {
    let g = in_check_flag(b);
    &&& minor_complete::<PawnMoves>(b, l)
    &&& minor_complete::<KnightMoves>(b, l)
    &&& minor_complete::<BishopMoves>(b, l)
    &&& minor_complete::<RookMoves>(b, l)
    &&& minor_complete::<QueenMoves>(b, l)
    &&& ((exists|t: int| king_dest_cond(b, g, t)) ==> exists|k: int|
        0 <= k < l.len() && has_bit(b.kings.0 & b.mine(), (#[trigger] l[k]).square.idx() as u64))
    &&& (b.en_passant matches Some(ep) ==> forall|s: int|
        0 <= s < 64 && absi(fl(s) - fl(ep.idx())) == 1 ==> ((exists|k: int|
            0 <= k < l.len() && has_bit(b.pawns.0 & b.mine(), s as u64) && (#[trigger] l[k]).square.idx() == s && l[k].bitboard.has(ep.idx())) == (has_bit(
            b.pawns.0 & b.mine(),
            s as u64,
        ) && rk(s) == rk(ep.idx()) + (if b.side_to_move is White {
            -1int
        } else {
            1int
        }) && crate::piece_moves::ep_safe(b, s, ep.idx()))))
}

/// The side to move has at least one legal move: some piece has a
/// destination of its kind, the king has a safe step or castle, or a
/// recorded en-passant capture is safe. Meaningful while the king is
/// checked at most once; a double check leaves only the king
/// destinations.
pub open spec fn some_legal_move(b: Board) -> bool {
    let g = in_check_flag(b);
    ||| exists|s: int, t: int|
        0 <= s < 64 && has_bit(b.pawns.0 & b.mine(), s as u64)
            && #[trigger] minor_dest_cond::<PawnMoves>(b, g, s, t)
    ||| exists|s: int, t: int|
        0 <= s < 64 && has_bit(b.knights.0 & b.mine(), s as u64)
            && #[trigger] minor_dest_cond::<KnightMoves>(b, g, s, t)
    ||| exists|s: int, t: int|
        0 <= s < 64 && has_bit(b.bishops.0 & b.mine(), s as u64)
            && #[trigger] minor_dest_cond::<BishopMoves>(b, g, s, t)
    ||| exists|s: int, t: int|
        0 <= s < 64 && has_bit(b.rooks.0 & b.mine(), s as u64)
            && #[trigger] minor_dest_cond::<RookMoves>(b, g, s, t)
    ||| exists|s: int, t: int|
        0 <= s < 64 && has_bit(b.queens.0 & b.mine(), s as u64)
            && #[trigger] minor_dest_cond::<QueenMoves>(b, g, s, t)
    ||| exists|t: int| king_dest_cond(b, g, t)
    ||| (b.en_passant matches Some(ep) && exists|s: int|
        0 <= s < 64 && absi(fl(s) - fl(ep.idx())) == 1 && #[trigger] has_bit(
            b.pawns.0 & b.mine(),
            s as u64,
        ) && rk(s) == rk(ep.idx()) + (if b.side_to_move is White {
            -1int
        } else {
            1int
        }) && crate::piece_moves::ep_safe(b, s, ep.idx()))
}

/// Generates every batch of the side to move in one pass: the pawns,
/// the four piece kinds, then the king. The list carries the exact
/// destination set of every piece and misses none.
#[verifier::rlimit(100)]
#[verifier::spinoff_prover]
fn push_all_legals<C: CheckStatus>(
    movelist: &mut Vec<BitBoardMove>,
    board: &Board,
    tables: &Tables,
    mask: BitBoard,
)
    requires
        tables.wf(),
        board.wf(),
        old(movelist)@.len() == 0,
        C::spec_in_check() == (board.checkers_bitboard.0 != 0),
        forall|t: int| #[trigger] mask.has(t) == (on_board(t) && !has_bit(board.mine(), t as u64)),
    ensures
        final(movelist)@.len() <= 1024,
        forall|k: int|
            0 <= k < final(movelist)@.len() ==> entry_ok(*board, #[trigger] final(movelist)@[k]),
        batches_exact(*board, final(movelist)@),
        batches_complete(*board, final(movelist)@),
{
    let ghost b = *board;
    push_pawn_legals::<C>(movelist, board, tables, mask);
    let ghost l1 = movelist@;
    push_piece_legals::<KnightMoves, C>(movelist, board, tables, mask);
    let ghost l2 = movelist@;
    push_piece_legals::<BishopMoves, C>(movelist, board, tables, mask);
    let ghost l3 = movelist@;
    push_piece_legals::<RookMoves, C>(movelist, board, tables, mask);
    let ghost l4 = movelist@;
    push_piece_legals::<QueenMoves, C>(movelist, board, tables, mask);
    let ghost l5 = movelist@;
    let king_pushed = push_king_legals::<C>(movelist, board, tables, mask);
    proof {
        let l6 = movelist@;
        let g = C::spec_in_check();
        assert forall|k: int| 0 <= k < l4.len() implies l6[k] == l4[k] by {
            assert(l5[k] == l4[k]);
        }
        assert forall|k: int| 0 <= k < l3.len() implies l6[k] == l3[k] by {
            assert(l4[k] == l3[k]);
            assert(l5[k] == l4[k]);
        }
        assert forall|k: int| 0 <= k < l2.len() implies l6[k] == l2[k] by {
            assert(l3[k] == l2[k]);
            assert(l4[k] == l3[k]);
            assert(l5[k] == l4[k]);
        }
        assert forall|k: int| 0 <= k < l1.len() implies l6[k] == l1[k] by {
            assert(l2[k] == l1[k]);
            assert(l3[k] == l2[k]);
            assert(l4[k] == l3[k]);
            assert(l5[k] == l4[k]);
        }
        assert(b.piece_bits(0) == b.pawns.0 && b.piece_bits(1) == b.knights.0 && b.piece_bits(2)
            == b.bishops.0 && b.piece_bits(3) == b.rooks.0 && b.piece_bits(4) == b.queens.0
            && b.piece_bits(5) == b.kings.0);
        assert forall|k: int| 0 <= k < l6.len() implies entry_ok(b, #[trigger] l6[k]) && has_bit(
            b.piece_bits(kind_of(l1, l2, l3, l4, l5, k)) & b.mine(),
            l6[k].square.idx() as u64,
        ) by {
            if k < l1.len() {
                assert(l6[k] == l1[k]);
            } else if k < l2.len() {
                assert(l6[k] == l2[k]);
            } else if k < l3.len() {
                assert(l6[k] == l3[k]);
            } else if k < l4.len() {
                assert(l6[k] == l4[k]);
            } else if k < l5.len() {
                assert(l6[k] == l5[k]);
            }
        }
        assert forall|k: int, t: int|
            0 <= k < l6.len() && has_bit(b.knights.0 & b.mine(), l6[k].square.idx() as u64)
                implies (#[trigger] l6[k].bitboard.has(t)) == minor_dest_cond::<KnightMoves>(
            b,
            g,
            l6[k].square.idx(),
            t,
        ) by {
            let s = l6[k].square.idx();
            if l1.len() <= k < l2.len() {
                assert(l6[k] == l2[k]);
                assert(l2[k].bitboard.has(t) == minor_dest_cond::<KnightMoves>(b, g, s, t));
            } else {
                lemma_kind_unique(b, kind_of(l1, l2, l3, l4, l5, k), 1, s);
            }
        }
        assert forall|k: int, t: int|
            0 <= k < l6.len() && has_bit(b.bishops.0 & b.mine(), l6[k].square.idx() as u64)
                implies (#[trigger] l6[k].bitboard.has(t)) == minor_dest_cond::<BishopMoves>(
            b,
            g,
            l6[k].square.idx(),
            t,
        ) by {
            let s = l6[k].square.idx();
            if l2.len() <= k < l3.len() {
                assert(l6[k] == l3[k]);
                assert(l3[k].bitboard.has(t) == minor_dest_cond::<BishopMoves>(b, g, s, t));
            } else {
                lemma_kind_unique(b, kind_of(l1, l2, l3, l4, l5, k), 2, s);
            }
        }
        assert forall|k: int, t: int|
            0 <= k < l6.len() && has_bit(b.rooks.0 & b.mine(), l6[k].square.idx() as u64)
                implies (#[trigger] l6[k].bitboard.has(t)) == minor_dest_cond::<RookMoves>(
            b,
            g,
            l6[k].square.idx(),
            t,
        ) by {
            let s = l6[k].square.idx();
            if l3.len() <= k < l4.len() {
                assert(l6[k] == l4[k]);
                assert(l4[k].bitboard.has(t) == minor_dest_cond::<RookMoves>(b, g, s, t));
            } else {
                lemma_kind_unique(b, kind_of(l1, l2, l3, l4, l5, k), 3, s);
            }
        }
        assert forall|k: int, t: int|
            0 <= k < l6.len() && has_bit(b.queens.0 & b.mine(), l6[k].square.idx() as u64)
                implies (#[trigger] l6[k].bitboard.has(t)) == minor_dest_cond::<QueenMoves>(
            b,
            g,
            l6[k].square.idx(),
            t,
        ) by {
            let s = l6[k].square.idx();
            if l4.len() <= k < l5.len() {
                assert(l6[k] == l5[k]);
                assert(l5[k].bitboard.has(t) == minor_dest_cond::<QueenMoves>(b, g, s, t));
            } else {
                lemma_kind_unique(b, kind_of(l1, l2, l3, l4, l5, k), 4, s);
            }
        }
        assert forall|k: int|
            0 <= k < l6.len() && has_bit(
                b.pawns.0 & b.mine(),
                (#[trigger] l6[k]).square.idx() as u64,
            ) implies ((forall|t: int|
            (#[trigger] l6[k].bitboard.has(t)) == minor_dest_cond::<PawnMoves>(
                b,
                g,
                l6[k].square.idx(),
                t,
            )) || pawn_ep_entry(b, l6[k])) by {
            let s = l6[k].square.idx();
            if k < l1.len() {
                assert(l6[k] == l1[k]);
                if !pawn_ep_entry(b, l1[k]) {
                    assert forall|t: int|
                        (#[trigger] l6[k].bitboard.has(t)) == minor_dest_cond::<PawnMoves>(
                        b,
                        g,
                        s,
                        t,
                    ) by {
                        assert(l1[k].bitboard.has(t) == minor_dest_cond::<PawnMoves>(b, g, s, t));
                    }
                }
            } else {
                lemma_kind_unique(b, kind_of(l1, l2, l3, l4, l5, k), 0, s);
            }
        }
        assert forall|k: int, t: int|
            0 <= k < l6.len() && has_bit(b.kings.0 & b.mine(), l6[k].square.idx() as u64)
                implies (#[trigger] l6[k].bitboard.has(t)) == king_dest_cond(b, g, t) by {
            let s = l6[k].square.idx();
            if l5.len() <= k {
                assert(l6[k].bitboard.has(t) == king_dest_cond(b, g, t));
            } else {
                lemma_kind_unique(b, kind_of(l1, l2, l3, l4, l5, k), 5, s);
            }
        }
        assert(batches_exact(b, l6));
        assert(minor_complete::<PawnMoves>(b, l6)) by {
            assert forall|s: int|
                0 <= s < 64 && #[trigger] has_bit(
                    b.piece_bits(PawnMoves::spec_piece().idx()) & b.mine(),
                    s as u64,
                ) && (exists|t: int| minor_dest_cond::<PawnMoves>(b, g, s, t)) implies exists|
                k: int,
            |
                0 <= k < l6.len() && (#[trigger] l6[k]).square.idx() == s && (forall|t: int|
                    (#[trigger] l6[k].bitboard.has(t)) == minor_dest_cond::<PawnMoves>(
                        b,
                        g,
                        s,
                        t,
                    )) by {
                let k0 = choose|k: int|
                    0 <= k < l1.len() && (#[trigger] l1[k]).square.idx() == s && (forall|t: int|
                        (#[trigger] l1[k].bitboard.has(t)) == minor_dest_cond::<PawnMoves>(
                            b,
                            g,
                            s,
                            t,
                        ));
                assert(l6[k0] == l1[k0]);
                assert(0 <= k0 < l6.len() && l6[k0].square.idx() == s && (forall|t: int|
                    (#[trigger] l6[k0].bitboard.has(t)) == minor_dest_cond::<PawnMoves>(
                        b,
                        g,
                        s,
                        t,
                    )));
            }
        }
        assert(minor_complete::<KnightMoves>(b, l6)) by {
            assert forall|s: int|
                0 <= s < 64 && #[trigger] has_bit(
                    b.piece_bits(KnightMoves::spec_piece().idx()) & b.mine(),
                    s as u64,
                ) && (exists|t: int| minor_dest_cond::<KnightMoves>(b, g, s, t)) implies exists|
                k: int,
            |
                0 <= k < l6.len() && (#[trigger] l6[k]).square.idx() == s && (forall|t: int|
                    (#[trigger] l6[k].bitboard.has(t)) == minor_dest_cond::<KnightMoves>(
                        b,
                        g,
                        s,
                        t,
                    )) by {
                let k0 = choose|k: int|
                    l1.len() <= k < l2.len() && (#[trigger] l2[k]).square.idx() == s;
                assert(l6[k0] == l2[k0]);
                assert forall|t: int|
                    (#[trigger] l6[k0].bitboard.has(t)) == minor_dest_cond::<KnightMoves>(
                    b,
                    g,
                    s,
                    t,
                ) by {
                    assert(l2[k0].bitboard.has(t) == minor_dest_cond::<KnightMoves>(b, g, s, t));
                }
                assert(0 <= k0 < l6.len() && l6[k0].square.idx() == s);
            }
        }
        assert(minor_complete::<BishopMoves>(b, l6)) by {
            assert forall|s: int|
                0 <= s < 64 && #[trigger] has_bit(
                    b.piece_bits(BishopMoves::spec_piece().idx()) & b.mine(),
                    s as u64,
                ) && (exists|t: int| minor_dest_cond::<BishopMoves>(b, g, s, t)) implies exists|
                k: int,
            |
                0 <= k < l6.len() && (#[trigger] l6[k]).square.idx() == s && (forall|t: int|
                    (#[trigger] l6[k].bitboard.has(t)) == minor_dest_cond::<BishopMoves>(
                        b,
                        g,
                        s,
                        t,
                    )) by {
                let k0 = choose|k: int|
                    l2.len() <= k < l3.len() && (#[trigger] l3[k]).square.idx() == s;
                assert(l6[k0] == l3[k0]);
                assert forall|t: int|
                    (#[trigger] l6[k0].bitboard.has(t)) == minor_dest_cond::<BishopMoves>(
                    b,
                    g,
                    s,
                    t,
                ) by {
                    assert(l3[k0].bitboard.has(t) == minor_dest_cond::<BishopMoves>(b, g, s, t));
                }
                assert(0 <= k0 < l6.len() && l6[k0].square.idx() == s);
            }
        }
        assert(minor_complete::<RookMoves>(b, l6)) by {
            assert forall|s: int|
                0 <= s < 64 && #[trigger] has_bit(
                    b.piece_bits(RookMoves::spec_piece().idx()) & b.mine(),
                    s as u64,
                ) && (exists|t: int| minor_dest_cond::<RookMoves>(b, g, s, t)) implies exists|
                k: int,
            |
                0 <= k < l6.len() && (#[trigger] l6[k]).square.idx() == s && (forall|t: int|
                    (#[trigger] l6[k].bitboard.has(t)) == minor_dest_cond::<RookMoves>(
                        b,
                        g,
                        s,
                        t,
                    )) by {
                let k0 = choose|k: int|
                    l3.len() <= k < l4.len() && (#[trigger] l4[k]).square.idx() == s;
                assert(l6[k0] == l4[k0]);
                assert forall|t: int|
                    (#[trigger] l6[k0].bitboard.has(t)) == minor_dest_cond::<RookMoves>(
                    b,
                    g,
                    s,
                    t,
                ) by {
                    assert(l4[k0].bitboard.has(t) == minor_dest_cond::<RookMoves>(b, g, s, t));
                }
                assert(0 <= k0 < l6.len() && l6[k0].square.idx() == s);
            }
        }
        assert(minor_complete::<QueenMoves>(b, l6)) by {
            assert forall|s: int|
                0 <= s < 64 && #[trigger] has_bit(
                    b.piece_bits(QueenMoves::spec_piece().idx()) & b.mine(),
                    s as u64,
                ) && (exists|t: int| minor_dest_cond::<QueenMoves>(b, g, s, t)) implies exists|
                k: int,
            |
                0 <= k < l6.len() && (#[trigger] l6[k]).square.idx() == s && (forall|t: int|
                    (#[trigger] l6[k].bitboard.has(t)) == minor_dest_cond::<QueenMoves>(
                        b,
                        g,
                        s,
                        t,
                    )) by {
                let k0 = choose|k: int|
                    l4.len() <= k < l5.len() && (#[trigger] l5[k]).square.idx() == s;
                assert(l6[k0] == l5[k0]);
                assert forall|t: int|
                    (#[trigger] l6[k0].bitboard.has(t)) == minor_dest_cond::<QueenMoves>(
                    b,
                    g,
                    s,
                    t,
                ) by {
                    assert(l5[k0].bitboard.has(t) == minor_dest_cond::<QueenMoves>(b, g, s, t));
                }
                assert(0 <= k0 < l6.len() && l6[k0].square.idx() == s);
            }
        }
        assert((exists|t: int| king_dest_cond(b, g, t)) ==> exists|k: int|
            0 <= k < l6.len() && has_bit(
                b.kings.0 & b.mine(),
                (#[trigger] l6[k]).square.idx() as u64,
            )) by {
            if exists|t: int| king_dest_cond(b, g, t) {
                assert(king_pushed == 1);
                assert(has_bit(b.kings.0 & b.mine(), l6[l5.len() as int].square.idx() as u64));
            }
        }
        match b.en_passant {
            Some(ep) => {
                assert forall|s: int| 0 <= s < 64 && absi(fl(s) - fl(ep.idx())) == 1 implies ((
                exists|k: int|
                    0 <= k < l6.len() && has_bit(b.pawns.0 & b.mine(), s as u64)
                        && (#[trigger] l6[k]).square.idx() == s && l6[k].bitboard.has(ep.idx()))
                    == (has_bit(
                    b.pawns.0 & b.mine(),
                    s as u64,
                ) && rk(s) == rk(ep.idx()) + (if b.side_to_move is White {
                    -1int
                } else {
                    1int
                }) && crate::piece_moves::ep_safe(b, s, ep.idx()))) by {
                    let rhs = has_bit(b.pawns.0 & b.mine(), s as u64) && rk(s) == rk(ep.idx()) + (
                    if b.side_to_move is White {
                        -1int
                    } else {
                        1int
                    }) && crate::piece_moves::ep_safe(b, s, ep.idx());
                    let lhs_inner = exists|k: int|
                        0 <= k < l1.len() && (#[trigger] l1[k]).square.idx() == s
                            && l1[k].bitboard.has(ep.idx());
                    assert(lhs_inner == rhs);
                    if rhs {
                        let k0 = choose|k: int|
                            0 <= k < l1.len() && (#[trigger] l1[k]).square.idx() == s
                                && l1[k].bitboard.has(ep.idx());
                        assert(l6[k0] == l1[k0]);
                        assert(0 <= k0 < l6.len() && has_bit(b.pawns.0 & b.mine(), s as u64)
                            && l6[k0].square.idx() == s && l6[k0].bitboard.has(ep.idx()));
                    }
                    if exists|k: int|
                        0 <= k < l6.len() && has_bit(b.pawns.0 & b.mine(), s as u64)
                            && (#[trigger] l6[k]).square.idx() == s && l6[k].bitboard.has(
                            ep.idx(),
                        ) {
                        let k1 = choose|k: int|
                            0 <= k < l6.len() && has_bit(b.pawns.0 & b.mine(), s as u64)
                                && (#[trigger] l6[k]).square.idx() == s && l6[k].bitboard.has(
                                ep.idx(),
                            );
                        if k1 >= l1.len() {
                            lemma_kind_unique(b, kind_of(l1, l2, l3, l4, l5, k1), 0, s);
                        }
                        assert(l6[k1] == l1[k1]);
                        assert(rhs);
                    }
                }
            },
            None => {},
        }
        assert(batches_complete(b, l6));
    }
}

/// With the batch list exact and complete, its weight is zero exactly
/// when the side to move has no legal move.
#[verifier::rlimit(100)]
#[verifier::spinoff_prover]
proof fn lemma_weight_decides(b: Board, l: Seq<BitBoardMove>)
    requires
        b.wf(),
        forall|k: int| 0 <= k < l.len() ==> entry_ok(b, #[trigger] l[k]),
        batches_exact(b, l),
        batches_complete(b, l),
    ensures
        (entries_weight(l, 0) == 0) == !some_legal_move(b),
{
    if l.len() == 0 {
        assert(entries_weight(l, 0) == 0);
        if some_legal_move(b) {
            if exists|s: int, t: int|
                0 <= s < 64 && has_bit(b.pawns.0 & b.mine(), s as u64)
                    && #[trigger] minor_dest_cond::<PawnMoves>(b, in_check_flag(b), s, t) {
                let (s, t) = choose|s: int, t: int|
                    0 <= s < 64 && has_bit(b.pawns.0 & b.mine(), s as u64)
                        && #[trigger] minor_dest_cond::<PawnMoves>(b, in_check_flag(b), s, t);
                assert(has_bit(b.piece_bits(PawnMoves::spec_piece().idx()) & b.mine(), s as u64));
                assert(exists|t2: int| minor_dest_cond::<PawnMoves>(b, in_check_flag(b), s, t2));
                assert(false);
            } else if exists|s: int, t: int|
                0 <= s < 64 && has_bit(b.knights.0 & b.mine(), s as u64)
                    && #[trigger] minor_dest_cond::<KnightMoves>(b, in_check_flag(b), s, t) {
                let (s, t) = choose|s: int, t: int|
                    0 <= s < 64 && has_bit(b.knights.0 & b.mine(), s as u64)
                        && #[trigger] minor_dest_cond::<KnightMoves>(b, in_check_flag(b), s, t);
                assert(has_bit(
                    b.piece_bits(KnightMoves::spec_piece().idx()) & b.mine(),
                    s as u64,
                ));
                assert(exists|t2: int| minor_dest_cond::<KnightMoves>(b, in_check_flag(b), s, t2));
                assert(false);
            } else if exists|s: int, t: int|
                0 <= s < 64 && has_bit(b.bishops.0 & b.mine(), s as u64)
                    && #[trigger] minor_dest_cond::<BishopMoves>(b, in_check_flag(b), s, t) {
                let (s, t) = choose|s: int, t: int|
                    0 <= s < 64 && has_bit(b.bishops.0 & b.mine(), s as u64)
                        && #[trigger] minor_dest_cond::<BishopMoves>(b, in_check_flag(b), s, t);
                assert(has_bit(
                    b.piece_bits(BishopMoves::spec_piece().idx()) & b.mine(),
                    s as u64,
                ));
                assert(exists|t2: int| minor_dest_cond::<BishopMoves>(b, in_check_flag(b), s, t2));
                assert(false);
            } else if exists|s: int, t: int|
                0 <= s < 64 && has_bit(b.rooks.0 & b.mine(), s as u64)
                    && #[trigger] minor_dest_cond::<RookMoves>(b, in_check_flag(b), s, t) {
                let (s, t) = choose|s: int, t: int|
                    0 <= s < 64 && has_bit(b.rooks.0 & b.mine(), s as u64)
                        && #[trigger] minor_dest_cond::<RookMoves>(b, in_check_flag(b), s, t);
                assert(has_bit(b.piece_bits(RookMoves::spec_piece().idx()) & b.mine(), s as u64));
                assert(exists|t2: int| minor_dest_cond::<RookMoves>(b, in_check_flag(b), s, t2));
                assert(false);
            } else if exists|s: int, t: int|
                0 <= s < 64 && has_bit(b.queens.0 & b.mine(), s as u64)
                    && #[trigger] minor_dest_cond::<QueenMoves>(b, in_check_flag(b), s, t) {
                let (s, t) = choose|s: int, t: int|
                    0 <= s < 64 && has_bit(b.queens.0 & b.mine(), s as u64)
                        && #[trigger] minor_dest_cond::<QueenMoves>(b, in_check_flag(b), s, t);
                assert(has_bit(b.piece_bits(QueenMoves::spec_piece().idx()) & b.mine(), s as u64));
                assert(exists|t2: int| minor_dest_cond::<QueenMoves>(b, in_check_flag(b), s, t2));
                assert(false);
            } else if exists|t: int| king_dest_cond(b, in_check_flag(b), t) {
                assert(false);
            } else {
                assert(b.en_passant matches Some(ep) && exists|s: int|
                    0 <= s < 64 && absi(fl(s) - fl(ep.idx())) == 1 && #[trigger] has_bit(
                        b.pawns.0 & b.mine(),
                        s as u64,
                    ) && rk(s) == rk(ep.idx()) + (if b.side_to_move is White {
                        -1int
                    } else {
                        1int
                    }) && crate::piece_moves::ep_safe(b, s, ep.idx()));
                assert(false);
            }
        }
    } else {
        let e = l[0];
        assert(entry_ok(b, e));
        crate::bits::lemma_pop_zero(e.bitboard.0);
        assert(entries_weight(l, 0) == entry_weight(e) + entries_weight(l, 1));
        assert(entry_weight(e) >= 1);
        let sq = e.square.idx();
        crate::bits::lemma_nonzero_lowest(e.bitboard.0);
        let tz = vstd::std_specs::bits::u64_trailing_zeros(e.bitboard.0) as int;
        assert(e.bitboard.has(tz));
        assert(has_bit(b.mine(), sq as u64));
        assert(has_bit(b.occ(), sq as u64)) by {
            if b.side_to_move is White {
                assert(b.mine() == b.white.0);
            } else {
                assert(b.mine() == b.black.0);
            }
        }
        assert(has_bit(b.pawns.0, sq as u64) || has_bit(b.knights.0, sq as u64) || has_bit(
            b.bishops.0,
            sq as u64,
        ) || has_bit(b.rooks.0, sq as u64) || has_bit(b.queens.0, sq as u64) || has_bit(
            b.kings.0,
            sq as u64,
        ));
        if has_bit(b.pawns.0, sq as u64) {
            assert(has_bit(b.pawns.0 & b.mine(), sq as u64));
            if pawn_ep_entry(b, e) {
                match b.en_passant {
                    Some(ep) => {
                        assert(exists|s: int|
                            0 <= s < 64 && absi(fl(s) - fl(ep.idx())) == 1 && #[trigger] has_bit(
                                b.pawns.0 & b.mine(),
                                s as u64,
                            ) && rk(s) == rk(ep.idx()) + (if b.side_to_move is White {
                                -1int
                            } else {
                                1int
                            }) && crate::piece_moves::ep_safe(b, s, ep.idx())) by {
                            assert(0 <= sq < 64 && absi(fl(sq) - fl(ep.idx())) == 1 && has_bit(
                                b.pawns.0 & b.mine(),
                                sq as u64,
                            ) && rk(sq) == rk(ep.idx()) + (if b.side_to_move is White {
                                -1int
                            } else {
                                1int
                            }) && crate::piece_moves::ep_safe(b, sq, ep.idx()));
                        }
                    },
                    None => {
                        assert(false);
                    },
                }
                assert(some_legal_move(b));
            } else {
                assert(e.bitboard.has(tz) == minor_dest_cond::<PawnMoves>(b, in_check_flag(b), sq, tz));
                assert(exists|s: int, t: int|
                    0 <= s < 64 && has_bit(b.pawns.0 & b.mine(), s as u64)
                        && #[trigger] minor_dest_cond::<PawnMoves>(b, in_check_flag(b), s, t)) by {
                    assert(minor_dest_cond::<PawnMoves>(b, in_check_flag(b), sq, tz));
                }
                assert(some_legal_move(b));
            }
        } else if has_bit(b.knights.0, sq as u64) {
            assert(has_bit(b.knights.0 & b.mine(), sq as u64));
            assert(e.bitboard.has(tz) == minor_dest_cond::<KnightMoves>(b, in_check_flag(b), sq, tz));
            assert(exists|s: int, t: int|
                0 <= s < 64 && has_bit(b.knights.0 & b.mine(), s as u64)
                    && #[trigger] minor_dest_cond::<KnightMoves>(b, in_check_flag(b), s, t)) by {
                assert(minor_dest_cond::<KnightMoves>(b, in_check_flag(b), sq, tz));
            }
            assert(some_legal_move(b));
        } else if has_bit(b.bishops.0, sq as u64) {
            assert(has_bit(b.bishops.0 & b.mine(), sq as u64));
            assert(e.bitboard.has(tz) == minor_dest_cond::<BishopMoves>(b, in_check_flag(b), sq, tz));
            assert(exists|s: int, t: int|
                0 <= s < 64 && has_bit(b.bishops.0 & b.mine(), s as u64)
                    && #[trigger] minor_dest_cond::<BishopMoves>(b, in_check_flag(b), s, t)) by {
                assert(minor_dest_cond::<BishopMoves>(b, in_check_flag(b), sq, tz));
            }
            assert(some_legal_move(b));
        } else if has_bit(b.rooks.0, sq as u64) {
            assert(has_bit(b.rooks.0 & b.mine(), sq as u64));
            assert(e.bitboard.has(tz) == minor_dest_cond::<RookMoves>(b, in_check_flag(b), sq, tz));
            assert(exists|s: int, t: int|
                0 <= s < 64 && has_bit(b.rooks.0 & b.mine(), s as u64)
                    && #[trigger] minor_dest_cond::<RookMoves>(b, in_check_flag(b), s, t)) by {
                assert(minor_dest_cond::<RookMoves>(b, in_check_flag(b), sq, tz));
            }
            assert(some_legal_move(b));
        } else if has_bit(b.queens.0, sq as u64) {
            assert(has_bit(b.queens.0 & b.mine(), sq as u64));
            assert(e.bitboard.has(tz) == minor_dest_cond::<QueenMoves>(b, in_check_flag(b), sq, tz));
            assert(exists|s: int, t: int|
                0 <= s < 64 && has_bit(b.queens.0 & b.mine(), s as u64)
                    && #[trigger] minor_dest_cond::<QueenMoves>(b, in_check_flag(b), s, t)) by {
                assert(minor_dest_cond::<QueenMoves>(b, in_check_flag(b), sq, tz));
            }
            assert(some_legal_move(b));
        } else {
            assert(has_bit(b.kings.0 & b.mine(), sq as u64));
            assert(e.bitboard.has(tz) == king_dest_cond(b, in_check_flag(b), tz));
            assert(exists|t: int| king_dest_cond(b, in_check_flag(b), t)) by {
                assert(king_dest_cond(b, in_check_flag(b), tz));
            }
            assert(some_legal_move(b));
        }
    }
}

/// The piece kind generated at position `k` of the list: the batches
/// stand in kind order, pawns first, king last.
pub open spec fn kind_of(
    l1: Seq<BitBoardMove>,
    l2: Seq<BitBoardMove>,
    l3: Seq<BitBoardMove>,
    l4: Seq<BitBoardMove>,
    l5: Seq<BitBoardMove>,
    k: int,
) -> int {
    if k < l1.len() {
        0
    } else if k < l2.len() {
        1
    } else if k < l3.len() {
        2
    } else if k < l4.len() {
        3
    } else if k < l5.len() {
        4
    } else {
        5
    }
}

/// The squares of one batch, at most 64 of them.
pub open spec fn entry_weight(e: BitBoardMove) -> nat {
    if e.promotion {
        pop64(e.bitboard.0) * 4
    } else {
        pop64(e.bitboard.0)
    }
}

/// The number of moves left in the batches from `from` on.
pub open spec fn entries_weight(s: Seq<BitBoardMove>, from: int) -> nat
    decreases s.len() - from when 0 <= from <= s.len()
{
    if from >= s.len() {
        0
    } else {
        entry_weight(s[from]) + entries_weight(s, from + 1)
    }
}

/// The legal move enumerator: a list of batches and a cursor that pops
/// one destination at a time, unfolding promotions four ways.
pub struct MoveGen {
    pub moves: Vec<BitBoardMove>,
    pub promotion_idx: usize,
    pub idx: usize,
    pub board: Ghost<Board>,
}

impl MoveGen {
    /// The cursor is inside the list, every batch still to be served
    /// holds legal move shapes, and a started promotion batch is mid
    /// way through its four pieces.
    pub open spec fn wf(self) -> bool {
        &&& self.idx <= self.moves@.len()
        &&& self.moves@.len() <= 1024
        &&& self.promotion_idx < 4
        &&& forall|k: int|
            self.idx <= k < self.moves@.len() ==> entry_ok(
                self.board@,
                #[trigger] self.moves@[k],
            )
        &&& self.promotion_idx > 0 ==> self.idx < self.moves@.len()
            && self.moves@[self.idx as int].promotion
    }

    /// How many moves are still to be served.
    pub open spec fn remaining(self) -> int {
        entries_weight(self.moves@, self.idx as int) - self.promotion_idx
    }
}


impl MoveGen {
    /// Enumerates the legal batches of `board`: all six piece kinds
    /// when the king is safe or singly checked, only the king under a
    /// double check.
    fn enumerate_moves(board: &Board, tables: &Tables) -> (r: Vec<BitBoardMove>)
        requires
            tables.wf(),
            board.wf(),
        ensures
            r@.len() <= 1024,
            forall|k: int| 0 <= k < r@.len() ==> entry_ok(*board, #[trigger] r@[k]),
            pop64(board.checkers_bitboard.0) >= 2 ==> forall|k: int|
                0 <= k < r@.len() ==> has_bit(
                    board.kings.0 & board.mine(),
                    (#[trigger] r@[k]).square.idx() as u64,
                ),
            pop64(board.checkers_bitboard.0) >= 2 ==> forall|k: int, t: int|
                0 <= k < r@.len() && #[trigger] r@[k].bitboard.has(t) ==> king_cond(
                    r@[k].square.idx(),
                    t,
                ),
            batches_exact(*board, r@),
            pop64(board.checkers_bitboard.0) <= 1 ==> batches_complete(*board, r@),
    {
        let checkers = board.get_checkers_bitboard();
        let mask = board.get_color_bitboard(board.side_to_move()).complement();
        proof {
            assert forall|t: int| #[trigger] mask.has(t) == (on_board(t) && !has_bit(
                board.mine(),
                t as u64,
            )) by {}
            crate::bits::lemma_pop_zero(checkers.0);
        }
        let mut movelist: Vec<BitBoardMove> = Vec::new();
        if checkers.is_empty() {
            push_all_legals::<NotInCheck>(&mut movelist, board, tables, mask);
        } else {
            let n = crate::bits::popcount(checkers.0);
            if n == 1 {
                push_all_legals::<InCheck>(&mut movelist, board, tables, mask);
            } else {
                push_king_legals::<InCheck>(&mut movelist, board, tables, mask);
                proof {
                    let l = movelist@;
                    let g = true;
                    assert(board.checkers_bitboard.0 != 0);
                    assert forall|k: int| 0 <= k < l.len() implies entry_ok(
                        *board,
                        #[trigger] l[k],
                    ) && has_bit(board.kings.0 & board.mine(), l[k].square.idx() as u64) by {}
                    assert(batches_exact(*board, l)) by {
                        assert forall|k: int, t: int|
                            0 <= k < l.len() && has_bit(
                                board.knights.0 & board.mine(),
                                l[k].square.idx() as u64,
                            ) implies (#[trigger] l[k].bitboard.has(t)) == minor_dest_cond::<
                            KnightMoves,
                        >(*board, g, l[k].square.idx(), t) by {
                            lemma_kind_unique(*board, 5, 1, l[k].square.idx());
                        }
                        assert forall|k: int, t: int|
                            0 <= k < l.len() && has_bit(
                                board.bishops.0 & board.mine(),
                                l[k].square.idx() as u64,
                            ) implies (#[trigger] l[k].bitboard.has(t)) == minor_dest_cond::<
                            BishopMoves,
                        >(*board, g, l[k].square.idx(), t) by {
                            lemma_kind_unique(*board, 5, 2, l[k].square.idx());
                        }
                        assert forall|k: int, t: int|
                            0 <= k < l.len() && has_bit(
                                board.rooks.0 & board.mine(),
                                l[k].square.idx() as u64,
                            ) implies (#[trigger] l[k].bitboard.has(t)) == minor_dest_cond::<
                            RookMoves,
                        >(*board, g, l[k].square.idx(), t) by {
                            lemma_kind_unique(*board, 5, 3, l[k].square.idx());
                        }
                        assert forall|k: int, t: int|
                            0 <= k < l.len() && has_bit(
                                board.queens.0 & board.mine(),
                                l[k].square.idx() as u64,
                            ) implies (#[trigger] l[k].bitboard.has(t)) == minor_dest_cond::<
                            QueenMoves,
                        >(*board, g, l[k].square.idx(), t) by {
                            lemma_kind_unique(*board, 5, 4, l[k].square.idx());
                        }
                        assert forall|k: int|
                            0 <= k < l.len() && has_bit(
                                board.pawns.0 & board.mine(),
                                (#[trigger] l[k]).square.idx() as u64,
                            ) implies ((forall|t: int|
                            (#[trigger] l[k].bitboard.has(t)) == minor_dest_cond::<PawnMoves>(
                                *board,
                                g,
                                l[k].square.idx(),
                                t,
                            )) || pawn_ep_entry(*board, l[k])) by {
                            lemma_kind_unique(*board, 5, 0, l[k].square.idx());
                        }
                    }
                }
            }
        }
        movelist
    }

    /// The legal moves of `board`, ready to be served one by one.
    pub fn new_legal(board: &Board, tables: &Tables) -> (r: MoveGen)
        requires
            tables.wf(),
            board.wf(),
        ensures
            r.wf(),
            r.board@ == *board,
            r.promotion_idx == 0,
            r.idx == 0,
            pop64(board.checkers_bitboard.0) >= 2 ==> forall|k: int|
                0 <= k < r.moves@.len() ==> has_bit(
                    board.kings.0 & board.mine(),
                    (#[trigger] r.moves@[k]).square.idx() as u64,
                ),
            pop64(board.checkers_bitboard.0) >= 2 ==> forall|k: int, t: int|
                0 <= k < r.moves@.len() && #[trigger] r.moves@[k].bitboard.has(t) ==> king_cond(
                    r.moves@[k].square.idx(),
                    t,
                ),
            batches_exact(*board, r.moves@),
            pop64(board.checkers_bitboard.0) <= 1 ==> batches_complete(*board, r.moves@),
    {
        MoveGen {
            moves: MoveGen::enumerate_moves(board, tables),
            promotion_idx: 0,
            idx: 0,
            board: Ghost(*board),
        }
    }

    /// The promotion piece served at position `j` of a promotion batch:
    /// queen, rook, bishop, knight, in that order.
    pub open spec fn spec_promotion_piece(j: int) -> Piece {
        if j == 0 {
            Piece::Queen
        } else if j == 1 {
            Piece::Rook
        } else if j == 2 {
            Piece::Bishop
        } else {
            Piece::Knight
        }
    }

    fn promotion_piece(j: usize) -> (r: Piece)
        ensures
            r == Self::spec_promotion_piece(j as int),
    {
        if j == 0 {
            Piece::Queen
        } else if j == 1 {
            Piece::Rook
        } else if j == 2 {
            Piece::Bishop
        } else {
            Piece::Knight
        }
    }

    /// One call of `next_move` that returned move `m`: the lowest
    /// destination of the current batch is served, the promotion index
    /// steps through its four pieces, and a spent batch advances the
    /// cursor.
    pub open spec fn serves(pre: MoveGen, post: MoveGen, m: ChessMove) -> bool {
        let e = pre.moves@[pre.idx as int];
        &&& pre.idx < pre.moves@.len()
        &&& m.source == e.square
        &&& e.bitboard.has(m.dest.idx())
        &&& forall|j: int| 0 <= j < m.dest.idx() ==> !e.bitboard.has(j)
        &&& m.promotion == (if e.promotion {
            Some(MoveGen::spec_promotion_piece(pre.promotion_idx as int))
        } else {
            Option::<Piece>::None
        })
        &&& post.board == pre.board
        &&& post.moves@.len() == pre.moves@.len()
        &&& forall|k: int|
            0 <= k < pre.moves@.len() && k != pre.idx ==> post.moves@[k] == pre.moves@[k]
        &&& if e.promotion && pre.promotion_idx < 3 {
            post.moves@ =~= pre.moves@ && post.idx == pre.idx && post.promotion_idx
                == pre.promotion_idx + 1
        } else {
            &&& post.promotion_idx == 0
            &&& post.moves@[pre.idx as int].square == e.square
            &&& post.moves@[pre.idx as int].promotion == e.promotion
            &&& forall|t: int|
                #[trigger] post.moves@[pre.idx as int].bitboard.has(t) == (e.bitboard.has(t)
                    && t != m.dest.idx())
            &&& post.idx == (if post.moves@[pre.idx as int].bitboard.0 == 0 {
                pre.idx + 1
            } else {
                pre.idx as int
            })
        }
    }

    /// Serves the next move: the lowest destination of the current
    /// batch, with promotion batches unfolded four ways in the fixed
    /// queen, rook, bishop, knight order.
    #[verifier::rlimit(60)]
    pub fn next_move(&mut self) -> (r: Option<ChessMove>)
        requires
            old(self).wf(),
        ensures
            final(self).wf(),
            final(self).board == old(self).board,
            final(self).moves@.len() == old(self).moves@.len(),
            r matches Some(m) ==> (old(self).board@.move_shape_ok(m) && Self::serves(
                *old(self),
                *final(self),
                m,
            ) && final(self).remaining() == old(self).remaining() - 1),
            (r is None) == (old(self).remaining() == 0),
            r is None ==> *final(self) == *old(self),
    {
        proof {
            if old(self).idx < old(self).moves@.len() {
                assert(entry_ok(self.board@, self.moves@[self.idx as int]));
                lemma_weight_head(self.moves@, self.idx as int);
                crate::bits::lemma_pop_zero(self.moves@[self.idx as int].bitboard.0);
                assert(old(self).remaining() > 0);
            } else {
                assert(old(self).remaining() == 0);
            }
        }
        if self.idx >= self.moves.len() || self.moves[self.idx].bitboard.is_empty() {
            return None;
        }
        let entry = self.moves[self.idx];
        let ghost b = self.board@;
        proof {
            assert(entry_ok(b, entry));
        }
        let dest = entry.bitboard.to_square();
        proof {
            assert(entry.bitboard.has(dest.idx()));
            lemma_weight_head(self.moves@, self.idx as int);
        }
        if entry.promotion {
            let piece = Self::promotion_piece(self.promotion_idx);
            let result = ChessMove::new(entry.square, dest, Some(piece));
            proof {
                assert(b.move_shape_ok(result)) by {
                    assert(entry.bitboard.has(dest.idx()));
                }
            }
            if self.promotion_idx + 1 >= 4 {
                let ghost old_bb = entry.bitboard;
                let cleared = entry.bitboard.xor(BitBoard::from_square(dest));
                self.moves[self.idx] = BitBoardMove {
                    square: entry.square,
                    bitboard: cleared,
                    promotion: true,
                };
                self.promotion_idx = 0;
                proof {
                    crate::bits::lemma_pop_flip(old_bb.0, dest.idx() as u64);
                    lemma_weight_update(
                        old(self).moves@,
                        self.moves@,
                        self.idx as int,
                    );
                }
                if cleared.is_empty() {
                    self.idx = self.idx + 1;
                }
            } else {
                self.promotion_idx = self.promotion_idx + 1;
            }
            Some(result)
        } else {
            let ghost old_bb = entry.bitboard;
            let cleared = entry.bitboard.xor(BitBoard::from_square(dest));
            self.moves[self.idx] = BitBoardMove {
                square: entry.square,
                bitboard: cleared,
                promotion: false,
            };
            proof {
                crate::bits::lemma_pop_flip(old_bb.0, dest.idx() as u64);
                lemma_weight_update(old(self).moves@, self.moves@, self.idx as int);
            }
            if cleared.is_empty() {
                self.idx = self.idx + 1;
            }
            let result = ChessMove::new(entry.square, dest, None);
            proof {
                assert(b.move_shape_ok(result)) by {
                    assert(entry.bitboard.has(dest.idx()));
                }
            }
            Some(result)
        }
    }

    /// How many moves the generator holds, promotions counted four
    /// ways.
    pub fn len(&self) -> (r: usize)
        requires
            self.wf(),
        ensures
            r == entries_weight(self.moves@, self.idx as int),
            self.promotion_idx == 0 ==> r as int == self.remaining(),
    {
        let mut result: usize = 0;
        let mut k: usize = self.idx;
        proof {
            lemma_weight_tail(self.moves@, self.idx as int, self.idx as int);
        }
        while k < self.moves.len()
            invariant
                self.wf(),
                self.idx <= k <= self.moves@.len(),
                result <= 256 * (k - self.idx),
                result + entries_weight(self.moves@, k as int) == entries_weight(
                    self.moves@,
                    self.idx as int,
                ),
            decreases self.moves@.len() - k,
        {
            let e = self.moves[k];
            proof {
                crate::bits::lemma_pop_le_64(e.bitboard.0);
            }
            let c = crate::bits::popcount(e.bitboard.0) as usize;
            if e.promotion {
                result = result + c * 4;
            } else {
                result = result + c;
            }
            k = k + 1;
        }
        result
    }

    /// Counts the leaves of the move tree `depth` plies deep: the
    /// correctness oracle of the whole generator. Counts saturate at
    /// the integer ceiling rather than wrap.
    pub fn perft_test(board: &Board, tables: &Tables, depth: usize) -> (r: usize)
        requires
            tables.wf(),
            board.wf(),
            depth >= 1,
        ensures
            depth == 1 && pop64(board.checkers_bitboard.0) <= 1 ==> ((r == 0)
                == !some_legal_move(*board)),
        decreases depth,
    {
        let mut movements = MoveGen::new_legal(board, tables);
        if depth == 1 {
            let n = movements.len();
            proof {
                if pop64(board.checkers_bitboard.0) <= 1 {
                    lemma_weight_decides(*board, movements.moves@);
                }
            }
            return n;
        }
        let enemy_king = board.get_piece_bitboard(Piece::King).and(
            board.get_color_bitboard(board.side_to_move().flip()),
        );
        proof {
            if board.side_to_move is White {
                assert(enemy_king.0 == board.kings.0 & board.black.0);
            } else {
                assert(enemy_king.0 == board.kings.0 & board.white.0);
            }
            crate::bits::lemma_pop_zero(enemy_king.0);
        }
        let enemy_king_sq = enemy_king.to_square();
        proof {
            crate::bits::lemma_pop_one(enemy_king.0);
            let tz = vstd::std_specs::bits::u64_trailing_zeros(enemy_king.0) as u64;
            assert forall|j: u64|
                j < 64 && has_bit(board.kings.0 & board.theirs(), j) implies j
                == enemy_king_sq.idx() by {
                assert(enemy_king.0 == board.kings.0 & board.theirs());
                assert(has_bit(1u64 << tz, j));
            }
        }
        let mut result: usize = 0;
        loop
            invariant
                tables.wf(),
                board.wf(),
                depth >= 2,
                movements.wf(),
                movements.board@ == *board,
                enemy_king_sq.idx() < 64,
                movements.remaining() >= 0,
                forall|j: u64|
                    j < 64 && has_bit(board.kings.0 & board.theirs(), j) ==> j
                        == enemy_king_sq.idx(),
            decreases movements.remaining() + 1,
        {
            let m = match movements.next_move() {
                Some(m) => m,
                None => {
                    break ;
                },
            };
            proof {
                lemma_remaining_nonneg(movements);
            }
            // A malformed position could offer a capture of the enemy
            // king; such a position is outside every legal game, and
            // its subtree is not counted.
            if m.dest.to_index() != enemy_king_sq.to_index() {
                proof {
                    assert(!has_bit(board.kings.0 & board.theirs(), m.dest.idx() as u64)) by {
                        if has_bit(board.kings.0 & board.theirs(), m.dest.idx() as u64) {
                            assert(m.dest.idx() == enemy_king_sq.idx());
                        }
                    }
                    assert(board.move_ok(m));
                }
                let child = board.make_move(m, tables);
                let sub = MoveGen::perft_test(&child, tables, depth - 1);
                if sub > usize::MAX - result {
                    result = usize::MAX;
                } else {
                    result = result + sub;
                }
            }
        }
        result
    }
}

/// A well-formed generator never owes a negative number of moves.
proof fn lemma_remaining_nonneg(g: MoveGen)
    requires
        g.wf(),
    ensures
        g.remaining() >= 0,
{
    if g.promotion_idx > 0 {
        lemma_weight_head(g.moves@, g.idx as int);
        let e = g.moves@[g.idx as int];
        crate::bits::lemma_pop_zero(e.bitboard.0);
    }
}

/// A nonempty head batch contributes its weight to the total.
proof fn lemma_weight_head(s: Seq<BitBoardMove>, from: int)
    requires
        0 <= from < s.len(),
    ensures
        entries_weight(s, from) == entry_weight(s[from]) + entries_weight(s, from + 1),
{
}

/// Replacing the head batch by one a popped destination lighter lowers
/// the total weight by the served amount.
proof fn lemma_weight_update(s0: Seq<BitBoardMove>, s1: Seq<BitBoardMove>, at: int)
    requires
        0 <= at < s0.len(),
        s1.len() == s0.len(),
        forall|k: int| 0 <= k < s0.len() && k != at ==> s1[k] == s0[k],
    ensures
        entries_weight(s1, at) == entry_weight(s1[at]) + entries_weight(s0, at + 1),
    decreases s0.len() - at,
{
    lemma_weight_tail_eq(s0, s1, at + 1);
}

/// Two lists equal from `from` on have the same tail weight.
proof fn lemma_weight_tail_eq(s0: Seq<BitBoardMove>, s1: Seq<BitBoardMove>, from: int)
    requires
        0 <= from <= s0.len(),
        s1.len() == s0.len(),
        forall|k: int| from <= k < s0.len() ==> s1[k] == s0[k],
    ensures
        entries_weight(s1, from) == entries_weight(s0, from),
    decreases s0.len() - from,
{
    if from < s0.len() {
        lemma_weight_tail_eq(s0, s1, from + 1);
    }
}

/// The tail weight is zero at the end of the list.
proof fn lemma_weight_tail(s: Seq<BitBoardMove>, from: int, at: int)
    requires
        0 <= from <= at <= s.len(),
    ensures
        entries_weight(s, at) >= 0,
{
}


/// From a fresh promotion batch, four consecutive served moves share
/// one source and one destination and promote to queen, rook, bishop
/// and knight, in exactly that order.
pub proof fn lemma_promotion_quadruple(
    g0: MoveGen,
    g1: MoveGen,
    g2: MoveGen,
    g3: MoveGen,
    g4: MoveGen,
    m1: ChessMove,
    m2: ChessMove,
    m3: ChessMove,
    m4: ChessMove,
)
    requires
        g0.promotion_idx == 0,
        g0.idx < g0.moves@.len(),
        g0.moves@[g0.idx as int].promotion,
        MoveGen::serves(g0, g1, m1),
        MoveGen::serves(g1, g2, m2),
        MoveGen::serves(g2, g3, m3),
        MoveGen::serves(g3, g4, m4),
    ensures
        m1.source == m2.source && m2.source == m3.source && m3.source == m4.source,
        m1.dest == m2.dest && m2.dest == m3.dest && m3.dest == m4.dest,
        m1.promotion == Some(Piece::Queen),
        m2.promotion == Some(Piece::Rook),
        m3.promotion == Some(Piece::Bishop),
        m4.promotion == Some(Piece::Knight),
{
    let e = g0.moves@[g0.idx as int];
    assert(g1.moves@[g1.idx as int] == e && g1.idx == g0.idx && g1.promotion_idx == 1);
    assert(g2.moves@[g2.idx as int] == e && g2.idx == g0.idx && g2.promotion_idx == 2);
    assert(g3.moves@[g3.idx as int] == e && g3.idx == g0.idx && g3.promotion_idx == 3);
    assert(m1.dest.idx() == m2.dest.idx()) by {
        if m1.dest.idx() < m2.dest.idx() {
            assert(!e.bitboard.has(m1.dest.idx()));
        }
        if m2.dest.idx() < m1.dest.idx() {
            assert(!e.bitboard.has(m2.dest.idx()));
        }
    }
    assert(m2.dest.idx() == m3.dest.idx()) by {
        if m2.dest.idx() < m3.dest.idx() {
            assert(!e.bitboard.has(m2.dest.idx()));
        }
        if m3.dest.idx() < m2.dest.idx() {
            assert(!e.bitboard.has(m3.dest.idx()));
        }
    }
    assert(m3.dest.idx() == m4.dest.idx()) by {
        if m3.dest.idx() < m4.dest.idx() {
            assert(!e.bitboard.has(m3.dest.idx()));
        }
        if m4.dest.idx() < m3.dest.idx() {
            assert(!e.bitboard.has(m4.dest.idx()));
        }
    }
    Square::lemma_idx_injective(m1.dest, m2.dest);
    Square::lemma_idx_injective(m2.dest, m3.dest);
    Square::lemma_idx_injective(m3.dest, m4.dest);
}

/// Under a double check, every served move is a one-step move of the
/// side-to-move's king: no other piece moves and no castle appears.
pub proof fn lemma_double_check_king_moves_only(g: MoveGen, g2: MoveGen, m: ChessMove)
    requires
        pop64(g.board@.checkers_bitboard.0) >= 2,
        forall|k: int|
            0 <= k < g.moves@.len() ==> has_bit(
                g.board@.kings.0 & g.board@.mine(),
                (#[trigger] g.moves@[k]).square.idx() as u64,
            ),
        forall|k: int, t: int|
            0 <= k < g.moves@.len() && #[trigger] g.moves@[k].bitboard.has(t) ==> king_cond(
                g.moves@[k].square.idx(),
                t,
            ),
        MoveGen::serves(g, g2, m),
    ensures
        has_bit(g.board@.kings.0 & g.board@.mine(), m.source.idx() as u64),
        king_cond(m.source.idx(), m.dest.idx()),
{
    let e = g.moves@[g.idx as int];
    assert(e.bitboard.has(m.dest.idx()));
}

} // verus!
