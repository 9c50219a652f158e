//! The position: piece and color bitboards, side to move, castling
//! rights, en-passant square, and the derived pinned and checkers
//! masks; reading and writing positions, and applying a move.

use vstd::prelude::*;
use crate::bitboard::BitBoard;
use crate::bits::{has_bit, pop64};
use crate::castle_rights::CastleRights;
use crate::chess_move::ChessMove;
use crate::color::Color;
use crate::errors::FenError;
use crate::file::File;
use crate::geometry::{rk, fl, on_board, absi, knight_cond, pawn_attack_cond, between_cond,
    rook_ray_cond, bishop_ray_cond, slider_reach, castle_sq_cond};
use crate::pieces::Piece;
use crate::rank::Rank;
use crate::square::Square;
use crate::strutil::ascii_to_string;
use crate::tables::Tables;
use vstd::string::StringSliceAdditionalSpecFns;

verus! {

broadcast use crate::bits::group_has_lemmas;

/// A position. One bitboard per piece kind across both colors, one per
/// color, their union, and the play state.
#[derive(Debug, Clone, Copy)]
pub struct Board {
    pub pawns: BitBoard,
    pub knights: BitBoard,
    pub bishops: BitBoard,
    pub rooks: BitBoard,
    pub queens: BitBoard,
    pub kings: BitBoard,
    pub white: BitBoard,
    pub black: BitBoard,
    pub combined_bitboard: BitBoard,
    pub side_to_move: Color,
    pub en_passant: Option<Square>,
    pub castle_rights: CastleRights,
    pub pinned_bitboard: BitBoard,
    pub checkers_bitboard: BitBoard,
}

impl Board {
    /// The bitboard of one piece kind, by index.
    pub open spec fn piece_bits(self, p: int) -> u64 {
        if p == 0 {
            self.pawns.0
        } else if p == 1 {
            self.knights.0
        } else if p == 2 {
            self.bishops.0
        } else if p == 3 {
            self.rooks.0
        } else if p == 4 {
            self.queens.0
        } else {
            self.kings.0
        }
    }

    /// The bitboard of one color, by index.
    pub open spec fn color_bits(self, c: int) -> u64 {
        if c == 0 {
            self.white.0
        } else {
            self.black.0
        }
    }

    /// All occupied squares.
    pub open spec fn occ(self) -> u64 {
        self.combined_bitboard.0
    }

    /// The squares of the side to move.
    pub open spec fn mine(self) -> u64 {
        self.color_bits(self.side_to_move.idx())
    }

    /// The squares of the opponent.
    pub open spec fn theirs(self) -> u64 {
        self.color_bits(1 - self.side_to_move.idx())
    }

    /// A piece of kind `p` and color `c` stands on `t`.
    pub open spec fn pc_at(self, p: int, c: int, t: int) -> bool {
        on_board(t) && has_bit(self.piece_bits(p), t as u64) && has_bit(
            self.color_bits(c),
            t as u64,
        )
    }

    /// The two color boards split the occupied squares.
    pub open spec fn colors_ok(self) -> bool {
        &&& forall|i: u64|
            i < 64 ==> !(#[trigger] has_bit(self.white.0, i) && has_bit(self.black.0, i))
        &&& forall|i: u64|
            i < 64 ==> (#[trigger] has_bit(self.occ(), i) == (has_bit(self.white.0, i) || has_bit(
                self.black.0,
                i,
            )))
    }

    /// The six piece boards split the occupied squares.
    pub open spec fn pieces_ok(self) -> bool {
        &&& forall|p: int, q: int, i: u64|
            0 <= p < q < 6 && i < 64 ==> !(#[trigger] has_bit(self.piece_bits(p), i)
                && #[trigger] has_bit(self.piece_bits(q), i))
        &&& forall|i: u64|
            i < 64 ==> (#[trigger] has_bit(self.occ(), i) == (has_bit(self.pawns.0, i) || has_bit(
                self.knights.0,
                i,
            ) || has_bit(self.bishops.0, i) || has_bit(self.rooks.0, i) || has_bit(
                self.queens.0,
                i,
            ) || has_bit(self.kings.0, i)))
    }

    /// Each side has exactly one king.
    pub open spec fn kings_ok(self) -> bool {
        &&& pop64(self.kings.0 & self.white.0) == 1
        &&& pop64(self.kings.0 & self.black.0) == 1
    }

    /// The pinned mask holds own pieces; the checkers mask holds enemy
    /// pieces.
    pub open spec fn pins_ok(self) -> bool {
        &&& forall|i: u64|
            i < 64 && #[trigger] has_bit(self.pinned_bitboard.0, i) ==> has_bit(self.mine(), i)
        &&& forall|i: u64|
            i < 64 && #[trigger] has_bit(self.checkers_bitboard.0, i) ==> has_bit(
                self.theirs(),
                i,
            )
    }

    /// When an en-passant square is recorded, the double-stepped enemy
    /// pawn stands behind it, an own pawn stands beside that pawn ready
    /// to capture, and the passed square itself is empty.
    pub open spec fn ep_ok(self) -> bool {
        match self.en_passant {
            None => true,
            Some(s) => {
                let e = s.idx();
                let behind = e + (if self.side_to_move is White {
                    -8int
                } else {
                    8int
                });
                &&& on_board(e)
                &&& rk(e) == (if self.side_to_move is White {
                    5int
                } else {
                    2int
                })
                &&& has_bit(self.pawns.0 & self.theirs(), behind as u64)
                &&& !has_bit(self.occ(), e as u64)
                &&& exists|u: int|
                    on_board(u) && rk(u) == rk(behind) && absi(fl(u) - fl(e)) == 1
                        && #[trigger] has_bit(self.pawns.0 & self.mine(), u as u64)
            },
        }
    }

    /// Each side has at most sixteen pieces.
    pub open spec fn counts_ok(self) -> bool {
        &&& pop64(self.white.0) <= 16
        &&& pop64(self.black.0) <= 16
    }

    /// Every castling right still set has its king and rook on their
    /// starting squares.
    pub open spec fn castling_ok(self) -> bool {
        &&& self.castle_rights.white_kingside ==> has_bit(self.kings.0 & self.white.0, 4)
            && has_bit(self.rooks.0 & self.white.0, 7)
        &&& self.castle_rights.white_queenside ==> has_bit(self.kings.0 & self.white.0, 4)
            && has_bit(self.rooks.0 & self.white.0, 0)
        &&& self.castle_rights.black_kingside ==> has_bit(self.kings.0 & self.black.0, 60)
            && has_bit(self.rooks.0 & self.black.0, 63)
        &&& self.castle_rights.black_queenside ==> has_bit(self.kings.0 & self.black.0, 60)
            && has_bit(self.rooks.0 & self.black.0, 56)
    }

    /// No pawn stands on the first or eighth rank.
    pub open spec fn pawns_ok(self) -> bool {
        forall|i: u64| i < 64 && #[trigger] has_bit(self.pawns.0, i) ==> 0 < rk(i as int) < 7
    }

    /// Well-formedness: everything the move generator and `make_move`
    /// rely on.
    pub open spec fn wf(self) -> bool {
        &&& self.colors_ok()
        &&& self.pieces_ok()
        &&& self.kings_ok()
        &&& self.pins_ok()
        &&& self.ep_ok()
        &&& self.counts_ok()
        &&& self.castling_ok()
        &&& self.pawns_ok()
    }

    /// An empty board, White to move, no rights, nothing derived.
    pub fn new() -> (r: Board)
        ensures
            r.occ() == 0,
            r.side_to_move is White,
            r.en_passant is None,
            r.castle_rights == CastleRights::none(),
            forall|p: int| 0 <= p < 6 ==> #[trigger] r.piece_bits(p) == 0,
            forall|c: int| 0 <= c < 2 ==> #[trigger] r.color_bits(c) == 0,
    {
        Board {
            pawns: BitBoard(0),
            knights: BitBoard(0),
            bishops: BitBoard(0),
            rooks: BitBoard(0),
            queens: BitBoard(0),
            kings: BitBoard(0),
            white: BitBoard(0),
            black: BitBoard(0),
            combined_bitboard: BitBoard(0),
            side_to_move: Color::White,
            en_passant: None,
            castle_rights: CastleRights {
                white_kingside: false,
                white_queenside: false,
                black_kingside: false,
                black_queenside: false,
            },
            pinned_bitboard: BitBoard(0),
            checkers_bitboard: BitBoard(0),
        }
    }

    /// Toggles `bitboard` in the given piece board, the given color
    /// board, and the union: the one primitive every move is made of.
    pub fn xor(&mut self, piece: Piece, bitboard: BitBoard, color: Color)
        ensures
            forall|p: int|
                0 <= p < 6 ==> #[trigger] final(self).piece_bits(p) == (if p == piece.idx() {
                    old(self).piece_bits(p) ^ bitboard.0
                } else {
                    old(self).piece_bits(p)
                }),
            forall|c: int|
                0 <= c < 2 ==> #[trigger] final(self).color_bits(c) == (if c == color.idx() {
                    old(self).color_bits(c) ^ bitboard.0
                } else {
                    old(self).color_bits(c)
                }),
            final(self).occ() == old(self).occ() ^ bitboard.0,
            forall|j: u64|
                j < 64 ==> #[trigger] has_bit(final(self).pawns.0, j) == (has_bit(
                    old(self).pawns.0,
                    j,
                ) != (piece is Pawn && has_bit(bitboard.0, j))),
            forall|j: u64|
                j < 64 ==> #[trigger] has_bit(final(self).knights.0, j) == (has_bit(
                    old(self).knights.0,
                    j,
                ) != (piece is Knight && has_bit(bitboard.0, j))),
            forall|j: u64|
                j < 64 ==> #[trigger] has_bit(final(self).bishops.0, j) == (has_bit(
                    old(self).bishops.0,
                    j,
                ) != (piece is Bishop && has_bit(bitboard.0, j))),
            forall|j: u64|
                j < 64 ==> #[trigger] has_bit(final(self).rooks.0, j) == (has_bit(
                    old(self).rooks.0,
                    j,
                ) != (piece is Rook && has_bit(bitboard.0, j))),
            forall|j: u64|
                j < 64 ==> #[trigger] has_bit(final(self).queens.0, j) == (has_bit(
                    old(self).queens.0,
                    j,
                ) != (piece is Queen && has_bit(bitboard.0, j))),
            forall|j: u64|
                j < 64 ==> #[trigger] has_bit(final(self).kings.0, j) == (has_bit(
                    old(self).kings.0,
                    j,
                ) != (piece is King && has_bit(bitboard.0, j))),
            forall|j: u64|
                j < 64 ==> #[trigger] has_bit(final(self).white.0, j) == (has_bit(
                    old(self).white.0,
                    j,
                ) != (color is White && has_bit(bitboard.0, j))),
            forall|j: u64|
                j < 64 ==> #[trigger] has_bit(final(self).black.0, j) == (has_bit(
                    old(self).black.0,
                    j,
                ) != (color is Black && has_bit(bitboard.0, j))),
            forall|j: u64|
                j < 64 ==> #[trigger] has_bit(final(self).combined_bitboard.0, j) == (has_bit(
                    old(self).combined_bitboard.0,
                    j,
                ) != has_bit(bitboard.0, j)),
            final(self).side_to_move == old(self).side_to_move,
            final(self).en_passant == old(self).en_passant,
            final(self).castle_rights == old(self).castle_rights,
            final(self).pinned_bitboard == old(self).pinned_bitboard,
            final(self).checkers_bitboard == old(self).checkers_bitboard,
    {
        match piece {
            Piece::Pawn => {
                self.pawns = self.pawns.xor(bitboard);
            },
            Piece::Knight => {
                self.knights = self.knights.xor(bitboard);
            },
            Piece::Bishop => {
                self.bishops = self.bishops.xor(bitboard);
            },
            Piece::Rook => {
                self.rooks = self.rooks.xor(bitboard);
            },
            Piece::Queen => {
                self.queens = self.queens.xor(bitboard);
            },
            Piece::King => {
                self.kings = self.kings.xor(bitboard);
            },
        }
        match color {
            Color::White => {
                self.white = self.white.xor(bitboard);
            },
            Color::Black => {
                self.black = self.black.xor(bitboard);
            },
        }
        self.combined_bitboard = self.combined_bitboard.xor(bitboard);
    }

    /// The piece standing on `square`, of either color.
    pub fn get_piece(&self, square: Square) -> (r: Option<Piece>)
        ensures
            r matches Some(p) ==> has_bit(self.piece_bits(p.idx()), square.idx() as u64),
            r is None ==> !has_bit(self.occ(), square.idx() as u64) || (!has_bit(
                self.pawns.0,
                square.idx() as u64,
            ) && !has_bit(self.knights.0, square.idx() as u64) && !has_bit(
                self.bishops.0,
                square.idx() as u64,
            ) && !has_bit(self.rooks.0, square.idx() as u64) && !has_bit(
                self.queens.0,
                square.idx() as u64,
            ) && !has_bit(self.kings.0, square.idx() as u64)),
            self.pieces_ok() && has_bit(self.occ(), square.idx() as u64) ==> r is Some,
    {
        let sq = square.to_index();
        if !self.combined_bitboard.has_square(sq) {
            return None;
        }
        if self.pawns.has_square(sq) {
            Some(Piece::Pawn)
        } else if self.knights.has_square(sq) {
            Some(Piece::Knight)
        } else if self.bishops.has_square(sq) {
            Some(Piece::Bishop)
        } else if self.rooks.has_square(sq) {
            Some(Piece::Rook)
        } else if self.queens.has_square(sq) {
            Some(Piece::Queen)
        } else if self.kings.has_square(sq) {
            Some(Piece::King)
        } else {
            None
        }
    }

    /// The bitboard of one piece kind.
    pub fn get_piece_bitboard(&self, piece: Piece) -> (r: BitBoard)
        ensures
            r.0 == self.piece_bits(piece.idx()),
    {
        match piece {
            Piece::Pawn => self.pawns,
            Piece::Knight => self.knights,
            Piece::Bishop => self.bishops,
            Piece::Rook => self.rooks,
            Piece::Queen => self.queens,
            Piece::King => self.kings,
        }
    }

    /// All occupied squares.
    pub fn get_combined_bitboard(&self) -> (r: BitBoard)
        ensures
            r.0 == self.occ(),
    {
        self.combined_bitboard
    }

    pub fn side_to_move(&self) -> (r: Color)
        ensures
            r == self.side_to_move,
    {
        self.side_to_move
    }

    /// The bitboard of one color.
    pub fn get_color_bitboard(&self, color: Color) -> (r: BitBoard)
        ensures
            r.0 == self.color_bits(color.idx()),
    {
        match color {
            Color::White => self.white,
            Color::Black => self.black,
        }
    }

    /// The square of the king of color `c`: the position of the one
    /// set bit of the king-and-color mask.
    pub open spec fn king_sq(self, c: int) -> int {
        vstd::std_specs::bits::u64_trailing_zeros(self.kings.0 & self.color_bits(c)) as int
    }

    /// The square of the king of `color`.
    pub fn get_king_square(&self, color: Color) -> (r: Square)
        requires
            pop64(self.kings.0 & self.color_bits(color.idx())) == 1,
        ensures
            0 <= r.idx() < 64,
            r.idx() == self.king_sq(color.idx()),
            has_bit(self.kings.0 & self.color_bits(color.idx()), r.idx() as u64),
            forall|j: u64|
                j < 64 && #[trigger] has_bit(self.kings.0 & self.color_bits(color.idx()), j)
                    ==> j == r.idx(),
    {
        let bb = self.get_piece_bitboard(Piece::King).and(self.get_color_bitboard(color));
        proof {
            crate::bits::lemma_pop_zero(bb.0);
            crate::bits::lemma_pop_one(bb.0);
            let tz = vstd::std_specs::bits::u64_trailing_zeros(bb.0) as u64;
            assert forall|j: u64| j < 64 && #[trigger] has_bit(bb.0, j) implies j == tz by {
                crate::bits::lemma_has_single(tz, j);
            }
        }
        bb.to_square()
    }

    /// Own pieces that shield the own king from an enemy slider.
    pub fn get_pinned_bitboard(&self) -> (r: BitBoard)
        ensures
            r == self.pinned_bitboard,
    {
        self.pinned_bitboard
    }

    /// Enemy pieces currently giving check.
    pub fn get_checkers_bitboard(&self) -> (r: BitBoard)
        ensures
            r == self.checkers_bitboard,
    {
        self.checkers_bitboard
    }

    /// The square a pawn just passed, when one did.
    pub fn en_passant(&self) -> (r: Option<Square>)
        ensures
            r == self.en_passant,
    {
        self.en_passant
    }

    pub fn castle_rights(&self) -> (r: CastleRights)
        ensures
            r == self.castle_rights,
    {
        self.castle_rights
    }
}


impl Board {
    /// Every well-formedness clause, tested on the actual bitboards.
    /// Used once after reading a position; never on the play path.
    #[verifier::rlimit(100)]
    pub fn validate_position(&self) -> (r: bool)
        ensures
            r == self.wf(),
    {
        // Colors split the occupancy.
        let wb = self.white.and(self.black);
        if wb.0 != 0 {
            proof {
                crate::bits::lemma_nonzero_lowest(wb.0);
                let i = vstd::std_specs::bits::u64_trailing_zeros(wb.0) as int;
                assert(wb.has(i));
            }
            return false;
        }
        let wu = self.white.or(self.black);
        if wu.0 != self.combined_bitboard.0 {
            proof {
                let wuv = wu.0;
                let cbv = self.combined_bitboard.0;
                let d = wuv ^ cbv;
                assert(d != 0) by (bit_vector)
                    requires
                        d == wuv ^ cbv && wuv != cbv,
                ;
                crate::bits::lemma_nonzero_lowest(d);
                let i = vstd::std_specs::bits::u64_trailing_zeros(d) as u64;
                crate::bits::lemma_has_xor(wuv, cbv, i);
                assert(wu.has(i as int) != has_bit(self.occ(), i));
            }
            return false;
        }
        // Piece boards split the occupancy.
        let union = self.pawns.or(self.knights).or(self.bishops).or(self.rooks).or(
            self.queens,
        ).or(self.kings);
        if union.0 != self.combined_bitboard.0 {
            proof {
                let unv = union.0;
                let cbv = self.combined_bitboard.0;
                let d = unv ^ cbv;
                assert(d != 0) by (bit_vector)
                    requires
                        d == unv ^ cbv && unv != cbv,
                ;
                crate::bits::lemma_nonzero_lowest(d);
                let i = vstd::std_specs::bits::u64_trailing_zeros(d) as u64;
                crate::bits::lemma_has_xor(unv, cbv, i);
                assert(union.has(i as int) != has_bit(self.occ(), i));
            }
            return false;
        }
        let mut pairs_ok = true;
        let mut p: usize = 0;
        while p < 6
            invariant
                pairs_ok ==> forall|p2: int, q2: int, i: u64|
                    0 <= p2 < q2 < 6 && q2 < 6 && p2 < p as int && i < 64 ==> !(
                    #[trigger] has_bit(self.piece_bits(p2), i) && #[trigger] has_bit(
                        self.piece_bits(q2),
                        i,
                    )),
                !pairs_ok ==> !self.pieces_ok(),
            decreases 6 - p,
        {
            let bp = self.get_piece_bitboard(Piece::from_index(p));
            let mut q: usize = p + 1;
            while q < 6
                invariant
                    p < 6,
                    p < q,
                    bp.0 == self.piece_bits(p as int),
                    pairs_ok ==> forall|p2: int, q2: int, i: u64|
                        0 <= p2 < q2 < 6 && (p2 < p as int || (p2 == p as int && q2
                            < q as int)) && i < 64 ==> !(#[trigger] has_bit(
                            self.piece_bits(p2),
                            i,
                        ) && #[trigger] has_bit(self.piece_bits(q2), i)),
                    !pairs_ok ==> !self.pieces_ok(),
                decreases 6 - q,
            {
                let bq = self.get_piece_bitboard(Piece::from_index(q));
                let pq = bp.and(bq);
                if pq.0 != 0 {
                    pairs_ok = false;
                    proof {
                        crate::bits::lemma_nonzero_lowest(pq.0);
                        let i = vstd::std_specs::bits::u64_trailing_zeros(pq.0) as int;
                        assert(pq.has(i));
                        assert(has_bit(self.piece_bits(p as int), i as u64) && has_bit(
                            self.piece_bits(q as int),
                            i as u64,
                        ));
                        assert(!self.pieces_ok());
                    }
                }
                proof {
                    if pairs_ok {
                        assert forall|i: u64|
                            i < 64 implies !(has_bit(self.piece_bits(p as int), i) && has_bit(
                            self.piece_bits(q as int),
                            i,
                        )) by {
                            assert(has_bit(bp.0 & bq.0, i) == (has_bit(bp.0, i) && has_bit(
                                bq.0,
                                i,
                            )));
                            assert(!has_bit(0u64, i));
                        }
                    }
                }
                q = q + 1;
            }
            p = p + 1;
        }
        if !pairs_ok {
            return false;
        }
        // Exactly one king each.
        if crate::bits::popcount(self.kings.and(self.white).0) != 1 {
            return false;
        }
        if crate::bits::popcount(self.kings.and(self.black).0) != 1 {
            return false;
        }
        // Derived masks point at the right sides.
        let mine = self.get_color_bitboard(self.side_to_move);
        let theirs = self.get_color_bitboard(self.side_to_move.flip());
        let pin_out = self.pinned_bitboard.and(mine.complement());
        if pin_out.0 != 0 {
            proof {
                crate::bits::lemma_nonzero_lowest(pin_out.0);
                let i = vstd::std_specs::bits::u64_trailing_zeros(pin_out.0) as int;
                assert(pin_out.has(i));
            }
            return false;
        }
        let chk_out = self.checkers_bitboard.and(theirs.complement());
        if chk_out.0 != 0 {
            proof {
                crate::bits::lemma_nonzero_lowest(chk_out.0);
                let i = vstd::std_specs::bits::u64_trailing_zeros(chk_out.0) as int;
                assert(chk_out.has(i));
            }
            return false;
        }
        // At most sixteen pieces each.
        if crate::bits::popcount(self.white.0) > 16 {
            return false;
        }
        if crate::bits::popcount(self.black.0) > 16 {
            return false;
        }
        // Castling rights match the pieces on their home squares.
        let wk = self.kings.and(self.white);
        let bk = self.kings.and(self.black);
        let wr = self.rooks.and(self.white);
        let br = self.rooks.and(self.black);
        if self.castle_rights.white_kingside && !(wk.has_square(4) && wr.has_square(7)) {
            return false;
        }
        if self.castle_rights.white_queenside && !(wk.has_square(4) && wr.has_square(0)) {
            return false;
        }
        if self.castle_rights.black_kingside && !(bk.has_square(60) && br.has_square(63)) {
            return false;
        }
        if self.castle_rights.black_queenside && !(bk.has_square(60) && br.has_square(56)) {
            return false;
        }
        // No pawns on the back ranks.
        let back = BitBoard(0xff00_0000_0000_00ffu64);
        proof {
            assert(forall|i: u64|
                i < 64 ==> (#[trigger] has_bit(0xff00_0000_0000_00ffu64, i) == (i / 8 == 0 || i
                    / 8 == 7))) by (bit_vector);
        }
        let pawns_back = self.pawns.and(back);
        if pawns_back.0 != 0 {
            proof {
                crate::bits::lemma_nonzero_lowest(pawns_back.0);
                let i = vstd::std_specs::bits::u64_trailing_zeros(pawns_back.0) as int;
                assert(pawns_back.has(i));
                assert(has_bit(0xff00_0000_0000_00ffu64, i as u64) == (i / 8 == 0 || i / 8
                    == 7));
            }
            return false;
        }
        // A recorded en-passant square carries its pawns with it.
        match self.en_passant {
            None => {},
            Some(s) => {
                let e = s.to_index();
                let want_rank: usize = if matches!(self.side_to_move, Color::White) {
                    5
                } else {
                    2
                };
                if e / 8 != want_rank {
                    return false;
                }
                let behind: usize = if matches!(self.side_to_move, Color::White) {
                    e - 8
                } else {
                    e + 8
                };
                if !self.pawns.and(theirs).has_square(behind) {
                    return false;
                }
                if self.combined_bitboard.has_square(e) {
                    return false;
                }
                let own_pawns = self.pawns.and(mine);
                let left_ok = e % 8 > 0 && own_pawns.has_square(behind - 1);
                let right_ok = e % 8 < 7 && own_pawns.has_square(behind + 1);
                if !(left_ok || right_ok) {
                    proof {
                        if exists|u: int|
                            on_board(u) && rk(u) == rk(behind as int) && absi(
                                fl(u) - fl(e as int),
                            ) == 1 && #[trigger] has_bit(
                                self.pawns.0 & self.mine(),
                                u as u64,
                            ) {
                            let u = choose|u: int|
                                on_board(u) && rk(u) == rk(behind as int) && absi(
                                    fl(u) - fl(e as int),
                                ) == 1 && #[trigger] has_bit(
                                    self.pawns.0 & self.mine(),
                                    u as u64,
                                );
                            assert(u == 8 * rk(u) + fl(u));
                            assert(u == behind - 1 || u == behind + 1);
                            assert(own_pawns.has(u));
                        }
                        assert(!self.ep_ok());
                    }
                    return false;
                }
                proof {
                    if left_ok {
                        assert(has_bit(self.pawns.0 & self.mine(), (behind - 1) as u64));
                    } else {
                        assert(has_bit(self.pawns.0 & self.mine(), (behind + 1) as u64));
                    }
                }
            },
        }
        proof {
            assert forall|i: u64|
                i < 64 implies !(#[trigger] has_bit(self.white.0, i) && has_bit(
                self.black.0,
                i,
            )) by {
                assert(has_bit(self.white.0 & self.black.0, i) == has_bit(0u64, i));
            }
            assert forall|i: u64|
                i < 64 implies (#[trigger] has_bit(self.occ(), i) == (has_bit(self.white.0, i)
                || has_bit(self.black.0, i))) by {
                assert(has_bit(self.white.0 | self.black.0, i) == (has_bit(self.white.0, i)
                    || has_bit(self.black.0, i)));
            }
            assert forall|i: u64|
                i < 64 implies (#[trigger] has_bit(self.occ(), i) == (has_bit(self.pawns.0, i)
                || has_bit(self.knights.0, i) || has_bit(self.bishops.0, i) || has_bit(
                self.rooks.0,
                i,
            ) || has_bit(self.queens.0, i) || has_bit(self.kings.0, i))) by {
                assert(has_bit(union.0, i) == (has_bit(self.pawns.0, i) || has_bit(
                    self.knights.0,
                    i,
                ) || has_bit(self.bishops.0, i) || has_bit(self.rooks.0, i) || has_bit(
                    self.queens.0,
                    i,
                ) || has_bit(self.kings.0, i)));
            }
            assert forall|i: u64|
                i < 64 && #[trigger] has_bit(self.pinned_bitboard.0, i) implies has_bit(
                self.mine(),
                i,
            ) by {
                assert(has_bit(self.pinned_bitboard.0 & !mine.0, i) == has_bit(0u64, i));
            }
            assert forall|i: u64|
                i < 64 && #[trigger] has_bit(self.checkers_bitboard.0, i) implies has_bit(
                self.theirs(),
                i,
            ) by {
                assert(has_bit(self.checkers_bitboard.0 & !theirs.0, i) == has_bit(0u64, i));
            }
            assert forall|i: u64|
                i < 64 && #[trigger] has_bit(self.pawns.0, i) implies 0 < rk(i as int) < 7 by {
                assert(has_bit(self.pawns.0 & 0xff00_0000_0000_00ffu64, i) == has_bit(0u64, i));
                assert(has_bit(0xff00_0000_0000_00ffu64, i) == (i / 8 == 0 || i / 8 == 7));
            }
        }
        true
    }

    /// A slider of the color opposing `c` stands on `a` with square
    /// `k` on its ray.
    pub open spec fn aims_at(self, c: int, a: int, k: int) -> bool {
        has_bit(self.color_bits(1 - c), a as u64) && ((bishop_ray_cond(k, a) && has_bit(
            self.bishops.0 | self.queens.0,
            a as u64,
        )) || (rook_ray_cond(k, a) && has_bit(self.rooks.0 | self.queens.0, a as u64)))
    }

    /// A slider opposing color `c` on `a` checks square `k`: aimed at
    /// it with nothing in between.
    pub open spec fn slider_checks(self, c: int, a: int, k: int) -> bool {
        self.aims_at(c, a, k) && forall|w: int|
            #[trigger] between_cond(a, k, w) ==> !has_bit(self.occ(), w as u64)
    }

    /// A slider opposing color `c` on `a` pins the piece on `u`
    /// against square `k`: aimed at `k` with `u` the only occupied
    /// square in between.
    pub open spec fn pins_through(self, c: int, a: int, k: int, u: int) -> bool {
        &&& self.aims_at(c, a, k)
        &&& between_cond(a, k, u)
        &&& has_bit(self.occ(), u as u64)
        &&& forall|w: int|
            #[trigger] between_cond(a, k, w) && has_bit(self.occ(), w as u64) ==> w == u
    }

    /// Scans the sliders opposing `defender` that are aimed at the
    /// defender's king: returns the ones giving check over an empty
    /// line, and the squares of lone blockers shielding the king.
    #[verifier::rlimit(100)]
    fn scan_king_threats(&self, tables: &Tables, defender: Color) -> (r: (BitBoard, BitBoard))
        requires
            tables.geom_wf(),
            pop64(self.kings.0 & self.color_bits(defender.idx())) == 1,
        ensures
            forall|i: int|
                0 <= i < 64 ==> #[trigger] has_bit(r.0.0, i as u64) == self.slider_checks(
                    defender.idx(),
                    i,
                    self.king_sq(defender.idx()),
                ),
            forall|u: int|
                0 <= u < 64 ==> #[trigger] has_bit(r.1.0, u as u64) == exists|a: int|
                    0 <= a < 64 && #[trigger] self.pins_through(
                        defender.idx(),
                        a,
                        self.king_sq(defender.idx()),
                        u,
                    ),
    {
        let king_square = self.get_king_square(defender);
        let ghost ks = king_square.idx();
        let ghost c = defender.idx();
        let attackers_color = self.get_color_bitboard(defender.flip());
        proof {
            assert(attackers_color.0 == self.color_bits(1 - c));
        }
        let pinners = attackers_color.and(
            (tables.get_bishop_rays(king_square).and(self.bishops.or(self.queens))).or(
                tables.get_rook_rays(king_square).and(self.rooks.or(self.queens)),
            ),
        );
        proof {
            assert forall|a: int| #[trigger] pinners.has(a) == (on_board(a) && self.aims_at(
                c,
                a,
                ks,
            )) by {}
        }
        let pinner_squares = pinners.get_squares();
        proof {
            crate::bits::lemma_pop_le_64(pinners.0);
        }
        let mut k: usize = 0;
        let mut checkers = BitBoard(0);
        let mut pinned = BitBoard(0);
        while k < pinner_squares.len()
            invariant
                k <= pinner_squares@.len(),
                tables.geom_wf(),
                0 <= ks < 64,
                ks == king_square.idx(),
                c == defender.idx(),
                forall|a: int| #[trigger] pinners.has(a) == (on_board(a) && self.aims_at(
                    c,
                    a,
                    ks,
                )),
                forall|k1: int|
                    0 <= k1 < pinner_squares@.len() ==> pinners.has(
                        (#[trigger] pinner_squares@[k1]).idx(),
                    ),
                forall|a: int|
                    #[trigger] pinners.has(a) ==> exists|k1: int|
                        0 <= k1 < pinner_squares@.len() && pinner_squares@[k1].idx() == a,
                forall|i: int|
                    0 <= i < 64 && #[trigger] has_bit(checkers.0, i as u64)
                        ==> self.slider_checks(c, i, ks),
                forall|k1: int|
                    0 <= k1 < k ==> (self.slider_checks(
                        c,
                        (#[trigger] pinner_squares@[k1]).idx(),
                        ks,
                    ) ==> has_bit(checkers.0, pinner_squares@[k1].idx() as u64)),
                forall|u: int|
                    0 <= u < 64 && #[trigger] has_bit(pinned.0, u as u64) ==> exists|a: int|
                        0 <= a < 64 && #[trigger] self.pins_through(c, a, ks, u),
                forall|k1: int, u: int|
                    0 <= k1 < k && 0 <= u < 64 && #[trigger] self.pins_through(
                        c,
                        pinner_squares@[k1].idx(),
                        ks,
                        u,
                    ) ==> has_bit(pinned.0, u as u64),
            decreases pinner_squares@.len() - k,
        {
            let sq = pinner_squares[k];
            let ghost a = sq.idx();
            proof {
                assert(pinners.has(a));
            }
            let between = tables.get_between(sq, king_square).and(self.combined_bitboard);
            if between.is_empty() {
                proof {
                    assert forall|w: int| #[trigger] between_cond(a, ks, w) implies !has_bit(
                        self.occ(),
                        w as u64,
                    ) by {
                        crate::geometry::lemma_between_on_board(a, ks, w);
                        assert(between.has(w) == has_bit(0u64, w as u64));
                    }
                    assert(self.slider_checks(c, a, ks));
                    assert forall|u: int|
                        0 <= u < 64 implies !self.pins_through(c, a, ks, u) by {
                        if self.pins_through(c, a, ks, u) {
                            assert(!has_bit(self.occ(), u as u64));
                        }
                    }
                }
                checkers = checkers.or(BitBoard::from_square(sq));
            } else {
                proof {
                    crate::bits::lemma_nonzero_lowest(between.0);
                    let w0 = vstd::std_specs::bits::u64_trailing_zeros(between.0) as int;
                    assert(between.has(w0));
                    assert(!self.slider_checks(c, a, ks)) by {
                        assert(between_cond(a, ks, w0) && has_bit(self.occ(), w0 as u64));
                    }
                }
                if crate::bits::popcount(between.0) == 1 {
                    let ghost u0 = vstd::std_specs::bits::u64_trailing_zeros(between.0) as int;
                    proof {
                        crate::bits::lemma_pop_one(between.0);
                        let tz = vstd::std_specs::bits::u64_trailing_zeros(between.0) as u64;
                        assert forall|j: int| #[trigger] between.has(j) implies j == u0 by {
                            assert(has_bit(1u64 << tz, j as u64));
                        }
                        assert(self.pins_through(c, a, ks, u0)) by {
                            assert(between.has(u0));
                            assert forall|w: int|
                                #[trigger] between_cond(a, ks, w) && has_bit(
                                    self.occ(),
                                    w as u64,
                                ) implies w == u0 by {
                                crate::geometry::lemma_between_on_board(a, ks, w);
                                assert(between.has(w));
                            }
                        }
                        assert forall|u: int|
                            0 <= u < 64 && self.pins_through(c, a, ks, u) implies u == u0 by {
                            assert(between_cond(a, ks, u) && has_bit(self.occ(), u as u64));
                            assert(between.has(u));
                        }
                    }
                    pinned = pinned.or(between);
                } else {
                    proof {
                        // At least two blockers: no single pin through `a`.
                        let w0 = vstd::std_specs::bits::u64_trailing_zeros(between.0) as u64;
                        crate::bits::lemma_pop_flip(between.0, w0);
                        let rest = between.0 ^ (1u64 << w0);
                        crate::bits::lemma_pop_zero(rest);
                        crate::bits::lemma_nonzero_lowest(rest);
                        let w1 = vstd::std_specs::bits::u64_trailing_zeros(rest) as int;
                        assert(has_bit(between.0, w1 as u64) && w1 != w0 as int) by {
                            assert(has_bit(rest, w1 as u64));
                        }
                        assert(between.has(w1) && between.has(w0 as int));
                        assert forall|u: int|
                            0 <= u < 64 implies !self.pins_through(c, a, ks, u) by {
                            if self.pins_through(c, a, ks, u) {
                                assert(between_cond(a, ks, w0 as int) && has_bit(
                                    self.occ(),
                                    w0,
                                ));
                                assert(between_cond(a, ks, w1) && has_bit(
                                    self.occ(),
                                    w1 as u64,
                                ));
                            }
                        }
                    }
                }
            }
            k = k + 1;
        }
        proof {
            assert forall|i: int|
                0 <= i < 64 implies #[trigger] has_bit(checkers.0, i as u64)
                == self.slider_checks(c, i, ks) by {
                if self.slider_checks(c, i, ks) {
                    assert(pinners.has(i));
                    let k1 = choose|k1: int|
                        0 <= k1 < pinner_squares@.len() && pinner_squares@[k1].idx() == i;
                    assert(self.slider_checks(c, pinner_squares@[k1].idx(), ks));
                }
            }
            assert forall|u: int|
                0 <= u < 64 implies #[trigger] has_bit(pinned.0, u as u64) == exists|a: int|
                0 <= a < 64 && #[trigger] self.pins_through(c, a, ks, u) by {
                if exists|a: int| 0 <= a < 64 && #[trigger] self.pins_through(c, a, ks, u) {
                    let a = choose|a: int|
                        0 <= a < 64 && #[trigger] self.pins_through(c, a, ks, u);
                    assert(pinners.has(a));
                    let k1 = choose|k1: int|
                        0 <= k1 < pinner_squares@.len() && pinner_squares@[k1].idx() == a;
                    assert(self.pins_through(c, pinner_squares@[k1].idx(), ks, u));
                }
            }
        }
        (checkers, pinned)
    }

    /// Recomputes the pinned and checkers masks for the side to move:
    /// the checkers mask holds exactly the enemy sliders checking the
    /// own king plus the enemy knights and pawns attacking it; the
    /// pinned mask exactly the own pieces standing alone between the
    /// king and an enemy slider.
    #[verifier::rlimit(100)]
    fn update_attacked_bitboards(&mut self, tables: &Tables)
        requires
            tables.geom_wf(),
            pop64(old(self).kings.0 & old(self).color_bits(old(self).side_to_move.idx())) == 1,
        ensures
            *final(self) == (Board {
                pinned_bitboard: final(self).pinned_bitboard,
                checkers_bitboard: final(self).checkers_bitboard,
                ..*old(self)
            }),
            forall|k: int|
                0 <= k < 64 && #[trigger] has_bit(old(self).kings.0 & old(self).mine(), k as u64)
                    ==> (forall|i: int|
                    0 <= i < 64 ==> (#[trigger] has_bit(
                        final(self).checkers_bitboard.0,
                        i as u64,
                    ) == (old(self).slider_checks(old(self).side_to_move.idx(), i, k) || (
                    has_bit(
                        old(self).knights.0 & old(self).theirs(),
                        i as u64,
                    ) && knight_cond(i, k)) || (has_bit(
                        old(self).pawns.0 & old(self).theirs(),
                        i as u64,
                    ) && crate::geometry::pawn_attack_cond(
                        old(self).side_to_move is Black,
                        i,
                        k,
                    ))))),
            forall|k: int|
                0 <= k < 64 && #[trigger] has_bit(old(self).kings.0 & old(self).mine(), k as u64)
                    ==> (forall|u: int|
                    0 <= u < 64 ==> (#[trigger] has_bit(
                        final(self).pinned_bitboard.0,
                        u as u64,
                    ) == (has_bit(old(self).mine(), u as u64) && exists|a: int|
                        0 <= a < 64 && #[trigger] old(self).pins_through(
                            old(self).side_to_move.idx(),
                            a,
                            k,
                            u,
                        )))),
            forall|i: u64|
                i < 64 && #[trigger] has_bit(final(self).pinned_bitboard.0, i) ==> has_bit(
                    final(self).mine(),
                    i,
                ),
            forall|i: u64|
                i < 64 && #[trigger] has_bit(final(self).checkers_bitboard.0, i) ==> has_bit(
                    final(self).theirs(),
                    i,
                ),
    {
        let ghost b0 = *old(self);
        self.pinned_bitboard = BitBoard(0);
        self.checkers_bitboard = BitBoard(0);
        let king_square = self.get_king_square(self.side_to_move);
        let ghost ks = king_square.idx();
        let mine = self.get_color_bitboard(self.side_to_move);
        let theirs = self.get_color_bitboard(self.side_to_move.flip());
        proof {
            assert(self.occ() == b0.occ() && self.mine() == b0.mine()
                && self.theirs() == b0.theirs());
            assert(mine.0 == b0.mine() && theirs.0 == b0.theirs());
            assert(has_bit(b0.kings.0 & b0.mine(), ks as u64));
            crate::bits::lemma_pop_one(b0.kings.0 & b0.mine());
            let tz = vstd::std_specs::bits::u64_trailing_zeros(
                b0.kings.0 & b0.mine(),
            ) as u64;
            assert forall|k: int|
                0 <= k < 64 && #[trigger] has_bit(b0.kings.0 & b0.mine(), k as u64)
                implies k == ks by {
                assert(has_bit(1u64 << tz, k as u64) && has_bit(1u64 << tz, ks as u64));
            }
        }
        let pinners = theirs.and(
            (tables.get_bishop_rays(king_square).and(self.bishops.or(self.queens))).or(
                tables.get_rook_rays(king_square).and(self.rooks.or(self.queens)),
            ),
        );
        proof {
            assert forall|a: int| #[trigger] pinners.has(a) == (on_board(a) && b0.aims_at(b0.side_to_move.idx(), 
                a,
                ks,
            )) by {}
        }
        let pinner_squares = pinners.get_squares();
        proof {
            crate::bits::lemma_pop_le_64(pinners.0);
        }
        let mut k: usize = 0;
        let mut checkers = BitBoard(0);
        let mut pinned = BitBoard(0);
        while k < pinner_squares.len()
            invariant
                k <= pinner_squares@.len(),
                tables.geom_wf(),
                0 <= ks < 64,
                ks == king_square.idx(),
                self.combined_bitboard == b0.combined_bitboard,
                forall|a: int| #[trigger] pinners.has(a) == (on_board(a) && b0.aims_at(b0.side_to_move.idx(), a, ks)),
                forall|k1: int|
                    0 <= k1 < pinner_squares@.len() ==> pinners.has(
                        (#[trigger] pinner_squares@[k1]).idx(),
                    ),
                forall|a: int|
                    #[trigger] pinners.has(a) ==> exists|k1: int|
                        0 <= k1 < pinner_squares@.len() && pinner_squares@[k1].idx() == a,
                forall|i: int|
                    0 <= i < 64 && #[trigger] has_bit(checkers.0, i as u64)
                        ==> b0.slider_checks(b0.side_to_move.idx(), i, ks),
                forall|k1: int|
                    0 <= k1 < k ==> (b0.slider_checks(b0.side_to_move.idx(), 
                        (#[trigger] pinner_squares@[k1]).idx(),
                        ks,
                    ) ==> has_bit(checkers.0, pinner_squares@[k1].idx() as u64)),
                forall|u: int|
                    0 <= u < 64 && #[trigger] has_bit(pinned.0, u as u64) ==> exists|a: int|
                        0 <= a < 64 && #[trigger] b0.pins_through(b0.side_to_move.idx(), a, ks, u),
                forall|k1: int, u: int|
                    0 <= k1 < k && 0 <= u < 64 && #[trigger] b0.pins_through(b0.side_to_move.idx(), 
                        pinner_squares@[k1].idx(),
                        ks,
                        u,
                    ) ==> has_bit(pinned.0, u as u64),
            decreases pinner_squares@.len() - k,
        {
            let sq = pinner_squares[k];
            let ghost a = sq.idx();
            proof {
                assert(pinners.has(a));
            }
            let between = tables.get_between(sq, king_square).and(self.combined_bitboard);
            if between.is_empty() {
                proof {
                    assert forall|w: int| #[trigger] between_cond(a, ks, w) implies !has_bit(
                        b0.occ(),
                        w as u64,
                    ) by {
                        crate::geometry::lemma_between_on_board(a, ks, w);
                        assert(between.has(w) == has_bit(0u64, w as u64));
                        assert(b0.occ() == self.combined_bitboard.0);
                    }
                    assert(b0.slider_checks(b0.side_to_move.idx(), a, ks));
                    assert forall|u: int| 0 <= u < 64 implies !b0.pins_through(b0.side_to_move.idx(), a, ks, u) by {
                        if b0.pins_through(b0.side_to_move.idx(), a, ks, u) {
                            assert(!has_bit(b0.occ(), u as u64));
                        }
                    }
                }
                checkers = checkers.or(BitBoard::from_square(sq));
            } else {
                proof {
                    crate::bits::lemma_nonzero_lowest(between.0);
                    let w0 = vstd::std_specs::bits::u64_trailing_zeros(between.0) as int;
                    assert(between.has(w0));
                    assert(!b0.slider_checks(b0.side_to_move.idx(), a, ks)) by {
                        assert(b0.occ() == self.combined_bitboard.0);
                        assert(between_cond(a, ks, w0) && has_bit(b0.occ(), w0 as u64));
                    }
                }
                if crate::bits::popcount(between.0) == 1 {
                    let ghost u0 = vstd::std_specs::bits::u64_trailing_zeros(between.0) as int;
                    proof {
                        crate::bits::lemma_pop_one(between.0);
                        let tz = vstd::std_specs::bits::u64_trailing_zeros(between.0) as u64;
                        assert forall|j: int| #[trigger] between.has(j) implies j == u0 by {
                            assert(has_bit(1u64 << tz, j as u64));
                        }
                        assert(b0.pins_through(b0.side_to_move.idx(), a, ks, u0)) by {
                            assert(between.has(u0));
                            assert(b0.occ() == self.combined_bitboard.0);
                            assert forall|w: int|
                                #[trigger] between_cond(a, ks, w) && has_bit(
                                    b0.occ(),
                                    w as u64,
                                ) implies w == u0 by {
                                crate::geometry::lemma_between_on_board(a, ks, w);
                                assert(between.has(w));
                            }
                        }
                        assert forall|u: int|
                            0 <= u < 64 && b0.pins_through(b0.side_to_move.idx(), a, ks, u) implies u == u0 by {
                            assert(b0.occ() == self.combined_bitboard.0);
                            assert(between_cond(a, ks, u) && has_bit(
                                b0.occ(),
                                u as u64,
                            ));
                            assert(between.has(u));
                        }
                    }
                    pinned = pinned.or(between);
                } else {
                    proof {
                        // At least two blockers: no single pin through `a`.
                        let w0 = vstd::std_specs::bits::u64_trailing_zeros(between.0) as u64;
                        crate::bits::lemma_pop_flip(between.0, w0);
                        let rest = between.0 ^ (1u64 << w0);
                        crate::bits::lemma_pop_zero(rest);
                        crate::bits::lemma_nonzero_lowest(rest);
                        let w1 = vstd::std_specs::bits::u64_trailing_zeros(rest) as int;
                        assert(has_bit(between.0, w1 as u64) && w1 != w0 as int) by {
                            assert(has_bit(rest, w1 as u64));
                        }
                        assert(between.has(w1) && between.has(w0 as int));
                        assert(b0.occ() == self.combined_bitboard.0);
                        assert forall|u: int|
                            0 <= u < 64 implies !b0.pins_through(b0.side_to_move.idx(), a, ks, u) by {
                            if b0.pins_through(b0.side_to_move.idx(), a, ks, u) {
                                assert(between_cond(a, ks, w0 as int) && has_bit(
                                    b0.occ(),
                                    w0,
                                ));
                                assert(between_cond(a, ks, w1) && has_bit(
                                    b0.occ(),
                                    w1 as u64,
                                ));
                            }
                        }
                    }
                }
            }
            k = k + 1;
        }
        let knight_hits = tables.get_knight_moves(king_square).and(theirs).and(self.knights);
        let enemy_pawns = theirs.and(self.pawns);
        let pawn_hits = tables.get_pawn_attacks(king_square, self.side_to_move, enemy_pawns);
        let with_knights = checkers.or(knight_hits);
        let with_pawns = with_knights.or(pawn_hits);
        // The masks cut the raw accumulations to the sides the fields
        // mean: a lone blocker of the enemy side is no pin of ours.
        self.pinned_bitboard = pinned.and(mine);
        self.checkers_bitboard = with_pawns.and(theirs);
        proof {
            assert(b0.theirs() == self.theirs() && b0.mine() == self.mine() && b0.occ()
                == self.occ() && b0.knights == self.knights && b0.pawns == self.pawns);
            assert forall|i: int|
                0 <= i < 64 implies (#[trigger] has_bit(final(self).checkers_bitboard.0, i as u64)
                == (b0.slider_checks(b0.side_to_move.idx(), i, ks) || (has_bit(b0.knights.0 & b0.theirs(), i as u64)
                && knight_cond(i, ks)) || (has_bit(b0.pawns.0 & b0.theirs(), i as u64)
                && crate::geometry::pawn_attack_cond(b0.side_to_move is Black, i, ks)))) by {
                assert(final(self).checkers_bitboard.has(i) == (with_pawns.has(i) && theirs.has(
                    i,
                )));
                assert(with_pawns.has(i) == (checkers.has(i) || knight_hits.has(i)
                    || pawn_hits.has(i)));
                assert(knight_hits.has(i) == (on_board(i) && knight_cond(ks, i) && has_bit(
                    b0.theirs(),
                    i as u64,
                ) && has_bit(b0.knights.0, i as u64)));
                assert(enemy_pawns.has(i) == has_bit(b0.pawns.0 & b0.theirs(), i as u64));
                assert(pawn_hits.has(i) == (crate::geometry::pawn_attack_cond(
                    b0.side_to_move is White,
                    ks,
                    i,
                ) && enemy_pawns.has(i)));
                assert(knight_cond(ks, i) == knight_cond(i, ks));
                crate::geometry::lemma_pawn_attack_sym(b0.side_to_move is White, ks, i);
                assert((b0.side_to_move is Black) == !(b0.side_to_move is White));
                if b0.slider_checks(b0.side_to_move.idx(), i, ks) {
                    assert(pinners.has(i));
                    let k1 = choose|k1: int|
                        0 <= k1 < pinner_squares@.len() && pinner_squares@[k1].idx() == i;
                    assert(b0.slider_checks(b0.side_to_move.idx(), pinner_squares@[k1].idx(), ks));
                    assert(has_bit(checkers.0, i as u64));
                    assert(has_bit(b0.theirs(), i as u64));
                }
                if has_bit(checkers.0, i as u64) {
                    assert(b0.slider_checks(b0.side_to_move.idx(), i, ks));
                    assert(has_bit(b0.theirs(), i as u64));
                }
            }
            assert forall|u: int|
                0 <= u < 64 implies (#[trigger] has_bit(final(self).pinned_bitboard.0, u as u64)
                == (has_bit(self.mine(), u as u64) && exists|a: int|
                    0 <= a < 64 && #[trigger] b0.pins_through(b0.side_to_move.idx(), a, ks, u))) by {
                if has_bit(self.mine(), u as u64) && exists|a: int|
                    0 <= a < 64 && #[trigger] b0.pins_through(b0.side_to_move.idx(), a, ks, u) {
                    let a = choose|a: int| 0 <= a < 64 && #[trigger] b0.pins_through(b0.side_to_move.idx(), a, ks, u);
                    assert(pinners.has(a));
                    let k1 = choose|k1: int|
                        0 <= k1 < pinner_squares@.len() && pinner_squares@[k1].idx() == a;
                    assert(b0.pins_through(b0.side_to_move.idx(), pinner_squares@[k1].idx(), ks, u));
                    assert(has_bit(pinned.0, u as u64));
                }
            }
            assert forall|i: u64|
                i < 64 && #[trigger] has_bit(final(self).pinned_bitboard.0, i) implies has_bit(
                final(self).mine(),
                i,
            ) by {
                assert(final(self).pinned_bitboard.has(i as int));
            }
            assert forall|i: u64|
                i < 64 && #[trigger] has_bit(final(self).checkers_bitboard.0, i) implies has_bit(
                final(self).theirs(),
                i,
            ) by {
                assert(final(self).checkers_bitboard.has(i as int));
            }
        }
    }

    /// Whether a passed square may be recorded: the mover's pawn stands
    /// behind it, the square is empty, and an enemy pawn can capture.
    pub open spec fn ep_settable(self, e: int) -> bool {
        let fwd = e + (if self.side_to_move is White {
            8int
        } else {
            -8int
        });
        &&& rk(e) == (if self.side_to_move is White {
            2int
        } else {
            5int
        })
        &&& on_board(fwd)
        &&& has_bit(self.pawns.0 & self.mine(), fwd as u64)
        &&& !has_bit(self.occ(), e as u64)
        &&& exists|u: int|
            on_board(u) && rk(u) == rk(fwd) && absi(fl(u) - fl(e)) == 1 && #[trigger] has_bit(
                self.pawns.0 & self.theirs(),
                u as u64,
            )
    }

    /// Records the passed square of a double pawn push, but only when
    /// an enemy pawn really can capture onto it next move.
    #[verifier::rlimit(100)]
    #[verifier::spinoff_prover]
    fn set_en_passant(&mut self, square: Square)
        ensures
            *final(self) == (Board { en_passant: final(self).en_passant, ..*old(self) }),
            old(self).ep_settable(square.idx()) ==> final(self).en_passant == Some(square),
            !old(self).ep_settable(square.idx()) ==> final(self).en_passant == (old(
                self,
            ).en_passant),
    {
        let e = square.to_index();
        let want_rank: usize = if matches!(self.side_to_move, Color::White) {
            2
        } else {
            5
        };
        if e / 8 != want_rank {
            return ;
        }
        let fwd: usize = if matches!(self.side_to_move, Color::White) {
            e + 8
        } else {
            e - 8
        };
        let mine = self.get_color_bitboard(self.side_to_move);
        let theirs = self.get_color_bitboard(self.side_to_move.flip());
        if !self.pawns.and(mine).has_square(fwd) {
            return ;
        }
        if self.combined_bitboard.has_square(e) {
            return ;
        }
        let enemy_pawns = self.pawns.and(theirs);
        let left_ok = e % 8 > 0 && enemy_pawns.has_square(fwd - 1);
        let right_ok = e % 8 < 7 && enemy_pawns.has_square(fwd + 1);
        if left_ok || right_ok {
            proof {
                if left_ok {
                    assert(has_bit(self.pawns.0 & self.theirs(), (fwd - 1) as u64));
                } else {
                    assert(has_bit(self.pawns.0 & self.theirs(), (fwd + 1) as u64));
                }
            }
            self.en_passant = Some(square);
        } else {
            proof {
                if old(self).ep_settable(square.idx()) {
                    let u = choose|u: int|
                        on_board(u) && rk(u) == rk(fwd as int) && absi(fl(u) - fl(e as int)) == 1
                            && has_bit(self.pawns.0 & self.theirs(), u as u64);
                    assert(u == fwd - 1 || u == fwd + 1);
                    assert(false);
                }
            }
        }
    }
}


impl Board {
    /// Reads a position record: placement, side to move, castling
    /// rights and en-passant square; the move counters are accepted and
    /// ignored. A record that reads but breaks a board invariant is
    /// rejected as an illegal position.
    pub fn from_fen(fen: &str, tables: &Tables) -> (r: Result<Board, FenError>)
        requires
            tables.geom_wf(),
        ensures
            r matches Ok(b) ==> b.wf() && pop64(b.checkers_bitboard.0) <= 2,
    {
        let bytes = fen.as_bytes();
        let n = bytes.len();
        // Field boundaries: runs of non-space bytes.
        let mut fields: Vec<(usize, usize)> = Vec::new();
        let mut i: usize = 0;
        while i < n
            invariant
                i <= n,
                n == bytes@.len(),
                forall|k: int|
                    0 <= k < fields@.len() ==> ((#[trigger] fields@[k]).0 <= fields@[k].1
                        <= n),
            decreases n - i,
        {
            if bytes[i] == 32 {
                i = i + 1;
            } else {
                let start = i;
                while i < n && bytes[i] != 32
                    invariant
                        start <= i <= n,
                        n == bytes@.len(),
                    decreases n - i,
                {
                    i = i + 1;
                }
                fields.push((start, i));
            }
        }
        if fields.len() < 4 {
            return Err(FenError::WrongFieldCount);
        }
        // Field one: the placement, eight ranks of width eight, top
        // rank first.
        let (p_start, p_end) = fields[0];
        let mut board = Board::new();
        let mut rank: usize = 7;
        let mut file: usize = 0;
        let mut j: usize = p_start;
        while j < p_end
            invariant
                p_end <= n,
                n == bytes@.len(),
                j <= p_end,
                rank <= 7,
                file <= 8,
            decreases p_end - j,
        {
            let c = bytes[j];
            if c == 47 {  // '/'
                if file != 8 || rank == 0 {
                    return Err(FenError::BadPlacement);
                }
                rank = rank - 1;
                file = 0;
            } else if 49 <= c && c <= 56 {  // '1'..'8'
                let skip = (c - 48) as usize;
                if file + skip > 8 {
                    return Err(FenError::BadPlacement);
                }
                file = file + skip;
            } else {
                if file >= 8 {
                    return Err(FenError::BadPlacement);
                }
                let color = if 65 <= c && c <= 90 {  // upper case
                    Color::White
                } else {
                    Color::Black
                };
                let piece = match c {
                    75 | 107 => Piece::King,  // K k
                    81 | 113 => Piece::Queen,  // Q q
                    82 | 114 => Piece::Rook,  // R r
                    66 | 98 => Piece::Bishop,  // B b
                    78 | 110 => Piece::Knight,  // N n
                    80 | 112 => Piece::Pawn,  // P p
                    _ => {
                        return Err(FenError::BadPlacement);
                    },
                };
                let square = Square::from_index((rank * 8 + file) as u8);
                board.xor(piece, BitBoard::from_square(square), color);
                file = file + 1;
            }
            j = j + 1;
        }
        if rank != 0 || file != 8 {
            return Err(FenError::BadPlacement);
        }
        // Field two: the side to move.
        let (s_start, s_end) = fields[1];
        if s_end - s_start != 1 {
            return Err(FenError::BadSide);
        }
        board.side_to_move = match bytes[s_start] {
            119 => Color::White,  // 'w'
            98 => Color::Black,  // 'b'
            _ => {
                return Err(FenError::BadSide);
            },
        };
        // Field three: the castling rights.
        let (c_start, c_end) = fields[2];
        board.castle_rights = match CastleRights::parse_bytes(bytes, c_start, c_end) {
            Ok(rights) => rights,
            Err(e) => {
                return Err(e);
            },
        };
        // Field four: the en-passant square. A square no pawn can
        // actually capture onto is dropped, as after a quiet move.
        let (e_start, e_end) = fields[3];
        if e_end - e_start == 1 && bytes[e_start] == 45 {  // '-'
        } else if e_end - e_start == 2 {
            let fb = bytes[e_start];
            let rb = bytes[e_start + 1];
            if !(97 <= fb && fb <= 104 && 49 <= rb && rb <= 56) {
                return Err(FenError::BadEnPassant);
            }
            let sq = Square::from_index(((rb - 49) as usize * 8 + (fb - 97) as usize) as u8);
            // The field is written from the capturer's point of view;
            // the setter reasons from the mover's.
            board.side_to_move = board.side_to_move.flip();
            board.set_en_passant(sq);
            board.side_to_move = board.side_to_move.flip();
        } else {
            return Err(FenError::BadEnPassant);
        }
        // The derived masks need a king of the side to move.
        if crate::bits::popcount(board.kings.and(board.white).0) != 1 {
            return Err(FenError::IllegalPosition);
        }
        if crate::bits::popcount(board.kings.and(board.black).0) != 1 {
            return Err(FenError::IllegalPosition);
        }
        board.update_attacked_bitboards(tables);
        // A position at rest never has more than two checkers.
        if crate::bits::popcount(board.checkers_bitboard.0) > 2 {
            return Err(FenError::IllegalPosition);
        }
        if board.validate_position() {
            Ok(board)
        } else {
            Err(FenError::IllegalPosition)
        }
    }

    /// Writes the position record of this board, with the two unused
    /// counters as a fixed tail.
    pub fn to_fen(&self) -> (r: String) {
        let mut out: Vec<u8> = Vec::new();
        let mut rr: usize = 8;
        while rr > 0
            invariant
                rr <= 8,
                forall|x: int| 0 <= x < out@.len() ==> #[trigger] out@[x] < 128,
            decreases rr,
        {
            let rank = rr - 1;
            let mut empty: u8 = 0;
            let mut f: usize = 0;
            while f < 8
                invariant
                    rank <= 7,
                    f <= 8,
                    empty <= f,
                    forall|x: int| 0 <= x < out@.len() ==> #[trigger] out@[x] < 128,
                decreases 8 - f,
            {
                let square = Square::from_index((rank * 8 + f) as u8);
                match self.get_piece(square) {
                    Some(piece) => {
                        if empty != 0 {
                            out.push(48 + empty);
                            empty = 0;
                        }
                        let white = self.white.has_square(square.to_index());
                        out.push(
                            match (piece, white) {
                                (Piece::Pawn, true) => 80,  // P
                                (Piece::Knight, true) => 78,  // N
                                (Piece::Bishop, true) => 66,  // B
                                (Piece::Rook, true) => 82,  // R
                                (Piece::Queen, true) => 81,  // Q
                                (Piece::King, true) => 75,  // K
                                (Piece::Pawn, false) => 112,  // p
                                (Piece::Knight, false) => 110,  // n
                                (Piece::Bishop, false) => 98,  // b
                                (Piece::Rook, false) => 114,  // r
                                (Piece::Queen, false) => 113,  // q
                                (Piece::King, false) => 107,  // k
                            },
                        );
                    },
                    None => {
                        empty = empty + 1;
                    },
                }
                f = f + 1;
            }
            if empty != 0 {
                out.push(48 + empty);
            }
            if rank != 0 {
                out.push(47);  // '/'
            }
            rr = rr - 1;
        }
        out.push(32);
        out.push(
            if matches!(self.side_to_move, Color::White) {
                119  // 'w'
            } else {
                98  // 'b'
            },
        );
        out.push(32);
        if self.castle_rights.white_kingside {
            out.push(75);
        }
        if self.castle_rights.white_queenside {
            out.push(81);
        }
        if self.castle_rights.black_kingside {
            out.push(107);
        }
        if self.castle_rights.black_queenside {
            out.push(113);
        }
        let no_rights = !(self.castle_rights.white_kingside || self.castle_rights.white_queenside
            || self.castle_rights.black_kingside || self.castle_rights.black_queenside);
        if no_rights {
            out.push(45);  // '-'
        }
        out.push(32);
        match self.en_passant {
            Some(sq) => {
                let e = sq.to_index();
                out.push(97 + (e % 8) as u8);
                out.push(49 + (e / 8) as u8);
            },
            None => {
                out.push(45);
            },
        }
        out.push(32);
        out.push(48);  // '0'
        out.push(32);
        out.push(49);  // '1'
        ascii_to_string(out)
    }
}


/// A move of a legal shape leads from a well-formed position to a
/// well-formed position: the board invariants survive the placement
/// transform.
#[verifier::rlimit(100)]
proof fn lemma_move_wf(b0: Board, m: ChessMove, r: Board)
    requires
        b0.wf(),
        b0.move_ok(m),
        forall|p: int, i: int|
            0 <= p < 6 && 0 <= i < 64 ==> #[trigger] has_bit(r.piece_bits(p), i as u64)
                == b0.piece_bit_after(m, p, i),
        forall|c: int, i: int|
            0 <= c < 2 && 0 <= i < 64 ==> #[trigger] has_bit(r.color_bits(c), i as u64)
                == b0.color_bit_after(m, c, i),
        forall|i: int|
            0 <= i < 64 ==> #[trigger] has_bit(r.occ(), i as u64) == (b0.color_bit_after(m, 0, i)
                || b0.color_bit_after(m, 1, i)),
        r.side_to_move == b0.side_to_move.spec_flip(),
        r.castle_rights == b0.castle_rights.spec_update(
            b0.side_to_move.spec_flip(),
            m.dest.idx(),
        ).spec_update(b0.side_to_move, m.source.idx()),
    ensures
        r.colors_ok(),
        r.pieces_ok(),
        r.kings_ok(),
        r.counts_ok(),
        r.castling_ok(),
        r.pawns_ok(),
{
    let s = m.source.idx();
    let d = m.dest.idx();
    let me = b0.side_to_move.idx();
    let mv = b0.piece_idx_at(s);
    let placed = b0.placed_idx(m);
    assert(b0.piece_bits(0) == b0.pawns.0 && b0.piece_bits(1) == b0.knights.0 && b0.piece_bits(2)
        == b0.bishops.0 && b0.piece_bits(3) == b0.rooks.0 && b0.piece_bits(4) == b0.queens.0
        && b0.piece_bits(5) == b0.kings.0);
    assert(b0.color_bits(0) == b0.white.0 && b0.color_bits(1) == b0.black.0);
    assert(r.piece_bits(0) == r.pawns.0 && r.piece_bits(1) == r.knights.0 && r.piece_bits(2)
        == r.bishops.0 && r.piece_bits(3) == r.rooks.0 && r.piece_bits(4) == r.queens.0
        && r.piece_bits(5) == r.kings.0);
    assert(r.color_bits(0) == r.white.0 && r.color_bits(1) == r.black.0);

    assert(has_bit(b0.occ(), s as u64));
    assert(has_bit(b0.piece_bits(mv), s as u64) && 0 <= mv < 6) by {
        assert(has_bit(b0.occ(), s as u64) == (has_bit(b0.pawns.0, s as u64) || has_bit(
            b0.knights.0,
            s as u64,
        ) || has_bit(b0.bishops.0, s as u64) || has_bit(b0.rooks.0, s as u64) || has_bit(
            b0.queens.0,
            s as u64,
        ) || has_bit(b0.kings.0, s as u64)));
    }
    lemma_piece_at_unique(b0, mv, s);
    assert(0 <= placed < 6);
    assert(!has_bit(b0.kings.0, d as u64)) by {
        if has_bit(b0.kings.0, d as u64) {
            assert(has_bit(b0.occ(), d as u64)) by {
                assert(has_bit(b0.occ(), d as u64) == (has_bit(b0.pawns.0, d as u64) || has_bit(
                    b0.knights.0,
                    d as u64,
                ) || has_bit(b0.bishops.0, d as u64) || has_bit(b0.rooks.0, d as u64) || has_bit(
                    b0.queens.0,
                    d as u64,
                ) || has_bit(b0.kings.0, d as u64)));
            }
            assert(has_bit(b0.white.0, d as u64) || has_bit(b0.black.0, d as u64));
            assert(has_bit(b0.theirs(), d as u64));
            assert(has_bit(b0.kings.0 & b0.theirs(), d as u64));
        }
    }
    let castled = b0.is_castle(m);
    let rf = b0.rook_from(m);
    let rt = b0.rook_to(m);
    if castled {
        assert(b0.king_move_ok(s, d));
        assert(has_bit(b0.piece_bits(5), s as u64));
        assert(mv == 5);
        if b0.side_to_move is White {
            if d == s + 2 {
                assert(has_bit(b0.rooks.0 & b0.white.0, 7));
            } else {
                assert(has_bit(b0.rooks.0 & b0.white.0, 0));
            }
        } else {
            if d == s + 2 {
                assert(has_bit(b0.rooks.0 & b0.black.0, 63));
            } else {
                assert(has_bit(b0.rooks.0 & b0.black.0, 56));
            }
        }
        assert(has_bit(b0.rooks.0, rf as u64) && 0 <= rf < 64 && 0 <= rt < 64 && rf != s && rf
            != d && rt != s && rt != d && rf != rt);
        lemma_piece_at_unique(b0, 3, rf);
        assert(!has_bit(b0.occ(), rt as u64));
        assert(has_bit(b0.mine(), rf as u64)) by {
            if b0.side_to_move is White {
                if has_bit(b0.black.0, rf as u64) {
                    assert(has_bit(b0.rooks.0 & b0.black.0, rf as u64));
                }
            } else {
                if has_bit(b0.white.0, rf as u64) {
                    assert(has_bit(b0.rooks.0 & b0.white.0, rf as u64));
                }
            }
            assert(has_bit(b0.occ(), rf as u64)) by {
                assert(has_bit(b0.occ(), rf as u64) == (has_bit(b0.pawns.0, rf as u64)
                    || has_bit(b0.knights.0, rf as u64) || has_bit(b0.bishops.0, rf as u64)
                    || has_bit(b0.rooks.0, rf as u64) || has_bit(b0.queens.0, rf as u64)
                    || has_bit(b0.kings.0, rf as u64)));
            }
        }
    }
    let epc = b0.is_ep_capture(m);
    let vi = b0.ep_victim(m);
    if epc {
        assert(has_bit(b0.pawns.0 & b0.theirs(), vi as u64) && 0 <= vi < 64);
        assert(has_bit(b0.pawns.0, vi as u64));
        lemma_piece_at_unique(b0, 0, vi);
        assert(b0.pawn_move_ok(s, d));
        assert(fl(vi) == fl(d) && fl(d) != fl(s) && vi != s && vi != d && rk(vi) == 3 || rk(vi)
            == 4);
        assert(vi != s && vi != d);
        assert(has_bit(b0.theirs(), vi as u64));
    }

    // The occupied squares split by color.
    assert forall|i: u64|
        i < 64 implies !(#[trigger] has_bit(r.white.0, i) && has_bit(r.black.0, i)) by {
        assert(has_bit(r.color_bits(0), (i as int) as u64) == b0.color_bit_after(m, 0, i as int));
        assert(has_bit(r.color_bits(1), (i as int) as u64) == b0.color_bit_after(m, 1, i as int));
    }
    assert forall|i: u64|
        i < 64 implies (#[trigger] has_bit(r.occ(), i) == (has_bit(r.white.0, i) || has_bit(
        r.black.0,
        i,
    ))) by {
        assert(has_bit(r.color_bits(0), (i as int) as u64) == b0.color_bit_after(m, 0, i as int));
        assert(has_bit(r.color_bits(1), (i as int) as u64) == b0.color_bit_after(m, 1, i as int));
        assert(has_bit(r.occ(), (i as int) as u64) == (b0.color_bit_after(m, 0, i as int)
            || b0.color_bit_after(m, 1, i as int)));
    }
    assert(r.colors_ok());

    // The occupied squares split by piece kind.
    assert forall|p: int, q: int, i: u64|
        0 <= p < q < 6 && i < 64 implies !(#[trigger] has_bit(r.piece_bits(p), i)
        && #[trigger] has_bit(r.piece_bits(q), i)) by {
        assert(has_bit(r.piece_bits(p), (i as int) as u64) == b0.piece_bit_after(m, p, i as int));
        assert(has_bit(r.piece_bits(q), (i as int) as u64) == b0.piece_bit_after(m, q, i as int));
        if i as int != s && i as int != d && !(epc && i as int == vi) && !(castled && i as int
            == rf) && !(castled && i as int == rt) {
            assert(!(has_bit(b0.piece_bits(p), i) && has_bit(b0.piece_bits(q), i)));
        }
    }
    assert forall|i: u64|
        i < 64 implies (#[trigger] has_bit(r.occ(), i) == (has_bit(r.pawns.0, i) || has_bit(
        r.knights.0,
        i,
    ) || has_bit(r.bishops.0, i) || has_bit(r.rooks.0, i) || has_bit(r.queens.0, i) || has_bit(
        r.kings.0,
        i,
    ))) by {
        let ii = i as int;
        assert(has_bit(r.occ(), (ii) as u64) == (b0.color_bit_after(m, 0, ii)
            || b0.color_bit_after(m, 1, ii)));
        assert(has_bit(r.piece_bits(0), (ii) as u64) == b0.piece_bit_after(m, 0, ii));
        assert(has_bit(r.piece_bits(1), (ii) as u64) == b0.piece_bit_after(m, 1, ii));
        assert(has_bit(r.piece_bits(2), (ii) as u64) == b0.piece_bit_after(m, 2, ii));
        assert(has_bit(r.piece_bits(3), (ii) as u64) == b0.piece_bit_after(m, 3, ii));
        assert(has_bit(r.piece_bits(4), (ii) as u64) == b0.piece_bit_after(m, 4, ii));
        assert(has_bit(r.piece_bits(5), (ii) as u64) == b0.piece_bit_after(m, 5, ii));
        if ii != s && ii != d && !(epc && ii == vi) && !(castled && ii == rf) && !(castled && ii
            == rt) {
            assert(has_bit(b0.occ(), i) == (has_bit(b0.pawns.0, i) || has_bit(b0.knights.0, i)
                || has_bit(b0.bishops.0, i) || has_bit(b0.rooks.0, i) || has_bit(
                b0.queens.0,
                i,
            ) || has_bit(b0.kings.0, i)));
            assert(has_bit(b0.occ(), i) == (has_bit(b0.white.0, i) || has_bit(b0.black.0, i)));
        }
    }
    assert(r.pieces_ok());

    // Exactly one king of each color, as before the move.
    let kw0 = b0.kings.0 & b0.white.0;
    let kb0 = b0.kings.0 & b0.black.0;
    let kwr = r.kings.0 & r.white.0;
    let kbr = r.kings.0 & r.black.0;
    assert forall|j: u64|
        j < 64 implies has_bit(kwr, j) == (b0.piece_bit_after(m, 5, j as int)
        && b0.color_bit_after(m, 0, j as int)) by {
        assert(has_bit(r.piece_bits(5), ((j as int)) as u64) == b0.piece_bit_after(
            m,
            5,
            j as int,
        ));
        assert(has_bit(r.color_bits(0), ((j as int)) as u64) == b0.color_bit_after(
            m,
            0,
            j as int,
        ));
    }
    assert forall|j: u64|
        j < 64 implies has_bit(kbr, j) == (b0.piece_bit_after(m, 5, j as int)
        && b0.color_bit_after(m, 1, j as int)) by {
        assert(has_bit(r.piece_bits(5), ((j as int)) as u64) == b0.piece_bit_after(
            m,
            5,
            j as int,
        ));
        assert(has_bit(r.color_bits(1), ((j as int)) as u64) == b0.color_bit_after(
            m,
            1,
            j as int,
        ));
    }
    if mv == 5 && me == 0 {
        assert(has_bit(kw0, s as u64));
        assert(!has_bit(kw0, d as u64));
        assert forall|j: u64|
            j < 64 implies has_bit(kwr, j) == (if j == s as u64 {
                false
            } else if j == d as u64 {
                true
            } else {
                has_bit(kw0, j)
            }) by {
            if castled && (j as int == rf || j as int == rt) {
                assert(!has_bit(b0.kings.0, j));
            }
            if epc && j as int == vi {
                assert(!has_bit(b0.kings.0, j));
            }
        }
        crate::bits::lemma_pop_rel_move(kw0, kwr, s as u64, d as u64);
        assert forall|j: u64| j < 64 implies has_bit(kbr, j) == has_bit(kb0, j) by {
            if j as int == s {
                assert(!has_bit(b0.black.0, j));
            }
            if j as int == d {
                assert(!has_bit(b0.kings.0, j));
            }
            if castled && (j as int == rf || j as int == rt) {
                assert(!has_bit(b0.kings.0, j));
            }
            if epc && j as int == vi {
                assert(!has_bit(b0.kings.0, j));
            }
        }
        crate::bits::lemma_pop_rel_same(kb0, kbr);
    } else if mv == 5 && me == 1 {
        assert(has_bit(kb0, s as u64));
        assert(!has_bit(kb0, d as u64));
        assert forall|j: u64|
            j < 64 implies has_bit(kbr, j) == (if j == s as u64 {
                false
            } else if j == d as u64 {
                true
            } else {
                has_bit(kb0, j)
            }) by {
            if castled && (j as int == rf || j as int == rt) {
                assert(!has_bit(b0.kings.0, j));
            }
            if epc && j as int == vi {
                assert(!has_bit(b0.kings.0, j));
            }
        }
        crate::bits::lemma_pop_rel_move(kb0, kbr, s as u64, d as u64);
        assert forall|j: u64| j < 64 implies has_bit(kwr, j) == has_bit(kw0, j) by {
            if j as int == s {
                assert(!has_bit(b0.white.0, j));
            }
            if j as int == d {
                assert(!has_bit(b0.kings.0, j));
            }
            if castled && (j as int == rf || j as int == rt) {
                assert(!has_bit(b0.kings.0, j));
            }
            if epc && j as int == vi {
                assert(!has_bit(b0.kings.0, j));
            }
        }
        crate::bits::lemma_pop_rel_same(kw0, kwr);
    } else {
        assert(placed != 5) by {
            if m.promotion is Some {
            } else {
            }
        }
        assert forall|j: u64| j < 64 implies has_bit(kwr, j) == has_bit(kw0, j) by {
            let jj = j as int;
            if jj == s {
                assert(!has_bit(b0.kings.0, j));
            }
            if jj == d {
                assert(!has_bit(b0.kings.0, j));
            }
            if epc && jj == vi {
                assert(!has_bit(b0.kings.0, j));
            }
            if castled && (jj == rf || jj == rt) {
                assert(!has_bit(b0.kings.0, j));
            }
        }
        crate::bits::lemma_pop_rel_same(kw0, kwr);
        assert forall|j: u64| j < 64 implies has_bit(kbr, j) == has_bit(kb0, j) by {
            let jj = j as int;
            if jj == s {
                assert(!has_bit(b0.kings.0, j));
            }
            if jj == d {
                assert(!has_bit(b0.kings.0, j));
            }
            if epc && jj == vi {
                assert(!has_bit(b0.kings.0, j));
            }
            if castled && (jj == rf || jj == rt) {
                assert(!has_bit(b0.kings.0, j));
            }
        }
        crate::bits::lemma_pop_rel_same(kb0, kbr);
    }
    assert(r.kings_ok());

    // At most sixteen pieces of each color, as before.
    let myc0 = b0.color_bits(me);
    let myc1 = r.color_bits(me);
    let enc0 = b0.color_bits(1 - me);
    let enc1 = r.color_bits(1 - me);
    if castled {
        let w = myc0 ^ (1u64 << (s as u64)) ^ (1u64 << (d as u64));
        assert(has_bit(myc0, s as u64) && !has_bit(myc0, d as u64));
        assert(!has_bit(myc0 ^ (1u64 << (s as u64)), d as u64));
        crate::bits::lemma_pop_flip(myc0, s as u64);
        crate::bits::lemma_pop_flip(myc0 ^ (1u64 << (s as u64)), d as u64);
        assert(has_bit(w, rf as u64) && !has_bit(w, rt as u64)) by {
            assert(has_bit(b0.mine(), rf as u64));
            assert(!has_bit(b0.occ(), rt as u64));
            assert(!has_bit(myc0, rt as u64)) by {
                if has_bit(myc0, rt as u64) {
                    assert(has_bit(b0.occ(), rt as u64) == (has_bit(b0.white.0, rt as u64)
                        || has_bit(b0.black.0, rt as u64)));
                }
            }
        }
        assert forall|j: u64|
            j < 64 implies has_bit(myc1, j) == (if j == rf as u64 {
                false
            } else if j == rt as u64 {
                true
            } else {
                has_bit(w, j)
            }) by {
            assert(has_bit(r.color_bits(me), ((j as int)) as u64) == b0.color_bit_after(
                m,
                me,
                j as int,
            ));
        }
        crate::bits::lemma_pop_rel_move(w, myc1, rf as u64, rt as u64);
        assert(pop64(myc1) == pop64(myc0));
        assert forall|j: u64| j < 64 implies has_bit(enc1, j) == has_bit(enc0, j) by {
            assert(has_bit(r.color_bits(1 - me), ((j as int)) as u64) == b0.color_bit_after(
                m,
                1 - me,
                j as int,
            ));
            let jj = j as int;
            if jj == s {
                assert(!has_bit(enc0, j));
            }
            if jj == d {
                assert(!has_bit(b0.occ(), d as u64) || has_bit(b0.mine(), d as u64) || has_bit(
                    b0.theirs(),
                    d as u64,
                ));
                assert(!has_bit(enc0, j)) by {
                    if has_bit(enc0, j) {
                        assert(has_bit(b0.occ(), j) == (has_bit(b0.white.0, j) || has_bit(
                            b0.black.0,
                            j,
                        )));
                        assert(has_bit(b0.theirs(), j));
                    }
                }
            }
        }
        crate::bits::lemma_pop_rel_same(enc0, enc1);
    } else {
        assert(has_bit(myc0, s as u64) && !has_bit(myc0, d as u64));
        assert forall|j: u64|
            j < 64 implies has_bit(myc1, j) == (if j == s as u64 {
                false
            } else if j == d as u64 {
                true
            } else {
                has_bit(myc0, j)
            }) by {
            assert(has_bit(r.color_bits(me), ((j as int)) as u64) == b0.color_bit_after(
                m,
                me,
                j as int,
            ));
            if epc && j as int == vi {
                assert(has_bit(b0.theirs(), j));
                assert(!has_bit(myc0, j));
            }
        }
        crate::bits::lemma_pop_rel_move(myc0, myc1, s as u64, d as u64);
        if epc {
            assert forall|j: u64|
                j < 64 implies has_bit(enc1, j) == (j != vi as u64 && has_bit(enc0, j)) by {
                assert(has_bit(r.color_bits(1 - me), ((j as int)) as u64) == b0.color_bit_after(
                    m,
                    1 - me,
                    j as int,
                ));
                let jj = j as int;
                if jj == s {
                    assert(!has_bit(enc0, j));
                }
                if jj == d {
                    assert(!has_bit(b0.occ(), d as u64));
                    assert(!has_bit(enc0, j)) by {
                        if has_bit(enc0, j) {
                            assert(has_bit(b0.occ(), j) == (has_bit(b0.white.0, j) || has_bit(
                                b0.black.0,
                                j,
                            )));
                        }
                    }
                }
            }
            crate::bits::lemma_pop_rel_clear(enc0, enc1, vi as u64);
        } else if has_bit(enc0, d as u64) {
            assert forall|j: u64|
                j < 64 implies has_bit(enc1, j) == (j != d as u64 && has_bit(enc0, j)) by {
                assert(has_bit(r.color_bits(1 - me), ((j as int)) as u64) == b0.color_bit_after(
                    m,
                    1 - me,
                    j as int,
                ));
                if j as int == s {
                    assert(!has_bit(enc0, j));
                }
            }
            crate::bits::lemma_pop_rel_clear(enc0, enc1, d as u64);
        } else {
            assert forall|j: u64| j < 64 implies has_bit(enc1, j) == has_bit(enc0, j) by {
                assert(has_bit(r.color_bits(1 - me), ((j as int)) as u64) == b0.color_bit_after(
                    m,
                    1 - me,
                    j as int,
                ));
                if j as int == s {
                    assert(!has_bit(enc0, j));
                }
            }
            crate::bits::lemma_pop_rel_same(enc0, enc1);
        }
    }
    assert(r.counts_ok()) by {
        if me == 0 {
            assert(pop64(r.white.0) <= 16 && pop64(r.black.0) <= 16);
        } else {
            assert(pop64(r.white.0) <= 16 && pop64(r.black.0) <= 16);
        }
    }

    // Surviving castling rights still have king and rook at home.
    assert(r.castling_ok()) by {
        let homes: Seq<int> = seq![4int, 7int, 0int, 60int, 63int, 56int];
        assert forall|h: int|
            castle_sq_cond(h) || h == 0 || h == 7 || h == 56 || h == 63 implies true by {}
        if r.castle_rights.white_kingside {
            lemma_home_bits(b0, m, r, 4, 5, 0);
            lemma_home_bits(b0, m, r, 7, 3, 0);
        }
        if r.castle_rights.white_queenside {
            lemma_home_bits(b0, m, r, 4, 5, 0);
            lemma_home_bits(b0, m, r, 0, 3, 0);
        }
        if r.castle_rights.black_kingside {
            lemma_home_bits(b0, m, r, 60, 5, 1);
            lemma_home_bits(b0, m, r, 63, 3, 1);
        }
        if r.castle_rights.black_queenside {
            lemma_home_bits(b0, m, r, 60, 5, 1);
            lemma_home_bits(b0, m, r, 56, 3, 1);
        }
    }

    // Pawns stay off the back ranks.
    assert forall|i: u64| i < 64 && #[trigger] has_bit(r.pawns.0, i) implies 0 < rk(i as int)
        < 7 by {
        let ii = i as int;
        assert(has_bit(r.piece_bits(0), (ii) as u64) == b0.piece_bit_after(m, 0, ii));
        if ii == d && placed == 0 {
            assert(m.promotion is None);
            assert(has_bit(b0.pawns.0, s as u64));
            assert(b0.pawn_move_ok(s, d));
            assert(0 < rk(s) < 7);
            assert(rk(d) != (if b0.side_to_move is White {
                7int
            } else {
                0int
            }));
        }
    }
    assert(r.pawns_ok());
}

/// A castling right that survives a move keeps the piece on the named
/// home square: the move never touched it.
proof fn lemma_home_bits(b0: Board, m: ChessMove, r: Board, h: int, p: int, c: int)
    requires
        b0.wf(),
        b0.move_ok(m),
        0 <= h < 64,
        0 <= p < 6,
        0 <= c < 2,
        h == 0 || h == 4 || h == 7 || h == 56 || h == 60 || h == 63,
        has_bit(b0.piece_bits(p), h as u64) && has_bit(b0.color_bits(c), h as u64),
        forall|p2: int, i: int|
            0 <= p2 < 6 && 0 <= i < 64 ==> #[trigger] has_bit(r.piece_bits(p2), i as u64)
                == b0.piece_bit_after(m, p2, i),
        forall|c2: int, i: int|
            0 <= c2 < 2 && 0 <= i < 64 ==> #[trigger] has_bit(r.color_bits(c2), i as u64)
                == b0.color_bit_after(m, c2, i),
        m.source.idx() != h,
        m.dest.idx() != h,
        !(b0.is_castle(m) && (b0.rook_from(m) == h || b0.rook_to(m) == h)),
        !(b0.is_ep_capture(m) && b0.ep_victim(m) == h),
    ensures
        has_bit(r.piece_bits(p), h as u64) && has_bit(r.color_bits(c), h as u64),
{
    assert(b0.piece_bits(0) == b0.pawns.0 && b0.piece_bits(1) == b0.knights.0 && b0.piece_bits(2)
        == b0.bishops.0 && b0.piece_bits(3) == b0.rooks.0 && b0.piece_bits(4) == b0.queens.0
        && b0.piece_bits(5) == b0.kings.0);
    assert(b0.color_bits(0) == b0.white.0 && b0.color_bits(1) == b0.black.0);
    assert(r.piece_bits(0) == r.pawns.0 && r.piece_bits(1) == r.knights.0 && r.piece_bits(2)
        == r.bishops.0 && r.piece_bits(3) == r.rooks.0 && r.piece_bits(4) == r.queens.0
        && r.piece_bits(5) == r.kings.0);
    assert(r.color_bits(0) == r.white.0 && r.color_bits(1) == r.black.0);
    assert(has_bit(r.piece_bits(p), (h) as u64) == b0.piece_bit_after(m, p, h));
    assert(has_bit(r.color_bits(c), (h) as u64) == b0.color_bit_after(m, c, h));
}

/// The check and pin conditions read only the piece and color boards:
/// two boards equal on those agree on every slider threat.
proof fn lemma_threats_agree(b1: Board, b2: Board, c: int, k: int)
    requires
        b1.pawns == b2.pawns,
        b1.knights == b2.knights,
        b1.bishops == b2.bishops,
        b1.rooks == b2.rooks,
        b1.queens == b2.queens,
        b1.kings == b2.kings,
        b1.white == b2.white,
        b1.black == b2.black,
        b1.combined_bitboard == b2.combined_bitboard,
    ensures
        b1.king_sq(c) == b2.king_sq(c),
        forall|a: int| #[trigger] b1.slider_checks(c, a, k) == b2.slider_checks(c, a, k),
        forall|a: int, u: int|
            #[trigger] b1.pins_through(c, a, k, u) == b2.pins_through(c, a, k, u),
{
    assert(b1.color_bits(0) == b2.color_bits(0) && b1.color_bits(1) == b2.color_bits(1));
    assert(b1.color_bits(c) == b2.color_bits(c) && b1.color_bits(1 - c) == b2.color_bits(1 - c));
    assert(b1.occ() == b2.occ());
    assert forall|a: int| #[trigger] b1.slider_checks(c, a, k) == b2.slider_checks(
        c,
        a,
        k,
    ) by {
        assert(b1.aims_at(c, a, k) == b2.aims_at(c, a, k));
        if b1.slider_checks(c, a, k) {
            assert forall|w: int| #[trigger] between_cond(a, k, w) implies !has_bit(
                b2.occ(),
                w as u64,
            ) by {
                assert(!has_bit(b1.occ(), w as u64));
            }
        }
        if b2.slider_checks(c, a, k) {
            assert forall|w: int| #[trigger] between_cond(a, k, w) implies !has_bit(
                b1.occ(),
                w as u64,
            ) by {
                assert(!has_bit(b2.occ(), w as u64));
            }
        }
    }
    assert forall|a: int, u: int|
        #[trigger] b1.pins_through(c, a, k, u) == b2.pins_through(c, a, k, u) by {
        assert(b1.aims_at(c, a, k) == b2.aims_at(c, a, k));
        if b1.pins_through(c, a, k, u) {
            assert forall|w: int|
                #[trigger] between_cond(a, k, w) && has_bit(b2.occ(), w as u64) implies w
                == u by {
                assert(has_bit(b1.occ(), w as u64));
            }
        }
        if b2.pins_through(c, a, k, u) {
            assert forall|w: int|
                #[trigger] between_cond(a, k, w) && has_bit(b1.occ(), w as u64) implies w
                == u by {
                assert(has_bit(b2.occ(), w as u64));
            }
        }
    }
}

/// On a board whose piece boards are disjoint, the piece kind standing
/// on an occupied square is unique.
proof fn lemma_piece_at_unique(b: Board, p: int, t: int)
    requires
        b.pieces_ok(),
        0 <= p < 6,
        0 <= t < 64,
        has_bit(b.piece_bits(p), t as u64),
    ensures
        b.piece_idx_at(t) == p,
        forall|q: int| 0 <= q < 6 && q != p ==> !has_bit(#[trigger] b.piece_bits(q), t as u64),
{
    assert forall|q: int|
        0 <= q < 6 && q != p implies !has_bit(#[trigger] b.piece_bits(q), t as u64) by {
        if q < p {
            assert(!(has_bit(b.piece_bits(q), t as u64) && has_bit(b.piece_bits(p), t as u64)));
        } else {
            assert(!(has_bit(b.piece_bits(p), t as u64) && has_bit(b.piece_bits(q), t as u64)));
        }
    }
    assert(b.piece_bits(0) == b.pawns.0 && b.piece_bits(1) == b.knights.0 && b.piece_bits(2)
        == b.bishops.0 && b.piece_bits(3) == b.rooks.0 && b.piece_bits(4) == b.queens.0
        && b.piece_bits(5) == b.kings.0);
}

impl Board {
    /// Index of the piece kind standing on `t`; meaningful only when
    /// `t` is occupied.
    pub open spec fn piece_idx_at(self, t: int) -> int {
        if has_bit(self.pawns.0, t as u64) {
            0
        } else if has_bit(self.knights.0, t as u64) {
            1
        } else if has_bit(self.bishops.0, t as u64) {
            2
        } else if has_bit(self.rooks.0, t as u64) {
            3
        } else if has_bit(self.queens.0, t as u64) {
            4
        } else {
            5
        }
    }

    /// The forward direction of the side to move, in index steps.
    pub open spec fn dir(self) -> int {
        if self.side_to_move is White {
            8
        } else {
            -8
        }
    }

    /// The move is a pawn move of a legal shape: a push onto an empty
    /// square, a double push over two empty squares from the start
    /// rank, or a diagonal capture of an enemy piece or of the recorded
    /// en-passant square.
    pub open spec fn pawn_move_ok(self, s: int, d: int) -> bool {
        let dir = self.dir();
        ||| (fl(d) == fl(s) && d == s + dir && !has_bit(self.occ(), d as u64))
        ||| (fl(d) == fl(s) && rk(s) == (if self.side_to_move is White {
            1int
        } else {
            6int
        }) && d == s + 2 * dir && !has_bit(self.occ(), (s + dir) as u64) && !has_bit(
            self.occ(),
            d as u64,
        ))
        ||| (rk(d) == rk(s) + (if self.side_to_move is White {
            1int
        } else {
            -1int
        }) && absi(fl(d) - fl(s)) == 1 && (has_bit(self.theirs(), d as u64) || (
        self.en_passant matches Some(e) && e.idx() == d)))
    }

    /// The move is a king move of a legal shape: one step, or a castle
    /// from the home square over an empty corridor with the right
    /// still held.
    pub open spec fn king_move_ok(self, s: int, d: int) -> bool {
        let home = if self.side_to_move is White {
            4int
        } else {
            60int
        };
        ||| (absi(rk(d) - rk(s)) <= 1 && absi(fl(d) - fl(s)) <= 1)
        ||| (s == home && d == s + 2 && self.castle_rights.spec_kingside(self.side_to_move)
            && !has_bit(self.occ(), (s + 1) as u64) && !has_bit(self.occ(), (s + 2) as u64))
        ||| (s == home && d == s - 2 && self.castle_rights.spec_queenside(self.side_to_move)
            && !has_bit(self.occ(), (s - 1) as u64) && !has_bit(self.occ(), (s - 2) as u64)
            && !has_bit(self.occ(), (s - 3) as u64))
    }

    /// The shape of the moves the legal move generator emits, except
    /// that nothing is said of what stands on the destination beyond it
    /// not being an own piece.
    pub open spec fn move_shape_ok(self, m: ChessMove) -> bool {
        let s = m.source.idx();
        let d = m.dest.idx();
        &&& on_board(s) && on_board(d) && s != d
        &&& has_bit(self.mine(), s as u64)
        &&& !has_bit(self.mine(), d as u64)
        &&& (m.promotion is Some) == (has_bit(self.pawns.0, s as u64) && rk(d) == (
        if self.side_to_move is White {
            7int
        } else {
            0int
        }))
        &&& (m.promotion matches Some(p) ==> (p is Queen || p is Rook || p is Bishop
            || p is Knight))
        &&& (has_bit(self.pawns.0, s as u64) ==> self.pawn_move_ok(s, d))
        &&& (has_bit(self.kings.0, s as u64) ==> self.king_move_ok(s, d))
    }

    /// What `make_move` asks of a move: a generator-shaped move that
    /// does not land on the enemy king.
    pub open spec fn move_ok(self, m: ChessMove) -> bool {
        &&& self.move_shape_ok(m)
        &&& !has_bit(self.kings.0 & self.theirs(), m.dest.idx() as u64)
    }

    /// The move is a castle: the king steps two files.
    pub open spec fn is_castle(self, m: ChessMove) -> bool {
        has_bit(self.kings.0, m.source.idx() as u64) && absi(m.dest.idx() - m.source.idx()) == 2
    }

    /// The move is a pawn double push.
    pub open spec fn is_double_push(self, m: ChessMove) -> bool {
        has_bit(self.pawns.0, m.source.idx() as u64) && m.promotion is None && (m.dest.idx()
            == m.source.idx() + 16 || m.dest.idx() == m.source.idx() - 16)
    }

    /// The move captures the recorded en-passant square.
    pub open spec fn is_ep_capture(self, m: ChessMove) -> bool {
        has_bit(self.pawns.0, m.source.idx() as u64) && (self.en_passant matches Some(e)
            && e.idx() == m.dest.idx())
    }

    /// The square of the pawn an en-passant capture removes.
    pub open spec fn ep_victim(self, m: ChessMove) -> int {
        m.dest.idx() - self.dir()
    }

    /// Where the castling rook starts and lands.
    pub open spec fn rook_from(self, m: ChessMove) -> int {
        if fl(m.dest.idx()) == 6 {
            rk(m.dest.idx()) * 8 + 7
        } else {
            rk(m.dest.idx()) * 8
        }
    }

    pub open spec fn rook_to(self, m: ChessMove) -> int {
        if fl(m.dest.idx()) == 6 {
            rk(m.dest.idx()) * 8 + 5
        } else {
            rk(m.dest.idx()) * 8 + 3
        }
    }

    /// The piece kind standing on `d` after the move: the promotion
    /// piece if one is named, else the piece that moved.
    pub open spec fn placed_idx(self, m: ChessMove) -> int {
        match m.promotion {
            Some(p) => p.idx(),
            None => self.piece_idx_at(m.source.idx()),
        }
    }

    /// Whether square `i` holds a piece of kind `p` after the move.
    pub open spec fn piece_bit_after(self, m: ChessMove, p: int, i: int) -> bool {
        let s = m.source.idx();
        let d = m.dest.idx();
        if i == s {
            false
        } else if i == d {
            p == self.placed_idx(m)
        } else if self.is_ep_capture(m) && i == self.ep_victim(m) {
            false
        } else if self.is_castle(m) && i == self.rook_from(m) {
            false
        } else if self.is_castle(m) && i == self.rook_to(m) {
            p == 3
        } else {
            has_bit(self.piece_bits(p), i as u64)
        }
    }

    /// Whether square `i` holds a piece of color `c` after the move.
    pub open spec fn color_bit_after(self, m: ChessMove, c: int, i: int) -> bool {
        let s = m.source.idx();
        let d = m.dest.idx();
        let me = self.side_to_move.idx();
        if i == s {
            false
        } else if i == d {
            c == me
        } else if self.is_ep_capture(m) && i == self.ep_victim(m) {
            false
        } else if self.is_castle(m) && i == self.rook_from(m) {
            false
        } else if self.is_castle(m) && i == self.rook_to(m) {
            c == me
        } else {
            has_bit(self.color_bits(c), i as u64)
        }
    }

    /// Applies the piece movement of one move: source and destination
    /// toggled, a captured piece removed, a promotion exchanged, the
    /// castling rook moved, the rights decayed, and the passed square
    /// recorded or cleared. Pins, checks and the turn are untouched.
    #[verifier::rlimit(100)]
    #[verifier::spinoff_prover]
    fn apply_placement(&self, m: ChessMove, tables: &Tables) -> (r: Board)
        requires
            tables.geom_wf(),
            self.wf(),
            self.move_ok(m),
        ensures
            forall|p: int, i: int|
                0 <= p < 6 && 0 <= i < 64 ==> #[trigger] has_bit(r.piece_bits(p), i as u64)
                    == self.piece_bit_after(m, p, i),
            forall|c: int, i: int|
                0 <= c < 2 && 0 <= i < 64 ==> #[trigger] has_bit(r.color_bits(c), i as u64)
                    == self.color_bit_after(m, c, i),
            forall|i: int|
                0 <= i < 64 ==> #[trigger] has_bit(r.occ(), i as u64) == (self.color_bit_after(
                    m,
                    0,
                    i,
                ) || self.color_bit_after(m, 1, i)),
            r.side_to_move == self.side_to_move,
            r.castle_rights == self.castle_rights.spec_update(
                self.side_to_move.spec_flip(),
                m.dest.idx(),
            ).spec_update(self.side_to_move, m.source.idx()),
            r.pinned_bitboard.0 == 0,
            r.checkers_bitboard.0 == 0,
            match r.en_passant {
                Some(e) => self.is_double_push(m) && e.idx() == m.dest.idx() - self.dir()
                    && r.ep_settable(e.idx()),
                None => true,
            },
            (r.en_passant is Some) == (self.is_double_push(m) && r.ep_settable(
                m.dest.idx() - self.dir(),
            )),
    {
        let mut result = *self;
        result.en_passant = None;
        result.checkers_bitboard = BitBoard(0);
        result.pinned_bitboard = BitBoard(0);

        let source_bb = BitBoard::from_square(m.source);
        let dest_bb = BitBoard::from_square(m.dest);

        let moved_piece = match self.get_piece(m.source) {
            Some(p) => p,
            None => Piece::Pawn,  // ruled out: the source square is occupied
        };
        let ghost s_i = m.source.idx();
        let ghost d_i = m.dest.idx();
        proof {
            assert(has_bit(self.occ(), s_i as u64));
            lemma_piece_at_unique(*self, moved_piece.idx(), s_i);
            assert(self.piece_bits(0) == self.pawns.0 && self.piece_bits(1) == self.knights.0
                && self.piece_bits(2) == self.bishops.0 && self.piece_bits(3) == self.rooks.0
                && self.piece_bits(4) == self.queens.0 && self.piece_bits(5) == self.kings.0);
            assert(self.color_bits(0) == self.white.0 && self.color_bits(1) == self.black.0);
        }

        result.xor(moved_piece, source_bb, self.side_to_move);
        result.xor(moved_piece, dest_bb, self.side_to_move);
        let captured = self.get_piece(m.dest);
        match captured {
            Some(captured_piece) => {
                proof {
                    assert(has_bit(self.piece_bits(captured_piece.idx()), d_i as u64));
                    assert(has_bit(self.occ(), d_i as u64));
                    if self.side_to_move is White {
                        assert(has_bit(self.black.0, d_i as u64));
                    } else {
                        assert(has_bit(self.white.0, d_i as u64));
                    }
                    assert(has_bit(self.theirs(), d_i as u64));
                    lemma_piece_at_unique(*self, captured_piece.idx(), d_i);
                }
                result.xor(captured_piece, dest_bb, self.side_to_move.flip());
            },
            None => {
                proof {
                    assert(!has_bit(self.occ(), d_i as u64));
                }
            },
        }

        result.castle_rights.update_from_square(self.side_to_move.flip(), m.dest);
        result.castle_rights.update_from_square(self.side_to_move, m.source);

        if matches!(moved_piece, Piece::Pawn) {
            if m.promotion.is_some() {
                let promotion = match m.promotion {
                    Some(p) => p,
                    None => Piece::Queen,  // ruled out
                };
                result.xor(Piece::Pawn, dest_bb, self.side_to_move);
                result.xor(promotion, dest_bb, self.side_to_move);
            } else {
                let is_double = m.source.to_index() + 16 == m.dest.to_index()
                    || m.dest.to_index() + 16 == m.source.to_index();
                let is_ep = match self.en_passant {
                    Some(e) => m.dest.to_index() == e.to_index(),
                    None => false,
                };
                proof {
                    assert(has_bit(self.pawns.0, s_i as u64));
                    assert(self.pawn_move_ok(s_i, d_i));
                    assert(is_double == self.is_double_push(m));
                    assert(is_ep == self.is_ep_capture(m));
                }
                if is_double {
                    let skipped = match m.dest.backward(self.side_to_move) {
                        Some(sq) => sq,
                        None => m.dest,  // ruled out: a double push ends mid-board
                    };
                    proof {
                        assert(skipped.idx() == d_i - self.dir());
                    }
                    let ghost pre_ep = result;
                    result.set_en_passant(skipped);
                    proof {
                        assert(result.pawns == pre_ep.pawns && result.white == pre_ep.white
                            && result.black == pre_ep.black && result.combined_bitboard
                            == pre_ep.combined_bitboard && result.side_to_move
                            == pre_ep.side_to_move);
                        assert(result.mine() == pre_ep.mine() && result.theirs()
                            == pre_ep.theirs() && result.occ() == pre_ep.occ());
                        assert(result.ep_settable(skipped.idx()) == pre_ep.ep_settable(
                            skipped.idx(),
                        )) by {
                            let e = skipped.idx();
                            let fwd = e + (if pre_ep.side_to_move is White {
                                8int
                            } else {
                                -8int
                            });
                            if pre_ep.ep_settable(e) {
                                let u = choose|u: int|
                                    on_board(u) && rk(u) == rk(fwd) && absi(fl(u) - fl(e)) == 1
                                        && #[trigger] has_bit(
                                        pre_ep.pawns.0 & pre_ep.theirs(),
                                        u as u64,
                                    );
                                assert(has_bit(result.pawns.0 & result.theirs(), u as u64));
                            }
                            if result.ep_settable(e) {
                                let u = choose|u: int|
                                    on_board(u) && rk(u) == rk(fwd) && absi(fl(u) - fl(e)) == 1
                                        && #[trigger] has_bit(
                                        result.pawns.0 & result.theirs(),
                                        u as u64,
                                    );
                                assert(has_bit(pre_ep.pawns.0 & pre_ep.theirs(), u as u64));
                            }
                        }
                        if result.en_passant is Some {
                            assert(pre_ep.ep_settable(skipped.idx()));
                            let e = skipped.idx();
                            let fwd = e + (if pre_ep.side_to_move is White {
                                8int
                            } else {
                                -8int
                            });
                            let u = choose|u: int|
                                on_board(u) && rk(u) == rk(fwd) && absi(fl(u) - fl(e)) == 1
                                    && #[trigger] has_bit(
                                    pre_ep.pawns.0 & pre_ep.theirs(),
                                    u as u64,
                                );
                            assert(has_bit(result.pawns.0 & result.theirs(), u as u64));
                            assert(result.ep_settable(e));
                        }
                    }
                } else if is_ep {
                    proof {
                        assert(rk(d_i) == (if self.side_to_move is White {
                            5int
                        } else {
                            2int
                        }));
                    }
                    let victim = match m.dest.forward(self.side_to_move.flip()) {
                        Some(sq) => sq,
                        None => m.dest,  // ruled out: the passed square is mid-board
                    };
                    let victim_bb = BitBoard::from_square(victim);
                    proof {
                        assert(victim.idx() == self.ep_victim(m));
                        assert(has_bit(self.pawns.0 & self.theirs(), victim.idx() as u64));
                        assert(has_bit(self.pawns.0, self.ep_victim(m) as u64));
                        lemma_piece_at_unique(*self, 0, self.ep_victim(m));
                        assert(fl(self.ep_victim(m)) == fl(d_i) && fl(d_i) != fl(s_i));
                        if self.side_to_move is White {
                            assert(!has_bit(self.white.0, victim.idx() as u64));
                        } else {
                            assert(!has_bit(self.black.0, victim.idx() as u64));
                        }
                    }
                    result.xor(Piece::Pawn, victim_bb, self.side_to_move.flip());
                }
            }
        } else if matches!(moved_piece, Piece::King) && (m.source.to_index() + 2
            == m.dest.to_index() || m.dest.to_index() + 2 == m.source.to_index()) {
            proof {
                assert(has_bit(self.kings.0, s_i as u64));
                assert(self.king_move_ok(s_i, d_i));
                assert(self.is_castle(m));
                assert(rk(d_i) == rk(s_i));
                assert(fl(d_i) == 6 || fl(d_i) == 2);
                if self.side_to_move is White {
                    if d_i == s_i + 2 {
                        assert(has_bit(self.rooks.0 & self.white.0, 7));
                    } else {
                        assert(has_bit(self.rooks.0 & self.white.0, 0));
                    }
                } else {
                    if d_i == s_i + 2 {
                        assert(has_bit(self.rooks.0 & self.black.0, 63));
                    } else {
                        assert(has_bit(self.rooks.0 & self.black.0, 56));
                    }
                }
                assert(has_bit(self.rooks.0, self.rook_from(m) as u64));
                lemma_piece_at_unique(*self, 3, self.rook_from(m));
                assert(!has_bit(self.occ(), self.rook_to(m) as u64));
                if self.side_to_move is White {
                    assert(!has_bit(self.black.0, self.rook_from(m) as u64)) by {
                        if has_bit(self.black.0, self.rook_from(m) as u64) {
                            assert(has_bit(
                                self.rooks.0 & self.black.0,
                                self.rook_from(m) as u64,
                            ));
                        }
                    }
                } else {
                    assert(!has_bit(self.white.0, self.rook_from(m) as u64)) by {
                        if has_bit(self.white.0, self.rook_from(m) as u64) {
                            assert(has_bit(
                                self.rooks.0 & self.white.0,
                                self.rook_from(m) as u64,
                            ));
                        }
                    }
                }
            }
            let backrank = self.side_to_move.starting_rank();
            let start_file = if m.dest.to_index() % 8 == 6 {
                File::H
            } else {
                File::A
            };
            let end_file = if m.dest.to_index() % 8 == 6 {
                File::F
            } else {
                File::D
            };
            let start_bb = BitBoard::set(backrank, start_file);
            let end_bb = BitBoard::set(backrank, end_file);
            proof {
                assert(start_bb.0 == (1u64 << (self.rook_from(m) as u64)));
                assert(end_bb.0 == (1u64 << (self.rook_to(m) as u64)));
            }
            result.xor(Piece::Rook, start_bb, self.side_to_move);
            result.xor(Piece::Rook, end_bb, self.side_to_move);
        } else {
            proof {
                if has_bit(self.kings.0, s_i as u64) {
                    assert(self.king_move_ok(s_i, d_i));
                    assert(!self.is_castle(m));
                } else {
                    assert(!self.is_castle(m));
                }
            }
        }
        proof {
            assert(self.piece_bits(0) == self.pawns.0 && self.piece_bits(1) == self.knights.0
                && self.piece_bits(2) == self.bishops.0 && self.piece_bits(3) == self.rooks.0
                && self.piece_bits(4) == self.queens.0 && self.piece_bits(5) == self.kings.0);
            assert(self.color_bits(0) == self.white.0 && self.color_bits(1) == self.black.0);
            assert forall|i: int|
                0 <= i < 64 implies #[trigger] has_bit(result.pawns.0, i as u64)
                == self.piece_bit_after(m, 0, i) by {
                assert(has_bit(source_bb.0, i as u64) == (i == s_i));
                assert(has_bit(dest_bb.0, i as u64) == (i == d_i));
                if moved_piece is Pawn {
                    if m.promotion is Some {
                    } else {
                        if self.is_double_push(m) {
                        } else if self.is_ep_capture(m) {
                        } else {
                        }
                    }
                } else if self.is_castle(m) {
                } else {
                }
            }
            assert forall|i: int|
                0 <= i < 64 implies #[trigger] has_bit(result.knights.0, i as u64)
                == self.piece_bit_after(m, 1, i) by {
                assert(has_bit(source_bb.0, i as u64) == (i == s_i));
                assert(has_bit(dest_bb.0, i as u64) == (i == d_i));
                if moved_piece is Pawn && m.promotion is Some {
                } else if self.is_castle(m) {
                } else {
                }
            }
            assert forall|i: int|
                0 <= i < 64 implies #[trigger] has_bit(result.bishops.0, i as u64)
                == self.piece_bit_after(m, 2, i) by {
                assert(has_bit(source_bb.0, i as u64) == (i == s_i));
                assert(has_bit(dest_bb.0, i as u64) == (i == d_i));
                if moved_piece is Pawn && m.promotion is Some {
                } else if self.is_castle(m) {
                } else {
                }
            }
            assert forall|i: int|
                0 <= i < 64 implies #[trigger] has_bit(result.rooks.0, i as u64)
                == self.piece_bit_after(m, 3, i) by {
                assert(has_bit(source_bb.0, i as u64) == (i == s_i));
                assert(has_bit(dest_bb.0, i as u64) == (i == d_i));
                if moved_piece is Pawn {
                    if m.promotion is Some {
                    } else {
                        if self.is_double_push(m) {
                        } else if self.is_ep_capture(m) {
                        } else {
                        }
                    }
                } else if self.is_castle(m) {
                } else {
                }
            }
            assert forall|i: int|
                0 <= i < 64 implies #[trigger] has_bit(result.queens.0, i as u64)
                == self.piece_bit_after(m, 4, i) by {
                assert(has_bit(source_bb.0, i as u64) == (i == s_i));
                assert(has_bit(dest_bb.0, i as u64) == (i == d_i));
                if moved_piece is Pawn && m.promotion is Some {
                } else if self.is_castle(m) {
                } else {
                }
            }
            assert forall|i: int|
                0 <= i < 64 implies #[trigger] has_bit(result.kings.0, i as u64)
                == self.piece_bit_after(m, 5, i) by {
                assert(has_bit(source_bb.0, i as u64) == (i == s_i));
                assert(has_bit(dest_bb.0, i as u64) == (i == d_i));
                if moved_piece is Pawn && m.promotion is Some {
                } else if self.is_castle(m) {
                } else {
                }
            }
            assert forall|i: int|
                0 <= i < 64 implies #[trigger] has_bit(result.white.0, i as u64)
                == self.color_bit_after(m, 0, i) by {
                assert(has_bit(source_bb.0, i as u64) == (i == s_i));
                assert(has_bit(dest_bb.0, i as u64) == (i == d_i));
                if moved_piece is Pawn {
                    if m.promotion is Some {
                    } else {
                        if self.is_double_push(m) {
                        } else if self.is_ep_capture(m) {
                        } else {
                        }
                    }
                } else if self.is_castle(m) {
                } else {
                }
            }
            assert forall|i: int|
                0 <= i < 64 implies #[trigger] has_bit(result.black.0, i as u64)
                == self.color_bit_after(m, 1, i) by {
                assert(has_bit(source_bb.0, i as u64) == (i == s_i));
                assert(has_bit(dest_bb.0, i as u64) == (i == d_i));
                if moved_piece is Pawn {
                    if m.promotion is Some {
                    } else {
                        if self.is_double_push(m) {
                        } else if self.is_ep_capture(m) {
                        } else {
                        }
                    }
                } else if self.is_castle(m) {
                } else {
                }
            }
            assert forall|i: int|
                0 <= i < 64 implies #[trigger] has_bit(result.combined_bitboard.0, i as u64) == (
                self.color_bit_after(m, 0, i) || self.color_bit_after(m, 1, i)) by {
                assert(has_bit(source_bb.0, i as u64) == (i == s_i));
                assert(has_bit(dest_bb.0, i as u64) == (i == d_i));
                if moved_piece is Pawn {
                    if m.promotion is Some {
                    } else {
                        if self.is_double_push(m) {
                        } else if self.is_ep_capture(m) {
                        } else {
                        }
                    }
                } else if self.is_castle(m) {
                } else {
                }
                assert(has_bit(self.occ(), i as u64) == (has_bit(self.white.0, i as u64)
                    || has_bit(self.black.0, i as u64)));
            }

            assert forall|p: int, i: int|
                0 <= p < 6 && 0 <= i < 64 implies #[trigger] has_bit(
                result.piece_bits(p),
                i as u64,
            ) == self.piece_bit_after(m, p, i) by {
                if p == 0 {
                    assert(has_bit(result.pawns.0, i as u64) == self.piece_bit_after(m, 0, i));
                } else if p == 1 {
                    assert(has_bit(result.knights.0, i as u64) == self.piece_bit_after(m, 1, i));
                } else if p == 2 {
                    assert(has_bit(result.bishops.0, i as u64) == self.piece_bit_after(m, 2, i));
                } else if p == 3 {
                    assert(has_bit(result.rooks.0, i as u64) == self.piece_bit_after(m, 3, i));
                } else if p == 4 {
                    assert(has_bit(result.queens.0, i as u64) == self.piece_bit_after(m, 4, i));
                } else {
                    assert(has_bit(result.kings.0, i as u64) == self.piece_bit_after(m, 5, i));
                }
            }
            assert forall|c: int, i: int|
                0 <= c < 2 && 0 <= i < 64 implies #[trigger] has_bit(
                result.color_bits(c),
                i as u64,
            ) == self.color_bit_after(m, c, i) by {
                if c == 0 {
                    assert(has_bit(result.white.0, i as u64) == self.color_bit_after(m, 0, i));
                } else {
                    assert(has_bit(result.black.0, i as u64) == self.color_bit_after(m, 1, i));
                }
            }

        }
        result
    }

    /// Applies a move and returns the next position: pieces toggled,
    /// rights decayed, the passed square recorded or cleared, pins and
    /// checks recomputed, and the turn passed to the opponent. The move
    /// must be one the legal move generator could emit.
    #[verifier::rlimit(100)]
    pub fn make_move(&self, m: ChessMove, tables: &Tables) -> (r: Board)
        requires
            tables.geom_wf(),
            self.wf(),
            self.move_ok(m),
        ensures
            r.wf(),
            r.side_to_move == self.side_to_move.spec_flip(),
            r.castle_rights == self.castle_rights.spec_update(
                self.side_to_move.spec_flip(),
                m.dest.idx(),
            ).spec_update(self.side_to_move, m.source.idx()),
            forall|p: int, i: int|
                0 <= p < 6 && 0 <= i < 64 ==> #[trigger] has_bit(r.piece_bits(p), i as u64)
                    == self.piece_bit_after(m, p, i),
            forall|c: int, i: int|
                0 <= c < 2 && 0 <= i < 64 ==> #[trigger] has_bit(r.color_bits(c), i as u64)
                    == self.color_bit_after(m, c, i),
            (r.en_passant is Some) == (self.is_double_push(m) && (exists|u: int|
                0 <= u < 64 && rk(u) == rk(m.dest.idx()) && absi(fl(u) - fl(m.dest.idx())) == 1
                    && #[trigger] has_bit(r.pawns.0 & r.mine(), u as u64))),
            r.en_passant matches Some(e) ==> e.idx() == m.dest.idx() - self.dir(),
            forall|u: int|
                0 <= u < 64 ==> #[trigger] has_bit(r.pinned_bitboard.0, u as u64) == (has_bit(
                    r.mine(),
                    u as u64,
                ) && (exists|a: int|
                    0 <= a < 64 && #[trigger] r.pins_through(
                        r.side_to_move.idx(),
                        a,
                        r.king_sq(r.side_to_move.idx()),
                        u,
                    ))),
            forall|i: int|
                0 <= i < 64 ==> #[trigger] has_bit(r.checkers_bitboard.0, i as u64) == (
                r.slider_checks(r.side_to_move.idx(), i, r.king_sq(r.side_to_move.idx())) || (i
                    == m.dest.idx() && (m.promotion == Some(Piece::Knight) || has_bit(
                    self.knights.0,
                    m.source.idx() as u64,
                )) && knight_cond(r.king_sq(r.side_to_move.idx()), m.dest.idx())) || (i
                    == m.dest.idx() && has_bit(self.pawns.0, m.source.idx() as u64)
                    && m.promotion is None && !(m.promotion == Some(Piece::Knight) || has_bit(
                    self.knights.0,
                    m.source.idx() as u64,
                )) && crate::geometry::pawn_attack_cond(
                    self.side_to_move is Black,
                    r.king_sq(r.side_to_move.idx()),
                    m.dest.idx(),
                ))),
    {
        let mut result = self.apply_placement(m, tables);
        let ghost placed0 = result;
        result.side_to_move = result.side_to_move.flip();
        proof {
            assert(result.pawns == placed0.pawns && result.knights == placed0.knights
                && result.bishops == placed0.bishops && result.rooks == placed0.rooks
                && result.queens == placed0.queens && result.kings == placed0.kings
                && result.white == placed0.white && result.black == placed0.black
                && result.combined_bitboard == placed0.combined_bitboard
                && result.en_passant == placed0.en_passant && result.castle_rights
                == placed0.castle_rights);
            assert forall|p: int, i: int|
                0 <= p < 6 && 0 <= i < 64 implies #[trigger] has_bit(
                result.piece_bits(p),
                i as u64,
            ) == self.piece_bit_after(m, p, i) by {
                assert(result.piece_bits(p) == placed0.piece_bits(p));
                assert(has_bit(placed0.piece_bits(p), (i) as u64) == self.piece_bit_after(
                    m,
                    p,
                    i,
                ));
            }
            assert forall|c: int, i: int|
                0 <= c < 2 && 0 <= i < 64 implies #[trigger] has_bit(
                result.color_bits(c),
                i as u64,
            ) == self.color_bit_after(m, c, i) by {
                assert(result.color_bits(c) == placed0.color_bits(c));
                assert(has_bit(placed0.color_bits(c), (i) as u64) == self.color_bit_after(
                    m,
                    c,
                    i,
                ));
            }
            assert forall|i: int|
                0 <= i < 64 implies #[trigger] has_bit(result.occ(), i as u64) == (
                self.color_bit_after(m, 0, i) || self.color_bit_after(m, 1, i)) by {
                assert(has_bit(placed0.occ(), (i) as u64) == (self.color_bit_after(m, 0, i)
                    || self.color_bit_after(m, 1, i)));
            }
            lemma_move_wf(*self, m, result);
            assert(pop64(result.kings.0 & result.color_bits(result.side_to_move.idx()))
                == 1) by {
                if result.side_to_move is White {
                    assert(result.color_bits(0) == result.white.0);
                } else {
                    assert(result.color_bits(1) == result.black.0);
                }
            }
        }
        let ghost cnew = result.side_to_move.idx();
        let moved_is_knight = matches!(m.promotion, Some(Piece::Knight)) || (
        self.get_piece_bitboard(Piece::Knight).has_square(m.source.to_index()));
        let moved_is_pawn = self.get_piece_bitboard(Piece::Pawn).has_square(
            m.source.to_index(),
        ) && m.promotion.is_none();

        let enemy_king = result.get_piece_bitboard(Piece::King).and(
            result.get_color_bitboard(self.side_to_move.flip()),
        );
        proof {
            assert(enemy_king.0 == result.kings.0 & result.color_bits(cnew)) by {
                if result.side_to_move is White {
                    assert(enemy_king.0 == result.kings.0 & result.white.0);
                } else {
                    assert(enemy_king.0 == result.kings.0 & result.black.0);
                }
            }
            crate::bits::lemma_pop_zero(enemy_king.0);
        }
        let enemy_king_sq = enemy_king.to_square();
        proof {
            crate::bits::lemma_nonzero_lowest(enemy_king.0);
            let tz = vstd::std_specs::bits::u64_trailing_zeros(enemy_king.0) as int;
            assert(enemy_king_sq.idx() == tz) by {
                if enemy_king_sq.idx() < tz {
                    assert(!has_bit(enemy_king.0, enemy_king_sq.idx() as u64));
                }
                if tz < enemy_king_sq.idx() {
                    assert(!enemy_king.has(tz));
                    assert(has_bit(enemy_king.0, tz as u64));
                }
            }
            assert(enemy_king_sq.idx() == result.king_sq(cnew));
        }
        let ghost flipped = result;
        let threats = result.scan_king_threats(tables, result.side_to_move());
        let slider_checkers = threats.0;
        let pinned_raw = threats.1;
        let dest_bb = BitBoard::from_square(m.dest);
        let mut contribution = BitBoard(0);
        if moved_is_knight {
            contribution = tables.get_knight_moves(enemy_king_sq).and(dest_bb);
        } else if moved_is_pawn {
            contribution = tables.get_pawn_attacks(
                enemy_king_sq,
                self.side_to_move.flip(),
                dest_bb,
            );
        }
        let checkers = slider_checkers.or(contribution);
        // Cut the raw masks to the sides the fields mean.
        result.pinned_bitboard = pinned_raw.and(
            result.get_color_bitboard(self.side_to_move.flip()),
        );
        result.checkers_bitboard = checkers.and(
            result.get_color_bitboard(self.side_to_move),
        );
        proof {
            assert(result.pawns == flipped.pawns && result.knights == flipped.knights
                && result.bishops == flipped.bishops && result.rooks == flipped.rooks
                && result.queens == flipped.queens && result.kings == flipped.kings
                && result.white == flipped.white && result.black == flipped.black
                && result.combined_bitboard == flipped.combined_bitboard
                && result.en_passant == flipped.en_passant && result.castle_rights
                == flipped.castle_rights && result.side_to_move == flipped.side_to_move);
            assert forall|p: int, i: int|
                0 <= p < 6 && 0 <= i < 64 implies #[trigger] has_bit(
                result.piece_bits(p),
                i as u64,
            ) == self.piece_bit_after(m, p, i) by {
                assert(result.piece_bits(p) == flipped.piece_bits(p));
                assert(has_bit(flipped.piece_bits(p), (i) as u64) == self.piece_bit_after(
                    m,
                    p,
                    i,
                ));
            }
            assert forall|c: int, i: int|
                0 <= c < 2 && 0 <= i < 64 implies #[trigger] has_bit(
                result.color_bits(c),
                i as u64,
            ) == self.color_bit_after(m, c, i) by {
                assert(result.color_bits(c) == flipped.color_bits(c));
                assert(has_bit(flipped.color_bits(c), (i) as u64) == self.color_bit_after(
                    m,
                    c,
                    i,
                ));
            }
            assert forall|i: int|
                0 <= i < 64 implies #[trigger] has_bit(result.occ(), i as u64) == (
                self.color_bit_after(m, 0, i) || self.color_bit_after(m, 1, i)) by {
                assert(result.occ() == flipped.occ());
                assert(has_bit(flipped.occ(), (i) as u64) == (self.color_bit_after(m, 0, i)
                    || self.color_bit_after(m, 1, i)));
            }
            lemma_move_wf(*self, m, result);
            let K = flipped.king_sq(cnew);
            lemma_threats_agree(flipped, result, cnew, K);
            assert(result.king_sq(cnew) == K);
            assert(result.mine() == result.color_bits(cnew) && result.theirs()
                == result.color_bits(1 - cnew) && 1 - cnew == self.side_to_move.idx());
            assert forall|u: int|
                0 <= u < 64 implies #[trigger] has_bit(result.pinned_bitboard.0, u as u64) == (
                has_bit(result.mine(), u as u64) && (exists|a: int|
                    0 <= a < 64 && #[trigger] result.pins_through(cnew, a, K, u))) by {
                assert(result.pinned_bitboard.has(u) == (pinned_raw.has(u) && has_bit(
                    result.color_bits(cnew),
                    u as u64,
                )));
                assert(has_bit(pinned_raw.0, u as u64) == exists|a: int|
                    0 <= a < 64 && #[trigger] flipped.pins_through(cnew, a, K, u));
                if exists|a: int| 0 <= a < 64 && #[trigger] flipped.pins_through(cnew, a, K, u) {
                    let a = choose|a: int|
                        0 <= a < 64 && #[trigger] flipped.pins_through(cnew, a, K, u);
                    assert(result.pins_through(cnew, a, K, u));
                }
                if exists|a: int| 0 <= a < 64 && #[trigger] result.pins_through(cnew, a, K, u) {
                    let a = choose|a: int|
                        0 <= a < 64 && #[trigger] result.pins_through(cnew, a, K, u);
                    assert(flipped.pins_through(cnew, a, K, u));
                }
            }
            assert forall|i: int|
                0 <= i < 64 implies #[trigger] has_bit(result.checkers_bitboard.0, i as u64)
                == (result.slider_checks(cnew, i, K) || (i == m.dest.idx() && (m.promotion
                == Some(Piece::Knight) || has_bit(self.knights.0, m.source.idx() as u64))
                && knight_cond(K, m.dest.idx())) || (i == m.dest.idx() && has_bit(
                self.pawns.0,
                m.source.idx() as u64,
            ) && m.promotion is None && !(m.promotion == Some(Piece::Knight) || has_bit(
                self.knights.0,
                m.source.idx() as u64,
            )) && crate::geometry::pawn_attack_cond(
                self.side_to_move is Black,
                K,
                m.dest.idx(),
            ))) by {
                assert(result.checkers_bitboard.has(i) == ((slider_checkers.has(i)
                    || contribution.has(i)) && has_bit(
                    result.color_bits(1 - cnew),
                    i as u64,
                )));
                assert(has_bit(slider_checkers.0, i as u64) == flipped.slider_checks(
                    cnew,
                    i,
                    K,
                ));
                assert(flipped.slider_checks(cnew, i, K) == result.slider_checks(cnew, i, K));
                if result.slider_checks(cnew, i, K) {
                    assert(result.aims_at(cnew, i, K));
                    assert(has_bit(result.color_bits(1 - cnew), i as u64));
                }
                assert(has_bit(result.color_bits(1 - cnew), (m.dest.idx()) as u64)
                    == self.color_bit_after(m, self.side_to_move.idx(), m.dest.idx()));
                assert(dest_bb.has(i) == (i == m.dest.idx()));
                assert((self.side_to_move.spec_flip() is White) == (
                self.side_to_move is Black));
                if moved_is_knight {
                    assert(contribution.has(i) == (on_board(i) && knight_cond(
                        enemy_king_sq.idx(),
                        i,
                    ) && dest_bb.has(i)));
                    assert(knight_cond(K, m.dest.idx()) == knight_cond(m.dest.idx(), K));
                } else if moved_is_pawn {
                    assert(contribution.has(i) == (crate::geometry::pawn_attack_cond(
                        self.side_to_move.spec_flip() is White,
                        enemy_king_sq.idx(),
                        i,
                    ) && dest_bb.has(i)));
                } else {
                    assert(!contribution.has(i)) by {
                        assert(!has_bit(0u64, i as u64));
                    }
                }
            }
            // The recorded passed square, restated over the flipped
            // side: the capturing pawns are now the mover's opponents.
            assert(result.mine() == placed0.theirs() && result.theirs() == placed0.mine()
                && result.pawns == placed0.pawns && result.occ() == placed0.occ());
            let d = m.dest.idx();
            let e = d - self.dir();
            assert((result.en_passant is Some) == (self.is_double_push(m) && (exists|u: int|
                0 <= u < 64 && rk(u) == rk(d) && absi(fl(u) - fl(d)) == 1 && #[trigger] has_bit(
                    result.pawns.0 & result.mine(),
                    u as u64,
                )))) by {
                if self.is_double_push(m) {
                    assert(has_bit(self.pawns.0, m.source.idx() as u64));
                    assert(self.pawn_move_ok(m.source.idx(), d));
                    assert(d == m.source.idx() + 2 * self.dir() && rk(m.source.idx()) == (
                    if self.side_to_move is White {
                        1int
                    } else {
                        6int
                    }));
                    assert(rk(e) == (if placed0.side_to_move is White {
                        2int
                    } else {
                        5int
                    }) && fl(e) == fl(d) && e + self.dir() == d);
                    if placed0.ep_settable(e) {
                        let u = choose|u: int|
                            on_board(u) && rk(u) == rk(d) && absi(fl(u) - fl(e)) == 1
                                && #[trigger] has_bit(
                                placed0.pawns.0 & placed0.theirs(),
                                u as u64,
                            );
                        assert(has_bit(result.pawns.0 & result.mine(), u as u64));
                    }
                    if exists|u: int|
                        0 <= u < 64 && rk(u) == rk(d) && absi(fl(u) - fl(d)) == 1
                            && #[trigger] has_bit(result.pawns.0 & result.mine(), u as u64) {
                        let u = choose|u: int|
                            0 <= u < 64 && rk(u) == rk(d) && absi(fl(u) - fl(d)) == 1
                                && #[trigger] has_bit(
                                result.pawns.0 & result.mine(),
                                u as u64,
                            );
                        assert(placed0.ep_settable(e)) by {
                            assert(has_bit(placed0.pawns.0 & placed0.theirs(), u as u64));
                            assert(has_bit(placed0.piece_bits(0), (d) as u64)
                                == self.piece_bit_after(m, 0, d));
                            assert(has_bit(placed0.color_bits(self.side_to_move.idx()), (
                            d) as u64) == self.color_bit_after(m, self.side_to_move.idx(), d));
                            assert(self.placed_idx(m) == 0);
                            assert(has_bit(placed0.pawns.0 & placed0.mine(), d as u64)) by {
                                assert(placed0.piece_bits(0) == placed0.pawns.0);
                                assert(placed0.color_bits(self.side_to_move.idx())
                                    == placed0.mine());
                            }
                            assert(!has_bit(placed0.occ(), e as u64)) by {
                                assert(has_bit(placed0.occ(), (e) as u64) == (
                                self.color_bit_after(m, 0, e) || self.color_bit_after(m, 1, e)));
                                assert(!has_bit(self.occ(), e as u64));
                                assert(e != m.source.idx() && e != d);
                                assert(!self.is_ep_capture(m) && !self.is_castle(m));
                                assert(!has_bit(self.white.0, e as u64) && !has_bit(
                                    self.black.0,
                                    e as u64,
                                ));
                            }
                        }
                    }
                }
            }
            // The derived masks point at the right sides by construction.
            assert forall|i: u64|
                i < 64 && #[trigger] has_bit(result.pinned_bitboard.0, i) implies has_bit(
                result.mine(),
                i,
            ) by {
                assert(result.pinned_bitboard.has(i as int));
            }
            assert forall|i: u64|
                i < 64 && #[trigger] has_bit(result.checkers_bitboard.0, i) implies has_bit(
                result.theirs(),
                i,
            ) by {
                assert(result.checkers_bitboard.has(i as int));
            }
            // A recorded passed square carries its conditions over the flip.
            assert(result.ep_ok()) by {
                match result.en_passant {
                    Some(e) => {
                        assert(placed0.ep_settable(e.idx()));
                        assert(result.pawns == placed0.pawns && result.white == placed0.white
                            && result.black == placed0.black && result.combined_bitboard
                            == placed0.combined_bitboard);
                        assert(placed0.side_to_move == self.side_to_move);
                        assert(result.side_to_move == self.side_to_move.spec_flip());
                        let fwd = e.idx() + (if placed0.side_to_move is White {
                            8int
                        } else {
                            -8int
                        });
                        assert(has_bit(placed0.pawns.0 & placed0.mine(), fwd as u64));
                        assert(!has_bit(placed0.occ(), e.idx() as u64));
                        let u = choose|u: int|
                            on_board(u) && rk(u) == rk(fwd) && absi(fl(u) - fl(e.idx())) == 1
                                && #[trigger] has_bit(
                                placed0.pawns.0 & placed0.theirs(),
                                u as u64,
                            );
                        assert(has_bit(result.pawns.0 & result.mine(), u as u64));
                        assert(has_bit(result.pawns.0 & result.theirs(), fwd as u64));
                    },
                    None => {},
                }
            }
            assert(result.wf());
        }
        result
    }
}


} // verus!
