//! The precomputed tables: slider rays, lines and between-masks per
//! square pair, leaper and pawn steps, rank and file masks, and the
//! magic records for the hashed slider-attack lookup.

use vstd::prelude::*;
use vstd::arithmetic::power2::pow2;
use crate::bitboard::BitBoard;
use crate::bits::has_bit;
use crate::color::Color;
use crate::file::File;
use crate::geometry::{rk, fl, on_board, absi, rook_ray_cond, bishop_ray_cond, line_cond,
    between_cond, knight_cond, king_cond, mask_cond, pawn_push_cond, pawn_attack_cond,
    castle_sq_cond, slider_reach};
use crate::rank::Rank;
use crate::square::Square;

verus! {

broadcast use crate::bits::group_has_lemmas;

/// One magic record: the hash multiplier, the interior blocker mask, the
/// slot of this square's block in the shared attack table, and the right
/// shift that narrows the hash to the block's width.
#[derive(Debug, Clone, Copy)]
pub struct Magic {
    pub magic_number: BitBoard,
    pub mask: BitBoard,
    pub offset: usize,
    pub rightshift: u8,
}

/// Product of two 64-bit values, wrapping around.
pub open spec fn wmul(a: u64, b: u64) -> u64 {
    ((a as nat * b as nat) % 0x1_0000_0000_0000_0000nat) as u64
}

/// The slot of the shared attack table that the magic record sends an
/// occupancy to.
pub open spec fn magic_index(m: Magic, occ: u64) -> int {
    m.offset + (wmul(occ & m.mask.0, m.magic_number.0) >> (m.rightshift as u64)) as int
}

/// The magic record of one square hashes every blocker subset of its
/// mask to a table slot whose entry, cut to the square's ray, is exactly
/// the attack set under those blockers.
pub open spec fn magic_entry_ok(m: Magic, diagonal: bool, s: int, moves: Seq<u64>) -> bool {
    &&& forall|t: int|
        0 <= t < 64 ==> (#[trigger] has_bit(m.mask.0, t as u64) == mask_cond(diagonal, s, t))
    &&& m.rightshift < 64
    &&& m.offset as int + pow2((64 - m.rightshift) as nat) <= moves.len()
    &&& forall|b: u64, t: int|
        #![trigger has_bit(moves[magic_index(m, b)], t as u64), slider_reach(diagonal, s, b, t)]
        (b & m.mask.0 == b && 0 <= t < 64) ==> ((has_bit(moves[magic_index(m, b)], t as u64)
            && (if diagonal {
            bishop_ray_cond(s, t)
        } else {
            rook_ray_cond(s, t)
        })) == slider_reach(diagonal, s, b, t))
}

/// The precomputed tables. Built once at start; read-only afterwards.
pub struct Tables {
    pub rook_rays: Vec<u64>,
    pub bishop_rays: Vec<u64>,
    pub lines: Vec<u64>,
    pub between: Vec<u64>,
    pub knight_moves: Vec<u64>,
    pub king_moves: Vec<u64>,
    pub pawn_moves: Vec<u64>,
    pub pawn_attacks: Vec<u64>,
    pub ranks: Vec<u64>,
    pub adjacent_files: Vec<u64>,
    pub rook_magics: Vec<Magic>,
    pub bishop_magics: Vec<Magic>,
    pub moves: Vec<u64>,
}

impl Tables {
    /// Every geometric table holds what its defining condition says,
    /// square by square and bit by bit.
    pub open spec fn geom_wf(self) -> bool {
        &&& self.rook_rays@.len() == 64
        &&& self.bishop_rays@.len() == 64
        &&& self.lines@.len() == 64 * 64
        &&& self.between@.len() == 64 * 64
        &&& self.knight_moves@.len() == 64
        &&& self.king_moves@.len() == 64
        &&& self.pawn_moves@.len() == 2 * 64
        &&& self.pawn_attacks@.len() == 2 * 64
        &&& self.ranks@.len() == 8
        &&& self.adjacent_files@.len() == 8
        &&& forall|s: int, t: int|
            0 <= s < 64 && 0 <= t < 64 ==> (#[trigger] has_bit(self.rook_rays@[s], t as u64)
                == rook_ray_cond(s, t))
        &&& forall|s: int, t: int|
            0 <= s < 64 && 0 <= t < 64 ==> (#[trigger] has_bit(self.bishop_rays@[s], t as u64)
                == bishop_ray_cond(s, t))
        &&& forall|a: int, b: int, t: int|
            0 <= a < 64 && 0 <= b < 64 && 0 <= t < 64 ==> (#[trigger] has_bit(
                self.lines@[a * 64 + b],
                t as u64,
            ) == line_cond(a, b, t))
        &&& forall|a: int, b: int, t: int|
            0 <= a < 64 && 0 <= b < 64 && 0 <= t < 64 ==> (#[trigger] has_bit(
                self.between@[a * 64 + b],
                t as u64,
            ) == between_cond(a, b, t))
        &&& forall|s: int, t: int|
            0 <= s < 64 && 0 <= t < 64 ==> (#[trigger] has_bit(self.knight_moves@[s], t as u64)
                == knight_cond(s, t))
        &&& forall|s: int, t: int|
            0 <= s < 64 && 0 <= t < 64 ==> (#[trigger] has_bit(self.king_moves@[s], t as u64)
                == king_cond(s, t))
        &&& forall|c: int, s: int, t: int|
            0 <= c < 2 && 0 <= s < 64 && 0 <= t < 64 ==> (#[trigger] has_bit(
                self.pawn_moves@[c * 64 + s],
                t as u64,
            ) == pawn_push_cond(c == 0, s, t))
        &&& forall|c: int, s: int, t: int|
            0 <= c < 2 && 0 <= s < 64 && 0 <= t < 64 ==> (#[trigger] has_bit(
                self.pawn_attacks@[c * 64 + s],
                t as u64,
            ) == pawn_attack_cond(c == 0, s, t))
        &&& forall|r: int, t: int|
            0 <= r < 8 && 0 <= t < 64 ==> (#[trigger] has_bit(self.ranks@[r], t as u64) == (rk(t)
                == r))
        &&& forall|f: int, t: int|
            0 <= f < 8 && 0 <= t < 64 ==> (#[trigger] has_bit(self.adjacent_files@[f], t as u64)
                == (absi(fl(t) - f) == 1))
    }

    /// The geometric tables hold their conditions, and every magic
    /// record hashes its blocker subsets to correct attack entries.
    pub open spec fn wf(self) -> bool {
        &&& self.geom_wf()
        &&& self.rook_magics@.len() == 64
        &&& self.bishop_magics@.len() == 64
        &&& forall|s: int|
            0 <= s < 64 ==> magic_entry_ok(#[trigger] self.rook_magics@[s], false, s, self.moves@)
        &&& forall|s: int|
            0 <= s < 64 ==> magic_entry_ok(
                #[trigger] self.bishop_magics@[s],
                true,
                s,
                self.moves@,
            )
    }

    /// The full rook ray through `square` over an empty board.
    pub fn get_rook_rays(&self, square: Square) -> (r: BitBoard)
        requires
            self.geom_wf(),
        ensures
            forall|t: int| #[trigger] r.has(t) == (on_board(t) && rook_ray_cond(square.idx(), t)),
    {
        BitBoard(self.rook_rays[square.to_index()])
    }

    /// The full bishop ray through `square` over an empty board.
    pub fn get_bishop_rays(&self, square: Square) -> (r: BitBoard)
        requires
            self.geom_wf(),
        ensures
            forall|t: int| #[trigger] r.has(t) == (on_board(t) && bishop_ray_cond(square.idx(), t)),
    {
        BitBoard(self.bishop_rays[square.to_index()])
    }

    /// The ray of the given slider through `square`.
    pub fn get_rays(&self, square: Square, piece: crate::pieces::Piece) -> (r: BitBoard)
        requires
            self.geom_wf(),
            piece is Rook || piece is Bishop,
        ensures
            piece is Rook ==> forall|t: int| #[trigger] r.has(t) == (on_board(t) && rook_ray_cond(square.idx(), t)),
            piece is Bishop ==> forall|t: int| #[trigger] r.has(t) == (on_board(t)
                && bishop_ray_cond(square.idx(), t)),
    {
        match piece {
            crate::pieces::Piece::Rook => self.get_rook_rays(square),
            _ => self.get_bishop_rays(square),
        }
    }

    /// The full rank, file or diagonal through the two squares, empty
    /// when they are not aligned.
    pub fn get_line(&self, sq_1: Square, sq_2: Square) -> (r: BitBoard)
        requires
            self.geom_wf(),
        ensures
            forall|t: int| #[trigger] r.has(t) == (on_board(t) && line_cond(sq_1.idx(), sq_2.idx(), t)),
    {
        BitBoard(self.lines[sq_1.to_index() * 64 + sq_2.to_index()])
    }

    /// The squares strictly between the two squares, empty when they are
    /// not aligned.
    pub fn get_between(&self, sq_1: Square, sq_2: Square) -> (r: BitBoard)
        requires
            self.geom_wf(),
        ensures
            forall|t: int| #[trigger] r.has(t) == (on_board(t) && between_cond(sq_1.idx(), sq_2.idx(), t)),
    {
        BitBoard(self.between[sq_1.to_index() * 64 + sq_2.to_index()])
    }

    /// The knight's jumps from `square`.
    pub fn get_knight_moves(&self, square: Square) -> (r: BitBoard)
        requires
            self.geom_wf(),
        ensures
            forall|t: int| #[trigger] r.has(t) == (on_board(t) && knight_cond(square.idx(), t)),
    {
        BitBoard(self.knight_moves[square.to_index()])
    }

    /// The king's steps from `square`.
    pub fn get_king_moves(&self, sq: Square) -> (r: BitBoard)
        requires
            self.geom_wf(),
        ensures
            forall|t: int| #[trigger] r.has(t) == (on_board(t) && king_cond(sq.idx(), t)),
    {
        BitBoard(self.king_moves[sq.to_index()])
    }

    /// The squares a pawn of `color` on `square` attacks, cut to
    /// `blockers`.
    pub fn get_pawn_attacks(&self, square: Square, color: Color, blockers: BitBoard) -> (r:
        BitBoard)
        requires
            self.geom_wf(),
        ensures
            forall|t: int| #[trigger] r.has(t) == (pawn_attack_cond(
                color is White,
                square.idx(),
                t,
            ) && blockers.has(t)),
    {
        BitBoard(self.pawn_attacks[color.to_index() * 64 + square.to_index()]).and(blockers)
    }

    /// The forward pushes of a pawn of `color` on `sq`: one step onto an
    /// empty square, or two from the starting rank when both squares are
    /// empty.
    fn get_pawn_forward_moves(&self, sq: Square, color: Color, blockers: BitBoard) -> (r:
        BitBoard)
        requires
            self.geom_wf(),
            color is White ==> sq.idx() / 8 != 7,
            color is Black ==> sq.idx() / 8 != 0,
        ensures
            forall|t: int| #[trigger] r.has(t) == (on_board(t) && pawn_push_cond(
                color is White,
                sq.idx(),
                t,
            ) && !blockers.has(t) && !blockers.has(
                sq.idx() + (if color is White {
                    8int
                } else {
                    -8int
                }),
            )),
    {
        let fwd = match sq.forward(color) {
            Some(f) => f,
            None => sq,  // ruled out by the rank bound
        };
        let probe = BitBoard::from_square(fwd).and(blockers);
        if !probe.is_empty() {
            proof {
                crate::bits::lemma_nonzero_lowest(probe.0);
                let tz: u64 = vstd::std_specs::bits::u64_trailing_zeros(probe.0) as u64;
                assert(has_bit(probe.0, tz));
                assert(probe.has(tz as int));
                assert(blockers.has(fwd.idx()));
            }
            BitBoard(0)
        } else {
            let r = BitBoard(self.pawn_moves[color.to_index() * 64 + sq.to_index()]).and(
                blockers.complement(),
            );
            proof {
                assert(!probe.has(fwd.idx()));
                assert(!blockers.has(fwd.idx()));
                assert forall|t: int| #[trigger] r.has(t) == (on_board(t) && pawn_push_cond(
                    color is White,
                    sq.idx(),
                    t,
                ) && !blockers.has(t) && !blockers.has(
                    sq.idx() + (if color is White {
                        8int
                    } else {
                        -8int
                    }),
                )) by {
                    if 0 <= t < 64 {
                        assert(has_bit(
                            self.pawn_moves@[color.idx() * 64 + sq.idx()],
                            t as u64,
                        ) == pawn_push_cond(color is White, sq.idx(), t));
                    }
                }
            }
            r
        }
    }

    /// Every pawn move from `sq`: diagonal captures onto `blockers` and
    /// forward pushes onto empty squares.
    pub fn get_pawn_moves(&self, sq: Square, color: Color, blockers: BitBoard) -> (r: BitBoard)
        requires
            self.geom_wf(),
            color is White ==> sq.idx() / 8 != 7,
            color is Black ==> sq.idx() / 8 != 0,
        ensures
            forall|t: int| #[trigger] r.has(t) == ((pawn_attack_cond(
                color is White,
                sq.idx(),
                t,
            ) && blockers.has(t)) || (on_board(t) && pawn_push_cond(color is White, sq.idx(), t)
                && !blockers.has(t) && !blockers.has(
                sq.idx() + (if color is White {
                    8int
                } else {
                    -8int
                }),
            ))),
    {
        self.get_pawn_attacks(sq, color, blockers).xor(
            self.get_pawn_forward_moves(sq, color, blockers),
        )
    }

    /// The squares a pawn stands on before a double push: ranks two and
    /// seven.
    pub fn get_pawn_source_double_moves(&self) -> (r: BitBoard)
        ensures
            forall|t: int| #[trigger] r.has(t) == (on_board(t) && (rk(t) == 1 || rk(t) == 6)),
    {
        let r = BitBoard(0x00ff_0000_0000_ff00u64);
        proof {
            assert(forall|j: u64|
                j < 64 ==> (#[trigger] has_bit(0x00ff_0000_0000_ff00u64, j) == (j / 8 == 1 || j
                    / 8 == 6))) by (bit_vector);
        }
        r
    }

    /// The squares a double push lands on: ranks four and five.
    pub fn get_pawn_dest_double_moves(&self) -> (r: BitBoard)
        ensures
            forall|t: int| #[trigger] r.has(t) == (on_board(t) && (rk(t) == 3 || rk(t) == 4)),
    {
        let r = BitBoard(0x0000_00ff_ff00_0000u64);
        proof {
            assert(forall|j: u64|
                j < 64 ==> (#[trigger] has_bit(0x0000_00ff_ff00_0000u64, j) == (j / 8 == 3 || j
                    / 8 == 4))) by (bit_vector);
        }
        r
    }

    /// All squares of the given rank.
    pub fn get_rank_bitboard(&self, rank: Rank) -> (r: BitBoard)
        requires
            self.geom_wf(),
        ensures
            forall|t: int| #[trigger] r.has(t) == (on_board(t) && rk(t) == rank.idx()),
    {
        BitBoard(self.ranks[rank.to_index()])
    }

    /// All squares of the two files neighboring the given file.
    pub fn get_adjacent_files(&self, file: File) -> (r: BitBoard)
        requires
            self.geom_wf(),
        ensures
            forall|t: int| #[trigger] r.has(t) == (on_board(t) && absi(fl(t) - file.idx()) == 1),
    {
        BitBoard(self.adjacent_files[file.to_index()])
    }

    /// The six squares a king stands on before or after castling.
    pub fn get_castle_squares(&self) -> (r: BitBoard)
        ensures
            forall|t: int| #[trigger] r.has(t) == castle_sq_cond(t),
    {
        let r = BitBoard(0x5400_0000_0000_0054u64);
        proof {
            assert(forall|j: u64|
                j < 64 ==> (#[trigger] has_bit(0x5400_0000_0000_0054u64, j) == (j == 2 || j == 4
                    || j == 6 || j == 58 || j == 60 || j == 62))) by (bit_vector);
        }
        r
    }
}

/// The knight table is symmetric: a knight on `a` reaches `b` exactly
/// when a knight on `b` reaches `a`.
pub proof fn lemma_knight_table_symmetric(t: Tables, a: int, b: int)
    requires
        t.geom_wf(),
        0 <= a < 64,
        0 <= b < 64,
    ensures
        has_bit(t.knight_moves@[a], b as u64) == has_bit(t.knight_moves@[b], a as u64),
{
    assert(knight_cond(a, b) == knight_cond(b, a));
}

/// The king table is symmetric: a king on `a` reaches `b` exactly when
/// a king on `b` reaches `a`.
pub proof fn lemma_king_table_symmetric(t: Tables, a: int, b: int)
    requires
        t.geom_wf(),
        0 <= a < 64,
        0 <= b < 64,
    ensures
        has_bit(t.king_moves@[a], b as u64) == has_bit(t.king_moves@[b], a as u64),
{
    assert(king_cond(a, b) == king_cond(b, a));
}

/// Sets bit `t` of `row` when `cond` holds; the rest of the row stays.
fn set_row_bit(row: u64, t: usize, cond: bool) -> (r: u64)
    requires
        t < 64,
    ensures
        forall|j: u64| j < 64 ==> #[trigger] has_bit(r, j) == (has_bit(row, j) || (cond && j == t)),
{
    if cond {
        row | (1u64 << (t as u64))
    } else {
        row
    }
}

impl Tables {
    pub(crate) fn build_rook_rays() -> (v: Vec<u64>)
        ensures
            v@.len() == 64,
            forall|s: int, t: int|
                0 <= s < 64 && 0 <= t < 64 ==> (#[trigger] has_bit(v@[s], t as u64)
                    == rook_ray_cond(s, t)),
    {
        let mut v: Vec<u64> = Vec::new();
        for s in 0..64usize
            invariant
                v@.len() == s,
                forall|a: int, t: int|
                    0 <= a < s as int && 0 <= t < 64 ==> (#[trigger] has_bit(v@[a], t as u64)
                        == rook_ray_cond(a, t)),
        {
            let mut row: u64 = 0;
            for t in 0..64usize
                invariant
                    s < 64,
                    forall|j: u64| j < 64 ==> #[trigger] has_bit(row, j) == (j < t && rook_ray_cond(
                        s as int,
                        j as int,
                    )),
            {
                let c = t != s && (t / 8 == s / 8 || t % 8 == s % 8);
                row = set_row_bit(row, t, c);
            }
            v.push(row);
        }
        v
    }

    pub(crate) fn build_bishop_rays() -> (v: Vec<u64>)
        ensures
            v@.len() == 64,
            forall|s: int, t: int|
                0 <= s < 64 && 0 <= t < 64 ==> (#[trigger] has_bit(v@[s], t as u64)
                    == bishop_ray_cond(s, t)),
    {
        let mut v: Vec<u64> = Vec::new();
        for s in 0..64usize
            invariant
                v@.len() == s,
                forall|a: int, t: int|
                    0 <= a < s as int && 0 <= t < 64 ==> (#[trigger] has_bit(v@[a], t as u64)
                        == bishop_ray_cond(a, t)),
        {
            let mut row: u64 = 0;
            for t in 0..64usize
                invariant
                    s < 64,
                    forall|j: u64|
                        j < 64 ==> #[trigger] has_bit(row, j) == (j < t && bishop_ray_cond(
                            s as int,
                            j as int,
                        )),
            {
                let dr = absdiff(s / 8, t / 8);
                let df = absdiff(s % 8, t % 8);
                let c = t != s && dr == df;
                row = set_row_bit(row, t, c);
            }
            v.push(row);
        }
        v
    }

    pub(crate) fn build_lines() -> (v: Vec<u64>)
        ensures
            v@.len() == 64 * 64,
            forall|a: int, b: int, t: int|
                0 <= a < 64 && 0 <= b < 64 && 0 <= t < 64 ==> (#[trigger] has_bit(
                    v@[a * 64 + b],
                    t as u64,
                ) == line_cond(a, b, t)),
    {
        let mut v: Vec<u64> = Vec::new();
        for a in 0..64usize
            invariant
                v@.len() == a * 64,
                forall|x: int, b: int, t: int|
                    0 <= x < a as int && 0 <= b < 64 && 0 <= t < 64 ==> (#[trigger] has_bit(
                        v@[x * 64 + b],
                        t as u64,
                    ) == line_cond(x, b, t)),
        {
            for b in 0..64usize
                invariant
                    a < 64,
                    v@.len() == a * 64 + b,
                    forall|x: int, y: int, t: int|
                        0 <= x < 64 && 0 <= y < 64 && x * 64 + y < v@.len() && 0 <= t < 64 ==> (
                        #[trigger] has_bit(v@[x * 64 + y], t as u64) == line_cond(x, y, t)),
            {
                let mut row: u64 = 0;
                for t in 0..64usize
                    invariant
                        a < 64,
                        b < 64,
                        forall|j: u64| j < 64 ==> #[trigger] has_bit(row, j) == (j < t && line_cond(
                            a as int,
                            b as int,
                            j as int,
                        )),
                {
                    let c = line_at(a, b, t);
                    row = set_row_bit(row, t, c);
                }
                v.push(row);
                proof {
                    assert forall|x: int, y: int, t: int|
                        0 <= x < 64 && 0 <= y < 64 && x * 64 + y < v@.len() && 0 <= t
                            < 64 implies (#[trigger] has_bit(v@[x * 64 + y], t as u64)
                        == line_cond(x, y, t)) by {
                        if x * 64 + y < v@.len() - 1 {
                        } else {
                            assert(x == a as int && y == b as int) by (nonlinear_arith)
                                requires
                                    0 <= x < 64 && 0 <= y < 64 && x * 64 + y == (a as int) * 64
                                        + b as int && a < 64 && b < 64,
                            ;
                        }
                    }
                }
            }
        }
        v
    }

    pub(crate) fn build_between() -> (v: Vec<u64>)
        ensures
            v@.len() == 64 * 64,
            forall|a: int, b: int, t: int|
                0 <= a < 64 && 0 <= b < 64 && 0 <= t < 64 ==> (#[trigger] has_bit(
                    v@[a * 64 + b],
                    t as u64,
                ) == between_cond(a, b, t)),
    {
        let mut v: Vec<u64> = Vec::new();
        for a in 0..64usize
            invariant
                v@.len() == a * 64,
                forall|x: int, b: int, t: int|
                    0 <= x < a as int && 0 <= b < 64 && 0 <= t < 64 ==> (#[trigger] has_bit(
                        v@[x * 64 + b],
                        t as u64,
                    ) == between_cond(x, b, t)),
        {
            for b in 0..64usize
                invariant
                    a < 64,
                    v@.len() == a * 64 + b,
                    forall|x: int, y: int, t: int|
                        0 <= x < 64 && 0 <= y < 64 && x * 64 + y < v@.len() && 0 <= t < 64 ==> (
                        #[trigger] has_bit(v@[x * 64 + y], t as u64) == between_cond(x, y, t)),
            {
                let mut row: u64 = 0;
                for t in 0..64usize
                    invariant
                        a < 64,
                        b < 64,
                        forall|j: u64|
                            j < 64 ==> #[trigger] has_bit(row, j) == (j < t && between_cond(
                                a as int,
                                b as int,
                                j as int,
                            )),
                {
                    let c = between_at(a, b, t);
                    row = set_row_bit(row, t, c);
                }
                v.push(row);
                proof {
                    assert forall|x: int, y: int, t: int|
                        0 <= x < 64 && 0 <= y < 64 && x * 64 + y < v@.len() && 0 <= t
                            < 64 implies (#[trigger] has_bit(v@[x * 64 + y], t as u64)
                        == between_cond(x, y, t)) by {
                        if x * 64 + y < v@.len() - 1 {
                        } else {
                            assert(x == a as int && y == b as int) by (nonlinear_arith)
                                requires
                                    0 <= x < 64 && 0 <= y < 64 && x * 64 + y == (a as int) * 64
                                        + b as int && a < 64 && b < 64,
                            ;
                        }
                    }
                }
            }
        }
        v
    }

    pub(crate) fn build_knight_moves() -> (v: Vec<u64>)
        ensures
            v@.len() == 64,
            forall|s: int, t: int|
                0 <= s < 64 && 0 <= t < 64 ==> (#[trigger] has_bit(v@[s], t as u64) == knight_cond(
                    s,
                    t,
                )),
    {
        let mut v: Vec<u64> = Vec::new();
        for s in 0..64usize
            invariant
                v@.len() == s,
                forall|a: int, t: int|
                    0 <= a < s as int && 0 <= t < 64 ==> (#[trigger] has_bit(v@[a], t as u64)
                        == knight_cond(a, t)),
        {
            let mut row: u64 = 0;
            for t in 0..64usize
                invariant
                    s < 64,
                    forall|j: u64| j < 64 ==> #[trigger] has_bit(row, j) == (j < t && knight_cond(
                        s as int,
                        j as int,
                    )),
            {
                let dr = absdiff(s / 8, t / 8);
                let df = absdiff(s % 8, t % 8);
                let c = (dr == 2 && df == 1) || (dr == 1 && df == 2);
                row = set_row_bit(row, t, c);
            }
            v.push(row);
        }
        v
    }

    pub(crate) fn build_king_moves() -> (v: Vec<u64>)
        ensures
            v@.len() == 64,
            forall|s: int, t: int|
                0 <= s < 64 && 0 <= t < 64 ==> (#[trigger] has_bit(v@[s], t as u64) == king_cond(
                    s,
                    t,
                )),
    {
        let mut v: Vec<u64> = Vec::new();
        for s in 0..64usize
            invariant
                v@.len() == s,
                forall|a: int, t: int|
                    0 <= a < s as int && 0 <= t < 64 ==> (#[trigger] has_bit(v@[a], t as u64)
                        == king_cond(a, t)),
        {
            let mut row: u64 = 0;
            for t in 0..64usize
                invariant
                    s < 64,
                    forall|j: u64| j < 64 ==> #[trigger] has_bit(row, j) == (j < t && king_cond(
                        s as int,
                        j as int,
                    )),
            {
                let dr = absdiff(s / 8, t / 8);
                let df = absdiff(s % 8, t % 8);
                let c = t != s && dr <= 1 && df <= 1;
                row = set_row_bit(row, t, c);
            }
            v.push(row);
        }
        v
    }

    pub(crate) fn build_pawn_moves() -> (v: Vec<u64>)
        ensures
            v@.len() == 2 * 64,
            forall|c: int, s: int, t: int|
                0 <= c < 2 && 0 <= s < 64 && 0 <= t < 64 ==> (#[trigger] has_bit(
                    v@[c * 64 + s],
                    t as u64,
                ) == pawn_push_cond(c == 0, s, t)),
    {
        let mut v: Vec<u64> = Vec::new();
        for c in 0..2usize
            invariant
                v@.len() == c * 64,
                forall|x: int, s: int, t: int|
                    0 <= x < c as int && 0 <= s < 64 && 0 <= t < 64 ==> (#[trigger] has_bit(
                        v@[x * 64 + s],
                        t as u64,
                    ) == pawn_push_cond(x == 0, s, t)),
        {
            for s in 0..64usize
                invariant
                    c < 2,
                    v@.len() == c * 64 + s,
                    forall|x: int, y: int, t: int|
                        0 <= x < 2 && 0 <= y < 64 && x * 64 + y < v@.len() && 0 <= t < 64 ==> (
                        #[trigger] has_bit(v@[x * 64 + y], t as u64) == pawn_push_cond(
                            x == 0,
                            y,
                            t,
                        )),
            {
                let mut row: u64 = 0;
                for t in 0..64usize
                    invariant
                        c < 2,
                        s < 64,
                        forall|j: u64|
                            j < 64 ==> #[trigger] has_bit(row, j) == (j < t && pawn_push_cond(
                                c == 0,
                                s as int,
                                j as int,
                            )),
                {
                    let cond = if c == 0 {
                        (s / 8 == 1 && (t == s + 8 || t == s + 16)) || (s / 8 != 1 && s / 8 != 7
                            && t == s + 8)
                    } else {
                        (s / 8 == 6 && (t + 8 == s || t + 16 == s)) || (s / 8 != 6 && s / 8 != 0
                            && t + 8 == s)
                    };
                    row = set_row_bit(row, t, cond);
                }
                v.push(row);
                proof {
                    assert forall|x: int, y: int, t: int|
                        0 <= x < 2 && 0 <= y < 64 && x * 64 + y < v@.len() && 0 <= t
                            < 64 implies (#[trigger] has_bit(v@[x * 64 + y], t as u64)
                        == pawn_push_cond(x == 0, y, t)) by {
                        if x * 64 + y == v@.len() - 1 {
                            assert(x == c as int && y == s as int) by (nonlinear_arith)
                                requires
                                    0 <= x < 2 && 0 <= y < 64 && x * 64 + y == (c as int) * 64
                                        + s as int && c < 2 && s < 64,
                            ;
                        }
                    }
                }
            }
        }
        v
    }

    pub(crate) fn build_pawn_attacks() -> (v: Vec<u64>)
        ensures
            v@.len() == 2 * 64,
            forall|c: int, s: int, t: int|
                0 <= c < 2 && 0 <= s < 64 && 0 <= t < 64 ==> (#[trigger] has_bit(
                    v@[c * 64 + s],
                    t as u64,
                ) == pawn_attack_cond(c == 0, s, t)),
    {
        let mut v: Vec<u64> = Vec::new();
        for c in 0..2usize
            invariant
                v@.len() == c * 64,
                forall|x: int, s: int, t: int|
                    0 <= x < c as int && 0 <= s < 64 && 0 <= t < 64 ==> (#[trigger] has_bit(
                        v@[x * 64 + s],
                        t as u64,
                    ) == pawn_attack_cond(x == 0, s, t)),
        {
            for s in 0..64usize
                invariant
                    c < 2,
                    v@.len() == c * 64 + s,
                    forall|x: int, y: int, t: int|
                        0 <= x < 2 && 0 <= y < 64 && x * 64 + y < v@.len() && 0 <= t < 64 ==> (
                        #[trigger] has_bit(v@[x * 64 + y], t as u64) == pawn_attack_cond(
                            x == 0,
                            y,
                            t,
                        )),
            {
                let mut row: u64 = 0;
                for t in 0..64usize
                    invariant
                        c < 2,
                        s < 64,
                        forall|j: u64|
                            j < 64 ==> #[trigger] has_bit(row, j) == (j < t && pawn_attack_cond(
                                c == 0,
                                s as int,
                                j as int,
                            )),
                {
                    let df = absdiff(s % 8, t % 8);
                    let cond = if c == 0 {
                        t / 8 == s / 8 + 1 && df == 1
                    } else {
                        t / 8 + 1 == s / 8 && df == 1
                    };
                    row = set_row_bit(row, t, cond);
                }
                v.push(row);
                proof {
                    assert forall|x: int, y: int, t: int|
                        0 <= x < 2 && 0 <= y < 64 && x * 64 + y < v@.len() && 0 <= t
                            < 64 implies (#[trigger] has_bit(v@[x * 64 + y], t as u64)
                        == pawn_attack_cond(x == 0, y, t)) by {
                        if x * 64 + y == v@.len() - 1 {
                            assert(x == c as int && y == s as int) by (nonlinear_arith)
                                requires
                                    0 <= x < 2 && 0 <= y < 64 && x * 64 + y == (c as int) * 64
                                        + s as int && c < 2 && s < 64,
                            ;
                        }
                    }
                }
            }
        }
        v
    }

    pub(crate) fn build_ranks() -> (v: Vec<u64>)
        ensures
            v@.len() == 8,
            forall|r: int, t: int|
                0 <= r < 8 && 0 <= t < 64 ==> (#[trigger] has_bit(v@[r], t as u64) == (rk(t)
                    == r)),
    {
        let mut v: Vec<u64> = Vec::new();
        for r in 0..8usize
            invariant
                v@.len() == r,
                forall|a: int, t: int|
                    0 <= a < r as int && 0 <= t < 64 ==> (#[trigger] has_bit(v@[a], t as u64) == (
                    rk(t) == a)),
        {
            let mut row: u64 = 0;
            for t in 0..64usize
                invariant
                    r < 8,
                    forall|j: u64| j < 64 ==> #[trigger] has_bit(row, j) == (j < t && j / 8
                        == r as u64),
            {
                row = set_row_bit(row, t, t / 8 == r);
            }
            v.push(row);
        }
        v
    }

    pub(crate) fn build_adjacent_files() -> (v: Vec<u64>)
        ensures
            v@.len() == 8,
            forall|f: int, t: int|
                0 <= f < 8 && 0 <= t < 64 ==> (#[trigger] has_bit(v@[f], t as u64) == (absi(
                    fl(t) - f,
                ) == 1)),
    {
        let mut v: Vec<u64> = Vec::new();
        for f in 0..8usize
            invariant
                v@.len() == f,
                forall|a: int, t: int|
                    0 <= a < f as int && 0 <= t < 64 ==> (#[trigger] has_bit(v@[a], t as u64) == (
                    absi(fl(t) - a) == 1)),
        {
            let mut row: u64 = 0;
            for t in 0..64usize
                invariant
                    f < 8,
                    forall|j: u64| j < 64 ==> #[trigger] has_bit(row, j) == (j < t && absi(
                        (j as int) % 8 - f as int,
                    ) == 1),
            {
                row = set_row_bit(row, t, absdiff(t % 8, f) == 1);
            }
            v.push(row);
        }
        v
    }
}

/// Absolute difference of two small indices.
fn absdiff(a: usize, b: usize) -> (r: usize)
    requires
        a < 64,
        b < 64,
    ensures
        r == absi(a as int - b as int),
{
    if a < b {
        b - a
    } else {
        a - b
    }
}

/// The line condition, evaluated on indices.
fn line_at(a: usize, b: usize, t: usize) -> (r: bool)
    requires
        a < 64,
        b < 64,
        t < 64,
    ensures
        r == line_cond(a as int, b as int, t as int),
{
    if a == b {
        false
    } else if absdiff(a / 8, b / 8) == absdiff(a % 8, b % 8) {
        absdiff(a / 8, t / 8) == absdiff(a % 8, t % 8) && absdiff(b / 8, t / 8) == absdiff(
            b % 8,
            t % 8,
        )
    } else if a / 8 == b / 8 {
        t / 8 == a / 8
    } else if a % 8 == b % 8 {
        t % 8 == a % 8
    } else {
        false
    }
}

/// The between condition, evaluated on indices.
fn between_at(a: usize, b: usize, t: usize) -> (r: bool)
    requires
        a < 64,
        b < 64,
        t < 64,
    ensures
        r == between_cond(a as int, b as int, t as int),
{
    if a != b && absdiff(a / 8, b / 8) == absdiff(a % 8, b % 8) {
        absdiff(a / 8, t / 8) == absdiff(a % 8, t % 8) && absdiff(b / 8, t / 8) == absdiff(
            b % 8,
            t % 8,
        ) && ((a / 8 < t / 8 && t / 8 < b / 8) || (b / 8 < t / 8 && t / 8 < a / 8))
    } else if a / 8 == b / 8 && a != b {
        t / 8 == a / 8 && ((a % 8 < t % 8 && t % 8 < b % 8) || (b % 8 < t % 8 && t % 8 < a % 8))
    } else if a % 8 == b % 8 && a != b {
        t % 8 == a % 8 && ((a / 8 < t / 8 && t / 8 < b / 8) || (b / 8 < t / 8 && t / 8 < a / 8))
    } else {
        false
    }
}

} // verus!
