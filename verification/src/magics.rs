//! Finding the magic multipliers and filling the shared attack table,
//! and the hashed slider-attack lookups that use them.

use vstd::prelude::*;
use vstd::arithmetic::power2::pow2;
use crate::bitboard::BitBoard;
use crate::bits::has_bit;
use crate::geometry::{on_board, rk, fl, absi, mask_bits, slider_reach, between_cond,
    rook_ray_cond, bishop_ray_cond, diag_aligned, strictly_inside};
use crate::pieces::Piece;
use crate::square::Square;
use crate::tables::{Magic, Tables, magic_entry_ok, magic_index, wmul};

verus! {

broadcast use crate::bits::group_has_lemmas;

/// How many multipliers are drawn for one square before the table build
/// gives up.
const MAGIC_SEARCH_TRIES: u64 = 100000000;

/// Relies on rand::random: draws one value; nothing is assumed of it.
pub assume_specification<T>[ rand::random::<T> ]() -> (r: T)
    where
        rand::distr::StandardUniform: rand::distr::Distribution<T>,
;

/// A hash narrowed by `sh` stays below the window of `64 - sh` bits.
proof fn lemma_hash_window(x: u64, sh: u64, w: u64)
    by (bit_vector)
    requires
        1 <= sh < 64,
        w == 64 - sh,
    ensures
        (x >> sh) < (1u64 << w),
{
}

/// The hash of a magic record lands inside its window of
/// `pow2(64 - rightshift)` slots.
proof fn lemma_index_in_window(m: Magic, b: u64)
    requires
        m.rightshift < 64,
    ensures
        m.offset <= magic_index(m, b) < m.offset + pow2((64 - m.rightshift) as nat),
{
    if m.rightshift == 0 {
        vstd::arithmetic::power2::lemma2_to64_rest();
    } else {
        lemma_hash_window(
            wmul(b & m.mask.0, m.magic_number.0),
            m.rightshift as u64,
            (64 - m.rightshift) as u64,
        );
        crate::bits::lemma_u64_shl_value((64 - m.rightshift) as u64);
    }
}

/// A magic record stays correct when the shared table grows behind its
/// window.
proof fn lemma_entry_ok_extend(m: Magic, diagonal: bool, s: int, pre: Seq<u64>, post: Seq<u64>)
    requires
        magic_entry_ok(m, diagonal, s, pre),
        pre.len() <= post.len(),
        forall|j: int| 0 <= j < pre.len() ==> #[trigger] post[j] == pre[j],
    ensures
        magic_entry_ok(m, diagonal, s, post),
{
    assert forall|b: u64, t: int|
        #![trigger has_bit(post[magic_index(m, b)], t as u64), slider_reach(diagonal, s, b, t)]
        (b & m.mask.0 == b && 0 <= t < 64) implies ((has_bit(post[magic_index(m, b)], t as u64)
        && (if diagonal {
        bishop_ray_cond(s, t)
    } else {
        rook_ray_cond(s, t)
    })) == slider_reach(diagonal, s, b, t)) by {
        lemma_index_in_window(m, b);
        assert(post[magic_index(m, b)] == pre[magic_index(m, b)]);
        assert((has_bit(pre[magic_index(m, b)], t as u64) && (if diagonal {
            bishop_ray_cond(s, t)
        } else {
            rook_ray_cond(s, t)
        })) == slider_reach(diagonal, s, b, t));
    }
}

/// A square strictly between two squares of a slider ray is an interior
/// blocker square of that ray.
proof fn lemma_between_in_mask(diagonal: bool, s: int, t: int, u: int)
    requires
        on_board(s),
        on_board(t),
        if diagonal {
            bishop_ray_cond(s, t)
        } else {
            rook_ray_cond(s, t)
        },
        between_cond(s, t, u),
    ensures
        crate::geometry::mask_cond(diagonal, s, u),
{
    crate::geometry::lemma_between_on_board(s, t, u);
    if s != t && diag_aligned(s, t) {
        let d1 = absi(rk(u) - rk(s));
        let d2 = absi(rk(t) - rk(u));
        assert(fl(u) - fl(s) == d1 || fl(u) - fl(s) == -d1);
        assert(fl(t) - fl(u) == d2 || fl(t) - fl(u) == -d2);
        assert(strictly_inside(fl(s), fl(u), fl(t)));
    }
}

/// Cutting the occupancy to the blocker mask leaves every slider attack
/// unchanged: squares outside the mask never stand between the slider
/// and a ray square.
pub proof fn lemma_mask_occupancy(diagonal: bool, s: int, occ: u64)
    requires
        on_board(s),
    ensures
        forall|t: int|
            on_board(t) ==> #[trigger] slider_reach(diagonal, s, occ & mask_bits(diagonal, s), t)
                == slider_reach(diagonal, s, occ, t),
{
    crate::geometry::lemma_mask_bits(diagonal, s);
    let m = mask_bits(diagonal, s);
    assert forall|t: int|
        on_board(t) implies #[trigger] slider_reach(diagonal, s, occ & m, t) == slider_reach(
        diagonal,
        s,
        occ,
        t,
    ) by {
        let ray = if diagonal {
            bishop_ray_cond(s, t)
        } else {
            rook_ray_cond(s, t)
        };
        if ray {
            assert forall|u: int| between_cond(s, t, u) implies has_bit(occ & m, u as u64)
                == has_bit(occ, u as u64) by {
                lemma_between_in_mask(diagonal, s, t, u);
                crate::geometry::lemma_between_on_board(s, t, u);
            }
        }
    }
}

/// Searches for a multiplier that hashes every listed blocker set into a
/// window of `pow2(64 - shift)` slots without mixing two different
/// attack sets, and returns the filled window.
fn find_magic(blockers: &Vec<BitBoard>, attacks: &Vec<BitBoard>, shift: u8) -> (r: Option<
    (u64, Vec<u64>),
>)
    requires
        blockers@.len() == attacks@.len(),
        33 <= shift < 64,
        pow2((64 - shift) as nat) <= 0x8000_0000,
    ensures
        r matches Some(found) ==> ({
            &&& found.1@.len() == pow2((64 - shift) as nat)
            &&& forall|i: int|
                0 <= i < blockers@.len() ==> #[trigger] found.1@[(wmul(blockers@[i].0, found.0)
                    >> (shift as u64)) as int] == attacks@[i].0
        }),
{
    let wide: u64 = 1u64 << ((64 - shift) as u64);
    proof {
        crate::bits::lemma_u64_shl_value((64 - shift) as u64);
    }
    let win: usize = wide as usize;
    let mut tries: u64 = 0;
    while tries < MAGIC_SEARCH_TRIES
        invariant
            blockers@.len() == attacks@.len(),
            1 <= shift < 64,
            win == pow2((64 - shift) as nat),
        decreases MAGIC_SEARCH_TRIES - tries,
    {
        tries = tries + 1;
        let magic: u64 = rand::random::<u64>() & rand::random::<u64>() & rand::random::<u64>();
        let mut table: Vec<u64> = Vec::new();
        let mut written: Vec<bool> = Vec::new();
        let mut z: usize = 0;
        while z < win
            invariant
                table@.len() == z,
                written@.len() == z,
                z <= win,
                forall|j: int| 0 <= j < z ==> !(#[trigger] written@[j]),
            decreases win - z,
        {
            table.push(0);
            written.push(false);
            z = z + 1;
        }
        let mut i: usize = 0;
        let mut ok = true;
        while ok && i < blockers.len()
            invariant
                blockers@.len() == attacks@.len(),
                1 <= shift < 64,
                win == pow2((64 - shift) as nat),
                table@.len() == win,
                written@.len() == win,
                i <= blockers@.len(),
                forall|i2: int|
                    ok && 0 <= i2 < i ==> #[trigger] table@[(wmul(blockers@[i2].0, magic) >> (
                    shift as u64)) as int] == attacks@[i2].0,
                forall|i2: int|
                    ok && 0 <= i2 < i ==> #[trigger] written@[(wmul(blockers@[i2].0, magic) >> (
                    shift as u64)) as int],
            decreases blockers@.len() - i + (if ok {
                1int
            } else {
                0int
            }),
        {
            let h = blockers[i].0.wrapping_mul(magic) >> (shift as u64);
            proof {
                lemma_hash_window(
                    wmul(blockers@[i as int].0, magic),
                    shift as u64,
                    (64 - shift) as u64,
                );
                crate::bits::lemma_u64_shl_value((64 - shift) as u64);
                assert(blockers@[i as int].0.wrapping_mul(magic) == wmul(
                    blockers@[i as int].0,
                    magic,
                ));
            }
            let slot = h as usize;
            if written[slot] {
                if table[slot] != attacks[i].0 {
                    ok = false;
                } else {
                    i = i + 1;
                }
            } else {
                let ghost old_table = table@;
                let ghost old_written = written@;
                table[slot] = attacks[i].0;
                written[slot] = true;
                proof {
                    assert(table@ == old_table.update(slot as int, attacks@[i as int].0));
                    assert(written@ == old_written.update(slot as int, true));
                    assert forall|i2: int| 0 <= i2 < i + 1 implies #[trigger] table@[(wmul(
                        blockers@[i2].0,
                        magic,
                    ) >> (shift as u64)) as int] == attacks@[i2].0 by {
                        let h2 = (wmul(blockers@[i2].0, magic) >> (shift as u64)) as int;
                        lemma_hash_window(
                            wmul(blockers@[i2].0, magic),
                            shift as u64,
                            (64 - shift) as u64,
                        );
                        crate::bits::lemma_u64_shl_value((64 - shift) as u64);
                        if i2 < i as int {
                            assert(old_table[h2] == attacks@[i2].0);
                            assert(old_written[h2]);
                            assert(h2 != slot as int);
                        } else {
                            assert(h2 == slot as int);
                        }
                    }
                    assert forall|i2: int| 0 <= i2 < i + 1 implies #[trigger] written@[(wmul(
                        blockers@[i2].0,
                        magic,
                    ) >> (shift as u64)) as int] by {
                        let h2 = (wmul(blockers@[i2].0, magic) >> (shift as u64)) as int;
                        lemma_hash_window(
                            wmul(blockers@[i2].0, magic),
                            shift as u64,
                            (64 - shift) as u64,
                        );
                        crate::bits::lemma_u64_shl_value((64 - shift) as u64);
                        if i2 < i as int {
                            assert(old_written[h2]);
                        } else {
                            assert(h2 == slot as int);
                        }
                    }
                }
                i = i + 1;
            }
        }
        if ok && i == blockers.len() {
            return Some((magic, table));
        }
    }
    None
}

impl Tables {
    /// Builds one magic record for `square`, writing the square's attack
    /// window at the end of the shared table.
    fn generate_magic(&self, square: Square, piece: Piece, moves: &mut Vec<u64>) -> (r: Option<
        Magic,
    >)
        requires
            self.geom_wf(),
            piece is Rook || piece is Bishop,
        ensures
            old(moves)@.len() <= final(moves)@.len(),
            forall|j: int|
                0 <= j < old(moves)@.len() ==> #[trigger] final(moves)@[j] == old(moves)@[j],
            r matches Some(m) ==> magic_entry_ok(m, piece is Bishop, square.idx(), final(moves)@),
    {
        let diagonal = match piece {
            Piece::Bishop => true,
            _ => false,
        };
        let sq_idx = square.to_index();
        let mask = crate::attacks::magic_mask(square, piece);
        let (blockers, attacks) = self.gen_magic_attack_map(square, piece);
        let k = crate::bits::popcount(mask.0);
        proof {
            crate::bits::lemma_pop_not_max(mask.0);
        }
        if k >= 32 {
            return None;
        }
        let shift: u8 = if k == 0 {
            63
        } else {
            (64 - k) as u8
        };
        proof {
            vstd::arithmetic::power2::lemma2_to64();
            vstd::arithmetic::power2::lemma2_to64_rest();
            if (64 - shift) as nat != 31 {
                vstd::arithmetic::power2::lemma_pow2_strictly_increases(
                    (64 - shift) as nat,
                    31,
                );
            }
        }
        let found = find_magic(&blockers, &attacks, shift);
        let (magic_number, table) = match found {
            Some(f) => f,
            None => {
                return None;
            },
        };
        let offset = moves.len();
        let mut z: usize = 0;
        let ghost old_moves = moves@;
        while z < table.len()
            invariant
                moves@.len() == old_moves.len() + z,
                z <= table@.len(),
                forall|j: int| 0 <= j < old_moves.len() ==> #[trigger] moves@[j] == old_moves[j],
                forall|j: int|
                    0 <= j < z ==> #[trigger] moves@[old_moves.len() + j] == table@[j],
            decreases table@.len() - z,
        {
            let v = table[z];
            moves.push(v);
            z = z + 1;
        }
        let m = Magic { magic_number: BitBoard(magic_number), mask, offset, rightshift: shift };
        proof {
            assert forall|t: int|
                0 <= t < 64 implies (#[trigger] has_bit(m.mask.0, t as u64)
                == crate::geometry::mask_cond(diagonal, sq_idx as int, t)) by {
                assert(mask.has(t) == (on_board(t) && crate::geometry::mask_cond(
                    diagonal,
                    sq_idx as int,
                    t,
                )));
            }
            assert forall|b: u64, t: int|
                #![trigger has_bit(moves@[magic_index(m, b)], t as u64), slider_reach(diagonal, sq_idx as int, b, t)]
                (b & m.mask.0 == b && 0 <= t < 64) implies ((has_bit(
                moves@[magic_index(m, b)],
                t as u64,
            ) && (if diagonal {
                bishop_ray_cond(sq_idx as int, t)
            } else {
                rook_ray_cond(sq_idx as int, t)
            })) == slider_reach(diagonal, sq_idx as int, b, t)) by {
                assert(b & mask_bits(diagonal, sq_idx as int) == b);
                let i = choose|i: int| 0 <= i < blockers@.len() && blockers@[i].0 == b;
                let h = (wmul(b, magic_number) >> (shift as u64)) as int;
                lemma_hash_window(wmul(b, magic_number), shift as u64, (64 - shift) as u64);
                crate::bits::lemma_u64_shl_value((64 - shift) as u64);
                assert(magic_index(m, b) == offset + h);
                assert(moves@[offset + h] == table@[h]);
                assert(table@[h] == attacks@[i].0);
                assert(attacks@[i].has(t) == slider_reach(diagonal, sq_idx as int, b, t));
            }
        }
        Some(m)
    }

    /// Builds the magic records of both sliders for every square, rooks
    /// first, and fills the shared attack table. Nothing is returned
    /// when no multiplier was found for some square.
    #[verifier::rlimit(100)]
    #[verifier::spinoff_prover]
    pub fn gen_all_magic(&self) -> (r: Option<(Vec<Magic>, Vec<Magic>, Vec<u64>)>)
        requires
            self.geom_wf(),
        ensures
            r matches Some(x) ==> ({
                &&& x.0@.len() == 64
                &&& x.1@.len() == 64
                &&& forall|s: int|
                    0 <= s < 64 ==> magic_entry_ok(#[trigger] x.0@[s], false, s, x.2@)
                &&& forall|s: int|
                    0 <= s < 64 ==> magic_entry_ok(#[trigger] x.1@[s], true, s, x.2@)
            }),
    {
        let mut moves: Vec<u64> = Vec::new();
        let mut rook_magics: Vec<Magic> = Vec::new();
        let mut bishop_magics: Vec<Magic> = Vec::new();
        let mut s: usize = 0;
        while s < 64
            invariant
                self.geom_wf(),
                s <= 64,
                rook_magics@.len() == s,
                forall|s2: int|
                    0 <= s2 < s as int ==> magic_entry_ok(
                        #[trigger] rook_magics@[s2],
                        false,
                        s2,
                        moves@,
                    ),
            decreases 64 - s,
        {
            let sq = Square::from_index(s as u8);
            let ghost pre = moves@;
            match self.generate_magic(sq, Piece::Rook, &mut moves) {
                Some(mg) => {
                    rook_magics.push(mg);
                    proof {
                        assert forall|s2: int|
                            0 <= s2 < s as int + 1 implies magic_entry_ok(
                            #[trigger] rook_magics@[s2],
                            false,
                            s2,
                            moves@,
                        ) by {
                            if s2 < s as int {
                                lemma_entry_ok_extend(rook_magics@[s2], false, s2, pre, moves@);
                            }
                        }
                    }
                },
                None => {
                    return None;
                },
            }
            s = s + 1;
        }
        let mut s2i: usize = 0;
        while s2i < 64
            invariant
                self.geom_wf(),
                s2i <= 64,
                rook_magics@.len() == 64,
                bishop_magics@.len() == s2i,
                forall|s2: int|
                    0 <= s2 < 64 ==> magic_entry_ok(
                        #[trigger] rook_magics@[s2],
                        false,
                        s2,
                        moves@,
                    ),
                forall|s2: int|
                    0 <= s2 < s2i as int ==> magic_entry_ok(
                        #[trigger] bishop_magics@[s2],
                        true,
                        s2,
                        moves@,
                    ),
            decreases 64 - s2i,
        {
            let sq = Square::from_index(s2i as u8);
            let ghost pre = moves@;
            match self.generate_magic(sq, Piece::Bishop, &mut moves) {
                Some(mg) => {
                    bishop_magics.push(mg);
                    proof {
                        assert forall|s2: int|
                            0 <= s2 < 64 implies magic_entry_ok(
                            #[trigger] rook_magics@[s2],
                            false,
                            s2,
                            moves@,
                        ) by {
                            lemma_entry_ok_extend(rook_magics@[s2], false, s2, pre, moves@);
                        }
                        assert forall|s2: int|
                            0 <= s2 < s2i as int + 1 implies magic_entry_ok(
                            #[trigger] bishop_magics@[s2],
                            true,
                            s2,
                            moves@,
                        ) by {
                            if s2 < s2i as int {
                                lemma_entry_ok_extend(
                                    bishop_magics@[s2],
                                    true,
                                    s2,
                                    pre,
                                    moves@,
                                );
                            }
                        }
                    }
                },
                None => {
                    return None;
                },
            }
            s2i = s2i + 1;
        }
        Some((rook_magics, bishop_magics, moves))
    }

    /// Every precomputed table, built from scratch. Nothing is returned
    /// in the unlikely event that the magic search gives up.
    pub fn new() -> (r: Option<Tables>)
        ensures
            r matches Some(t) ==> t.wf(),
    {
        let base = Tables {
            rook_rays: Self::build_rook_rays(),
            bishop_rays: Self::build_bishop_rays(),
            lines: Self::build_lines(),
            between: Self::build_between(),
            knight_moves: Self::build_knight_moves(),
            king_moves: Self::build_king_moves(),
            pawn_moves: Self::build_pawn_moves(),
            pawn_attacks: Self::build_pawn_attacks(),
            ranks: Self::build_ranks(),
            adjacent_files: Self::build_adjacent_files(),
            rook_magics: Vec::new(),
            bishop_magics: Vec::new(),
            moves: Vec::new(),
        };
        match base.gen_all_magic() {
            Some((rm, bm, mv)) => {
                let t = Tables { rook_magics: rm, bishop_magics: bm, moves: mv, ..base };
                Some(t)
            },
            None => None,
        }
    }

    /// The squares a rook on `square` attacks under the given occupancy,
    /// by one hashed lookup.
    pub fn get_rook_moves(&self, square: Square, blockers: BitBoard) -> (r: BitBoard)
        requires
            self.wf(),
        ensures
            forall|t: int| #[trigger] r.has(t) == (on_board(t) && slider_reach(
                false,
                square.idx(),
                blockers.0,
                t,
            )),
    {
        let s = square.to_index();
        let m = self.rook_magics[s];
        let ray = BitBoard(self.rook_rays[s]);
        self.slider_lookup(m, false, square, ray, blockers)
    }

    /// The squares a bishop on `square` attacks under the given
    /// occupancy, by one hashed lookup.
    pub fn get_bishop_moves(&self, square: Square, blockers: BitBoard) -> (r: BitBoard)
        requires
            self.wf(),
        ensures
            forall|t: int| #[trigger] r.has(t) == (on_board(t) && slider_reach(
                true,
                square.idx(),
                blockers.0,
                t,
            )),
    {
        let s = square.to_index();
        let m = self.bishop_magics[s];
        let ray = BitBoard(self.bishop_rays[s]);
        self.slider_lookup(m, true, square, ray, blockers)
    }

    /// One masked, hashed, shifted lookup into the shared attack table,
    /// cut to the slider's ray.
    fn slider_lookup(
        &self,
        m: Magic,
        diagonal: bool,
        square: Square,
        ray: BitBoard,
        blockers: BitBoard,
    ) -> (r: BitBoard)
        requires
            self.wf(),
            magic_entry_ok(m, diagonal, square.idx(), self.moves@),
            forall|t: int| #[trigger] ray.has(t) == (on_board(t) && (if diagonal {
                bishop_ray_cond(square.idx(), t)
            } else {
                rook_ray_cond(square.idx(), t)
            })),
        ensures
            forall|t: int| #[trigger] r.has(t) == (on_board(t) && slider_reach(
                diagonal,
                square.idx(),
                blockers.0,
                t,
            )),
    {
        let s = square.to_index();
        let maskv = m.mask.0;
        let b = blockers.0 & maskv;
        proof {
            let blk = blockers.0;
            assert(b & maskv == b) by (bit_vector)
                requires
                    b == blk & maskv,
            ;
            lemma_index_in_window(m, b);
            assert(wmul(b & m.mask.0, m.magic_number.0) == wmul(b, m.magic_number.0));
            assert(b.wrapping_mul(m.magic_number.0) == wmul(b, m.magic_number.0));
            vstd::arithmetic::power2::lemma_pow2_pos((64 - m.rightshift) as nat);
            crate::geometry::lemma_mask_bits(diagonal, square.idx());
            assert forall|j: u64|
                j < 64 implies has_bit(maskv, j) == has_bit(
                mask_bits(diagonal, square.idx()),
                j,
            ) by {
                assert(has_bit(m.mask.0, (j as int) as u64) == crate::geometry::mask_cond(
                    diagonal,
                    square.idx(),
                    j as int,
                ));
            }
            crate::bits::lemma_bits_eq(maskv, mask_bits(diagonal, square.idx()));
        }
        let ml = self.moves.len();
        proof {
            assert(m.offset + pow2((64 - m.rightshift) as nat) <= ml);
        }
        let idx = m.offset + ((b.wrapping_mul(m.magic_number.0) >> (m.rightshift as u64))
            as usize);
        let entry = self.moves[idx];
        let result = BitBoard(entry).and(ray);
        proof {
            assert(idx == magic_index(m, b));
            assert(magic_index(m, b) == magic_index(m, blockers.0));
            assert forall|t: int| #[trigger] result.has(t) == (on_board(t) && slider_reach(
                diagonal,
                square.idx(),
                blockers.0,
                t,
            )) by {
                if 0 <= t < 64 {
                    assert(has_bit(self.moves@[magic_index(m, b)], t as u64) == has_bit(
                        entry,
                        t as u64,
                    ));
                    assert((has_bit(entry, t as u64) && (if diagonal {
                        bishop_ray_cond(square.idx(), t)
                    } else {
                        rook_ray_cond(square.idx(), t)
                    })) == slider_reach(diagonal, square.idx(), b, t));
                    assert(b == blockers.0 & mask_bits(diagonal, square.idx()));
                    lemma_mask_occupancy(diagonal, square.idx(), blockers.0);
                }
            }
        }
        result
    }
}

} // verus!
