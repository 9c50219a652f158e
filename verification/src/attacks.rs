//! Blocker subsets and ground-truth attack sets for the magic tables:
//! every subset of a square's blocker mask, each paired with the exact
//! attack set a slider has under that occupancy.

use vstd::prelude::*;
use vstd::arithmetic::power2::pow2;
use crate::bitboard::BitBoard;
use crate::bits::{has_bit, pop64};
use crate::geometry::{on_board, mask_cond, mask_bits, lemma_mask_bits, slider_reach,
    between_cond, rook_ray_cond, bishop_ray_cond};
use crate::pieces::Piece;
use crate::square::Square;
use crate::tables::Tables;

verus! {

broadcast use crate::bits::group_has_lemmas;

/// The subset of the listed squares selected by the bits of `i`: square
/// `j` of the list is taken when bit `j` of `i` is set.
spec fn compose(sqs: Seq<Square>, i: nat) -> u64
    decreases sqs.len(),
{
    if sqs.len() == 0 {
        0u64
    } else {
        compose(sqs.drop_last(), i) | (if i / pow2((sqs.len() - 1) as nat) % 2 == 1 {
            1u64 << (sqs.last().idx() as u64)
        } else {
            0u64
        })
    }
}

/// The index whose bit pattern selects exactly the listed squares that
/// are set in `b`.
spec fn decompose(sqs: Seq<Square>, b: u64) -> nat
    decreases sqs.len(),
{
    if sqs.len() == 0 {
        0
    } else {
        decompose(sqs.drop_last(), b) + (if has_bit(b, sqs.last().idx() as u64) {
            pow2((sqs.len() - 1) as nat)
        } else {
            0
        })
    }
}

/// Dividing away a multiple of the divisor shifts the quotient.
proof fn lemma_div_shift_multiple(a: int, m: int, d: int)
    requires
        d > 0,
        a >= 0,
        m >= 0,
    ensures
        (a + m * d) / d == a / d + m,
{
    vstd::arithmetic::div_mod::lemma_fundamental_div_mod(a, d);
    let q = a / d;
    let r = a % d;
    vstd::arithmetic::div_mod::lemma_mod_bound(a, d);
    assert(a + m * d == d * (q + m) + r) by (nonlinear_arith)
        requires
            a == d * q + r,
    ;
    vstd::arithmetic::div_mod::lemma_div_multiples_vanish_fancy(q + m, r, d);
}

/// Selection bits above the length of the list do not matter.
proof fn lemma_compose_add_high(sqs: Seq<Square>, i: nat, c: nat)
    ensures
        compose(sqs, i + c * pow2(sqs.len())) == compose(sqs, i),
    decreases sqs.len(),
{
    if sqs.len() > 0 {
        let ln = sqs.len();
        vstd::arithmetic::power2::lemma_pow2_unfold(ln);
        vstd::arithmetic::power2::lemma_pow2_pos((ln - 1) as nat);
        let p = pow2((ln - 1) as nat);
        assert(c * (p * 2) == (2 * c) * p) by (nonlinear_arith);
        lemma_compose_add_high(sqs.drop_last(), i, 2 * c);
        lemma_div_shift_multiple(i as int, 2 * c as int, p as int);
        assert((i + c * pow2(ln)) / p % 2 == i / p % 2) by {
            assert((i + c * pow2(ln)) / p as nat == i / p + 2 * c);
            vstd::arithmetic::div_mod::lemma_mod_multiples_vanish(
                c as int,
                (i / p) as int,
                2,
            );
            assert(2 * (c as int) + (i / p) as int == (i / p) as int + 2 * (c as int));
        }
    }
}

/// The selected subset holds only listed squares.
proof fn lemma_compose_subset(sqs: Seq<Square>, i: nat, mask: u64)
    requires
        forall|j: int|
            0 <= j < sqs.len() ==> 0 <= (#[trigger] sqs[j]).idx() < 64 && has_bit(
                mask,
                sqs[j].idx() as u64,
            ),
    ensures
        forall|t: u64| t < 64 && #[trigger] has_bit(compose(sqs, i), t) ==> has_bit(mask, t),
    decreases sqs.len(),
{
    if sqs.len() > 0 {
        lemma_compose_subset(sqs.drop_last(), i, mask);
        assert(sqs.drop_last() =~= sqs.subrange(0, sqs.len() - 1));
        assert forall|t: u64| t < 64 && #[trigger] has_bit(compose(sqs, i), t) implies has_bit(
            mask,
            t,
        ) by {
            if !has_bit(compose(sqs.drop_last(), i), t) {
                assert(t == sqs.last().idx() as u64);
                assert(has_bit(mask, sqs[sqs.len() - 1].idx() as u64));
            }
        }
    }
}

/// The selection index of any subset is below `pow2` of the list length.
proof fn lemma_decompose_bound(sqs: Seq<Square>, b: u64)
    ensures
        decompose(sqs, b) < pow2(sqs.len()),
    decreases sqs.len(),
{
    vstd::arithmetic::power2::lemma_pow2_pos(sqs.len());
    if sqs.len() == 0 {
        vstd::arithmetic::power2::lemma2_to64();
    } else {
        lemma_decompose_bound(sqs.drop_last(), b);
        vstd::arithmetic::power2::lemma_pow2_unfold(sqs.len());
    }
}

/// The selection index reads only the listed positions of the mask.
proof fn lemma_decompose_agrees(sqs: Seq<Square>, b1: u64, b2: u64)
    requires
        forall|j: int|
            0 <= j < sqs.len() ==> has_bit(b1, (#[trigger] sqs[j]).idx() as u64) == has_bit(
                b2,
                sqs[j].idx() as u64,
            ),
    ensures
        decompose(sqs, b1) == decompose(sqs, b2),
    decreases sqs.len(),
{
    if sqs.len() > 0 {
        lemma_decompose_agrees(sqs.drop_last(), b1, b2);
        assert(has_bit(b1, sqs[sqs.len() - 1].idx() as u64) == has_bit(
            b2,
            sqs[sqs.len() - 1].idx() as u64,
        ));
    }
}

/// Composing the decomposition of a subset of the listed squares gives
/// the subset back: the enumeration below therefore reaches every
/// subset.
proof fn lemma_compose_decompose(sqs: Seq<Square>, b: u64)
    requires
        forall|j: int| 0 <= j < sqs.len() ==> 0 <= (#[trigger] sqs[j]).idx() < 64,
        forall|j1: int, j2: int|
            0 <= j1 < j2 < sqs.len() ==> #[trigger] sqs[j1].idx() < #[trigger] sqs[j2].idx(),
        forall|t: u64|
            t < 64 && #[trigger] has_bit(b, t) ==> exists|j: int|
                0 <= j < sqs.len() && sqs[j].idx() == t,
    ensures
        compose(sqs, decompose(sqs, b)) == b,
    decreases sqs.len(),
{
    if sqs.len() == 0 {
        assert forall|t: u64| t < 64 implies has_bit(compose(sqs, decompose(sqs, b)), t)
            == has_bit(b, t) by {
            assert(!has_bit(0u64, t));
        }
        crate::bits::lemma_bits_eq(compose(sqs, decompose(sqs, b)), b);
    } else {
        let ln = sqs.len();
        let dl = sqs.drop_last();
        let last = sqs.last().idx() as u64;
        let bp = b & !(1u64 << last);
        let c: nat = if has_bit(b, last) {
            1
        } else {
            0
        };
        // The remaining bits of `b` select earlier list entries only.
        assert forall|t: u64| t < 64 && #[trigger] has_bit(bp, t) implies exists|j: int|
            0 <= j < dl.len() && dl[j].idx() == t by {
            assert(has_bit(b, t) && t != last);
            let j = choose|j: int| 0 <= j < sqs.len() && sqs[j].idx() == t;
            assert(j < ln - 1);
            assert(dl[j].idx() == t);
        }
        assert forall|j: int|
            0 <= j < dl.len() implies has_bit(bp, (#[trigger] dl[j]).idx() as u64) == has_bit(
            b,
            dl[j].idx() as u64,
        ) by {
            assert(sqs[j].idx() < sqs[ln - 1].idx());
        }
        lemma_compose_decompose(dl, bp);
        lemma_decompose_agrees(dl, b, bp);
        let i0 = decompose(dl, bp);
        let i = decompose(sqs, b);
        let p = pow2((ln - 1) as nat);
        vstd::arithmetic::power2::lemma_pow2_pos((ln - 1) as nat);
        lemma_decompose_bound(dl, bp);
        assert(i == i0 + c * p);
        // The last selection bit of `i` is exactly `c`.
        lemma_div_shift_multiple(i0 as int, c as int, p as int);
        vstd::arithmetic::div_mod::lemma_basic_div(i0 as int, p as int);
        assert(i / p % 2 == c);
        // The lower selection bits of `i` select the earlier squares.
        lemma_compose_add_high(dl, i0, c);
        assert(compose(dl, i) == compose(dl, i0));
        // Reassembling the last bit gives `b` back.
        assert forall|t: u64| t < 64 implies has_bit(compose(sqs, i), t) == has_bit(b, t) by {
            assert(compose(sqs, i) == compose(dl, i) | (if i / p % 2 == 1 {
                1u64 << last
            } else {
                0u64
            }));
            assert(has_bit(bp, t) == (has_bit(b, t) && t != last));
        }
        crate::bits::lemma_bits_eq(compose(sqs, i), b);
    }
}

/// The interior blocker mask of a slider on `square`: its ray, without
/// the squares at the board edge in the ray's own direction.
pub fn magic_mask(square: Square, piece: Piece) -> (r: BitBoard)
    requires
        piece is Rook || piece is Bishop,
    ensures
        forall|t: int| #[trigger] r.has(t) == (on_board(t) && mask_cond(
            piece is Bishop,
            square.idx(),
            t,
        )),
        r.0 == mask_bits(piece is Bishop, square.idx()),
        r.0 != 0xffff_ffff_ffff_ffffu64,
{
    let s = square.to_index();
    let mut row: u64 = 0;
    for t in 0..64usize
        invariant
            s < 64,
            s == square.idx(),
            forall|j: u64| j < 64 ==> #[trigger] has_bit(row, j) == (j < t && mask_cond(
                piece is Bishop,
                s as int,
                j as int,
            )),
    {
        let c: bool = match piece {
            Piece::Bishop => {
                let dr = if s / 8 < t / 8 {
                    t / 8 - s / 8
                } else {
                    s / 8 - t / 8
                };
                let df = if s % 8 < t % 8 {
                    t % 8 - s % 8
                } else {
                    s % 8 - t % 8
                };
                t != s && dr == df && !(t / 8 == 0 || t / 8 == 7 || t % 8 == 0 || t % 8 == 7)
            },
            _ => {
                (t != s && (t / 8 == s / 8 || t % 8 == s % 8)) && !((t / 8 == s / 8 && (t % 8 == 0
                    || t % 8 == 7)) || (t % 8 == s % 8 && (t / 8 == 0 || t / 8 == 7)))
            },
        };
        if c {
            row = row | (1u64 << (t as u64));
        }
    }
    proof {
        lemma_mask_bits(piece is Bishop, s as int);
        assert forall|j: u64| j < 64 implies has_bit(row, j) == has_bit(
            mask_bits(piece is Bishop, s as int),
            j,
        ) by {}
        crate::bits::lemma_bits_eq(row, mask_bits(piece is Bishop, s as int));
        assert(!has_bit(row, s as u64));
        assert(has_bit(0xffff_ffff_ffff_ffffu64, s as u64));
    }
    BitBoard(row)
}

/// Every subset of the set bits of `mask`, as selected by the bits of a
/// counter running over all combinations.
pub fn gen_blocker_combinations(mask: BitBoard) -> (r: Vec<BitBoard>)
    requires
        mask.0 != 0xffff_ffff_ffff_ffffu64,
    ensures
        r@.len() == pow2(pop64(mask.0)),
        forall|n: int| 0 <= n < r@.len() ==> ((#[trigger] r@[n]).0 & mask.0) == r@[n].0,
        forall|b: u64|
            b & mask.0 == b ==> exists|n: int| 0 <= n < r@.len() && (#[trigger] r@[n]).0 == b,
{
    let squares = mask.get_squares();
    let k = squares.len();
    proof {
        crate::bits::lemma_pop_not_max(mask.0);
        vstd::arithmetic::power2::lemma_pow2_pos(k as nat);
        crate::bits::lemma_u64_shl_value(k as u64);
    }
    let count: u64 = 1u64 << (k as u64);
    let mut result: Vec<BitBoard> = Vec::new();
    let mut i: u64 = 0;
    while i < count
        invariant
            k == squares@.len(),
            k == pop64(mask.0),
            k < 64,
            count == pow2(k as nat),
            result@.len() == i,
            i <= count,
            forall|k1: int| 0 <= k1 < squares@.len() ==> 0 <= (#[trigger] squares@[k1]).idx() < 64
                && mask.has(squares@[k1].idx()),
            forall|n: int| 0 <= n < result@.len() ==> (#[trigger] result@[n]).0 == compose(
                squares@,
                n as nat,
            ),
        decreases count - i,
    {
        let mut acc: u64 = 0;
        let mut j: usize = 0;
        proof {
            assert(squares@.take(0) =~= Seq::<Square>::empty());
        }
        while j < k
            invariant
                j <= k,
                k == squares@.len(),
                k < 64,
                forall|k1: int| 0 <= k1 < squares@.len() ==> 0 <= (
                #[trigger] squares@[k1]).idx() < 64,
                acc == compose(squares@.take(j as int), i as nat),
            decreases k - j,
        {
            let bit_set = (i >> (j as u64)) & 1 == 1;
            proof {
                vstd::bits::lemma_u64_shr_is_div(i, j as u64);
                vstd::arithmetic::power2::lemma_pow2_pos(j as nat);
                assert((i >> (j as u64)) & 1 == (i >> (j as u64)) % 2) by (bit_vector);
                assert(squares@.take(j as int + 1).drop_last() =~= squares@.take(j as int));
                assert(squares@.take(j as int + 1).last() == squares@[j as int]);
            }
            if bit_set {
                acc = acc | (1u64 << (squares[j].to_index() as u64));
            }
            proof {
                assert(i as nat / pow2(j as nat) % 2 == (if bit_set {
                    1nat
                } else {
                    0nat
                }));
                if !bit_set {
                    assert(acc | 0u64 == acc) by (bit_vector);
                }
                assert(acc == compose(squares@.take(j as int + 1), i as nat));
            }
            j = j + 1;
        }
        proof {
            assert(squares@.take(k as int) =~= squares@);
        }
        result.push(BitBoard(acc));
        i = i + 1;
    }
    proof {
        assert forall|n: int| 0 <= n < result@.len() implies ((#[trigger] result@[n]).0 & mask.0)
            == result@[n].0 by {
            lemma_compose_subset(squares@, n as nat, mask.0);
            assert forall|t: u64| t < 64 implies has_bit(result@[n].0 & mask.0, t) == has_bit(
                result@[n].0,
                t,
            ) by {
                if has_bit(result@[n].0, t) {
                    assert(has_bit(mask.0, t));
                }
            }
            crate::bits::lemma_bits_eq(result@[n].0 & mask.0, result@[n].0);
        }
        assert forall|b: u64| b & mask.0 == b implies exists|n: int|
            0 <= n < result@.len() && (#[trigger] result@[n]).0 == b by {
            assert forall|t: u64| t < 64 && #[trigger] has_bit(b, t) implies exists|j: int|
                0 <= j < squares@.len() && squares@[j].idx() == t by {
                assert(has_bit(b & mask.0, t));
                assert(has_bit(mask.0, t));
                assert(mask.has(t as int));
                let j = choose|j: int|
                    0 <= j < squares@.len() && squares@[j].idx() == t as int;
                assert(squares@[j].idx() == t);
            }
            lemma_compose_decompose(squares@, b);
            lemma_decompose_bound(squares@, b);
            let n = decompose(squares@, b) as int;
            assert(result@[n].0 == b);
        }
    }
    result
}

impl Tables {
    /// The exact attack set of a slider on `square` under occupancy
    /// `occ`, read from the verified ray and between tables.
    #[verifier::rlimit(60)]
    pub(crate) fn slider_attacks_from(&self, square: Square, diagonal: bool, occ: BitBoard) -> (r:
        BitBoard)
        requires
            self.geom_wf(),
        ensures
            forall|t: int| #[trigger] r.has(t) == (on_board(t) && slider_reach(
                diagonal,
                square.idx(),
                occ.0,
                t,
            )),
    {
        let ray = if diagonal {
            self.get_bishop_rays(square)
        } else {
            self.get_rook_rays(square)
        };
        let mut row: u64 = 0;
        let s = square.to_index();
        for t in 0..64usize
            invariant
                s < 64,
                s == square.idx(),
                self.geom_wf(),
                forall|i: int| #[trigger] ray.has(i) == (on_board(i) && (if diagonal {
                    bishop_ray_cond(s as int, i)
                } else {
                    rook_ray_cond(s as int, i)
                })),
                forall|j: u64| j < 64 ==> #[trigger] has_bit(row, j) == (j < t && slider_reach(
                    diagonal,
                    s as int,
                    occ.0,
                    j as int,
                )),
        {
            let tsq = Square::from_index(t as u8);
            let blocked = self.get_between(square, tsq).and(occ);
            let c = ray.has_square(t) && blocked.is_empty();
            proof {
                if c {
                    assert forall|u: int| between_cond(s as int, t as int, u) implies !has_bit(
                        occ.0,
                        u as u64,
                    ) by {
                        crate::geometry::lemma_between_on_board(s as int, t as int, u);
                        assert(!blocked.has(u));
                    }
                    assert(slider_reach(diagonal, s as int, occ.0, t as int));
                } else {
                    if ray.has(t as int) {
                        crate::bits::lemma_nonzero_lowest(blocked.0);
                        let u = vstd::std_specs::bits::u64_trailing_zeros(blocked.0) as int;
                        assert(blocked.has(u));
                        assert(between_cond(s as int, t as int, u) && has_bit(occ.0, u as u64));
                        assert(!slider_reach(diagonal, s as int, occ.0, t as int));
                    }
                }
            }
            if c {
                row = row | (1u64 << (t as u64));
            }
        }
        BitBoard(row)
    }

    /// Every blocker subset of the slider's mask on `square`, each
    /// paired with the true attack set under that occupancy.
    pub fn gen_magic_attack_map(&self, square: Square, piece: Piece) -> (r: (
        Vec<BitBoard>,
        Vec<BitBoard>,
    ))
        requires
            self.geom_wf(),
            piece is Rook || piece is Bishop,
        ensures
            r.0@.len() == r.1@.len(),
            forall|n: int, t: u64|
                0 <= n < r.0@.len() && t < 64 && #[trigger] has_bit(r.0@[n].0, t) ==> mask_cond(
                    piece is Bishop,
                    square.idx(),
                    t as int,
                ),
            forall|b: u64|
                #[trigger] (b & mask_bits(piece is Bishop, square.idx())) == b ==> exists|n: int|
                    0 <= n < r.0@.len() && r.0@[n].0 == b,
            forall|n: int, t: int|
                0 <= n < r.1@.len() && 0 <= t < 64 ==> (#[trigger] r.1@[n].has(t)
                    == slider_reach(piece is Bishop, square.idx(), r.0@[n].0, t)),
    {
        let mask = magic_mask(square, piece);
        let blockers = gen_blocker_combinations(mask);
        let mut attacks: Vec<BitBoard> = Vec::new();
        let diagonal = match piece {
            Piece::Bishop => true,
            _ => false,
        };
        let sq_idx = square.to_index();
        let mut n: usize = 0;
        while n < blockers.len()
            invariant
                self.geom_wf(),
                sq_idx == square.idx(),
                sq_idx < 64,
                diagonal == (piece is Bishop),
                mask.0 == mask_bits(piece is Bishop, square.idx()),
                forall|t: int| #[trigger] mask.has(t) == (on_board(t) && mask_cond(
                    piece is Bishop,
                    square.idx(),
                    t,
                )),
                forall|n2: int|
                    0 <= n2 < blockers@.len() ==> ((#[trigger] blockers@[n2]).0 & mask.0)
                        == blockers@[n2].0,
                forall|b: u64|
                    b & mask.0 == b ==> exists|n2: int|
                        0 <= n2 < blockers@.len() && (#[trigger] blockers@[n2]).0 == b,
                attacks@.len() == n,
                n <= blockers@.len(),
                forall|m: int, t: int|
                    0 <= m < attacks@.len() && 0 <= t < 64 ==> (#[trigger] attacks@[m].has(t)
                        == slider_reach(diagonal, square.idx(), blockers@[m].0, t)),
            decreases blockers@.len() - n,
        {
            let a = self.slider_attacks_from(square, diagonal, blockers[n]);
            attacks.push(a);
            n = n + 1;
        }
        proof {
            assert forall|n2: int, t: u64|
                0 <= n2 < blockers@.len() && t < 64 && #[trigger] has_bit(
                    blockers@[n2].0,
                    t,
                ) implies mask_cond(piece is Bishop, square.idx(), t as int) by {
                assert(has_bit(blockers@[n2].0 & mask.0, t));
                assert(mask.has(t as int));
            }
            assert forall|b: u64|
                #[trigger] (b & mask_bits(piece is Bishop, square.idx())) == b implies exists|
                n2: int,
            |
                0 <= n2 < blockers@.len() && blockers@[n2].0 == b by {
                assert(b & mask.0 == b);
            }
        }
        let ghost bl = blockers@;
        let result = (blockers, attacks);
        proof {
            assert(result.0@ == bl);
            assert forall|b: u64|
                #[trigger] (b & mask_bits(piece is Bishop, square.idx())) == b implies exists|
                n2: int,
            |
                0 <= n2 < result.0@.len() && result.0@[n2].0 == b by {
                let n2 = choose|n2: int| 0 <= n2 < bl.len() && bl[n2].0 == b;
                assert(0 <= n2 < result.0@.len());
                assert(result.0@[n2].0 == b);
            }
        }
        result
    }
}

} // verus!
