//! A 64-bit board mask: bit `i` is set when square `i` belongs to the set.

use vstd::prelude::*;
use crate::bits::{has_bit, pop64, lemma_nonzero_lowest, lemma_has_xor, lemma_has_single,
    lemma_pop_flip, lemma_pop_zero, lemma_pop_le_64};
use crate::file::File;
use crate::rank::Rank;
use crate::square::Square;

verus! {

/// A set of squares, one bit per square.
#[derive(Debug, Clone, Copy, PartialEq, Eq, Structural)]
pub struct BitBoard(pub u64);

impl BitBoard {
    /// Square `i` is in the set.
    pub open spec fn has(self, i: int) -> bool {
        0 <= i < 64 && has_bit(self.0, i as u64)
    }

    pub fn new(val: u64) -> (r: BitBoard)
        ensures
            r.0 == val,
    {
        BitBoard(val)
    }

    /// True when no square is in the set.
    pub fn is_empty(&self) -> (r: bool)
        ensures
            r == (self.0 == 0),
    {
        self.0 == 0
    }

    /// The set holding exactly the given square.
    pub fn from_square(tile: Square) -> (r: BitBoard)
        ensures
            forall|i: int| r.has(i) == (i == tile.idx()),
            r.0 == (1u64 << tile.idx() as u64),
    {
        let r = BitBoard(1u64 << (tile.to_index() as u64));
        proof {
            assert forall|i: int| r.has(i) == (i == tile.idx()) by {
                if 0 <= i < 64 {
                    lemma_has_single(tile.idx() as u64, i as u64);
                }
            }
        }
        r
    }

    /// The least square in the set.
    pub fn to_square(self) -> (r: Square)
        requires
            self.0 != 0,
        ensures
            self.has(r.idx()),
            forall|j: int| 0 <= j < r.idx() ==> !self.has(j),
    {
        proof {
            lemma_nonzero_lowest(self.0);
        }
        Square::from_index(self.0.trailing_zeros() as u8)
    }

    /// The set holding exactly the square at the given rank and file.
    pub fn set(rank: Rank, file: File) -> (r: BitBoard)
        ensures
            forall|i: int| r.has(i) == (i == rank.idx() * 8 + file.idx()),
            r.0 == (1u64 << ((rank.idx() * 8 + file.idx()) as u64)),
    {
        BitBoard::from_square(Square::new(rank, file))
    }

    /// Intersection of the two sets.
    pub fn and(self, rhs: BitBoard) -> (r: BitBoard)
        ensures
            r.0 == self.0 & rhs.0,
            forall|i: int| #[trigger] r.has(i) == (self.has(i) && rhs.has(i)),
    {
        let r = BitBoard(self.0 & rhs.0);
        proof {
            assert forall|i: int| #[trigger] r.has(i) == (self.has(i) && rhs.has(i)) by {
                if 0 <= i < 64 {
                    crate::bits::lemma_has_and(self.0, rhs.0, i as u64);
                }
            }
        }
        r
    }

    /// Union of the two sets.
    pub fn or(self, rhs: BitBoard) -> (r: BitBoard)
        ensures
            r.0 == self.0 | rhs.0,
            forall|i: int| #[trigger] r.has(i) == (self.has(i) || rhs.has(i)),
    {
        let r = BitBoard(self.0 | rhs.0);
        proof {
            assert forall|i: int| #[trigger] r.has(i) == (self.has(i) || rhs.has(i)) by {
                if 0 <= i < 64 {
                    crate::bits::lemma_has_or(self.0, rhs.0, i as u64);
                }
            }
        }
        r
    }

    /// Symmetric difference of the two sets.
    pub fn xor(self, rhs: BitBoard) -> (r: BitBoard)
        ensures
            r.0 == self.0 ^ rhs.0,
            forall|i: int| #[trigger] r.has(i) == (self.has(i) != rhs.has(i)),
    {
        let r = BitBoard(self.0 ^ rhs.0);
        proof {
            assert forall|i: int| #[trigger] r.has(i) == (self.has(i) != rhs.has(i)) by {
                if 0 <= i < 64 {
                    lemma_has_xor(self.0, rhs.0, i as u64);
                }
            }
        }
        r
    }

    /// Complement of the set.
    pub fn complement(self) -> (r: BitBoard)
        ensures
            r.0 == !self.0,
            forall|i: int| 0 <= i < 64 ==> #[trigger] r.has(i) == !self.has(i),
    {
        let r = BitBoard(!self.0);
        proof {
            assert forall|i: int| 0 <= i < 64 implies #[trigger] r.has(i) == !self.has(i) by {
                crate::bits::lemma_has_not(self.0, i as u64);
            }
        }
        r
    }

    /// Wrap-around product of the two values, as the magic hash uses it.
    pub fn mul_wrapped(self, rhs: BitBoard) -> (r: BitBoard)
        ensures
            r.0 == self.0.wrapping_mul(rhs.0),
    {
        BitBoard(self.0.wrapping_mul(rhs.0))
    }

    /// Right shift of the underlying value.
    pub fn shr(self, rhs: u8) -> (r: BitBoard)
        requires
            rhs < 64,
        ensures
            r.0 == self.0 >> rhs as u64,
    {
        BitBoard(self.0 >> (rhs as u64))
    }

    /// Tests one square of the set.
    pub fn has_square(&self, i: usize) -> (r: bool)
        requires
            i < 64,
        ensures
            r == self.has(i as int),
    {
        self.0 & (1u64 << (i as u64)) != 0
    }

    /// Number of squares in the set.
    pub fn count(self) -> (r: u32)
        ensures
            r == pop64(self.0),
    {
        crate::bits::popcount(self.0)
    }

    /// The squares of the set, in increasing index order, found by
    /// repeatedly clearing the lowest set bit.
    pub fn get_squares(&self) -> (r: Vec<Square>)
        ensures
            r.len() == pop64(self.0),
            forall|k: int| 0 <= k < r.len() ==> self.has(#[trigger] r[k].idx()),
            forall|i: int| #[trigger] self.has(i) ==> exists|k: int|
                0 <= k < r.len() && r[k].idx() == i,
            forall|k1: int, k2: int|
                0 <= k1 < k2 < r.len() ==> #[trigger] r[k1].idx() < #[trigger] r[k2].idx(),
    {
        let mut v: Vec<Square> = Vec::new();
        let mut bb: u64 = self.0;
        proof {
            lemma_pop_le_64(self.0);
        }
        while bb != 0
            invariant
                v.len() + pop64(bb) == pop64(self.0),
                pop64(self.0) <= 64,
                forall|i: u64| i < 64 ==> (#[trigger] has_bit(self.0, i) == (has_bit(bb, i)
                    || exists|k: int| 0 <= k < v.len() && v[k].idx() == i)),
                forall|k: int| 0 <= k < v.len() ==> 0 <= (#[trigger] v[k].idx()) < 64
                    && has_bit(self.0, v[k].idx() as u64),
                forall|k1: int, k2: int|
                    0 <= k1 < k2 < v.len() ==> #[trigger] v[k1].idx() < #[trigger] v[k2].idx(),
                forall|k: int, i: u64|
                    0 <= k < v.len() && has_bit(bb, i) && i < 64 ==> v[k].idx() < i,
            decreases bb,
        {
            proof {
                lemma_nonzero_lowest(bb);
            }
            let low = BitBoard(bb);
            let sq = low.to_square();
            let ghost tz = sq.idx() as u64;
            let next = bb ^ (1u64 << (sq.to_index() as u64));
            proof {
                lemma_pop_flip(bb, tz);
                assert forall|i: u64| i < 64 implies #[trigger] has_bit(next, i) == (has_bit(
                    bb,
                    i,
                ) && i != tz) by {
                    lemma_has_xor(bb, 1u64 << tz, i);
                    lemma_has_single(tz, i);
                }
                assert(next < bb) by (bit_vector)
                    requires
                        tz < 64 && bb & (1u64 << tz) != 0 && next == bb ^ (1u64 << tz),
                ;
            }
            let ghost old_v = v@;
            v.push(sq);
            proof {
                assert(v@ == old_v.push(sq));
                assert(v@[old_v.len() as int].idx() == tz);
                assert forall|i: u64|
                    i < 64 implies #[trigger] has_bit(self.0, i) == (has_bit(next, i) || exists|
                    k: int,
                |
                    0 <= k < v@.len() && v@[k].idx() == i) by {
                    if has_bit(self.0, i) {
                        if i == tz {
                            assert(v@[old_v.len() as int].idx() == i);
                        } else if !has_bit(bb, i) {
                            let k = choose|k: int| 0 <= k < old_v.len() && old_v[k].idx() == i;
                            assert(v@[k].idx() == i);
                        }
                    } else {
                        assert(!has_bit(bb, i));
                        assert forall|k: int| 0 <= k < v@.len() implies v@[k].idx() != i by {
                            if k < old_v.len() {
                                assert(has_bit(self.0, old_v[k].idx() as u64));
                            }
                        }
                    }
                }
                assert forall|k: int, i: u64|
                    0 <= k < v@.len() && has_bit(next, i) && i < 64 implies v@[k].idx() < i by {
                    assert(has_bit(bb, i) && i != tz);
                    if k == old_v.len() {
                        assert(v@[k].idx() == tz);
                        if i < tz {
                            assert(!low.has(i as int));
                            assert(!has_bit(bb, i));
                        }
                    }
                }
            }
            bb = next;
        }
        proof {
            lemma_pop_zero(bb);
            assert forall|i: int| #[trigger] self.has(i) implies exists|k: int|
                0 <= k < v.len() && v[k].idx() == i by {
                assert(has_bit(self.0, i as u64));
                assert(!has_bit(0u64, i as u64)) by {
                    crate::bits::lemma_has_zero(i as u64);
                }
            }
        }
        v
    }
}

} // verus!
