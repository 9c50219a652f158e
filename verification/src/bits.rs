//! Bit-level model of a 64-bit board mask: which bits are set, how the
//! bitwise operators act on single bits, and a population count.

use vstd::prelude::*;

verus! {

/// Bit `i` of `b` is set. All bitboard contracts are stated through this
/// predicate, one bit (one board square) at a time.
pub open spec fn has_bit(b: u64, i: u64) -> bool
    recommends
        i < 64,
{
    b & (1u64 << i) != 0
}

/// Number of set bits, defined arithmetically over the binary expansion.
pub open spec fn pop64(b: u64) -> nat
    decreases b,
{
    if b == 0 {
        0
    } else {
        (b % 2) as nat + pop64(b / 2)
    }
}

pub broadcast proof fn lemma_has_and(a: u64, b: u64, i: u64)
    by (bit_vector)
    requires
        i < 64,
    ensures
        #[trigger] has_bit(a & b, i) == (has_bit(a, i) && has_bit(b, i)),
{
}

pub broadcast proof fn lemma_has_or(a: u64, b: u64, i: u64)
    by (bit_vector)
    requires
        i < 64,
    ensures
        #[trigger] has_bit(a | b, i) == (has_bit(a, i) || has_bit(b, i)),
{
}

pub broadcast proof fn lemma_has_xor(a: u64, b: u64, i: u64)
    by (bit_vector)
    requires
        i < 64,
    ensures
        #[trigger] has_bit(a ^ b, i) == (has_bit(a, i) != has_bit(b, i)),
{
}

pub broadcast proof fn lemma_has_not(a: u64, i: u64)
    by (bit_vector)
    requires
        i < 64,
    ensures
        #[trigger] has_bit(!a, i) == !has_bit(a, i),
{
}

pub broadcast proof fn lemma_has_single(j: u64, i: u64)
    by (bit_vector)
    requires
        i < 64,
        j < 64,
    ensures
        #[trigger] has_bit(1u64 << j, i) == (i == j),
{
}

pub broadcast proof fn lemma_has_zero(i: u64)
    by (bit_vector)
    ensures
        !(#[trigger] has_bit(0u64, i)),
{
}

pub broadcast proof fn lemma_has_full(i: u64)
    by (bit_vector)
    requires
        i < 64,
    ensures
        #[trigger] has_bit(0xffff_ffff_ffff_ffffu64, i),
{
}

pub broadcast group group_has_lemmas {
    lemma_has_and,
    lemma_has_or,
    lemma_has_xor,
    lemma_has_not,
    lemma_has_single,
    lemma_has_zero,
    lemma_has_full,
}

/// A nonempty mask has its lowest set bit at `trailing_zeros`.
pub proof fn lemma_nonzero_lowest(b: u64)
    requires
        b != 0,
    ensures
        vstd::std_specs::bits::u64_trailing_zeros(b) < 64,
        has_bit(b, vstd::std_specs::bits::u64_trailing_zeros(b) as u64),
        forall|j: u64|
            j < vstd::std_specs::bits::u64_trailing_zeros(b) as u64 ==> !has_bit(b, j),
{
    broadcast use vstd::std_specs::bits::axiom_u64_trailing_zeros;

    let tz = vstd::std_specs::bits::u64_trailing_zeros(b) as u64;
    assert((b >> tz) & 1u64 == 1u64);
    assert(tz < 64 && (b >> tz) & 1u64 == 1u64 ==> b & (1u64 << tz) != 0) by (bit_vector);
    assert forall|j: u64| j < tz implies !has_bit(b, j) by {
        assert((b >> j) & 1u64 == 0u64);
        assert(j < 64 && (b >> j) & 1u64 == 0u64 ==> b & (1u64 << j) == 0) by (bit_vector);
    }
}

/// Two masks with the same bits are equal.
pub proof fn lemma_bits_eq(a: u64, b: u64)
    requires
        forall|i: u64| i < 64 ==> has_bit(a, i) == has_bit(b, i),
    ensures
        a == b,
{
    if a != b {
        let d = a ^ b;
        assert(a != b ==> a ^ b != 0) by (bit_vector);
        lemma_nonzero_lowest(d);
        let tz = vstd::std_specs::bits::u64_trailing_zeros(d) as u64;
        lemma_has_xor(a, b, tz);
        assert(has_bit(a, tz) == has_bit(b, tz));
    }
}

/// Clearing one set bit lowers the population count by one; setting one
/// clear bit raises it by one.
pub proof fn lemma_pop_flip(b: u64, i: u64)
    requires
        i < 64,
    ensures
        has_bit(b, i) ==> pop64(b ^ (1u64 << i)) == pop64(b) - 1,
        !has_bit(b, i) ==> pop64(b ^ (1u64 << i)) == pop64(b) + 1,
    decreases i,
{
    let f = b ^ (1u64 << i);
    if i == 0 {
        assert(f / 2 == b / 2 && (has_bit(b, 0) ==> b % 2 == 1 && f % 2 == 0) && (!has_bit(b, 0)
            ==> b % 2 == 0 && f % 2 == 1)) by (bit_vector)
            requires
                f == b ^ (1u64 << 0),
        ;
        if b / 2 == 0 {
            reveal_with_fuel(pop64, 3);
        }
    } else {
        let im1 = (i - 1) as u64;
        lemma_pop_flip(b / 2, im1);
        assert(f / 2 == (b / 2) ^ (1u64 << im1) && f % 2 == b % 2 && has_bit(b, i) == has_bit(
            b / 2,
            im1,
        )) by (bit_vector)
            requires
                0 < i < 64 && im1 == i - 1 && f == b ^ (1u64 << i),
        ;
        if b == 0 {
            reveal_with_fuel(pop64, 3);
            assert(pop64(f) == pop64(f / 2) + (f % 2) as nat);
        }
    }
}

/// A mask with no set bits is zero.
pub proof fn lemma_pop_zero(b: u64)
    ensures
        (pop64(b) == 0) == (b == 0),
    decreases b,
{
    if b != 0 {
        if b / 2 != 0 {
            lemma_pop_zero(b / 2);
        } else {
            assert(b % 2 == 1) by (nonlinear_arith)
                requires
                    b != 0 && b / 2 == 0,
            ;
        }
    }
}

/// A mask with exactly one set bit is a power of two: the bit at its
/// `trailing_zeros` position.
pub proof fn lemma_pop_one(b: u64)
    requires
        pop64(b) == 1,
    ensures
        vstd::std_specs::bits::u64_trailing_zeros(b) < 64,
        b == 1u64 << (vstd::std_specs::bits::u64_trailing_zeros(b) as u64),
{
    lemma_pop_zero(b);
    lemma_nonzero_lowest(b);
    let tz = vstd::std_specs::bits::u64_trailing_zeros(b) as u64;
    lemma_pop_flip(b, tz);
    lemma_pop_zero(b ^ (1u64 << tz));
    assert((b ^ (1u64 << tz)) ^ (1u64 << tz) == b) by (bit_vector);
    assert(0u64 ^ (1u64 << tz) == 1u64 << tz) by (bit_vector);
}

/// A value below `pow2(w)` has at most `w` set bits.
pub proof fn lemma_pop_bound(b: u64, w: nat)
    requires
        b < vstd::arithmetic::power2::pow2(w),
    ensures
        pop64(b) <= w,
    decreases w,
{
    if b != 0 {
        assert(w > 0) by {
            vstd::arithmetic::power2::lemma2_to64();
        }
        vstd::arithmetic::power2::lemma_pow2_unfold(w);
        assert(b / 2 < vstd::arithmetic::power2::pow2((w - 1) as nat));
        lemma_pop_bound(b / 2, (w - 1) as nat);
    }
}

/// A value below `pow2(w)` with exactly `w` set bits is `pow2(w) - 1`.
pub proof fn lemma_pop_exact(b: u64, w: nat)
    requires
        b < vstd::arithmetic::power2::pow2(w),
        pop64(b) == w,
    ensures
        b == vstd::arithmetic::power2::pow2(w) - 1,
    decreases w,
{
    if w == 0 {
        vstd::arithmetic::power2::lemma2_to64();
    } else {
        vstd::arithmetic::power2::lemma_pow2_unfold(w);
        lemma_pop_bound(b / 2, (w - 1) as nat);
        if b == 0 {
            assert(pop64(b) == 0);
        }
        lemma_pop_exact(b / 2, (w - 1) as nat);
    }
}

/// A value other than all-ones has fewer than 64 set bits.
pub proof fn lemma_pop_not_max(b: u64)
    requires
        b != 0xffff_ffff_ffff_ffffu64,
    ensures
        pop64(b) < 64,
{
    lemma_pop_le_64(b);
    if pop64(b) == 64 {
        vstd::arithmetic::power2::lemma2_to64_rest();
        lemma_pop_exact(b, 64);
    }
}

/// Every 64-bit value has at most 64 set bits.
pub proof fn lemma_pop_le_64(b: u64)
    ensures
        pop64(b) <= 64,
{
    vstd::arithmetic::power2::lemma2_to64_rest();
    lemma_pop_bound(b, 64);
}

/// A left shift of one is the power of two of the shift amount.
pub proof fn lemma_u64_shl_value(k: u64)
    requires
        k < 64,
    ensures
        (1u64 << k) == vstd::arithmetic::power2::pow2(k as nat),
{
    vstd::arithmetic::power2::lemma2_to64_rest();
    vstd::arithmetic::power2::lemma_pow2_strictly_increases(k as nat, 64);
    vstd::bits::lemma_u64_shl_is_mul(1u64, k);
}

/// Two masks with the same bits have the same population count.
pub proof fn lemma_pop_rel_same(v0: u64, v1: u64)
    requires
        forall|j: u64| j < 64 ==> has_bit(v1, j) == has_bit(v0, j),
    ensures
        pop64(v1) == pop64(v0),
{
    lemma_bits_eq(v1, v0);
}

/// Moving one set bit to a clear position keeps the population count.
pub proof fn lemma_pop_rel_move(v0: u64, v1: u64, a: u64, b: u64)
    requires
        a < 64,
        b < 64,
        a != b,
        has_bit(v0, a),
        !has_bit(v0, b),
        forall|j: u64|
            j < 64 ==> has_bit(v1, j) == (if j == a {
                false
            } else if j == b {
                true
            } else {
                has_bit(v0, j)
            }),
    ensures
        pop64(v1) == pop64(v0),
{
    broadcast use group_has_lemmas;

    let w = v0 ^ (1u64 << a);
    lemma_pop_flip(v0, a);
    assert(!has_bit(w, b));
    lemma_pop_flip(w, b);
    assert forall|j: u64| j < 64 implies has_bit(v1, j) == has_bit(w ^ (1u64 << b), j) by {}
    lemma_bits_eq(v1, w ^ (1u64 << b));
}

/// Clearing one set bit lowers the population count by one.
pub proof fn lemma_pop_rel_clear(v0: u64, v1: u64, a: u64)
    requires
        a < 64,
        has_bit(v0, a),
        forall|j: u64| j < 64 ==> has_bit(v1, j) == (j != a && has_bit(v0, j)),
    ensures
        pop64(v1) + 1 == pop64(v0),
{
    broadcast use group_has_lemmas;

    lemma_pop_flip(v0, a);
    assert forall|j: u64| j < 64 implies has_bit(v1, j) == has_bit(v0 ^ (1u64 << a), j) by {}
    lemma_bits_eq(v1, v0 ^ (1u64 << a));
    lemma_pop_zero(v0);
}

/// Counts the set bits of `b`.
pub fn popcount(b: u64) -> (r: u32)
    ensures
        r == pop64(b),
{
    proof {
        lemma_pop_le_64(b);
    }
    let mut x = b;
    let mut count: u32 = 0;
    while x != 0
        invariant
            count + pop64(x) == pop64(b),
            pop64(b) <= 64,
        decreases x,
    {
        proof {
            assert(x % 2 == (x & 1) && x / 2 == (x >> 1u64) && (x >> 1u64) < x) by (bit_vector)
                requires
                    x != 0,
            ;
        }
        count = count + (x & 1) as u32;
        x = x >> 1u64;
    }
    count
}

} // verus!
