//! Geometry of the board: alignment of square pairs, the squares between
//! and through them, and the step shapes of the pieces. Squares are
//! spoken of by index, `rank * 8 + file`.

use vstd::prelude::*;
use crate::bits::has_bit;
use crate::square::Square;

verus! {

/// Rank of a square index.
pub open spec fn rk(s: int) -> int {
    s / 8
}

/// File of a square index.
pub open spec fn fl(s: int) -> int {
    s % 8
}

/// The index names a square of the board.
pub open spec fn on_board(s: int) -> bool {
    0 <= s < 64
}

pub open spec fn absi(x: int) -> int {
    if x < 0 {
        -x
    } else {
        x
    }
}

/// `v` lies strictly between `a` and `b`.
pub open spec fn strictly_inside(a: int, v: int, b: int) -> bool {
    (a < v && v < b) || (b < v && v < a)
}

/// The two squares share a diagonal.
pub open spec fn diag_aligned(a: int, b: int) -> bool {
    absi(rk(a) - rk(b)) == absi(fl(a) - fl(b))
}

/// The two squares share a rank or a file.
pub open spec fn line_aligned(a: int, b: int) -> bool {
    rk(a) == rk(b) || fl(a) == fl(b)
}

/// A rook on `s` reaches `t` over an empty board.
pub open spec fn rook_ray_cond(s: int, t: int) -> bool {
    t != s && line_aligned(s, t)
}

/// A bishop on `s` reaches `t` over an empty board.
pub open spec fn bishop_ray_cond(s: int, t: int) -> bool {
    t != s && diag_aligned(s, t)
}

/// `t` lies strictly between the aligned squares `a` and `b`; false when
/// they are not aligned.
pub open spec fn between_cond(a: int, b: int, t: int) -> bool {
    if a != b && diag_aligned(a, b) {
        diag_aligned(a, t) && diag_aligned(b, t) && strictly_inside(rk(a), rk(t), rk(b))
    } else if rk(a) == rk(b) && a != b {
        rk(t) == rk(a) && strictly_inside(fl(a), fl(t), fl(b))
    } else if fl(a) == fl(b) && a != b {
        fl(t) == fl(a) && strictly_inside(rk(a), rk(t), rk(b))
    } else {
        false
    }
}

/// `t` lies on the full rank, file or diagonal through the aligned
/// squares `a` and `b`; false when they are not aligned.
pub open spec fn line_cond(a: int, b: int, t: int) -> bool {
    if a == b {
        false
    } else if diag_aligned(a, b) {
        diag_aligned(a, t) && diag_aligned(b, t)
    } else if rk(a) == rk(b) {
        rk(t) == rk(a)
    } else if fl(a) == fl(b) {
        fl(t) == fl(a)
    } else {
        false
    }
}

/// A knight's jump connects the two squares.
pub open spec fn knight_cond(s: int, t: int) -> bool {
    (absi(rk(s) - rk(t)) == 2 && absi(fl(s) - fl(t)) == 1) || (absi(rk(s) - rk(t)) == 1 && absi(
        fl(s) - fl(t),
    ) == 2)
}

/// A king's step connects the two squares.
pub open spec fn king_cond(s: int, t: int) -> bool {
    t != s && absi(rk(s) - rk(t)) <= 1 && absi(fl(s) - fl(t)) <= 1
}

/// `t` is an interior blocker square of the slider ray from `s`: a ray
/// square that is not at the board edge in the ray's own direction.
pub open spec fn mask_cond(diagonal: bool, s: int, t: int) -> bool {
    if diagonal {
        bishop_ray_cond(s, t) && !(rk(t) == 0 || rk(t) == 7 || fl(t) == 0 || fl(t) == 7)
    } else {
        rook_ray_cond(s, t) && !((rk(t) == rk(s) && (fl(t) == 0 || fl(t) == 7)) || (fl(t) == fl(s)
            && (rk(t) == 0 || rk(t) == 7)))
    }
}

/// A pawn of the given color on `s` may push to `t` when nothing stands
/// in the way: one step forward, or two from its starting rank.
pub open spec fn pawn_push_cond(white: bool, s: int, t: int) -> bool {
    if white {
        (rk(s) == 1 && (t == s + 8 || t == s + 16)) || (rk(s) != 1 && rk(s) != 7 && t == s + 8)
    } else {
        (rk(s) == 6 && (t == s - 8 || t == s - 16)) || (rk(s) != 6 && rk(s) != 0 && t == s - 8)
    }
}

/// A pawn of the given color on `s` attacks `t` diagonally.
pub open spec fn pawn_attack_cond(white: bool, s: int, t: int) -> bool {
    rk(t) == rk(s) + (if white {
        1int
    } else {
        -1int
    }) && absi(fl(t) - fl(s)) == 1
}

/// The square lies on the border of the board.
pub open spec fn edge_cond(t: int) -> bool {
    rk(t) == 0 || rk(t) == 7 || fl(t) == 0 || fl(t) == 7
}

/// One of the six squares a king may stand on before or after castling:
/// c1, e1, g1, c8, e8, g8.
pub open spec fn castle_sq_cond(t: int) -> bool {
    t == 2 || t == 4 || t == 6 || t == 58 || t == 60 || t == 62
}

/// A slider on `s` attacks `t` under occupancy `occ`: the squares are
/// aligned the slider's way and every square strictly between them is
/// empty. The blocker square itself is attacked.
pub open spec fn slider_reach(diagonal: bool, s: int, occ: u64, t: int) -> bool {
    (if diagonal {
        bishop_ray_cond(s, t)
    } else {
        rook_ray_cond(s, t)
    }) && (forall|u: int| between_cond(s, t, u) ==> !has_bit(occ, u as u64))
}

/// The low `n` bits of the interior blocker mask of a slider on `s`.
pub open spec fn mask_bits_upto(diagonal: bool, s: int, n: int) -> u64
    decreases n,
{
    if n <= 0 {
        0u64
    } else {
        mask_bits_upto(diagonal, s, n - 1) | (if mask_cond(diagonal, s, n - 1) {
            1u64 << ((n - 1) as u64)
        } else {
            0u64
        })
    }
}

/// The interior blocker mask of a slider on `s`, as a value.
pub open spec fn mask_bits(diagonal: bool, s: int) -> u64 {
    mask_bits_upto(diagonal, s, 64)
}

proof fn lemma_mask_bits_upto(diagonal: bool, s: int, n: int)
    requires
        0 <= n <= 64,
    ensures
        forall|t: u64|
            t < 64 ==> #[trigger] has_bit(mask_bits_upto(diagonal, s, n), t) == (t < n
                && mask_cond(diagonal, s, t as int)),
    decreases n,
{
    broadcast use crate::bits::group_has_lemmas;

    if n > 0 {
        lemma_mask_bits_upto(diagonal, s, n - 1);
        let prev = mask_bits_upto(diagonal, s, n - 1);
        let x: u64 = if mask_cond(diagonal, s, n - 1) {
            1u64 << ((n - 1) as u64)
        } else {
            0u64
        };
        assert(mask_bits_upto(diagonal, s, n) == (prev | x));
        assert forall|t: u64|
            t < 64 implies #[trigger] has_bit(mask_bits_upto(diagonal, s, n), t) == (t < n
            && mask_cond(diagonal, s, t as int)) by {
            assert(has_bit(prev | x, t) == (has_bit(prev, t) || has_bit(x, t)));
        }
    } else {
        assert forall|t: u64|
            t < 64 implies #[trigger] has_bit(mask_bits_upto(diagonal, s, n), t) == (t < n
            && mask_cond(diagonal, s, t as int)) by {
            assert(!has_bit(0u64, t));
        }
    }
}

/// Bit by bit, `mask_bits` is the mask condition.
pub proof fn lemma_mask_bits(diagonal: bool, s: int)
    ensures
        forall|t: u64|
            t < 64 ==> #[trigger] has_bit(mask_bits(diagonal, s), t) == mask_cond(
                diagonal,
                s,
                t as int,
            ),
{
    lemma_mask_bits_upto(diagonal, s, 64);
}

/// The full line through two squares does not depend on their order.
pub proof fn lemma_line_sym(a: int, b: int, t: int)
    ensures
        line_cond(a, b, t) == line_cond(b, a, t),
{
}

/// Lying between two squares does not depend on their order.
pub proof fn lemma_between_sym(a: int, b: int, u: int)
    ensures
        between_cond(a, b, u) == between_cond(b, a, u),
{
}

/// A slider reaches `t` from `s` exactly when it reaches `s` from `t`:
/// alignment and the squares in between are shared.
pub proof fn lemma_reach_sym(diagonal: bool, s: int, occ: u64, t: int)
    ensures
        slider_reach(diagonal, s, occ, t) == slider_reach(diagonal, t, occ, s),
{
    assert forall|u: int| between_cond(s, t, u) == between_cond(t, s, u) by {
        lemma_between_sym(s, t, u);
    }
}

/// A pawn attack read from the defender's side: a pawn of color `w` on
/// `s` attacks `t` exactly when, seen from `t`, a pawn of the other
/// color would attack `s`.
pub proof fn lemma_pawn_attack_sym(w: bool, s: int, t: int)
    ensures
        pawn_attack_cond(w, s, t) == pawn_attack_cond(!w, t, s),
{
}

/// A square strictly between two squares of the board is itself on the
/// board.
pub proof fn lemma_between_on_board(a: int, b: int, t: int)
    requires
        on_board(a),
        on_board(b),
        between_cond(a, b, t),
    ensures
        on_board(t),
{
    assert(t == 8 * (t / 8) + t % 8);
}

/// `value` lies strictly between `a` and `b`.
pub fn is_between(a: i8, value: i8, b: i8) -> (r: bool)
    ensures
        r == strictly_inside(a as int, value as int, b as int),
{
    let (min, max) = if a < b {
        (a, b)
    } else {
        (b, a)
    };
    min < value && value < max
}

/// The two squares share a diagonal.
pub fn are_squares_diagonal(src: &Square, dest: &Square) -> (r: bool)
    ensures
        r == diag_aligned(src.idx(), dest.idx()),
{
    let src_rank = src.get_rank().to_index() as i8;
    let src_file = src.get_file().to_index() as i8;
    let dest_rank = dest.get_rank().to_index() as i8;
    let dest_file = dest.get_file().to_index() as i8;
    let dr = if src_rank < dest_rank {
        dest_rank - src_rank
    } else {
        src_rank - dest_rank
    };
    let df = if src_file < dest_file {
        dest_file - src_file
    } else {
        src_file - dest_file
    };
    dr == df
}

/// The two squares share a rank or a file.
pub fn are_squares_linear(src: &Square, dest: &Square) -> (r: bool)
    ensures
        r == line_aligned(src.idx(), dest.idx()),
{
    let src_rank = src.get_rank().to_index();
    let src_file = src.get_file().to_index();
    let dest_rank = dest.get_rank().to_index();
    let dest_file = dest.get_file().to_index();
    src_rank == dest_rank || src_file == dest_file
}

/// `test` lies strictly between `src` and `dest` on a shared diagonal.
pub fn is_on_diagonal_between(src: &Square, test: &Square, dest: &Square) -> (r: bool)
    ensures
        r == (diag_aligned(src.idx(), test.idx()) && diag_aligned(dest.idx(), test.idx())
            && strictly_inside(rk(src.idx()), rk(test.idx()), rk(dest.idx()))),
{
    let src_rank = src.get_rank().to_index() as i8;
    let dest_rank = dest.get_rank().to_index() as i8;
    let test_rank = test.get_rank().to_index() as i8;
    are_squares_diagonal(src, test) && are_squares_diagonal(dest, test) && is_between(
        src_rank,
        test_rank,
        dest_rank,
    )
}

/// `test` lies strictly between `src` and `dest` on a shared rank or
/// file.
pub fn is_on_line_between(src: &Square, test: &Square, dest: &Square) -> (r: bool)
    ensures
        r == ((rk(src.idx()) == rk(test.idx()) && rk(dest.idx()) == rk(test.idx())
            && strictly_inside(fl(src.idx()), fl(test.idx()), fl(dest.idx()))) || (fl(src.idx())
            == fl(test.idx()) && fl(dest.idx()) == fl(test.idx()) && strictly_inside(
            rk(src.idx()),
            rk(test.idx()),
            rk(dest.idx()),
        ))),
{
    let src_rank = src.get_rank().to_index() as i8;
    let src_file = src.get_file().to_index() as i8;
    let dest_rank = dest.get_rank().to_index() as i8;
    let dest_file = dest.get_file().to_index() as i8;
    let test_rank = test.get_rank().to_index() as i8;
    let test_file = test.get_file().to_index() as i8;
    let same_horizontal = src_rank == test_rank && dest_rank == test_rank && is_between(
        src_file,
        test_file,
        dest_file,
    );
    let same_vertical = src_file == test_file && dest_file == test_file && is_between(
        src_rank,
        test_rank,
        dest_rank,
    );
    same_horizontal || same_vertical
}

/// `test` lies on the full rank or file through `src` and `dest`.
pub fn is_on_straight_line(src: &Square, test: &Square, dest: &Square) -> (r: bool)
    ensures
        r == ((rk(src.idx()) == rk(test.idx()) && rk(dest.idx()) == rk(test.idx())) || (fl(
            src.idx(),
        ) == fl(test.idx()) && fl(dest.idx()) == fl(test.idx()))),
{
    let src_rank = src.get_rank().to_index();
    let src_file = src.get_file().to_index();
    let dest_rank = dest.get_rank().to_index();
    let dest_file = dest.get_file().to_index();
    let test_rank = test.get_rank().to_index();
    let test_file = test.get_file().to_index();
    (src_rank == test_rank && dest_rank == test_rank) || (src_file == test_file && dest_file
        == test_file)
}

} // verus!
