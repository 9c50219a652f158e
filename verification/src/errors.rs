//! Errors surfaced while reading a position record.

use vstd::prelude::*;

verus! {

/// Why a position record was rejected.
#[derive(Debug, Clone, Copy, PartialEq, Eq, Structural)]
pub enum FenError {
    /// Fewer than four fields.
    WrongFieldCount,
    /// The placement field is not eight ranks of width eight over the
    /// piece letters and the digits 1 through 8.
    BadPlacement,
    /// The side-to-move field is neither `w` nor `b`.
    BadSide,
    /// The castling field is not `-` or letters from `KQkq`, at most four.
    BadCastleRights,
    /// The en-passant field is not `-` or a square in algebraic notation.
    BadEnPassant,
    /// The fields read, but the position breaks an invariant the move
    /// generator relies on.
    IllegalPosition,
}

} // verus!
