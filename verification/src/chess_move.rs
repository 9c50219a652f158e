//! A move: source and destination squares, with an optional promotion.

use vstd::prelude::*;
use crate::pieces::Piece;
use crate::square::Square;

verus! {

/// One move of a piece. Castling is written as the king's two-file step;
/// an en-passant capture as the pawn's diagonal step onto the passed
/// square.
#[derive(Clone, Copy, Eq, PartialEq, Debug)]
pub struct ChessMove {
    pub source: Square,
    pub dest: Square,
    pub promotion: Option<Piece>,
}

impl ChessMove {
    pub fn new(source: Square, dest: Square, promotion: Option<Piece>) -> (r: ChessMove)
        ensures
            r.source == source,
            r.dest == dest,
            r.promotion == promotion,
    {
        ChessMove { source, dest, promotion }
    }
}

} // verus!
