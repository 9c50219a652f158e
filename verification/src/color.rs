//! The two sides of the game.

use vstd::prelude::*;
use crate::rank::Rank;

verus! {

/// One of the two players.
#[derive(Debug, Clone, Copy, PartialEq, Eq, Structural)]
pub enum Color {
    White,
    Black,
}

impl Color {
    /// Index of the color as it appears in per-color tables.
    pub open spec fn idx(self) -> int {
        match self {
            Color::White => 0,
            Color::Black => 1,
        }
    }

    /// The other side.
    pub open spec fn spec_flip(self) -> Color {
        match self {
            Color::White => Color::Black,
            Color::Black => Color::White,
        }
    }

    pub fn to_index(self) -> (r: usize)
        ensures
            r == self.idx(),
    {
        match self {
            Color::White => 0,
            Color::Black => 1,
        }
    }

    /// The other side.
    pub fn flip(self) -> (r: Color)
        ensures
            r == self.spec_flip(),
    {
        match self {
            Color::White => Color::Black,
            Color::Black => Color::White,
        }
    }

    /// The rank a pawn of this color promotes on.
    pub fn promotion_rank(&self) -> (r: Rank)
        ensures
            r.idx() == if self is White { 7int } else { 0int },
    {
        match self {
            Color::White => Rank::Eighth,
            Color::Black => Rank::First,
        }
    }

    /// The rank immediately before the promotion rank: a pawn standing
    /// here promotes on its next forward move.
    pub fn pre_promotion_rank(&self) -> (r: Rank)
        ensures
            r.idx() == if self is White { 6int } else { 1int },
    {
        match self {
            Color::White => Rank::Seventh,
            Color::Black => Rank::Second,
        }
    }

    /// The back rank, where the king and rooks of this color start.
    pub fn starting_rank(&self) -> (r: Rank)
        ensures
            r.idx() == self.spec_starting_rank(),
    {
        match self {
            Color::White => Rank::First,
            Color::Black => Rank::Eighth,
        }
    }

    /// Index of the back rank.
    pub open spec fn spec_starting_rank(self) -> int {
        match self {
            Color::White => 0,
            Color::Black => 7,
        }
    }
}

} // verus!
