//! Ranks (rows) of the board, indexed 0 through 7.

use vstd::prelude::*;
use crate::color::Color;

verus! {

/// A rank (row) of the board.
#[derive(Clone, Copy, Debug, PartialEq, Eq, Structural)]
pub enum Rank {
    First,
    Second,
    Third,
    Fourth,
    Fifth,
    Sixth,
    Seventh,
    Eighth,
}

impl Rank {
    /// Index of the rank, 0 for the first rank through 7 for the eighth.
    pub open spec fn idx(self) -> int {
        match self {
            Rank::First => 0,
            Rank::Second => 1,
            Rank::Third => 2,
            Rank::Fourth => 3,
            Rank::Fifth => 4,
            Rank::Sixth => 5,
            Rank::Seventh => 6,
            Rank::Eighth => 7,
        }
    }

    /// Converts an index to a `Rank`, wrapping modulo 8.
    pub fn from_index(i: usize) -> (r: Rank)
        ensures
            r.idx() == i as int % 8,
    {
        match i % 8 {
            0 => Rank::First,
            1 => Rank::Second,
            2 => Rank::Third,
            3 => Rank::Fourth,
            4 => Rank::Fifth,
            5 => Rank::Sixth,
            6 => Rank::Seventh,
            _ => Rank::Eighth,
        }
    }

    pub fn to_index(self) -> (r: usize)
        ensures
            r == self.idx(),
    {
        match self {
            Rank::First => 0,
            Rank::Second => 1,
            Rank::Third => 2,
            Rank::Fourth => 3,
            Rank::Fifth => 4,
            Rank::Sixth => 5,
            Rank::Seventh => 6,
            Rank::Eighth => 7,
        }
    }

    /// The rank below, wrapping from the first rank to the eighth.
    pub fn down(&self) -> (r: Rank)
        ensures
            r.idx() == (self.idx() + 7) % 8,
    {
        Rank::from_index((self.to_index() + 7) % 8)
    }

    /// The rank above, wrapping from the eighth rank to the first.
    pub fn up(&self) -> (r: Rank)
        ensures
            r.idx() == (self.idx() + 1) % 8,
    {
        Rank::from_index(self.to_index() + 1)
    }

    /// True on the first and eighth ranks.
    pub fn is_edge(&self) -> (r: bool)
        ensures
            r == (self.idx() == 0 || self.idx() == 7),
    {
        *self == Rank::First || *self == Rank::Eighth
    }

    /// The next rank from `color`'s point of view: up for White, down for
    /// Black, wrapping at the board edge.
    pub fn forward(&self, color: Color) -> (r: Rank)
        ensures
            r.idx() == if color is White {
                (self.idx() + 1) % 8
            } else {
                (self.idx() + 7) % 8
            },
    {
        match color {
            Color::White => self.up(),
            Color::Black => self.down(),
        }
    }
}

} // verus!
