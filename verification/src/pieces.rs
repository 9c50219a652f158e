//! The six piece kinds.

use vstd::prelude::*;
use crate::color::Color;

verus! {

/// A kind of chess piece.
#[derive(Debug, Clone, Copy, PartialEq, Eq, Structural)]
pub enum Piece {
    Pawn,
    Knight,
    Bishop,
    Rook,
    Queen,
    King,
}

impl Piece {
    /// Index of the piece kind as it appears in per-piece tables.
    pub open spec fn idx(self) -> int {
        match self {
            Piece::Pawn => 0,
            Piece::Knight => 1,
            Piece::Bishop => 2,
            Piece::Rook => 3,
            Piece::Queen => 4,
            Piece::King => 5,
        }
    }

    pub fn to_index(self) -> (r: usize)
        ensures
            r == self.idx(),
    {
        match self {
            Piece::Pawn => 0,
            Piece::Knight => 1,
            Piece::Bishop => 2,
            Piece::Rook => 3,
            Piece::Queen => 4,
            Piece::King => 5,
        }
    }

    /// The piece kind with the given index.
    pub fn from_index(i: usize) -> (r: Piece)
        requires
            i < 6,
        ensures
            r.idx() == i,
    {
        match i {
            0 => Piece::Pawn,
            1 => Piece::Knight,
            2 => Piece::Bishop,
            3 => Piece::Rook,
            4 => Piece::Queen,
            _ => Piece::King,
        }
    }

    /// The letter this piece writes in a position record: upper case for
    /// White, lower case for Black.
    pub open spec fn fen_letter(self, color: Color) -> char {
        match (self, color) {
            (Piece::Pawn, Color::White) => 'P',
            (Piece::Knight, Color::White) => 'N',
            (Piece::Bishop, Color::White) => 'B',
            (Piece::Rook, Color::White) => 'R',
            (Piece::Queen, Color::White) => 'Q',
            (Piece::King, Color::White) => 'K',
            (Piece::Pawn, Color::Black) => 'p',
            (Piece::Knight, Color::Black) => 'n',
            (Piece::Bishop, Color::Black) => 'b',
            (Piece::Rook, Color::Black) => 'r',
            (Piece::Queen, Color::Black) => 'q',
            (Piece::King, Color::Black) => 'k',
        }
    }

    /// One-letter notation for the piece, capitalized for White.
    pub fn to_string(self, color: Color) -> (r: String)
        ensures
            r@.len() == 1,
            r@[0] == self.fen_letter(color),
    {
        proof {
            reveal_strlit("P");
            reveal_strlit("N");
            reveal_strlit("B");
            reveal_strlit("R");
            reveal_strlit("Q");
            reveal_strlit("K");
            reveal_strlit("p");
            reveal_strlit("n");
            reveal_strlit("b");
            reveal_strlit("r");
            reveal_strlit("q");
            reveal_strlit("k");
        }
        let s: &str = match (self, color) {
            (Piece::Pawn, Color::White) => "P",
            (Piece::Knight, Color::White) => "N",
            (Piece::Bishop, Color::White) => "B",
            (Piece::Rook, Color::White) => "R",
            (Piece::Queen, Color::White) => "Q",
            (Piece::King, Color::White) => "K",
            (Piece::Pawn, Color::Black) => "p",
            (Piece::Knight, Color::Black) => "n",
            (Piece::Bishop, Color::Black) => "b",
            (Piece::Rook, Color::Black) => "r",
            (Piece::Queen, Color::Black) => "q",
            (Piece::King, Color::Black) => "k",
        };
        s.to_owned()
    }

    /// Figurine symbol for the piece.
    pub fn to_symbol(self, color: Color) -> (r: &'static str) {
        match (self, color) {
            (Piece::Pawn, Color::White) => "white pawn",
            (Piece::Pawn, Color::Black) => "black pawn",
            (Piece::Knight, Color::White) => "white knight",
            (Piece::Knight, Color::Black) => "black knight",
            (Piece::Bishop, Color::White) => "white bishop",
            (Piece::Bishop, Color::Black) => "black bishop",
            (Piece::Rook, Color::White) => "white rook",
            (Piece::Rook, Color::Black) => "black rook",
            (Piece::Queen, Color::White) => "white queen",
            (Piece::Queen, Color::Black) => "black queen",
            (Piece::King, Color::White) => "white king",
            (Piece::King, Color::Black) => "black king",
        }
    }
}

} // verus!
