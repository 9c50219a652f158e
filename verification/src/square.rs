//! Squares of the board, encoded as `rank * 8 + file` (a1 = 0, h8 = 63).

use vstd::prelude::*;
use vstd::string::StringSliceAdditionalSpecFns;
use crate::color::Color;
use crate::file::File;
use crate::rank::Rank;

verus! {

/// A square of the board, held as its index.
#[derive(Debug, Clone, Copy, PartialEq, Eq, Structural)]
pub struct Square(u8);

impl Square {
    /// A square index is always below 64.
    #[verifier::type_invariant]
    pub closed spec fn inv(self) -> bool {
        self.0 < 64
    }

    /// The index of the square: `rank * 8 + file`.
    pub closed spec fn idx(self) -> int {
        self.0 as int
    }


    pub fn new(rank: Rank, file: File) -> (r: Square)
        ensures
            r.idx() == rank.idx() * 8 + file.idx(),
    {
        Square((rank.to_index() * 8 + file.to_index()) as u8)
    }

    /// The square with the given index, wrapping modulo 64.
    pub fn from_index(idx: u8) -> (r: Square)
        ensures
            r.idx() == idx as int % 64,
    {
        Square(idx % 64)
    }

    pub fn to_index(self) -> (r: usize)
        ensures
            r == self.idx(),
            r < 64,
    {
        proof {
            use_type_invariant(self);
        }
        self.0 as usize
    }

    pub fn get_rank(&self) -> (r: Rank)
        ensures
            r.idx() == self.idx() / 8,
    {
        proof {
            use_type_invariant(*self);
        }
        Rank::from_index((self.0 / 8) as usize)
    }

    pub fn get_file(&self) -> (r: File)
        ensures
            r.idx() == self.idx() % 8,
    {
        proof {
            use_type_invariant(*self);
        }
        File::from_index((self.0 % 8) as usize)
    }

    /// The square one rank up, or `None` on the eighth rank.
    pub fn up(&self) -> (r: Option<Square>)
        ensures
            self.idx() / 8 == 7 ==> r is None,
            self.idx() / 8 != 7 ==> (r matches Some(s) && s.idx() == self.idx() + 8),
    {
        proof {
            use_type_invariant(*self);
        }
        if self.get_rank().to_index() == 7 {
            None
        } else {
            Some(Square::new(self.get_rank().up(), self.get_file()))
        }
    }

    /// The square one rank down, or `None` on the first rank.
    pub fn down(&self) -> (r: Option<Square>)
        ensures
            self.idx() / 8 == 0 ==> r is None,
            self.idx() / 8 != 0 ==> (r matches Some(s) && s.idx() == self.idx() - 8),
    {
        proof {
            use_type_invariant(*self);
        }
        if self.get_rank().to_index() == 0 {
            None
        } else {
            Some(Square::new(self.get_rank().down(), self.get_file()))
        }
    }

    /// The square one file to the left, or `None` on the a-file.
    pub fn left(&self) -> (r: Option<Square>)
        ensures
            self.idx() % 8 == 0 ==> r is None,
            self.idx() % 8 != 0 ==> (r matches Some(s) && s.idx() == self.idx() - 1),
    {
        proof {
            use_type_invariant(*self);
        }
        if self.get_file().to_index() == 0 {
            None
        } else {
            Some(Square::new(self.get_rank(), self.get_file().left()))
        }
    }

    /// The square one file to the right, or `None` on the h-file.
    pub fn right(&self) -> (r: Option<Square>)
        ensures
            self.idx() % 8 == 7 ==> r is None,
            self.idx() % 8 != 7 ==> (r matches Some(s) && s.idx() == self.idx() + 1),
    {
        proof {
            use_type_invariant(*self);
        }
        if self.get_file().to_index() == 7 {
            None
        } else {
            Some(Square::new(self.get_rank(), self.get_file().right()))
        }
    }

    /// One rank toward the opponent: up for White, down for Black.
    pub fn forward(&self, color: Color) -> (r: Option<Square>)
        ensures
            self.idx() / 8 == (if color is White { 7int } else { 0int }) ==> r is None,
            self.idx() / 8 != (if color is White { 7int } else { 0int }) ==> (r matches Some(s)
                && s.idx() == self.idx() + (if color is White { 8int } else { -8int })),
    {
        match color {
            Color::White => self.up(),
            Color::Black => self.down(),
        }
    }

    /// One rank toward the own back rank: down for White, up for Black.
    pub fn backward(&self, color: Color) -> (r: Option<Square>)
        ensures
            self.idx() / 8 == (if color is White { 0int } else { 7int }) ==> r is None,
            self.idx() / 8 != (if color is White { 0int } else { 7int }) ==> (r matches Some(s)
                && s.idx() == self.idx() + (if color is White { -8int } else { 8int })),
    {
        match color {
            Color::White => self.down(),
            Color::Black => self.up(),
        }
    }

    /// True on the border of the board.
    pub fn is_edge(&self) -> (r: bool)
        ensures
            r == (self.idx() % 8 == 0 || self.idx() % 8 == 7 || self.idx() / 8 == 0 || self.idx()
                / 8 == 7),
    {
        self.get_file().is_edge() || self.get_rank().is_edge()
    }

    /// Reads a square from algebraic notation, a file letter and a
    /// rank digit.
    pub fn parse_text(s: &str) -> (r: Option<Square>)
        ensures
            r matches Some(sq) ==> ({
                let b = s.spec_bytes();
                b.len() == 2 && 97 <= b[0] <= 104 && 49 <= b[1] <= 56 && sq.idx() == (b[1] - 49)
                    * 8 + (b[0] - 97)
            }),
    {
        let bytes = s.as_bytes();
        if bytes.len() != 2 {
            return None;
        }
        let fb = bytes[0];
        let rb = bytes[1];
        if 97 <= fb && fb <= 104 && 49 <= rb && rb <= 56 {
            Some(Square::from_index((rb - 49) * 8 + (fb - 97)))
        } else {
            None
        }
    }

    /// The square in algebraic notation, a file letter and a rank
    /// digit.
    pub fn to_string(&self) -> (r: String)
        ensures
            r@.len() == 2,
            r@[0] == ((97 + self.idx() % 8) as u8) as char,
            r@[1] == ((49 + self.idx() / 8) as u8) as char,
    {
        proof {
            use_type_invariant(*self);
        }
        let i = self.to_index();
        let mut out: Vec<u8> = Vec::new();
        out.push(97 + (i % 8) as u8);
        out.push(49 + (i / 8) as u8);
        crate::strutil::ascii_to_string(out)
    }

    /// Two squares with the same index are the same square.
    pub proof fn lemma_idx_injective(a: Square, b: Square)
        requires
            a.idx() == b.idx(),
        ensures
            a == b,
    {
    }

    /// All 64 squares in index order.
    pub fn all_squares() -> (r: Vec<Square>)
        ensures
            r.len() == 64,
            forall|k: int| 0 <= k < 64 ==> (#[trigger] r[k]).idx() == k,
    {
        let mut v: Vec<Square> = Vec::new();
        for i in 0..64u8
            invariant
                v.len() == i,
                forall|k: int| 0 <= k < i ==> (#[trigger] v[k]).idx() == k,
        {
            v.push(Square::from_index(i));
        }
        v
    }
}

} // verus!
