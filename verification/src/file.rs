//! Files (columns) of the board, indexed 0 ('a') through 7 ('h').

use vstd::prelude::*;

verus! {

/// A file (column) of the board.
#[derive(Clone, Copy, Debug, PartialEq, Eq, Structural)]
pub enum File {
    A,
    B,
    C,
    D,
    E,
    F,
    G,
    H,
}

impl File {
    /// Index of the file, 0 for the a-file through 7 for the h-file.
    pub open spec fn idx(self) -> int {
        match self {
            File::A => 0,
            File::B => 1,
            File::C => 2,
            File::D => 3,
            File::E => 4,
            File::F => 5,
            File::G => 6,
            File::H => 7,
        }
    }

    /// Converts an index to a `File`, wrapping modulo 8.
    pub fn from_index(i: usize) -> (r: File)
        ensures
            r.idx() == i as int % 8,
    {
        match i % 8 {
            0 => File::A,
            1 => File::B,
            2 => File::C,
            3 => File::D,
            4 => File::E,
            5 => File::F,
            6 => File::G,
            _ => File::H,
        }
    }

    pub fn to_index(self) -> (r: usize)
        ensures
            r == self.idx(),
    {
        match self {
            File::A => 0,
            File::B => 1,
            File::C => 2,
            File::D => 3,
            File::E => 4,
            File::F => 5,
            File::G => 6,
            File::H => 7,
        }
    }

    /// The file to the left, wrapping from the a-file to the h-file.
    pub fn left(&self) -> (r: File)
        ensures
            r.idx() == (self.idx() + 7) % 8,
    {
        File::from_index((self.to_index() + 7) % 8)
    }

    /// The file to the right, wrapping from the h-file to the a-file.
    pub fn right(&self) -> (r: File)
        ensures
            r.idx() == (self.idx() + 1) % 8,
    {
        File::from_index(self.to_index() + 1)
    }

    /// True on the a- and h-files.
    pub fn is_edge(&self) -> (r: bool)
        ensures
            r == (self.idx() == 0 || self.idx() == 7),
    {
        *self == File::A || *self == File::H
    }
}

} // verus!
