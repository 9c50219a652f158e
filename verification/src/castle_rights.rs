//! Castling rights of both sides, and how they decay as pieces leave
//! their starting squares.

use vstd::prelude::*;
use vstd::string::StringSliceAdditionalSpecFns;
use crate::bitboard::BitBoard;
use crate::color::Color;
use crate::errors::FenError;
use crate::square::Square;
use crate::strutil::ascii_to_string;

verus! {

/// Which castlings are still available. Rights only ever decrease during
/// a game.
#[derive(Debug, Clone, Copy, PartialEq, Eq, Structural)]
pub struct CastleRights {
    pub white_kingside: bool,
    pub white_queenside: bool,
    pub black_kingside: bool,
    pub black_queenside: bool,
}

impl Default for CastleRights {
    /// No rights at all.
    fn default() -> (r: Self)
        ensures
            r == CastleRights::none(),
    {
        CastleRights {
            white_kingside: false,
            white_queenside: false,
            black_kingside: false,
            black_queenside: false,
        }
    }
}

impl CastleRights {
    /// The value with every right cleared.
    pub open spec fn none() -> CastleRights {
        CastleRights {
            white_kingside: false,
            white_queenside: false,
            black_kingside: false,
            black_queenside: false,
        }
    }

    /// The kingside right of `color`, as a spec value.
    pub open spec fn spec_kingside(self, color: Color) -> bool {
        if color is White {
            self.white_kingside
        } else {
            self.black_kingside
        }
    }

    /// The queenside right of `color`, as a spec value.
    pub open spec fn spec_queenside(self, color: Color) -> bool {
        if color is White {
            self.white_queenside
        } else {
            self.black_queenside
        }
    }

    pub fn has_kingside(&self, color: Color) -> (r: bool)
        ensures
            r == self.spec_kingside(color),
    {
        match color {
            Color::White => self.white_kingside,
            Color::Black => self.black_kingside,
        }
    }

    pub fn has_queenside(&self, color: Color) -> (r: bool)
        ensures
            r == self.spec_queenside(color),
    {
        match color {
            Color::White => self.white_queenside,
            Color::Black => self.black_queenside,
        }
    }

    /// The two squares between king and rook that must be empty for a
    /// kingside castle: f1 and g1, or f8 and g8.
    pub fn kingside_squares(&self, color: Color) -> (r: BitBoard)
        ensures
            forall|i: int| r.has(i) == (i == color.spec_starting_rank() * 8 + 5 || i
                == color.spec_starting_rank() * 8 + 6),
    {
        let r = match color {
            Color::White => BitBoard(0x60u64),
            Color::Black => BitBoard(0x6000_0000_0000_0000u64),
        };
        proof {
            assert(forall|i: u64|
                i < 64 ==> (#[trigger] crate::bits::has_bit(0x60u64, i) == (i == 5 || i
                    == 6))) by (bit_vector);
            assert(forall|i: u64|
                i < 64 ==> (#[trigger] crate::bits::has_bit(0x6000_0000_0000_0000u64, i) == (i
                    == 61 || i == 62))) by (bit_vector);
            assert forall|i: int|
                r.has(i) == (i == color.spec_starting_rank() * 8 + 5 || i
                    == color.spec_starting_rank() * 8 + 6) by {
                if 0 <= i < 64 {
                    assert(crate::bits::has_bit(0x60u64, i as u64) == (i == 5 || i == 6));
                    assert(crate::bits::has_bit(0x6000_0000_0000_0000u64, i as u64) == (i == 61
                        || i == 62));
                }
            }
        }
        r
    }

    /// The three squares between king and rook that must be empty for a
    /// queenside castle: b1, c1 and d1, or b8, c8 and d8.
    pub fn queenside_squares(&self, color: Color) -> (r: BitBoard)
        ensures
            forall|i: int| r.has(i) == (i == color.spec_starting_rank() * 8 + 1 || i
                == color.spec_starting_rank() * 8 + 2 || i == color.spec_starting_rank() * 8
                + 3),
    {
        let r = match color {
            Color::White => BitBoard(0x0eu64),
            Color::Black => BitBoard(0x0e00_0000_0000_0000u64),
        };
        proof {
            assert(forall|i: u64|
                i < 64 ==> (#[trigger] crate::bits::has_bit(0x0eu64, i) == (i == 1 || i == 2 || i
                    == 3))) by (bit_vector);
            assert(forall|i: u64|
                i < 64 ==> (#[trigger] crate::bits::has_bit(0x0e00_0000_0000_0000u64, i) == (i
                    == 57 || i == 58 || i == 59))) by (bit_vector);
            assert forall|i: int|
                r.has(i) == (i == color.spec_starting_rank() * 8 + 1 || i
                    == color.spec_starting_rank() * 8 + 2 || i == color.spec_starting_rank() * 8
                    + 3) by {
                if 0 <= i < 64 {
                    assert(crate::bits::has_bit(0x0eu64, i as u64) == (i == 1 || i == 2 || i
                        == 3));
                    assert(crate::bits::has_bit(0x0e00_0000_0000_0000u64, i as u64) == (i == 57
                        || i == 58 || i == 59));
                }
            }
        }
        r
    }

    /// The rights left after a piece of `color` leaves, or an enemy piece
    /// lands on, the given square: a1, e1 or h1 clear White's rights, a8,
    /// e8 or h8 Black's.
    pub open spec fn spec_update(self, color: Color, sq: int) -> CastleRights {
        CastleRights {
            white_kingside: self.white_kingside && !(color is White && (sq == 4 || sq == 7)),
            white_queenside: self.white_queenside && !(color is White && (sq == 0 || sq == 4)),
            black_kingside: self.black_kingside && !(color is Black && (sq == 60 || sq == 63)),
            black_queenside: self.black_queenside && !(color is Black && (sq == 56 || sq == 60)),
        }
    }

    pub fn update_from_square(&mut self, color: Color, square: Square)
        ensures
            *final(self) == old(self).spec_update(color, square.idx()),
    {
        match (color, square.to_index()) {
            (Color::White, 0) => {
                self.white_queenside = false;
            },
            (Color::White, 4) => {
                self.white_queenside = false;
                self.white_kingside = false;
            },
            (Color::White, 7) => {
                self.white_kingside = false;
            },
            (Color::Black, 56) => {
                self.black_queenside = false;
            },
            (Color::Black, 60) => {
                self.black_queenside = false;
                self.black_kingside = false;
            },
            (Color::Black, 63) => {
                self.black_kingside = false;
            },
            _ => (),
        }
    }

    /// One step of reading the castling field: which right the letter
    /// grants, or nothing for any other letter.
    pub open spec fn spec_grant(self, c: u8) -> Option<CastleRights> {
        if c == 75 {  // 'K'
            Some(CastleRights { white_kingside: true, ..(self) })
        } else if c == 81 {  // 'Q'
            Some(CastleRights { white_queenside: true, ..(self) })
        } else if c == 107 {  // 'k'
            Some(CastleRights { black_kingside: true, ..(self) })
        } else if c == 113 {  // 'q'
            Some(CastleRights { black_queenside: true, ..(self) })
        } else {
            None
        }
    }

    /// The rights a sequence of letters grants on top of `acc`, or
    /// nothing when a letter is not from `KQkq`.
    pub open spec fn spec_grants(s: Seq<u8>, acc: CastleRights) -> Option<CastleRights>
        decreases s.len(),
    {
        if s.len() == 0 {
            Some(acc)
        } else {
            match acc.spec_grant(s[0]) {
                Some(a) => Self::spec_grants(s.drop_first(), a),
                None => None,
            }
        }
    }

    /// Reads the castling field from a byte range of a position record:
    /// `-` for no rights, else up to four letters from `KQkq`.
    pub fn parse_bytes(bytes: &[u8], a: usize, b: usize) -> (r: Result<CastleRights, FenError>)
        requires
            a <= b <= bytes@.len(),
        ensures
            ({
                let f = bytes@.subrange(a as int, b as int);
                &&& (f.len() == 1 && f[0] == 45) ==> r == Ok::<CastleRights, FenError>(
                    CastleRights::none(),
                )
                &&& !(f.len() == 1 && f[0] == 45) && f.len() > 4 ==> r == Err::<
                    CastleRights,
                    FenError,
                >(FenError::BadCastleRights)
                &&& !(f.len() == 1 && f[0] == 45) && f.len() <= 4 ==> r == (
                match Self::spec_grants(f, CastleRights::none()) {
                    Some(x) => Ok::<CastleRights, FenError>(x),
                    None => Err::<CastleRights, FenError>(FenError::BadCastleRights),
                })
            }),
    {
        let ghost f = bytes@.subrange(a as int, b as int);
        if b - a == 1 && bytes[a] == 45 {
            return Ok(CastleRights {
                white_kingside: false,
                white_queenside: false,
                black_kingside: false,
                black_queenside: false,
            });
        }
        if b - a > 4 {
            return Err(FenError::BadCastleRights);
        }
        let mut rights = CastleRights {
            white_kingside: false,
            white_queenside: false,
            black_kingside: false,
            black_queenside: false,
        };
        let mut i: usize = a;
        proof {
            assert(f.skip(0) =~= f);
        }
        while i < b
            invariant
                a <= i <= b <= bytes@.len(),
                f == bytes@.subrange(a as int, b as int),
                !(f.len() == 1 && f[0] == 45),
                f.len() <= 4,
                Self::spec_grants(f, CastleRights::none()) == Self::spec_grants(
                    f.skip(i - a),
                    rights,
                ),
            decreases b - i,
        {
            proof {
                assert(f.skip(i - a)[0] == bytes@[i as int]);
                assert(f.skip(i - a).drop_first() =~= f.skip(i - a + 1));
            }
            let c = bytes[i];
            if c == 75 {
                rights.white_kingside = true;
            } else if c == 81 {
                rights.white_queenside = true;
            } else if c == 107 {
                rights.black_kingside = true;
            } else if c == 113 {
                rights.black_queenside = true;
            } else {
                proof {
                    assert(rights.spec_grant(c) is None);
                    assert(Self::spec_grants(f.skip(i - a), rights) is None);
                }
                return Err(FenError::BadCastleRights);
            }
            i = i + 1;
        }
        proof {
            assert(f.skip(i - a) =~= Seq::<u8>::empty());
        }
        Ok(rights)
    }

    /// Reads the castling field of a position record: `-` for no rights,
    /// else up to four letters from `KQkq`.
    pub fn parse(s: &str) -> (r: Result<CastleRights, FenError>)
        ensures
            (s.spec_bytes().len() == 1 && s.spec_bytes()[0] == 45) ==> r == Ok::<CastleRights, FenError>(
                CastleRights::none(),
            ),
            !(s.spec_bytes().len() == 1 && s.spec_bytes()[0] == 45) && s.spec_bytes().len() > 4 ==> r == Err::<
                CastleRights,
                FenError,
            >(FenError::BadCastleRights),
            !(s.spec_bytes().len() == 1 && s.spec_bytes()[0] == 45) && s.spec_bytes().len() <= 4 ==> r == (match Self::spec_grants(
                s.spec_bytes(),
                CastleRights::none(),
            ) {
                Some(x) => Ok::<CastleRights, FenError>(x),
                None => Err::<CastleRights, FenError>(FenError::BadCastleRights),
            }),
    {
        let bytes = s.as_bytes();
        if bytes.len() == 1 && bytes[0] == 45 {  // "-"
            return Ok(CastleRights {
                white_kingside: false,
                white_queenside: false,
                black_kingside: false,
                black_queenside: false,
            });
        }
        if bytes.len() > 4 {
            return Err(FenError::BadCastleRights);
        }
        let mut rights = CastleRights {
            white_kingside: false,
            white_queenside: false,
            black_kingside: false,
            black_queenside: false,
        };
        let mut i: usize = 0;
        proof {
            assert(bytes@.skip(0) =~= bytes@);
        }
        while i < bytes.len()
            invariant
                i <= bytes@.len(),
                bytes@ == s.spec_bytes(),
                !(bytes@.len() == 1 && bytes@[0] == 45),
                bytes@.len() <= 4,
                Self::spec_grants(bytes@, CastleRights::none()) == Self::spec_grants(
                    bytes@.skip(i as int),
                    rights,
                ),
            decreases bytes@.len() - i,
        {
            proof {
                assert(bytes@.skip(i as int)[0] == bytes@[i as int]);
                assert(bytes@.skip(i as int).drop_first() =~= bytes@.skip(i as int + 1));
            }
            let c = bytes[i];
            if c == 75 {
                rights.white_kingside = true;
            } else if c == 81 {
                rights.white_queenside = true;
            } else if c == 107 {
                rights.black_kingside = true;
            } else if c == 113 {
                rights.black_queenside = true;
            } else {
                proof {
                    assert(bytes@ == s.spec_bytes());
                    assert(!(bytes@.len() == 1 && bytes@[0] == 45));
                    assert(rights.spec_grant(c) is None);
                    assert(Self::spec_grants(bytes@.skip(i as int), rights) is None);
                    assert(Self::spec_grants(bytes@, CastleRights::none()) is None);
                }
                return Err(FenError::BadCastleRights);
            }
            i = i + 1;
        }
        proof {
            assert(bytes@.skip(i as int) =~= Seq::<u8>::empty());
        }
        Ok(rights)
    }

    /// The text of the castling field: the granted letters in `KQkq`
    /// order, or `-` when no right is left.
    pub open spec fn spec_text(self) -> Seq<char> {
        if self == CastleRights::none() {
            seq!['-']
        } else {
            (if self.white_kingside {
                seq!['K']
            } else {
                Seq::<char>::empty()
            }) + (if self.white_queenside {
                seq!['Q']
            } else {
                Seq::<char>::empty()
            }) + (if self.black_kingside {
                seq!['k']
            } else {
                Seq::<char>::empty()
            }) + (if self.black_queenside {
                seq!['q']
            } else {
                Seq::<char>::empty()
            })
        }
    }

    /// Writes the castling field: the granted letters in `KQkq` order, or
    /// `-` when no right is left.
    pub fn to_string(&self) -> (r: String)
        ensures
            r@ =~= self.spec_text(),
    {
        let mut out: Vec<u8> = Vec::new();
        if self.white_kingside {
            out.push(75);
        }
        if self.white_queenside {
            out.push(81);
        }
        if self.black_kingside {
            out.push(107);
        }
        if self.black_queenside {
            out.push(113);
        }
        if out.len() == 0 {
            out.push(45);
        }
        let r = ascii_to_string(out);
        proof {
            assert(r@ =~= self.spec_text());
        }
        r
    }
}

} // verus!
