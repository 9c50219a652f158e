use luna_chess::bitboard::BitBoard;
use luna_chess::castle_rights::CastleRights;
use luna_chess::color::Color;
use luna_chess::file::File;
use luna_chess::pieces::Piece;
use luna_chess::rank::Rank;
use luna_chess::square::Square;

#[test]
fn test_bitboard_bitwise_ops() {
    let a = BitBoard(0b1100);
    let b = BitBoard(0b1010);

    assert_eq!(a.and(b), BitBoard(0b1000));
    assert_eq!(a.or(b), BitBoard(0b1110));
    assert_eq!(a.xor(b), BitBoard(0b0110));
    assert_eq!(a.complement(), BitBoard(!0b1100));
}

#[test]
fn test_bitboard_from_square() {
    let tile = Square::new(Rank::First, File::H);
    assert_eq!(BitBoard::from_square(tile), BitBoard::new(0b10000000));
}

#[test]
fn test_castle_rights_from_str() {
    let mut rights = CastleRights::default();
    assert_eq!(CastleRights::parse("").unwrap(), rights);
    assert_eq!(CastleRights::parse("-").unwrap(), rights);
    rights.white_queenside = true;
    rights.black_kingside = true;
    assert_eq!(CastleRights::parse("Qk").unwrap(), rights);
    assert!(CastleRights::parse("abc").is_err());
}

#[test]
fn test_castle_rights_fmt() {
    let mut rights = CastleRights::default();
    assert_eq!(rights.to_string(), "-");
    rights.white_queenside = true;
    rights.black_kingside = true;
    assert_eq!(rights.to_string(), "Qk");
}

#[test]
fn test_file_from_index() {
    assert_eq!(File::from_index(0), File::A);
    assert_eq!(File::from_index(7), File::H);
    assert_eq!(File::from_index(10), File::C);
    assert_eq!(File::from_index(usize::MAX), File::H);
}

#[test]
fn test_file_to_index() {
    assert_eq!(0, File::A.to_index());
    assert_eq!(7, File::H.to_index());
    assert_eq!(2, File::C.to_index());
}

#[test]
fn test_file_right_left() {
    assert_eq!(File::A.right(), File::B);
    assert_eq!(File::A.left(), File::H);
    assert_eq!(File::H.right(), File::A);
}

#[test]
fn test_rank_from_index() {
    assert_eq!(Rank::from_index(0), Rank::First);
    assert_eq!(Rank::from_index(7), Rank::Eighth);
    assert_eq!(Rank::from_index(10), Rank::Third);
    assert_eq!(Rank::from_index(usize::MAX), Rank::Eighth);
}

#[test]
fn test_rank_to_index() {
    assert_eq!(0, Rank::First.to_index());
    assert_eq!(7, Rank::Eighth.to_index());
    assert_eq!(2, Rank::Third.to_index());
}

#[test]
fn test_rank_up_down() {
    assert_eq!(Rank::First.up(), Rank::Second);
    assert_eq!(Rank::First.down(), Rank::Eighth);
    assert_eq!(Rank::Eighth.up(), Rank::First);
}

#[test]
fn test_piece_to_index() {
    assert_eq!(Piece::Pawn.to_index(), 0);
    assert_eq!(Piece::Bishop.to_index(), 2);
    assert_eq!(Piece::King.to_index(), 5);
}

#[test]
fn test_piece_to_string() {
    assert_eq!(Piece::Pawn.to_string(Color::Black), "p".to_string());
    assert_eq!(Piece::King.to_string(Color::White), "K".to_string());
}

#[test]
fn test_new_square() {
    assert_eq!(Square::new(Rank::First, File::A), Square::from_index(0));
    assert_eq!(Square::new(Rank::Third, File::C), Square::from_index(18));
    assert_eq!(Square::new(Rank::Seventh, File::G), Square::from_index(54));
}

#[test]
fn test_rank_and_file_from_square() {
    assert_eq!(Square::new(Rank::First, File::A).get_rank(), Rank::First);
    assert_eq!(Square::new(Rank::Seventh, File::G).get_file(), File::G);
}

#[test]
fn test_rank_from_str() {
    assert_eq!(
        Square::parse_text("a1").unwrap(),
        Square::new(Rank::First, File::A)
    );
    assert_eq!(
        Square::parse_text("e3").unwrap(),
        Square::new(Rank::Third, File::E)
    );
}

#[test]
fn test_rank_fmt() {
    assert_eq!(Square::new(Rank::First, File::A).to_string(), "a1");
    assert_eq!(Square::new(Rank::Third, File::E).to_string(), "e3");
}
