use hyperchess::console::{CoordError, HumanConsolePlayer, MoveLineError};
use hyperchess::models::PieceType;

fn parse(s: &str, dim: usize, side: usize) -> Result<Vec<u8>, CoordError> {
    HumanConsolePlayer::parse_coordinate(s, dim, side).map(|c| (0..c.dim()).map(|i| c.values.get(i)).collect())
}

#[test]
fn reads_a_two_dimensional_square() {
    assert_eq!(parse("e4", 2, 8), Ok(vec![3, 4]));
    assert_eq!(parse("  a1\t", 2, 8), Ok(vec![0, 0]));
    assert_eq!(parse("H8", 2, 8), Ok(vec![7, 7]));
}

#[test]
fn reads_a_three_dimensional_square() {
    assert_eq!(parse("1e4", 3, 8), Ok(vec![3, 4, 0]));
    assert_eq!(parse("2b7", 3, 8), Ok(vec![6, 1, 1]));
}

#[test]
fn several_letters_name_the_file_of_the_last() {
    assert_eq!(parse("ab4", 2, 8), Ok(vec![3, 1]));
}

#[test]
fn refuses_missing_parts() {
    assert_eq!(parse("", 2, 8), Err(CoordError::Insufficient { dim: 2 }));
    assert_eq!(parse("e", 2, 8), Err(CoordError::Insufficient { dim: 2 }));
}

#[test]
fn refuses_parts_of_the_wrong_kind() {
    assert_eq!(parse("4e", 2, 8), Err(CoordError::ExpectedLetter { axis: 2 }));
    assert_eq!(parse("ee", 2, 8), Err(CoordError::Insufficient { dim: 2 }));
    assert_eq!(parse("e-", 2, 8), Err(CoordError::ExpectedNumber { axis: 1 }));
}

#[test]
fn refuses_squares_off_the_board() {
    assert_eq!(
        parse("z4", 2, 8),
        Err(CoordError::LetterOutOfBounds { letters: "z".to_string(), max: 'H' })
    );
    assert_eq!(parse("e9", 2, 8), Err(CoordError::NumberOutOfBounds { value: 9, side: 8 }));
    assert_eq!(parse("e0", 2, 8), Err(CoordError::NumberOutOfBounds { value: 0, side: 8 }));
    assert_eq!(parse("e99999999999999999999999", 2, 8), Err(CoordError::InvalidNumber));
}

#[test]
fn reads_a_typed_move() {
    let mv = HumanConsolePlayer::parse_move_line("  e7   e8 Queen\n", 2, 8).unwrap();
    let from: Vec<u8> = (0..mv.from.dim()).map(|d| mv.from.values.get(d)).collect();
    let to: Vec<u8> = (0..mv.to.dim()).map(|d| mv.to.values.get(d)).collect();
    assert_eq!(from, vec![6, 4]);
    assert_eq!(to, vec![7, 4]);
    assert_eq!(mv.promotion, Some(PieceType::Queen));
    let plain = HumanConsolePlayer::parse_move_line("e2 e4", 2, 8).unwrap();
    assert_eq!(plain.promotion, None);
}

#[test]
fn refuses_typed_moves() {
    assert!(matches!(HumanConsolePlayer::parse_move_line("e2", 2, 8), Err(MoveLineError::MissingSquare)));
    assert!(matches!(HumanConsolePlayer::parse_move_line("   ", 2, 8), Err(MoveLineError::MissingSquare)));
    assert!(matches!(HumanConsolePlayer::parse_move_line("z9 e4", 2, 8), Err(MoveLineError::BadFrom(_))));
    assert!(matches!(HumanConsolePlayer::parse_move_line("e2 e9", 2, 8), Err(MoveLineError::BadTo(_))));
}

#[test]
fn promotion_words() {
    assert_eq!(HumanConsolePlayer::parse_promotion("q"), Some(PieceType::Queen));
    assert_eq!(HumanConsolePlayer::parse_promotion("ROOK"), Some(PieceType::Rook));
    assert_eq!(HumanConsolePlayer::parse_promotion("2"), Some(PieceType::Bishop));
    assert_eq!(HumanConsolePlayer::parse_promotion("Knight"), Some(PieceType::Knight));
    assert_eq!(HumanConsolePlayer::parse_promotion("king"), None);
}
