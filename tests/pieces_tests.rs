use n_puzzle::pieces::{board_size, parse_nonzero_u8, PieceError};

#[test]
fn parses_positive_pieces() {
    assert_eq!(parse_nonzero_u8("7"), Ok(7));
    assert_eq!(parse_nonzero_u8("255"), Ok(255));
    assert_eq!(parse_nonzero_u8("+12"), Ok(12));
    assert_eq!(parse_nonzero_u8("007"), Ok(7));
}

#[test]
fn rejects_zero_piece() {
    assert_eq!(parse_nonzero_u8("0"), Err(PieceError::Zero));
    assert_eq!(parse_nonzero_u8("00"), Err(PieceError::Zero));
}

#[test]
fn rejects_non_numbers() {
    assert_eq!(parse_nonzero_u8(""), Err(PieceError::NotANumber));
    assert_eq!(parse_nonzero_u8("256"), Err(PieceError::NotANumber));
    assert_eq!(parse_nonzero_u8("-1"), Err(PieceError::NotANumber));
    assert_eq!(parse_nonzero_u8("x"), Err(PieceError::NotANumber));
    assert_eq!(parse_nonzero_u8("+"), Err(PieceError::NotANumber));
}

#[test]
fn sizes_from_piece_count() {
    assert_eq!(board_size(8), Some(3));
    assert_eq!(board_size(15), Some(4));
    assert_eq!(board_size(9), None);
    assert_eq!(board_size(0), None);
}
