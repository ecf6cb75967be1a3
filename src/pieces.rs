//! Reading the puzzle's pieces from text: each piece is a positive `u8`
//! written in decimal, and the number of pieces fixes the board's size.
use vstd::prelude::*;

verus! {

/// Why a piece could not be read.
#[derive(Debug, Clone, Copy, PartialEq, Eq, Structural)]
pub enum PieceError {
    /// The text is not a decimal number that fits in a `u8`.
    NotANumber,
    /// The number is 0, which labels no tile.
    Zero,
}

/// Every character is an ASCII digit.
pub open spec fn all_digits(s: Seq<char>) -> bool {
    forall|i: int| 0 <= i < s.len() ==> '0' <= #[trigger] s[i] <= '9'
}

/// The value of a string of decimal digits.
pub open spec fn digits_value(s: Seq<char>) -> int
    decreases s.len(),
{
    if s.len() == 0 {
        0
    } else {
        digits_value(s.drop_last()) * 10 + (s.last() as int - '0' as int)
    }
}

/// The `u8` that the text writes in decimal, with an optional leading `+`,
/// or `None` when it writes none.
pub open spec fn decimal_u8(s: Seq<char>) -> Option<u8> {
    let d = if s.len() > 0 && s[0] == '+' {
        s.drop_first()
    } else {
        s
    };
    if d.len() > 0 && all_digits(d) && digits_value(d) <= 255 {
        Some(digits_value(d) as u8)
    } else {
        None
    }
}

/// Relies on `str::parse::<u8>`: decimal digits after an optional `+`, with
/// a value that fits in a `u8`.
#[verifier::external_body]
fn parse_u8(s: &str) -> (r: Option<u8>)
    ensures
        r == decimal_u8(s@),
{
    s.parse::<u8>().ok()
}

/// Reads one piece: a decimal number from 1 to 255.
pub fn parse_nonzero_u8(s: &str) -> (r: Result<u8, PieceError>)
    ensures
        r == match decimal_u8(s@) {
            Some(v) => if v > 0 {
                Ok(v)
            } else {
                Err(PieceError::Zero)
            },
            None => Err(PieceError::NotANumber),
        },
{
    match parse_u8(s) {
        Some(v) => if v > 0 {
            Ok(v)
        } else {
            Err(PieceError::Zero)
        },
        None => Err(PieceError::NotANumber),
    }
}

/// The side of the board that a number of pieces fills: 3 for 8 pieces, 4
/// for 15, none for any other count.
pub fn board_size(piece_count: usize) -> (r: Option<usize>)
    ensures
        r == (if piece_count == 8 {
            Some(3usize)
        } else if piece_count == 15 {
            Some(4usize)
        } else {
            None
        }),
{
    if piece_count == 8 {
        Some(3)
    } else if piece_count == 15 {
        Some(4)
    } else {
        None
    }
}

} // verus!
