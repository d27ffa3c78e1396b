//! The errors that hiding and recovering a message can end in, and what they
//! say.

use vstd::prelude::*;
use vstd::string::StringExecFns;

verus! {

/// All steganography-related errors.
#[derive(Debug)]
pub enum SteganographyError {
    /// The lengths read from an image cannot belong to a hidden message. The
    /// text says which length is impossible and why.
    InvalidIVData(String),
    /// An image does not have as many complex, unused bit planes as an
    /// operation asks for. The first number is how many were asked for, the
    /// second how many were found.
    InsufficientPlaneNumber(usize, usize),
}

/// The character of a decimal digit.
pub open spec fn digit_char(digit: nat) -> char {
    if digit == 0 {
        '0'
    } else if digit == 1 {
        '1'
    } else if digit == 2 {
        '2'
    } else if digit == 3 {
        '3'
    } else if digit == 4 {
        '4'
    } else if digit == 5 {
        '5'
    } else if digit == 6 {
        '6'
    } else if digit == 7 {
        '7'
    } else if digit == 8 {
        '8'
    } else {
        '9'
    }
}

/// A number written in decimal digits, without leading zeros.
pub open spec fn decimal(n: nat) -> Seq<char>
    decreases n,
{
    if n < 10 {
        seq![digit_char(n)]
    } else {
        decimal(n / 10).push(digit_char(n % 10))
    }
}

/// What [`SteganographyError::InsufficientPlaneNumber`] says.
pub open spec fn insufficient_plane_number_text(expected: nat, got: nat) -> Seq<char> {
    "Tried to do an operation that requires at least "@ + decimal(expected) + " planes, got "@
        + decimal(got)
}

/// What [`SteganographyError::InvalidIVData`] says.
pub open spec fn invalid_iv_data_text(reason: Seq<char>) -> Seq<char> {
    "The extracted IV data is invalid: "@ + reason
}

/// The reason that is given when the last message plane is said to hold
/// `message_remnant_length` bits, more than the 64 that a plane has.
pub open spec fn remnant_too_long_text(message_remnant_length: nat) -> Seq<char> {
    "Message remnant IV can't be more than the amount of bits per plane ("@ + decimal(
        message_remnant_length,
    ) + " > 64)"@
}

/// The reason that is given when a message is said to have no plane.
pub open spec fn no_message_plane_text() -> Seq<char> {
    "Message length IV can't be zero planes"@
}

/// What an error says.
pub open spec fn message_of(error: SteganographyError) -> Seq<char> {
    match error {
        SteganographyError::InsufficientPlaneNumber(expected, got) => {
            insufficient_plane_number_text(expected as nat, got as nat)
        },
        SteganographyError::InvalidIVData(reason) => invalid_iv_data_text(reason@),
    }
}

/// A decimal digit as text.
fn digit_text(digit: usize) -> (text: &'static str)
    requires
        digit < 10,
    ensures
        text@ == seq![digit_char(digit as nat)],
{
    proof {
        reveal_strlit("0");
        reveal_strlit("1");
        reveal_strlit("2");
        reveal_strlit("3");
        reveal_strlit("4");
        reveal_strlit("5");
        reveal_strlit("6");
        reveal_strlit("7");
        reveal_strlit("8");
        reveal_strlit("9");
    }
    let text = if digit == 0 {
        "0"
    } else if digit == 1 {
        "1"
    } else if digit == 2 {
        "2"
    } else if digit == 3 {
        "3"
    } else if digit == 4 {
        "4"
    } else if digit == 5 {
        "5"
    } else if digit == 6 {
        "6"
    } else if digit == 7 {
        "7"
    } else if digit == 8 {
        "8"
    } else {
        "9"
    };
    assert(text@ =~= seq![digit_char(digit as nat)]);
    text
}

/// Appends a number in decimal digits to a text.
pub fn append_decimal(text: &mut String, n: usize)
    ensures
        final(text)@ == old(text)@ + decimal(n as nat),
    decreases n,
{
    if n >= 10 {
        append_decimal(text, n / 10);
    }
    text.append(digit_text(n % 10));
    assert(text@ =~= old(text)@ + decimal(n as nat));
}

/// The reason for [`SteganographyError::InvalidIVData`] when the last
/// message plane is said to hold more bits than a plane has.
pub fn remnant_too_long_reason(message_remnant_length: usize) -> (reason: String)
    ensures
        reason@ == remnant_too_long_text(message_remnant_length as nat),
{
    let mut reason =
        "Message remnant IV can't be more than the amount of bits per plane (".to_owned();
    append_decimal(&mut reason, message_remnant_length);
    reason.append(" > 64)");
    reason
}

/// The reason for [`SteganographyError::InvalidIVData`] when a message is
/// said to have no plane.
pub fn no_message_plane_reason() -> (reason: String)
    ensures
        reason@ == no_message_plane_text(),
{
    "Message length IV can't be zero planes".to_owned()
}

impl SteganographyError {
    /// The error in words.
    pub fn message(&self) -> (text: String)
        ensures
            text@ == message_of(*self),
    {
        match self {
            SteganographyError::InsufficientPlaneNumber(expected, got) => {
                let mut text = "Tried to do an operation that requires at least ".to_owned();
                append_decimal(&mut text, *expected);
                text.append(" planes, got ");
                append_decimal(&mut text, *got);
                text
            },
            SteganographyError::InvalidIVData(reason) => {
                let mut text = "The extracted IV data is invalid: ".to_owned();
                text.append(reason.as_str());
                text
            },
        }
    }
}

} // verus!
