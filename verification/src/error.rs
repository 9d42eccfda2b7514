//! What can go wrong while decoding or converting a value.

use crate::decimal::{digits, IntErrorKind};
use crate::text::{ascii_text, push_number};
use vstd::prelude::*;
use vstd::string::StringExecFns;

verus! {

/// A failure of the codec.
#[derive(Debug)]
pub enum BencodeError {
    /// The input breaks the structure of the format, or a value does not
    /// have the type that a conversion asks for. The text says which.
    Error(String),
    /// The byte source failed for a reason that has nothing to do with the
    /// format. The text is the source's own description.
    Io(String),
    /// The input ended where a value, a delimiter or the bytes of a string
    /// were still expected.
    Eof(),
    /// A numeric field is not a decimal number of the expected width.
    Parse(IntErrorKind),
}

/// The message for a key that is followed by the end of its map.
pub open spec fn missing_value_text() -> Seq<char> {
    "Map is missing value for key"@
}

/// The message for a value that starts with the byte `lead`, which starts
/// no value: the byte is given as a decimal number.
pub open spec fn invalid_lead_text(lead: u8) -> Seq<char> {
    "invalid character: '"@ + ascii_text(digits(lead as nat)) + "'"@
}

/// The message for a conversion to a map of a value that is no map.
pub open spec fn expected_map_text() -> Seq<char> {
    "Expected HashMap Value"@
}

/// The message for a conversion to text of a value whose rendering is no
/// valid UTF-8.
pub open spec fn expected_text_text() -> Seq<char> {
    "Expected UTF-8 Value"@
}

/// What is wrong with a numeric field, in words.
pub open spec fn kind_text(kind: IntErrorKind) -> Seq<char> {
    match kind {
        IntErrorKind::Empty => "cannot parse integer from empty string"@,
        IntErrorKind::InvalidDigit => "invalid digit found in string"@,
        IntErrorKind::PosOverflow => "number too large to fit in target type"@,
        IntErrorKind::NegOverflow => "number too small to fit in target type"@,
    }
}

/// The one-line message of an error: the kind of the error, then what it
/// carries.
pub open spec fn message_text(e: BencodeError) -> Seq<char> {
    match e {
        BencodeError::Error(text) => "Bencode Error: "@ + text@ + " "@,
        BencodeError::Io(text) => "Bencode Io: "@ + text@,
        BencodeError::Parse(kind) => "Bencode Parse: "@ + kind_text(kind),
        BencodeError::Eof() => "Bencode Eof"@,
    }
}

/// What is wrong with a numeric field, in words.
pub fn describe_kind(kind: IntErrorKind) -> (text: &'static str)
    ensures
        text@ == kind_text(kind),
{
    match kind {
        IntErrorKind::Empty => "cannot parse integer from empty string",
        IntErrorKind::InvalidDigit => "invalid digit found in string",
        IntErrorKind::PosOverflow => "number too large to fit in target type",
        IntErrorKind::NegOverflow => "number too small to fit in target type",
    }
}

impl BencodeError {
    /// The error for a key that is followed by the end of its map.
    pub fn missing_value() -> (e: BencodeError)
        ensures
            e matches BencodeError::Error(text) && text@ == missing_value_text(),
    {
        BencodeError::Error("Map is missing value for key".to_owned())
    }

    /// The error for a value that starts with the byte `lead`.
    pub fn invalid_lead(lead: u8) -> (e: BencodeError)
        ensures
            e matches BencodeError::Error(text) && text@ == invalid_lead_text(lead),
    {
        let mut text: String = "invalid character: '".to_owned();
        push_number(&mut text, lead as u64);
        text.append("'");
        BencodeError::Error(text)
    }

    /// The error for a conversion to a map of a value that is no map.
    pub fn expected_map() -> (e: BencodeError)
        ensures
            e matches BencodeError::Error(text) && text@ == expected_map_text(),
    {
        BencodeError::Error("Expected HashMap Value".to_owned())
    }

    /// The error for a conversion to text of a value whose rendering is no
    /// valid UTF-8.
    pub fn expected_text() -> (e: BencodeError)
        ensures
            e matches BencodeError::Error(text) && text@ == expected_text_text(),
    {
        BencodeError::Error("Expected UTF-8 Value".to_owned())
    }

    /// The one-line message of this error.
    pub fn message(&self) -> (text: String)
        ensures
            text@ == message_text(*self),
    {
        match self {
            BencodeError::Error(detail) => {
                let mut text: String = "Bencode Error: ".to_owned();
                text.append(detail.as_str());
                text.append(" ");
                text
            },
            BencodeError::Io(detail) => {
                let mut text: String = "Bencode Io: ".to_owned();
                text.append(detail.as_str());
                text
            },
            BencodeError::Parse(kind) => {
                let mut text: String = "Bencode Parse: ".to_owned();
                text.append(describe_kind(*kind));
                text
            },
            BencodeError::Eof() => "Bencode Eof".to_owned(),
        }
    }
}

} // verus!
