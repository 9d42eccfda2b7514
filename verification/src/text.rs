//! Building the text of messages.

use crate::decimal::{digits, ZERO};
use vstd::prelude::*;
use vstd::string::StringExecFns;
use vstd::utf8::{decode_utf8, valid_utf8};

verus! {

/// The characters whose codes are the bytes of `bytes`.
pub open spec fn ascii_text(bytes: Seq<u8>) -> Seq<char> {
    Seq::new(bytes.len(), |i: int| bytes[i] as char)
}

/// The text that the standard library makes of `bytes` when it is asked not
/// to fail: the text that the bytes encode where they are valid UTF-8, and
/// otherwise a text in which a replacement character stands for each
/// invalid part.
pub uninterp spec fn lossy_text(bytes: Seq<u8>) -> Seq<char>;

/// The text of `bytes`, with replacement characters for what is no UTF-8.
///
/// Calls `String::from_utf8_lossy`. Its result is named [`lossy_text`]; of
/// valid UTF-8 it is the text that the bytes encode.
#[verifier::external_body]
pub(crate) fn to_text_lossy(bytes: &[u8]) -> (text: String)
    ensures
        text@ == lossy_text(bytes@),
        valid_utf8(bytes@) ==> text@ == decode_utf8(bytes@),
{
    String::from_utf8_lossy(bytes).into_owned()
}

/// The text of `bytes`, where they are valid UTF-8.
///
/// Calls `String::from_utf8`, which succeeds on valid UTF-8 and on nothing
/// else, and then gives the text that the bytes encode.
#[verifier::external_body]
pub(crate) fn to_text(bytes: Vec<u8>) -> (text: Option<String>)
    ensures
        match text {
            Some(t) => valid_utf8(bytes@) && t@ == decode_utf8(bytes@),
            None => !valid_utf8(bytes@),
        },
{
    String::from_utf8(bytes).ok()
}

/// The one-character text of the decimal digit `d`.
pub fn digit_str(d: u8) -> (text: &'static str)
    requires
        d < 10,
    ensures
        text@ == seq![(ZERO + d) as char],
{
    proof {
        reveal_strlit("0");
        reveal_strlit("1");
        reveal_strlit("2");
        reveal_strlit("3");
        reveal_strlit("4");
        reveal_strlit("5");
        reveal_strlit("6");
        reveal_strlit("7");
        reveal_strlit("8");
        reveal_strlit("9");
    }
    let text: &'static str = if d == 0 {
        "0"
    } else if d == 1 {
        "1"
    } else if d == 2 {
        "2"
    } else if d == 3 {
        "3"
    } else if d == 4 {
        "4"
    } else if d == 5 {
        "5"
    } else if d == 6 {
        "6"
    } else if d == 7 {
        "7"
    } else if d == 8 {
        "8"
    } else {
        "9"
    };
    assert(text@ =~= seq![(ZERO + d) as char]);
    text
}

/// Appends the decimal digits of `n` to `text`.
pub fn push_number(text: &mut String, n: u64)
    ensures
        final(text)@ == old(text)@ + ascii_text(digits(n as nat)),
    decreases n,
{
    if n >= 10 {
        push_number(text, n / 10);
    }
    let d: u8 = (n % 10) as u8;
    text.append(digit_str(d));
    assert(final(text)@ =~= old(text)@ + ascii_text(digits(n as nat)));
}

} // verus!
