//! Decoding: what one value of the input is, and the parser that reads it.

use crate::decimal::{
    is_digit, parse_integer, parse_natural, read_integer, read_natural, IntErrorKind, NINE, ZERO,
};
use crate::dict::store;
use crate::error::{invalid_lead_text, missing_value_text, BencodeError};
use crate::model::{insert_entry, lemma_insert_entry_wf, lemma_list_wf, Bencode, Entry};
use crate::reader::{find, first_at, lemma_find, ByteReader};
use crate::value::{entry_models, lemma_view_dict, lemma_view_list, models, Value};
use crate::wire::{COLON, DICT_TAG, END, INT_TAG, LIST_TAG};
use vstd::prelude::*;

verus! {

/// Why the input holds no value at some position.
pub enum Fault {
    /// The input ends where a value, a delimiter or the bytes of a string
    /// are still expected.
    Eof,
    /// The digits of an integer or of a string's length are no number of the
    /// expected width.
    Parse(IntErrorKind),
    /// The byte starts no value.
    InvalidLead(u8),
    /// A key of a map is followed by the end of the map.
    MissingValue,
}

/// What stands at some position of the input.
pub enum Step {
    /// A value.
    Item(Bencode),
    /// The byte that closes a list or a map.
    Close,
    /// Nothing that can be decoded.
    Fail(Fault),
}

/// What stands at some position of the input, and where reading it ends.
pub struct Decoded {
    /// What was read.
    pub step: Step,
    /// The position after the last byte that was read.
    pub next: int,
}

/// A value that ends before `next`.
pub open spec fn item(value: Bencode, next: int) -> Decoded {
    Decoded { step: Step::Item(value), next }
}

/// A failure after which the position is `next`.
pub open spec fn stop(fault: Fault, next: int) -> Decoded {
    Decoded { step: Step::Fail(fault), next }
}

/// What stands at position `pos` of `s`. The first byte decides:
/// `i` starts an integer, `d` a map, `l` a list; `e` closes a list or a map;
/// a digit starts a string; any other byte is a fault. Past the end of the
/// input nothing stands.
pub open spec fn decode_at(s: Seq<u8>, pos: int) -> Decoded
    decreases s.len() - pos, 0nat,
{
    if !(0 <= pos < s.len()) {
        stop(Fault::Eof, s.len() as int)
    } else {
        let lead = s[pos];
        if lead == INT_TAG {
            decode_integer(s, pos + 1)
        } else if lead == DICT_TAG {
            decode_entries(s, pos + 1, Seq::empty())
        } else if lead == LIST_TAG {
            decode_items(s, pos + 1, Seq::empty())
        } else if lead == END {
            Decoded { step: Step::Close, next: pos + 1 }
        } else if lead == ZERO {
            decode_empty_string(s, pos + 1)
        } else if is_digit(lead) {
            decode_string(s, pos)
        } else {
            stop(Fault::InvalidLead(lead), pos + 1)
        }
    }
}

/// The integer whose text starts at `from`, after the `i`: the bytes up to
/// the next `e` are its decimal text.
pub open spec fn decode_integer(s: Seq<u8>, from: int) -> Decoded {
    match find(s, from, END) {
        None => stop(Fault::Eof, s.len() as int),
        Some(end) => match parse_integer(s.subrange(from, end)) {
            Ok(n) => item(Bencode::Int(n), end + 1),
            Err(kind) => stop(Fault::Parse(kind), end + 1),
        },
    }
}

/// The empty string whose lead byte `0` stands before `from`: whatever
/// follows up to the next `:` belongs to it.
pub open spec fn decode_empty_string(s: Seq<u8>, from: int) -> Decoded {
    match find(s, from, COLON) {
        None => stop(Fault::Eof, s.len() as int),
        Some(end) => item(Bencode::Str(Seq::empty()), end + 1),
    }
}

/// The string whose length starts at `start` with a digit other than `0`:
/// the bytes up to the next `:` are its length in decimal, and that many
/// bytes after the `:` are the string.
pub open spec fn decode_string(s: Seq<u8>, start: int) -> Decoded {
    match find(s, start + 1, COLON) {
        None => stop(Fault::Eof, s.len() as int),
        Some(end) => match parse_natural(s.subrange(start, end), usize::MAX as nat) {
            Err(kind) => stop(Fault::Parse(kind), end + 1),
            Ok(n) => if n > s.len() - (end + 1) {
                stop(Fault::Eof, s.len() as int)
            } else {
                item(Bencode::Str(s.subrange(end + 1, end + 1 + n)), end + 1 + n)
            },
        },
    }
}

/// The list whose items so far are `sofar` and whose next item, or end,
/// stands at `pos`. (An item ends after the place where it starts and within
/// the input, as [`lemma_decode_at`] shows: the test for it is there so that
/// the definition is seen to end.)
pub open spec fn decode_items(s: Seq<u8>, pos: int, sofar: Seq<Bencode>) -> Decoded
    decreases s.len() - pos, 1nat,
{
    let head = decode_at(s, pos);
    match head.step {
        Step::Close => item(Bencode::List(sofar), head.next),
        Step::Fail(_) => head,
        Step::Item(value) => if pos < head.next <= s.len() {
            decode_items(s, head.next, sofar.push(value))
        } else {
            head
        },
    }
}

/// The map whose entries so far are `sofar` and whose next key, or end,
/// stands at `pos`. A key is followed by its value; an entry whose key is
/// already there replaces the value of that entry. (The tests on where a key
/// and a value end are there for the same reason as in [`decode_items`].)
pub open spec fn decode_entries(s: Seq<u8>, pos: int, sofar: Seq<Entry>) -> Decoded
    decreases s.len() - pos, 1nat,
{
    let head = decode_at(s, pos);
    match head.step {
        Step::Close => item(Bencode::Dict(sofar), head.next),
        Step::Fail(_) => head,
        Step::Item(key) => if pos < head.next <= s.len() {
            let tail = decode_at(s, head.next);
            match tail.step {
                Step::Close => stop(Fault::MissingValue, tail.next),
                Step::Fail(_) => tail,
                Step::Item(value) => if head.next < tail.next <= s.len() {
                    decode_entries(s, tail.next, insert_entry(sofar, key, value))
                } else {
                    tail
                },
            }
        } else {
            head
        },
    }
}

impl Fault {
    /// Whether `e` is the error by which this fault is reported.
    pub open spec fn describes(self, e: BencodeError) -> bool {
        match self {
            Fault::Eof => e is Eof,
            Fault::Parse(kind) => e == BencodeError::Parse(kind),
            Fault::InvalidLead(lead) => e matches BencodeError::Error(text) && text@
                == invalid_lead_text(lead),
            Fault::MissingValue => e matches BencodeError::Error(text) && text@
                == missing_value_text(),
        }
    }
}

/// Whether what the parser returned is what stands in the input: a value
/// with that model, the end of a container, or the error of that fault.
pub open spec fn agrees(r: Result<Option<Value>, BencodeError>, step: Step) -> bool {
    match step {
        Step::Item(value) => r matches Ok(Some(v)) && v@ == value,
        Step::Close => r matches Ok(None),
        Step::Fail(fault) => r matches Err(e) && fault.describes(e),
    }
}

/// Whether reading at `pos` ended at `next` within the input, and past
/// `pos` unless the input had ended there.
pub open spec fn advances(s: Seq<u8>, pos: int, next: int) -> bool {
    &&& next <= s.len()
    &&& 0 <= pos < s.len() ==> pos < next
    &&& pos >= s.len() ==> next == s.len()
}

/// Reading never leaves the input, reads at least one byte unless the input
/// has ended, and gives valid values only.
pub proof fn lemma_decode_at(s: Seq<u8>, pos: int)
    ensures
        advances(s, pos, decode_at(s, pos).next),
        decode_at(s, pos).step matches Step::Item(value) ==> value.wf(),
    decreases s.len() - pos, 0nat,
{
    if 0 <= pos < s.len() {
        let lead = s[pos];
        lemma_find(s, pos + 1, END);
        lemma_find(s, pos + 1, COLON);
        if lead == DICT_TAG {
            lemma_decode_entries(s, pos + 1, Seq::empty());
        } else if lead == LIST_TAG {
            lemma_decode_items(s, pos + 1, Seq::empty());
        }
    }
}

/// The same of the rest of a list, where the items so far are valid.
pub proof fn lemma_decode_items(s: Seq<u8>, pos: int, sofar: Seq<Bencode>)
    requires
        Bencode::List(sofar).wf(),
    ensures
        advances(s, pos, decode_items(s, pos, sofar).next),
        decode_items(s, pos, sofar).step matches Step::Item(value) ==> value.wf(),
    decreases s.len() - pos, 1nat,
{
    lemma_decode_at(s, pos);
    let head = decode_at(s, pos);
    match head.step {
        Step::Item(value) => {
            if pos < head.next <= s.len() {
                let longer = sofar.push(value);
                lemma_list_wf(sofar);
                lemma_list_wf(longer);
                assert forall|i: int| 0 <= i < longer.len() implies (#[trigger] longer[i]).wf() by {
                    if i < sofar.len() {
                        assert(longer[i] == sofar[i]);
                    }
                }
                lemma_decode_items(s, head.next, longer);
            }
        },
        _ => {},
    }
}

/// The same of the rest of a map, where the entries so far are valid.
pub proof fn lemma_decode_entries(s: Seq<u8>, pos: int, sofar: Seq<Entry>)
    requires
        Bencode::Dict(sofar).wf(),
    ensures
        advances(s, pos, decode_entries(s, pos, sofar).next),
        decode_entries(s, pos, sofar).step matches Step::Item(value) ==> value.wf(),
    decreases s.len() - pos, 1nat,
{
    lemma_decode_at(s, pos);
    let head = decode_at(s, pos);
    match head.step {
        Step::Item(key) => {
            if pos < head.next <= s.len() {
                lemma_decode_at(s, head.next);
                let tail = decode_at(s, head.next);
                match tail.step {
                    Step::Item(value) => {
                        if head.next < tail.next <= s.len() {
                            lemma_insert_entry_wf(sofar, key, value);
                            lemma_decode_entries(s, tail.next, insert_entry(sofar, key, value));
                        }
                    },
                    _ => {},
                }
            }
        },
        _ => {},
    }
}

/// Reads one value from `reader`, or the byte that closes a list or a map.
///
/// What is returned, and how far the reader has moved, is what
/// [`decode_at`] says of the reader's bytes at its position: `Ok(Some(v))`
/// for a value, `Ok(None)` for the closing byte, and an error for a fault.
/// The reader stands after the last byte that was looked at.
pub fn parse_bencode<'a>(reader: &mut ByteReader<'a>) -> (r: Result<Option<Value>, BencodeError>)
    ensures
        final(reader).input() == old(reader).input(),
        final(reader).offset() == decode_at(old(reader).input(), old(reader).offset()).next,
        agrees(r, decode_at(old(reader).input(), old(reader).offset()).step),
        r matches Ok(Some(v)) ==> v@.wf(),
    decreases old(reader).input().len() - old(reader).offset(), 0nat,
{
    let ghost s = reader.input();
    let ghost pos = reader.offset();
    proof {
        lemma_decode_at(s, pos);
    }
    let start: usize = reader.position();
    match reader.next_byte() {
        None => Err(BencodeError::Eof()),
        Some(lead) => {
            if lead == INT_TAG {
                read_integer_value(reader)
            } else if lead == DICT_TAG {
                read_entries(reader)
            } else if lead == LIST_TAG {
                read_items(reader)
            } else if lead == END {
                Ok(None)
            } else if lead == ZERO {
                read_empty_string(reader)
            } else if ZERO < lead && lead <= NINE {
                read_string(reader, start)
            } else {
                Err(BencodeError::invalid_lead(lead))
            }
        },
    }
}

/// Reads the text of an integer, after its `i`, up to its `e`.
fn read_integer_value<'a>(reader: &mut ByteReader<'a>) -> (r: Result<Option<Value>, BencodeError>)
    ensures
        final(reader).input() == old(reader).input(),
        final(reader).offset() == decode_integer(old(reader).input(), old(reader).offset()).next,
        agrees(r, decode_integer(old(reader).input(), old(reader).offset()).step),
{
    let from: usize = reader.position();
    match reader.skip_past(END) {
        None => Err(BencodeError::Eof()),
        Some(end) => {
            assert(first_at(reader.input(), from as int, END, end as int));
            match read_integer(reader.data(), from, end) {
                Ok(n) => Ok(Some(Value::Int(n))),
                Err(kind) => Err(BencodeError::Parse(kind)),
            }
        },
    }
}

/// Reads the rest of an empty string, after its `0`, up to its `:`.
fn read_empty_string<'a>(reader: &mut ByteReader<'a>) -> (r: Result<Option<Value>, BencodeError>)
    ensures
        final(reader).input() == old(reader).input(),
        final(reader).offset() == decode_empty_string(
            old(reader).input(),
            old(reader).offset(),
        ).next,
        agrees(r, decode_empty_string(old(reader).input(), old(reader).offset()).step),
{
    match reader.skip_past(COLON) {
        None => Err(BencodeError::Eof()),
        Some(_) => Ok(Some(Value::Str(Vec::new()))),
    }
}

/// Reads the rest of a string whose length starts at `start`, where the
/// reader stands one byte further.
fn read_string<'a>(reader: &mut ByteReader<'a>, start: usize) -> (r: Result<
    Option<Value>,
    BencodeError,
>)
    requires
        start + 1 == old(reader).offset(),
    ensures
        final(reader).input() == old(reader).input(),
        final(reader).offset() == decode_string(old(reader).input(), start as int).next,
        agrees(r, decode_string(old(reader).input(), start as int).step),
{
    match reader.skip_past(COLON) {
        None => Err(BencodeError::Eof()),
        Some(end) => {
            assert(first_at(reader.input(), start + 1, COLON, end as int));
            match read_natural(reader.data(), start, end, usize::MAX as u64) {
                Err(kind) => Err(BencodeError::Parse(kind)),
                Ok(n) => match reader.read_exact(n as usize) {
                    None => Err(BencodeError::Eof()),
                    Some(bytes) => Ok(Some(Value::Str(bytes))),
                },
            }
        },
    }
}

/// Reads the items of a list, after its `l`, up to its `e`.
fn read_items<'a>(reader: &mut ByteReader<'a>) -> (r: Result<Option<Value>, BencodeError>)
    requires
        old(reader).offset() <= old(reader).input().len(),
    ensures
        final(reader).input() == old(reader).input(),
        final(reader).offset() == decode_items(
            old(reader).input(),
            old(reader).offset(),
            Seq::empty(),
        ).next,
        agrees(r, decode_items(old(reader).input(), old(reader).offset(), Seq::empty()).step),
    decreases old(reader).input().len() - old(reader).offset(), 1nat,
{
    let ghost s = reader.input();
    let ghost from = reader.offset();
    let mut items: Vec<Value> = Vec::new();
    assert(models(items@) =~= Seq::<Bencode>::empty());
    loop
        invariant
            s == old(reader).input(),
            from == old(reader).offset(),
            reader.input() == s,
            from <= reader.offset() <= s.len(),
            decode_items(s, from, Seq::empty()) == decode_items(s, reader.offset(), models(items@)),
        decreases s.len() - reader.offset(),
    {
        let ghost at = reader.offset();
        proof {
            lemma_decode_at(s, at);
        }
        match parse_bencode(reader) {
            Err(e) => {
                return Err(e);
            },
            Ok(None) => {
                proof {
                    lemma_view_list(items);
                }
                return Ok(Some(Value::List(items)));
            },
            Ok(Some(value)) => {
                assert(models(items@.push(value)) =~= models(items@).push(value@));
                items.push(value);
            },
        }
    }
}

/// Reads the entries of a map, after its `d`, up to its `e`.
fn read_entries<'a>(reader: &mut ByteReader<'a>) -> (r: Result<Option<Value>, BencodeError>)
    requires
        old(reader).offset() <= old(reader).input().len(),
    ensures
        final(reader).input() == old(reader).input(),
        final(reader).offset() == decode_entries(
            old(reader).input(),
            old(reader).offset(),
            Seq::empty(),
        ).next,
        agrees(r, decode_entries(old(reader).input(), old(reader).offset(), Seq::empty()).step),
    decreases old(reader).input().len() - old(reader).offset(), 1nat,
{
    let ghost s = reader.input();
    let ghost from = reader.offset();
    let mut entries: Vec<(Value, Value)> = Vec::new();
    assert(entry_models(entries@) =~= Seq::<Entry>::empty());
    loop
        invariant
            s == old(reader).input(),
            from == old(reader).offset(),
            reader.input() == s,
            from <= reader.offset() <= s.len(),
            decode_entries(s, from, Seq::empty()) == decode_entries(
                s,
                reader.offset(),
                entry_models(entries@),
            ),
        decreases s.len() - reader.offset(),
    {
        let ghost at = reader.offset();
        proof {
            lemma_decode_at(s, at);
        }
        match parse_bencode(reader) {
            Err(e) => {
                return Err(e);
            },
            Ok(None) => {
                proof {
                    lemma_view_dict(entries);
                }
                return Ok(Some(Value::Dict(entries)));
            },
            Ok(Some(key)) => {
                let ghost mid = reader.offset();
                proof {
                    lemma_decode_at(s, mid);
                }
                match parse_bencode(reader) {
                    Err(e) => {
                        return Err(e);
                    },
                    Ok(None) => {
                        return Err(BencodeError::missing_value());
                    },
                    Ok(Some(value)) => {
                        store(&mut entries, key, value);
                    },
                }
            },
        }
    }
}

} // verus!
