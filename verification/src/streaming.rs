//! The format is self-delimiting: what stands at a position does not depend
//! on the bytes after it. Once decoding has an outcome other than the end of
//! the input, more input does not change that outcome.

use crate::decimal::{is_digit, parse_natural, ZERO};
use crate::decode::{
    decode_at, decode_entries, decode_items, lemma_decode_at, Decoded, Fault, Step,
};
use crate::model::{insert_entry, Bencode, Entry};
use crate::reader::{find, first_at, lemma_find, lemma_find_some};
use crate::wire::{COLON, DICT_TAG, END, INT_TAG, LIST_TAG};
use vstd::prelude::*;

verus! {

/// Whether `t` starts with the bytes of `s`.
pub open spec fn opens(s: Seq<u8>, t: Seq<u8>) -> bool {
    &&& s.len() <= t.len()
    &&& forall|i: int| 0 <= i < s.len() ==> s[i] == t[i]
}

/// Whether decoding came to an outcome within the input: a value, the
/// closing byte, or a fault other than the end of the input.
pub open spec fn settled(outcome: Decoded) -> bool {
    outcome.step != Step::Fail(Fault::Eof)
}

/// A byte that is found in the input is found at the same place in a longer
/// input.
proof fn lemma_find_extends(s: Seq<u8>, t: Seq<u8>, from: int, b: u8)
    requires
        opens(s, t),
        0 <= from,
        find(s, from, b) is Some,
    ensures
        find(t, from, b) == find(s, from, b),
{
    lemma_find(s, from, b);
    let at = find(s, from, b)->Some_0;
    assert(first_at(t, from, b, at)) by {
        assert(t[at] == s[at]);
        assert forall|k: int| from <= k < at implies t[k] != b by {
            assert(t[k] == s[k]);
        }
    }
    lemma_find_some(t, from, b, at);
}

/// The same part of two inputs, where one opens the other.
proof fn lemma_same_part(s: Seq<u8>, t: Seq<u8>, from: int, to: int)
    requires
        opens(s, t),
        0 <= from <= to <= s.len(),
    ensures
        t.subrange(from, to) == s.subrange(from, to),
{
    assert(t.subrange(from, to) =~= s.subrange(from, to));
}

/// Where decoding at `pos` is settled within `s`, it is the same in every
/// input that starts with `s`.
pub proof fn lemma_decode_at_extends(s: Seq<u8>, t: Seq<u8>, pos: int)
    requires
        opens(s, t),
        settled(decode_at(s, pos)),
    ensures
        decode_at(t, pos) == decode_at(s, pos),
    decreases s.len() - pos, 0nat,
{
    assert(0 <= pos < s.len());
    assert(t[pos] == s[pos]);
    let lead = s[pos];
    if lead == INT_TAG {
        lemma_find(s, pos + 1, END);
        lemma_find_extends(s, t, pos + 1, END);
        let end = find(s, pos + 1, END)->Some_0;
        lemma_same_part(s, t, pos + 1, end);
    } else if lead == DICT_TAG {
        lemma_decode_entries_extends(s, t, pos + 1, Seq::empty());
    } else if lead == LIST_TAG {
        lemma_decode_items_extends(s, t, pos + 1, Seq::empty());
    } else if lead == END {
    } else if lead == ZERO {
        lemma_find_extends(s, t, pos + 1, COLON);
    } else if is_digit(lead) {
        lemma_find(s, pos + 1, COLON);
        lemma_find_extends(s, t, pos + 1, COLON);
        let end = find(s, pos + 1, COLON)->Some_0;
        lemma_same_part(s, t, pos, end);
        let count = parse_natural(s.subrange(pos, end), usize::MAX as nat);
        if count is Ok {
            let n = count->Ok_0;
            lemma_same_part(s, t, end + 1, end + 1 + n);
        }
    }
}

/// The same of the rest of a list.
pub proof fn lemma_decode_items_extends(s: Seq<u8>, t: Seq<u8>, pos: int, sofar: Seq<Bencode>)
    requires
        opens(s, t),
        settled(decode_items(s, pos, sofar)),
    ensures
        decode_items(t, pos, sofar) == decode_items(s, pos, sofar),
    decreases s.len() - pos, 1nat,
{
    let head = decode_at(s, pos);
    lemma_decode_at(s, pos);
    lemma_decode_at_extends(s, t, pos);
    match head.step {
        Step::Item(value) => {
            lemma_decode_items_extends(s, t, head.next, sofar.push(value));
        },
        _ => {},
    }
}

/// The same of the rest of a map.
pub proof fn lemma_decode_entries_extends(s: Seq<u8>, t: Seq<u8>, pos: int, sofar: Seq<Entry>)
    requires
        opens(s, t),
        settled(decode_entries(s, pos, sofar)),
    ensures
        decode_entries(t, pos, sofar) == decode_entries(s, pos, sofar),
    decreases s.len() - pos, 1nat,
{
    let head = decode_at(s, pos);
    lemma_decode_at(s, pos);
    lemma_decode_at_extends(s, t, pos);
    match head.step {
        Step::Item(key) => {
            let tail = decode_at(s, head.next);
            lemma_decode_at(s, head.next);
            lemma_decode_at_extends(s, t, head.next);
            match tail.step {
                Step::Item(value) => {
                    lemma_decode_entries_extends(s, t, tail.next, insert_entry(sofar, key, value));
                },
                _ => {},
            }
        },
        _ => {},
    }
}

} // verus!
