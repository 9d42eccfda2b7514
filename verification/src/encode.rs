//! The canonical encoding of a value.

use crate::decimal::{decimal, digits, push_decimal, push_digits};
use crate::model::{Bencode, Entry};
use crate::value::Value;
use crate::wire::{append_bytes, COLON, DICT_TAG, END, INT_TAG, LIST_TAG};
use vstd::prelude::*;

verus! {

/// The canonical bytes of `v`:
/// an integer is `i`, its decimal text, `e`;
/// a string is its length in decimal, `:`, its bytes;
/// a list is `l`, its items one after the other, `e`;
/// a map is `d`, its entries in the order in which they are stored, each as
/// its key followed by its value, `e`.
pub open spec fn encode(v: Bencode) -> Seq<u8>
    decreases v, 0nat,
{
    match v {
        Bencode::Int(n) => seq![INT_TAG] + decimal(n) + seq![END],
        Bencode::Str(s) => digits(s.len()) + seq![COLON] + s,
        Bencode::List(items) => seq![LIST_TAG] + encode_items(items, items.len()) + seq![END],
        Bencode::Dict(entries) => seq![DICT_TAG] + encode_entries(entries, entries.len()) + seq![
            END,
        ],
    }
}

/// The encodings of the first `n` of `items`, one after the other.
pub open spec fn encode_items(items: Seq<Bencode>, n: nat) -> Seq<u8>
    decreases items, n,
{
    if 0 < n <= items.len() {
        encode_items(items, (n - 1) as nat) + encode(items[n - 1])
    } else {
        Seq::empty()
    }
}

/// The encodings of the first `n` of `entries`, one after the other, each
/// as its key followed by its value.
pub open spec fn encode_entries(entries: Seq<Entry>, n: nat) -> Seq<u8>
    decreases entries, n,
{
    if 0 < n <= entries.len() {
        encode_entries(entries, (n - 1) as nat) + encode(entries[n - 1].key) + encode(
            entries[n - 1].value,
        )
    } else {
        Seq::empty()
    }
}

impl Value {
    /// The canonical bytes of this value.
    pub fn to_bencode(&self) -> (bytes: Vec<u8>)
        ensures
            bytes@ == encode(self@),
    {
        let mut out: Vec<u8> = Vec::new();
        self.encode_into(&mut out);
        out
    }

    /// Appends the canonical bytes of this value to `out`.
    #[verifier::loop_isolation(false)]
    pub fn encode_into(&self, out: &mut Vec<u8>)
        ensures
            final(out)@ == old(out)@ + encode(self@),
        decreases self,
    {
        match self {
            Value::Int(n) => {
                out.push(INT_TAG);
                push_decimal(out, *n);
                out.push(END);
                assert(out@ == old(out)@ + encode(self@));
            },
            Value::Str(s) => {
                push_digits(out, s.len() as u64);
                out.push(COLON);
                append_bytes(out, s.as_slice());
                assert(out@ == old(out)@ + encode(self@));
            },
            Value::List(items) => {
                out.push(LIST_TAG);
                let ghost model = self@->List_0;
                let mut i: usize = 0;
                while i < items.len()
                    invariant
                        i <= items@.len(),
                        out@ == old(out)@ + seq![LIST_TAG] + encode_items(model, i as nat),
                    decreases items@.len() - i,
                {
                    items[i].encode_into(out);
                    assert(model[i as int] == items@[i as int]@);
                    assert(out@ == old(out)@ + seq![LIST_TAG] + encode_items(
                        model,
                        (i + 1) as nat,
                    ));
                    i = i + 1;
                }
                out.push(END);
                assert(out@ == old(out)@ + encode(self@));
            },
            Value::Dict(entries) => {
                out.push(DICT_TAG);
                let ghost model = self@->Dict_0;
                let mut i: usize = 0;
                while i < entries.len()
                    invariant
                        i <= entries@.len(),
                        out@ == old(out)@ + seq![DICT_TAG] + encode_entries(model, i as nat),
                    decreases entries@.len() - i,
                {
                    entries[i].0.encode_into(out);
                    entries[i].1.encode_into(out);
                    assert(model[i as int].key == entries@[i as int].0@);
                    assert(model[i as int].value == entries@[i as int].1@);
                    assert(out@ == old(out)@ + seq![DICT_TAG] + encode_entries(
                        model,
                        (i + 1) as nat,
                    ));
                    i = i + 1;
                }
                out.push(END);
                assert(out@ == old(out)@ + encode(self@));
            },
        }
    }
}

} // verus!
