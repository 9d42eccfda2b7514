//! A rendering of a value for people to read: for diagnostics, not for the
//! wire.

use crate::decimal::{decimal, push_decimal};
use crate::model::{Bencode, Entry};
use crate::text::{lossy_text, to_text_lossy};
use crate::value::Value;
use crate::wire::{
    append_bytes, CLOSE_BRACE, CLOSE_BRACKET, COMMA, OPEN_BRACE, OPEN_BRACKET, SPACE,
};
use vstd::prelude::*;

verus! {

/// The bytes of the rendering of `v`:
/// an integer is its decimal text; a string is its bytes as they are;
/// a list is `[a, b, c]`; a map is `{key value key value}`, in the order in
/// which the entries are stored.
pub open spec fn render(v: Bencode) -> Seq<u8>
    decreases v, 0nat,
{
    match v {
        Bencode::Int(n) => decimal(n),
        Bencode::Str(s) => s,
        Bencode::List(items) => seq![OPEN_BRACKET] + render_items(items, items.len()) + seq![
            CLOSE_BRACKET,
        ],
        Bencode::Dict(entries) => seq![OPEN_BRACE] + render_entries(entries, entries.len()) + seq![
            CLOSE_BRACE,
        ],
    }
}

/// The renderings of the first `n` of `items`, with a comma and a space
/// between two of them.
pub open spec fn render_items(items: Seq<Bencode>, n: nat) -> Seq<u8>
    decreases items, n,
{
    if 1 < n <= items.len() {
        render_items(items, (n - 1) as nat) + seq![COMMA, SPACE] + render(items[n - 1])
    } else if n == 1 && n <= items.len() {
        render(items[0])
    } else {
        Seq::empty()
    }
}

/// The renderings of the first `n` of `entries`, each as its key, a space
/// and its value, with a space between two of them.
pub open spec fn render_entries(entries: Seq<Entry>, n: nat) -> Seq<u8>
    decreases entries, n,
{
    if 1 < n <= entries.len() {
        render_entries(entries, (n - 1) as nat) + seq![SPACE] + render(entries[n - 1].key) + seq![
            SPACE,
        ] + render(entries[n - 1].value)
    } else if n == 1 && n <= entries.len() {
        render(entries[0].key) + seq![SPACE] + render(entries[0].value)
    } else {
        Seq::empty()
    }
}

impl Value {
    /// The rendering of this value as text. Bytes of a string that are no
    /// UTF-8 show as replacement characters.
    pub fn render_text(&self) -> (text: String)
        ensures
            text@ == lossy_text(render(self@)),
    {
        let bytes = self.render_bytes();
        to_text_lossy(bytes.as_slice())
    }

    /// The bytes of the rendering of this value.
    pub fn render_bytes(&self) -> (bytes: Vec<u8>)
        ensures
            bytes@ == render(self@),
    {
        let mut out: Vec<u8> = Vec::new();
        self.render_into(&mut out);
        out
    }

    /// Appends the bytes of the rendering of this value to `out`.
    #[verifier::loop_isolation(false)]
    pub fn render_into(&self, out: &mut Vec<u8>)
        ensures
            final(out)@ == old(out)@ + render(self@),
        decreases self,
    {
        match self {
            Value::Int(n) => {
                push_decimal(out, *n);
            },
            Value::Str(s) => {
                append_bytes(out, s.as_slice());
            },
            Value::List(items) => {
                out.push(OPEN_BRACKET);
                let ghost model = self@->List_0;
                let mut i: usize = 0;
                while i < items.len()
                    invariant
                        i <= items@.len(),
                        out@ == old(out)@ + seq![OPEN_BRACKET] + render_items(model, i as nat),
                    decreases items@.len() - i,
                {
                    if i > 0 {
                        out.push(COMMA);
                        out.push(SPACE);
                    }
                    items[i].render_into(out);
                    assert(model[i as int] == items@[i as int]@);
                    assert(out@ == old(out)@ + seq![OPEN_BRACKET] + render_items(
                        model,
                        (i + 1) as nat,
                    ));
                    i = i + 1;
                }
                out.push(CLOSE_BRACKET);
                assert(out@ == old(out)@ + render(self@));
            },
            Value::Dict(entries) => {
                out.push(OPEN_BRACE);
                let ghost model = self@->Dict_0;
                let mut i: usize = 0;
                while i < entries.len()
                    invariant
                        i <= entries@.len(),
                        out@ == old(out)@ + seq![OPEN_BRACE] + render_entries(model, i as nat),
                    decreases entries@.len() - i,
                {
                    if i > 0 {
                        out.push(SPACE);
                    }
                    entries[i].0.render_into(out);
                    out.push(SPACE);
                    entries[i].1.render_into(out);
                    assert(model[i as int].key == entries@[i as int].0@);
                    assert(model[i as int].value == entries@[i as int].1@);
                    assert(out@ == old(out)@ + seq![OPEN_BRACE] + render_entries(
                        model,
                        (i + 1) as nat,
                    ));
                    i = i + 1;
                }
                out.push(CLOSE_BRACE);
                assert(out@ == old(out)@ + render(self@));
            },
        }
    }
}

} // verus!
