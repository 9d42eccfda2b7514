//! A hash code for values that goes with their equality: two values that
//! are the same have the same code, in whatever order the entries of their
//! maps are stored.

use crate::decimal::{decimal, digits, push_decimal, push_digits};
use crate::model::{Bencode, Entry};
use crate::value::Value;
use crate::wire::{append_bytes, COLON, DICT_TAG, END, INT_TAG, LIST_TAG};
use std::collections::hash_map::DefaultHasher;
use std::hash::Hasher;
use vstd::prelude::*;
use vstd::std_specs::hash::DefaultHasherAdditionalSpecFns;

verus! {

/// The number of the values of a `u64`.
pub open spec fn modulus() -> int {
    0x1_0000_0000_0000_0000
}

/// What is written to a hasher for `v`, write by write:
/// an integer is one write of `i` and its decimal text; a string is one
/// write of `:` and its bytes; a list is a write of `l`, then what is
/// written for each item in turn, then a write of `e`; a map is one write of
/// `d` and the decimal text of a number that depends on the set of its
/// entries only (see [`entries_code`]).
pub open spec fn feed(v: Bencode) -> Seq<Seq<u8>>
    decreases v, 0nat,
{
    match v {
        Bencode::Int(n) => seq![seq![INT_TAG] + decimal(n)],
        Bencode::Str(s) => seq![seq![COLON] + s],
        Bencode::List(items) => seq![seq![LIST_TAG]] + feed_items(items, items.len()) + seq![
            seq![END],
        ],
        Bencode::Dict(entries) => seq![seq![DICT_TAG] + digits(entries_code(entries) as nat)],
    }
}

/// What is written for the first `n` of `items`, one after the other.
pub open spec fn feed_items(items: Seq<Bencode>, n: nat) -> Seq<Seq<u8>>
    decreases items, n,
{
    if 0 < n <= items.len() {
        feed_items(items, (n - 1) as nat) + feed(items[n - 1])
    } else {
        Seq::empty()
    }
}

/// The code of one entry: what a fresh hasher gives after what is written
/// for the key and then for the value.
pub open spec fn entry_code(entry: Entry) -> u64
    decreases entry, 0nat,
{
    DefaultHasher::spec_finish(feed(entry.key) + feed(entry.value))
}

/// The sum of the codes of the first `n` of `entries`.
pub open spec fn entries_sum(entries: Seq<Entry>, n: nat) -> int
    decreases entries, n,
{
    if 0 < n <= entries.len() {
        entries_sum(entries, (n - 1) as nat) + entry_code(entries[n - 1])
    } else {
        0
    }
}

/// The code of the entries of a map: one more than the sum of the codes
/// of the entries, as far as it fits in a `u64`. A sum does not depend on
/// the order of what is added.
pub open spec fn entries_code(entries: Seq<Entry>) -> int
    decreases entries, entries.len() + 1,
{
    (1 + entries_sum(entries, entries.len())) % modulus()
}

/// The hash code of `v`: what a fresh hasher gives after what is written
/// for `v`.
pub open spec fn digest(v: Bencode) -> u64 {
    DefaultHasher::spec_finish(feed(v))
}

impl Value {
    /// The hash code of this value.
    pub fn hash_code(&self) -> (code: u64)
        ensures
            code == digest(self@),
    {
        let mut hasher = DefaultHasher::new();
        self.feed_into(&mut hasher);
        hasher.finish()
    }

    /// Writes this value to `hasher`.
    #[verifier::loop_isolation(false)]
    pub fn feed_into(&self, hasher: &mut DefaultHasher)
        ensures
            final(hasher)@ == old(hasher)@ + feed(self@),
        decreases self,
    {
        match self {
            Value::Int(n) => {
                let mut bytes: Vec<u8> = Vec::new();
                bytes.push(INT_TAG);
                push_decimal(&mut bytes, *n);
                hasher.write(bytes.as_slice());
                assert(hasher@ =~= old(hasher)@ + feed(self@));
            },
            Value::Str(s) => {
                let mut bytes: Vec<u8> = Vec::new();
                bytes.push(COLON);
                append_bytes(&mut bytes, s.as_slice());
                hasher.write(bytes.as_slice());
                assert(hasher@ =~= old(hasher)@ + feed(self@));
            },
            Value::List(items) => {
                let ghost model = self@->List_0;
                let mut open: Vec<u8> = Vec::new();
                open.push(LIST_TAG);
                hasher.write(open.as_slice());
                assert(open@ =~= seq![LIST_TAG]);
                let mut i: usize = 0;
                while i < items.len()
                    invariant
                        i <= items@.len(),
                        hasher@ == old(hasher)@ + seq![seq![LIST_TAG]] + feed_items(
                            model,
                            i as nat,
                        ),
                    decreases items@.len() - i,
                {
                    items[i].feed_into(hasher);
                    assert(model[i as int] == items@[i as int]@);
                    assert(hasher@ =~= old(hasher)@ + seq![seq![LIST_TAG]] + feed_items(
                        model,
                        (i + 1) as nat,
                    ));
                    i = i + 1;
                }
                let mut close: Vec<u8> = Vec::new();
                close.push(END);
                hasher.write(close.as_slice());
                assert(close@ =~= seq![END]);
                assert(hasher@ =~= old(hasher)@ + feed(self@));
            },
            Value::Dict(entries) => {
                let ghost model = self@->Dict_0;
                let mut sum: u64 = 1;
                let mut i: usize = 0;
                while i < entries.len()
                    invariant
                        i <= entries@.len(),
                        hasher@ == old(hasher)@,
                        sum == (1 + entries_sum(model, i as nat)) % modulus(),
                    decreases entries@.len() - i,
                {
                    let mut inner = DefaultHasher::new();
                    entries[i].0.feed_into(&mut inner);
                    entries[i].1.feed_into(&mut inner);
                    let code: u64 = inner.finish();
                    proof {
                        assert(model[i as int].key == entries@[i as int].0@);
                        assert(model[i as int].value == entries@[i as int].1@);
                        assert(inner@ =~= feed(model[i as int].key) + feed(model[i as int].value));
                        assert(code == entry_code(model[i as int]));
                        lemma_sum_step(1 + entries_sum(model, i as nat), code as int);
                    }
                    sum = sum.wrapping_add(code);
                    i = i + 1;
                }
                let mut bytes: Vec<u8> = Vec::new();
                bytes.push(DICT_TAG);
                push_digits(&mut bytes, sum);
                hasher.write(bytes.as_slice());
                assert(bytes@ =~= seq![DICT_TAG] + digits(entries_code(model) as nat));
                assert(hasher@ =~= old(hasher)@ + feed(self@));
            },
        }
    }
}

/// Adding a code to a sum that was cut to a `u64`, and cutting again, is
/// cutting the whole sum.
proof fn lemma_sum_step(total: int, code: int)
    requires
        0 <= code < modulus(),
    ensures
        (total + code) % modulus() == if total % modulus() + code >= modulus() {
            total % modulus() + code - modulus()
        } else {
            total % modulus() + code
        },
{
    let m = modulus();
    vstd::arithmetic::div_mod::lemma_add_mod_noop(total, code, m);
    vstd::arithmetic::div_mod::lemma_small_mod(code as nat, m as nat);
    let partial = total % m + code;
    if partial >= m {
        vstd::arithmetic::div_mod::lemma_mod_sub_multiples_vanish(partial, m);
        vstd::arithmetic::div_mod::lemma_small_mod((partial - m) as nat, m as nat);
    } else {
        vstd::arithmetic::div_mod::lemma_small_mod(partial as nat, m as nat);
    }
}

} // verus!
