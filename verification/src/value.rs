//! The value tree that the decoder builds and the encoder reads.

use crate::model::{Bencode, Entry};
use vstd::prelude::*;

verus! {

/// One value: an integer, a byte string, a list, or a map.
///
/// A map is stored as the list of its entries. It is meant to hold each key
/// once: see [`Bencode::wf`], which the decoder and the constructors of this
/// crate establish.
#[derive(Debug)]
pub enum Value {
    /// A map from keys to values, as its entries.
    Dict(Vec<(Value, Value)>),
    /// An ordered list.
    List(Vec<Value>),
    /// A string of arbitrary bytes, not necessarily text.
    Str(Vec<u8>),
    /// A signed 32-bit integer.
    Int(i32),
}

/// The models of a sequence of values, one for one.
pub open spec fn models(items: Seq<Value>) -> Seq<Bencode> {
    Seq::new(items.len(), |i: int| items[i]@)
}

/// The models of the entries of a map, one for one.
pub open spec fn entry_models(entries: Seq<(Value, Value)>) -> Seq<Entry> {
    Seq::new(entries.len(), |i: int| Entry { key: entries[i].0@, value: entries[i].1@ })
}

/// The model of a list is the list of the models of its items.
pub proof fn lemma_view_list(items: Vec<Value>)
    ensures
        Value::List(items)@ == Bencode::List(models(items@)),
{
    assert(Value::List(items)@->List_0 =~= models(items@));
}

/// The model of a map is the list of the models of its entries.
pub proof fn lemma_view_dict(entries: Vec<(Value, Value)>)
    ensures
        Value::Dict(entries)@ == Bencode::Dict(entry_models(entries@)),
{
    assert(Value::Dict(entries)@->Dict_0 =~= entry_models(entries@));
}

impl View for Value {
    type V = Bencode;

    open spec fn view(&self) -> Bencode
        decreases self,
    {
        match self {
            Value::Int(n) => Bencode::Int(*n as int),
            Value::Str(s) => Bencode::Str(s@),
            Value::List(items) => Bencode::List(
                Seq::new(
                    items@.len(),
                    |i: int|
                        if 0 <= i < items@.len() {
                            items@[i].view()
                        } else {
                            Bencode::Int(0)
                        },
                ),
            ),
            Value::Dict(entries) => Bencode::Dict(
                Seq::new(
                    entries@.len(),
                    |i: int|
                        if 0 <= i < entries@.len() {
                            Entry { key: entries@[i].0.view(), value: entries@[i].1.view() }
                        } else {
                            Entry { key: Bencode::Int(0), value: Bencode::Int(0) }
                        },
                ),
            ),
        }
    }
}

impl Clone for Value {
    /// A copy of the whole tree.
    #[verifier::loop_isolation(false)]
    fn clone(&self) -> (copy: Self)
        ensures
            copy@ == self@,
        decreases self,
    {
        match self {
            Value::Int(n) => Value::Int(*n),
            Value::Str(s) => {
                let mut bytes: Vec<u8> = Vec::new();
                let mut i: usize = 0;
                while i < s.len()
                    invariant
                        i <= s@.len(),
                        bytes@ == s@.take(i as int),
                    decreases s@.len() - i,
                {
                    bytes.push(s[i]);
                    assert(s@.take(i + 1) == s@.take(i as int).push(s@[i as int]));
                    i = i + 1;
                }
                assert(s@.take(s@.len() as int) == s@);
                Value::Str(bytes)
            },
            Value::List(items) => {
                let mut copies: Vec<Value> = Vec::new();
                let mut i: usize = 0;
                while i < items.len()
                    invariant
                        i <= items@.len(),
                        copies@.len() == i,
                        forall|k: int| 0 <= k < i ==> (#[trigger] copies@[k])@ == items@[k]@,
                    decreases items@.len() - i,
                {
                    let item = items[i].clone();
                    copies.push(item);
                    i = i + 1;
                }
                let copy = Value::List(copies);
                assert(copy@ == self@) by {
                    assert(copy@->List_0 =~= self@->List_0);
                }
                copy
            },
            Value::Dict(entries) => {
                let mut copies: Vec<(Value, Value)> = Vec::new();
                let mut i: usize = 0;
                while i < entries.len()
                    invariant
                        i <= entries@.len(),
                        copies@.len() == i,
                        forall|k: int|
                            0 <= k < i ==> (#[trigger] copies@[k]).0@ == entries@[k].0@
                                && copies@[k].1@ == entries@[k].1@,
                    decreases entries@.len() - i,
                {
                    let key = entries[i].0.clone();
                    let value = entries[i].1.clone();
                    copies.push((key, value));
                    i = i + 1;
                }
                let copy = Value::Dict(copies);
                assert(copy@ == self@) by {
                    let made = copy@->Dict_0;
                    let given = self@->Dict_0;
                    assert(made.len() == given.len());
                    assert forall|k: int| 0 <= k < made.len() implies made[k] == given[k] by {
                        assert(copies@[k].0@ == entries@[k].0@);
                        assert(copies@[k].1@ == entries@[k].1@);
                    }
                    assert(made =~= given);
                }
                copy
            },
        }
    }
}

} // verus!
