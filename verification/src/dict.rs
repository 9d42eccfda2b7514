//! Maps as lists of entries in which no key occurs twice.

use crate::model::{
    first_match, has_key, insert_entry, lemma_first_match_unique, lemma_insert_entry_wf, Bencode,
    Entry,
};
use crate::value::{entry_models, lemma_view_dict, Value};
use vstd::prelude::*;

verus! {

/// The entries after each of `pairs`, in turn, was stored in `entries`.
pub open spec fn insert_all(entries: Seq<Entry>, pairs: Seq<Entry>, n: nat) -> Seq<Entry>
    decreases n,
{
    if 0 < n <= pairs.len() {
        insert_entry(insert_all(entries, pairs, (n - 1) as nat), pairs[n - 1].key, pairs[n - 1].value)
    } else {
        entries
    }
}

/// Storing valid entries one after the other keeps a map valid.
pub proof fn lemma_insert_all_wf(entries: Seq<Entry>, pairs: Seq<Entry>, n: nat)
    requires
        Bencode::Dict(entries).wf(),
        forall|i: int| 0 <= i < pairs.len() ==> (#[trigger] pairs[i]).key.wf() && pairs[i].value.wf(),
    ensures
        Bencode::Dict(insert_all(entries, pairs, n)).wf(),
    decreases n,
{
    if 0 < n <= pairs.len() {
        lemma_insert_all_wf(entries, pairs, (n - 1) as nat);
        assert(pairs[n - 1].key.wf() && pairs[n - 1].value.wf());
        lemma_insert_entry_wf(
            insert_all(entries, pairs, (n - 1) as nat),
            pairs[n - 1].key,
            pairs[n - 1].value,
        );
    }
}

/// The place of the first entry of `entries` whose key is the same as `key`.
pub fn position_of(entries: &Vec<(Value, Value)>, key: &Value) -> (place: Option<usize>)
    ensures
        match place {
            Some(i) => first_match(entry_models(entries@), key@, i as int),
            None => !has_key(entry_models(entries@), key@),
        },
{
    let ghost model = entry_models(entries@);
    let mut i: usize = 0;
    while i < entries.len()
        invariant
            i <= entries@.len(),
            model == entry_models(entries@),
            forall|k: int| 0 <= k < i ==> !(#[trigger] model[k]).key.same(key@),
        decreases entries@.len() - i,
    {
        if entries[i].0.same_as(key) {
            assert(model[i as int].key == entries@[i as int].0@);
            return Some(i);
        }
        assert(model[i as int].key == entries@[i as int].0@);
        i = i + 1;
    }
    proof {
        if has_key(model, key@) {
            let at = choose|at: int| first_match(model, key@, at);
            assert(!model[at].key.same(key@));
        }
    }
    None
}

/// Stores `value` under `key`: the first entry with the same key keeps its
/// key and its place and takes the new value; where there is none, a new
/// entry is added at the end.
pub fn store(entries: &mut Vec<(Value, Value)>, key: Value, value: Value)
    ensures
        entry_models(final(entries)@) == insert_entry(entry_models(old(entries)@), key@, value@),
{
    let ghost before = entry_models(entries@);
    match position_of(entries, &key) {
        Some(i) => {
            proof {
                let chosen = choose|at: int| first_match(before, key@, at);
                assert(has_key(before, key@));
                lemma_first_match_unique(before, key@, i as int, chosen);
            }
            let (kept, _) = entries.remove(i);
            entries.insert(i, (kept, value));
            assert(entry_models(entries@) =~= before.update(
                i as int,
                Entry { key: before[i as int].key, value: value@ },
            ));
        },
        None => {
            entries.push((key, value));
            assert(entry_models(entries@) =~= before.push(Entry { key: key@, value: value@ }));
        },
    }
}

/// The items of `items` in reverse order.
fn reversed(items: Vec<(Value, Value)>) -> (turned: Vec<(Value, Value)>)
    ensures
        turned@.len() == items@.len(),
        forall|k: int| 0 <= k < turned@.len() ==> turned@[k] == items@[items@.len() - 1 - k],
{
    let ghost given = items@;
    let mut items = items;
    let mut turned: Vec<(Value, Value)> = Vec::new();
    while items.len() > 0
        invariant
            turned@.len() + items@.len() == given.len(),
            items@ == given.take(items@.len() as int),
            forall|k: int| 0 <= k < turned@.len() ==> turned@[k] == given[given.len() - 1 - k],
        decreases items@.len(),
    {
        match items.pop() {
            Some(item) => {
                turned.push(item);
            },
            None => {},
        }
    }
    turned
}

impl Value {
    /// The map that holds `pairs`, stored one after the other: of two pairs
    /// with the same key, the first gives the key and the place, the last
    /// the value.
    pub fn dict_from(pairs: Vec<(Value, Value)>) -> (map: Value)
        ensures
            map@ == Bencode::Dict(
                insert_all(Seq::empty(), entry_models(pairs@), pairs@.len()),
            ),
            (forall|i: int|
                0 <= i < pairs@.len() ==> (#[trigger] pairs@[i]).0@.wf() && pairs@[i].1@.wf())
                ==> map@.wf(),
    {
        let ghost given = entry_models(pairs@);
        let mut pairs = reversed(pairs);
        let mut entries: Vec<(Value, Value)> = Vec::new();
        let ghost mut n: nat = 0;
        assert(entry_models(entries@) =~= Seq::<Entry>::empty());
        while pairs.len() > 0
            invariant
                n + pairs@.len() == given.len(),
                entry_models(entries@) == insert_all(Seq::empty(), given, n),
                forall|k: int|
                    0 <= k < pairs@.len() ==> (#[trigger] pairs@[k]).0@ == given[given.len() - 1
                        - k].key && pairs@[k].1@ == given[given.len() - 1 - k].value,
            decreases pairs@.len(),
        {
            let ghost last = pairs@[pairs@.len() - 1];
            let pair = pairs.pop();
            match pair {
                Some((key, value)) => {
                    assert(key@ == given[n as int].key && value@ == given[n as int].value);
                    store(&mut entries, key, value);
                    proof {
                        n = n + 1;
                    }
                },
                None => {},
            }
        }
        proof {
            lemma_view_dict(entries);
            if forall|i: int|
                0 <= i < given.len() ==> (#[trigger] given[i]).key.wf() && given[i].value.wf() {
                lemma_insert_all_wf(Seq::empty(), given, given.len());
            }
        }
        Value::Dict(entries)
    }
}

} // verus!
