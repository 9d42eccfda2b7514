//! The mathematical model of a value: a finite tree of integers, byte
//! strings, lists and maps, with the equality and the validity that the
//! contracts of this crate speak of.

use vstd::prelude::*;

verus! {

/// A value as a mathematical tree. A map is the sequence of its entries in
/// the order in which they are stored; what two maps mean does not depend on
/// that order (see [`Bencode::same`]).
pub enum Bencode {
    /// An integer.
    Int(int),
    /// A string of arbitrary bytes.
    Str(Seq<u8>),
    /// An ordered list of values.
    List(Seq<Bencode>),
    /// The entries of a map.
    Dict(Seq<Entry>),
}

/// One entry of a map: a key and the value stored under it.
pub struct Entry {
    /// The key, itself any value.
    pub key: Bencode,
    /// The value stored under the key.
    pub value: Bencode,
}

impl Bencode {
    /// Structural equality: integers by number, strings by bytes, lists
    /// element by element in order, maps as sets of entries, whatever the
    /// order in which the entries are stored.
    pub open spec fn same(self, other: Bencode) -> bool
        decreases self, 0nat,
    {
        match (self, other) {
            (Bencode::Int(a), Bencode::Int(b)) => a == b,
            (Bencode::Str(a), Bencode::Str(b)) => a == b,
            (Bencode::List(a), Bencode::List(b)) => {
                &&& a.len() == b.len()
                &&& forall|i: int| #![trigger a[i]] 0 <= i < a.len() ==> a[i].same(b[i])
            },
            (Bencode::Dict(a), Bencode::Dict(b)) => {
                &&& forall|i: int| #![trigger a[i]] 0 <= i < a.len() ==> found_in(a[i], b)
                &&& forall|j: int| #![trigger b[j]] 0 <= j < b.len() ==> finds(a, b[j])
            },
            _ => false,
        }
    }

    /// Validity: every integer fits in 32 bits, every string has a length
    /// that fits in `usize`, and within a map no two entries have the same
    /// key. It holds of a tree if it holds of all its parts.
    pub open spec fn wf(self) -> bool
        decreases self,
    {
        match self {
            Bencode::Int(n) => i32::MIN <= n <= i32::MAX,
            Bencode::Str(s) => s.len() <= usize::MAX,
            Bencode::List(items) => {
                forall|i: int| #![trigger items[i]] 0 <= i < items.len() ==> items[i].wf()
            },
            Bencode::Dict(entries) => {
                &&& forall|i: int|
                    #![trigger entries[i]]
                    0 <= i < entries.len() ==> entries[i].key.wf() && entries[i].value.wf()
                &&& distinct_keys(entries)
            },
        }
    }
}

/// Whether two entries have the same key and the same value.
pub open spec fn entry_matches(x: Entry, y: Entry) -> bool
    decreases x, 0nat,
{
    x.key.same(y.key) && x.value.same(y.value)
}

/// Whether `ys` holds an entry with the key and the value of `x`.
#[verifier::opaque]
pub open spec fn found_in(x: Entry, ys: Seq<Entry>) -> bool
    decreases x, 1nat,
{
    exists|j: int| #![trigger ys[j]] 0 <= j < ys.len() && entry_matches(x, ys[j])
}

/// Whether `xs` holds an entry with the key and the value of `y`.
#[verifier::opaque]
pub open spec fn finds(xs: Seq<Entry>, y: Entry) -> bool
    decreases xs, 1nat,
{
    exists|i: int| #![trigger xs[i]] 0 <= i < xs.len() && entry_matches(xs[i], y)
}

/// An entry of `ys` that matches `x` shows that `x` is found in `ys`.
pub proof fn lemma_found_in(x: Entry, ys: Seq<Entry>, j: int)
    requires
        0 <= j < ys.len(),
        entry_matches(x, ys[j]),
    ensures
        found_in(x, ys),
{
    reveal(found_in);
}

/// Where `x` is found in `ys`, some entry of `ys` matches it.
pub proof fn lemma_found_in_witness(x: Entry, ys: Seq<Entry>) -> (j: int)
    requires
        found_in(x, ys),
    ensures
        0 <= j < ys.len(),
        entry_matches(x, ys[j]),
{
    reveal(found_in);
    choose|j: int| #![trigger ys[j]] 0 <= j < ys.len() && entry_matches(x, ys[j])
}

/// An entry of `xs` that matches `y` shows that `xs` finds `y`.
pub proof fn lemma_finds(xs: Seq<Entry>, y: Entry, i: int)
    requires
        0 <= i < xs.len(),
        entry_matches(xs[i], y),
    ensures
        finds(xs, y),
{
    reveal(finds);
}

/// Where `xs` finds `y`, some entry of `xs` matches it.
pub proof fn lemma_finds_witness(xs: Seq<Entry>, y: Entry) -> (i: int)
    requires
        finds(xs, y),
    ensures
        0 <= i < xs.len(),
        entry_matches(xs[i], y),
{
    reveal(finds);
    choose|i: int| #![trigger xs[i]] 0 <= i < xs.len() && entry_matches(xs[i], y)
}

/// Whether no two entries of `entries` have the same key.
pub open spec fn distinct_keys(entries: Seq<Entry>) -> bool {
    forall|i: int, j: int|
        0 <= i < j < entries.len() ==> !(#[trigger] entries[i]).key.same((#[trigger] entries[j]).key)
}

/// Whether `i` is the first entry of `entries` whose key is the same as `key`.
pub open spec fn first_match(entries: Seq<Entry>, key: Bencode, i: int) -> bool {
    &&& 0 <= i < entries.len()
    &&& entries[i].key.same(key)
    &&& forall|j: int| 0 <= j < i ==> !(#[trigger] entries[j]).key.same(key)
}

/// Whether some entry of `entries` has a key that is the same as `key`.
pub open spec fn has_key(entries: Seq<Entry>, key: Bencode) -> bool {
    exists|i: int| first_match(entries, key, i)
}

/// The entries after `value` was stored under `key`: where an entry with the
/// same key exists, the first such entry keeps its key and place and takes
/// the new value; otherwise a new entry is added at the end.
pub open spec fn insert_entry(entries: Seq<Entry>, key: Bencode, value: Bencode) -> Seq<Entry> {
    if has_key(entries, key) {
        let i = choose|i: int| first_match(entries, key, i);
        entries.update(i, Entry { key: entries[i].key, value })
    } else {
        entries.push(Entry { key, value })
    }
}

/// At most one index is the first match of a key.
pub proof fn lemma_first_match_unique(entries: Seq<Entry>, key: Bencode, i: int, j: int)
    requires
        first_match(entries, key, i),
        first_match(entries, key, j),
    ensures
        i == j,
{
    if i < j {
        assert(!entries[i].key.same(key));
    } else if j < i {
        assert(!entries[j].key.same(key));
    }
}

/// Storing a valid value under a valid key keeps the entries of a map valid.
pub proof fn lemma_insert_entry_wf(entries: Seq<Entry>, key: Bencode, value: Bencode)
    requires
        Bencode::Dict(entries).wf(),
        key.wf(),
        value.wf(),
    ensures
        Bencode::Dict(insert_entry(entries, key, value)).wf(),
{
    let after = insert_entry(entries, key, value);
    if has_key(entries, key) {
        let i = choose|i: int| first_match(entries, key, i);
        assert forall|k: int| 0 <= k < after.len() implies (#[trigger] after[k]).key.wf()
            && after[k].value.wf() by {
            assert(entries[k].key.wf() && entries[k].value.wf());
        }
        assert forall|a: int, b: int| 0 <= a < b < after.len() implies !(#[trigger] after[a]).key.same(
            (#[trigger] after[b]).key,
        ) by {
            assert(!entries[a].key.same(entries[b].key));
        }
    } else {
        assert forall|k: int| 0 <= k < after.len() implies (#[trigger] after[k]).key.wf()
            && after[k].value.wf() by {
            if k < entries.len() {
                assert(entries[k].key.wf() && entries[k].value.wf());
            }
        }
        assert forall|a: int, b: int| 0 <= a < b < after.len() implies !(#[trigger] after[a]).key.same(
            (#[trigger] after[b]).key,
        ) by {
            if b < entries.len() {
                assert(!entries[a].key.same(entries[b].key));
            } else {
                if entries[a].key.same(key) {
                    lemma_has_first_match(entries, key, a);
                }
            }
        }
    }
}

/// Where some entry has the key, some entry is the first to have it.
pub proof fn lemma_has_first_match(entries: Seq<Entry>, key: Bencode, i: int)
    requires
        0 <= i < entries.len(),
        entries[i].key.same(key),
    ensures
        has_key(entries, key),
    decreases i,
{
    if forall|j: int| 0 <= j < i ==> !(#[trigger] entries[j]).key.same(key) {
        assert(first_match(entries, key, i));
    } else {
        let j = choose|j: int| 0 <= j < i && (#[trigger] entries[j]).key.same(key);
        lemma_has_first_match(entries, key, j);
    }
}

/// A list is valid where its items are.
pub proof fn lemma_list_wf(items: Seq<Bencode>)
    ensures
        Bencode::List(items).wf() <==> forall|k: int|
            #![trigger items[k]]
            0 <= k < items.len() ==> items[k].wf(),
{
    assert(Bencode::List(items)->List_0 == items);
}

/// A map is valid where the keys and values of its entries are and no two
/// entries have the same key.
pub proof fn lemma_dict_wf(entries: Seq<Entry>)
    ensures
        Bencode::Dict(entries).wf() <==> distinct_keys(entries) && forall|k: int|
            #![trigger entries[k]]
            0 <= k < entries.len() ==> entries[k].key.wf() && entries[k].value.wf(),
{
    assert(Bencode::Dict(entries)->Dict_0 == entries);
}

/// Two lists are the same where they are as long as each other and their
/// items are the same, place by place.
pub proof fn lemma_list_same(a: Seq<Bencode>, b: Seq<Bencode>)
    ensures
        Bencode::List(a).same(Bencode::List(b)) <==> a.len() == b.len() && forall|k: int|
            #![trigger a[k]]
            0 <= k < a.len() ==> a[k].same(b[k]),
{
    assert(Bencode::List(a)->List_0 == a);
    assert(Bencode::List(b)->List_0 == b);
}

/// Two maps are the same where each entry of either has a counterpart in
/// the other.
pub proof fn lemma_dict_same(a: Seq<Entry>, b: Seq<Entry>)
    ensures
        Bencode::Dict(a).same(Bencode::Dict(b)) <==> (forall|i: int|
            #![trigger a[i]]
            0 <= i < a.len() ==> found_in(a[i], b)) && (forall|j: int|
            #![trigger b[j]]
            0 <= j < b.len() ==> finds(a, b[j])),
{
    reveal(found_in);
    reveal(finds);
    assert(Bencode::Dict(a)->Dict_0 == a);
    assert(Bencode::Dict(b)->Dict_0 == b);
}

} // verus!
