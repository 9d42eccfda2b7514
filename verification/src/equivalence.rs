//! Sameness of values is an equivalence: every value is the same as
//! itself, and sameness can be turned round and chained.

use crate::model::{
    finds, found_in, lemma_dict_same, lemma_finds, lemma_finds_witness, lemma_found_in,
    lemma_found_in_witness, lemma_list_same, Bencode,
};
use vstd::prelude::*;

verus! {

/// Every value is the same as itself.
pub proof fn lemma_same_reflexive(v: Bencode)
    ensures
        v.same(v),
    decreases v,
{
    match v {
        Bencode::Int(_) => {},
        Bencode::Str(_) => {},
        Bencode::List(items) => {
            lemma_list_same(items, items);
            assert forall|k: int| #![trigger items[k]] 0 <= k < items.len() implies items[k].same(
                items[k],
            ) by {
                lemma_same_reflexive(items[k]);
            }
        },
        Bencode::Dict(entries) => {
            lemma_dict_same(entries, entries);
            assert forall|i: int| #![trigger entries[i]] 0 <= i < entries.len() implies found_in(
                entries[i],
                entries,
            ) && finds(entries, entries[i]) by {
                lemma_same_reflexive(entries[i].key);
                lemma_same_reflexive(entries[i].value);
                lemma_found_in(entries[i], entries, i);
                lemma_finds(entries, entries[i], i);
            }
        },
    }
}

/// Where `a` is the same as `b`, `b` is the same as `a`.
pub proof fn lemma_same_symmetric(a: Bencode, b: Bencode)
    requires
        a.same(b),
    ensures
        b.same(a),
    decreases a,
{
    match (a, b) {
        (Bencode::List(x), Bencode::List(y)) => {
            lemma_list_same(x, y);
            lemma_list_same(y, x);
            assert forall|k: int| #![trigger y[k]] 0 <= k < y.len() implies y[k].same(x[k]) by {
                assert(x[k].same(y[k]));
                lemma_same_symmetric(x[k], y[k]);
            }
        },
        (Bencode::Dict(x), Bencode::Dict(y)) => {
            lemma_dict_same(x, y);
            lemma_dict_same(y, x);
            assert forall|j: int| #![trigger y[j]] 0 <= j < y.len() implies found_in(y[j], x) by {
                let i = lemma_finds_witness(x, y[j]);
                lemma_same_symmetric(x[i].key, y[j].key);
                lemma_same_symmetric(x[i].value, y[j].value);
                lemma_found_in(y[j], x, i);
            }
            assert forall|i: int| #![trigger x[i]] 0 <= i < x.len() implies finds(y, x[i]) by {
                let j = lemma_found_in_witness(x[i], y);
                lemma_same_symmetric(x[i].key, y[j].key);
                lemma_same_symmetric(x[i].value, y[j].value);
                lemma_finds(y, x[i], j);
            }
        },
        _ => {},
    }
}

/// Where `a` is the same as `b` and `b` the same as `c`, `a` is the same
/// as `c`.
pub proof fn lemma_same_transitive(a: Bencode, b: Bencode, c: Bencode)
    requires
        a.same(b),
        b.same(c),
    ensures
        a.same(c),
    decreases a,
{
    match (a, b, c) {
        (Bencode::List(x), Bencode::List(y), Bencode::List(z)) => {
            lemma_list_same(x, y);
            lemma_list_same(y, z);
            lemma_list_same(x, z);
            assert forall|k: int| #![trigger x[k]] 0 <= k < x.len() implies x[k].same(z[k]) by {
                assert(x[k].same(y[k]));
                assert(y[k].same(z[k]));
                lemma_same_transitive(x[k], y[k], z[k]);
            }
        },
        (Bencode::Dict(x), Bencode::Dict(y), Bencode::Dict(z)) => {
            lemma_dict_same(x, y);
            lemma_dict_same(y, z);
            lemma_dict_same(x, z);
            assert forall|i: int| #![trigger x[i]] 0 <= i < x.len() implies found_in(x[i], z) by {
                let j = lemma_found_in_witness(x[i], y);
                let k = lemma_found_in_witness(y[j], z);
                lemma_same_transitive(x[i].key, y[j].key, z[k].key);
                lemma_same_transitive(x[i].value, y[j].value, z[k].value);
                lemma_found_in(x[i], z, k);
            }
            assert forall|k: int| #![trigger z[k]] 0 <= k < z.len() implies finds(x, z[k]) by {
                let j = lemma_finds_witness(y, z[k]);
                let i = lemma_finds_witness(x, y[j]);
                lemma_same_transitive(x[i].key, y[j].key, z[k].key);
                lemma_same_transitive(x[i].value, y[j].value, z[k].value);
                lemma_finds(x, z[k], i);
            }
        },
        _ => {},
    }
}

} // verus!
