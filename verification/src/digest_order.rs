//! Why the hash code of a value does not depend on the order in which the
//! entries of its maps are stored.

use crate::digest::{digest, entries_sum, entry_code, feed, feed_items};
use crate::equivalence::{lemma_same_symmetric, lemma_same_transitive};
use crate::model::{
    distinct_keys, entry_matches, finds, found_in, lemma_dict_same, lemma_dict_wf, lemma_finds,
    lemma_finds_witness, lemma_found_in, lemma_found_in_witness, lemma_list_same, lemma_list_wf,
    Bencode, Entry,
};
use vstd::prelude::*;

verus! {

/// The sum of the codes of the first `n` entries depends on those entries
/// only.
pub proof fn lemma_sum_prefix(s: Seq<Entry>, t: Seq<Entry>, n: nat)
    requires
        n <= s.len(),
        n <= t.len(),
        forall|i: int| 0 <= i < n ==> s[i] == t[i],
    ensures
        entries_sum(s, n) == entries_sum(t, n),
    decreases n,
{
    if n > 0 {
        lemma_sum_prefix(s, t, (n - 1) as nat);
        assert(s[n - 1] == t[n - 1]);
    }
}

/// Taking one entry out lowers the sum by the code of that entry.
pub proof fn lemma_sum_remove(s: Seq<Entry>, j: int, n: nat)
    requires
        0 <= j < n <= s.len(),
    ensures
        entries_sum(s, n) == entries_sum(s.remove(j), (n - 1) as nat) + entry_code(s[j]),
    decreases n,
{
    let rest = s.remove(j);
    if n - 1 == j {
        lemma_sum_prefix(s, rest, j as nat);
    } else {
        lemma_sum_remove(s, j, (n - 1) as nat);
        assert(rest[n - 2] == s[n - 1]);
    }
}

/// Whether entries of `a` and of `b` that match have the same code.
pub open spec fn codes_agree(a: Seq<Entry>, b: Seq<Entry>) -> bool {
    forall|i: int, j: int|
        #![trigger a[i], b[j]]
        0 <= i < a.len() && 0 <= j < b.len() && entry_matches(a[i], b[j]) ==> entry_code(a[i])
            == entry_code(b[j])
}

/// Whether each entry of `a` has a match in `b` and each entry of `b` a
/// match in `a`.
pub open spec fn cover_each_other(a: Seq<Entry>, b: Seq<Entry>) -> bool {
    &&& forall|i: int| #![trigger a[i]] 0 <= i < a.len() ==> found_in(a[i], b)
    &&& forall|j: int| #![trigger b[j]] 0 <= j < b.len() ==> finds(a, b[j])
}

/// Two entries of a list with distinct keys whose keys are the same are
/// one entry.
proof fn lemma_distinct(entries: Seq<Entry>, i: int, j: int)
    requires
        distinct_keys(entries),
        0 <= i < entries.len(),
        0 <= j < entries.len(),
        entries[i].key.same(entries[j].key),
    ensures
        i == j,
{
    if i < j {
        assert(!entries[i].key.same(entries[j].key));
    } else if j < i {
        lemma_same_symmetric(entries[i].key, entries[j].key);
        assert(!entries[j].key.same(entries[i].key));
    }
}

/// Two lists of entries with distinct keys that cover each other, and
/// whose matching entries have the same code, have the same sum of codes.
pub proof fn lemma_sum_same(a: Seq<Entry>, b: Seq<Entry>)
    requires
        distinct_keys(a),
        distinct_keys(b),
        cover_each_other(a, b),
        codes_agree(a, b),
    ensures
        a.len() == b.len(),
        entries_sum(a, a.len()) == entries_sum(b, b.len()),
    decreases a.len(),
{
    if a.len() == 0 {
        if b.len() > 0 {
            assert(finds(a, b[0]));
            let i = lemma_finds_witness(a, b[0]);
        }
    } else {
        let n = a.len() as int;
        let last = a[n - 1];
        assert(found_in(last, b));
        let j = lemma_found_in_witness(last, b);
        let shorter = a.drop_last();
        let rest = b.remove(j);
        assert forall|i: int| #![trigger shorter[i]] 0 <= i < shorter.len() implies found_in(
            shorter[i],
            rest,
        ) by {
            assert(shorter[i] == a[i]);
            assert(found_in(a[i], b));
            let k = lemma_found_in_witness(a[i], b);
            if k == j {
                lemma_same_symmetric(last.key, b[j].key);
                lemma_same_transitive(a[i].key, b[j].key, last.key);
                lemma_distinct(a, i, n - 1);
            }
            if k < j {
                assert(rest[k] == b[k]);
                lemma_found_in(shorter[i], rest, k);
            } else {
                assert(rest[k - 1] == b[k]);
                lemma_found_in(shorter[i], rest, k - 1);
            }
        }
        assert forall|k: int| #![trigger rest[k]] 0 <= k < rest.len() implies finds(
            shorter,
            rest[k],
        ) by {
            let from = if k < j {
                k
            } else {
                k + 1
            };
            assert(rest[k] == b[from]);
            assert(finds(a, b[from]));
            let i = lemma_finds_witness(a, b[from]);
            if i == n - 1 {
                lemma_same_symmetric(last.key, b[j].key);
                lemma_same_transitive(b[j].key, last.key, b[from].key);
                lemma_distinct(b, j, from);
            }
            assert(shorter[i] == a[i]);
            lemma_finds(shorter, rest[k], i);
        }
        assert(distinct_keys(shorter)) by {
            assert forall|x: int, y: int| 0 <= x < y < shorter.len() implies !(
            #[trigger] shorter[x]).key.same((#[trigger] shorter[y]).key) by {
                assert(!a[x].key.same(a[y].key));
            }
        }
        assert(distinct_keys(rest)) by {
            assert forall|x: int, y: int| 0 <= x < y < rest.len() implies !(
            #[trigger] rest[x]).key.same((#[trigger] rest[y]).key) by {
                let fx = if x < j {
                    x
                } else {
                    x + 1
                };
                let fy = if y < j {
                    y
                } else {
                    y + 1
                };
                assert(!b[fx].key.same(b[fy].key));
            }
        }
        assert(codes_agree(shorter, rest)) by {
            assert forall|x: int, y: int|
                #![trigger shorter[x], rest[y]]
                0 <= x < shorter.len() && 0 <= y < rest.len() && entry_matches(
                    shorter[x],
                    rest[y],
                ) implies entry_code(shorter[x]) == entry_code(rest[y]) by {
                let fy = if y < j {
                    y
                } else {
                    y + 1
                };
                assert(shorter[x] == a[x]);
                assert(rest[y] == b[fy]);
            }
        }
        lemma_sum_same(shorter, rest);
        lemma_sum_prefix(a, shorter, (n - 1) as nat);
        lemma_sum_remove(b, j, b.len());
        assert(entry_code(a[n - 1]) == entry_code(b[j]));
    }
}

/// What is written to a hasher is the same for two valid values that are
/// the same.
pub proof fn lemma_feed_same(a: Bencode, b: Bencode)
    requires
        a.wf(),
        b.wf(),
        a.same(b),
    ensures
        feed(a) == feed(b),
    decreases a, 0nat,
{
    match (a, b) {
        (Bencode::List(x), Bencode::List(y)) => {
            lemma_list_same(x, y);
            lemma_feed_items_same(x, y, x.len());
        },
        (Bencode::Dict(x), Bencode::Dict(y)) => {
            lemma_dict_same(x, y);
            lemma_dict_wf(x);
            lemma_dict_wf(y);
            assert forall|i: int, j: int|
                #![trigger x[i], y[j]]
                0 <= i < x.len() && 0 <= j < y.len() && entry_matches(x[i], y[j]) implies entry_code(
                x[i],
            ) == entry_code(y[j]) by {
                lemma_feed_same(x[i].key, y[j].key);
                lemma_feed_same(x[i].value, y[j].value);
            }
            lemma_sum_same(x, y);
        },
        _ => {},
    }
}

/// What is written for the first `n` items is the same for two valid lists
/// that are the same.
pub proof fn lemma_feed_items_same(x: Seq<Bencode>, y: Seq<Bencode>, n: nat)
    requires
        Bencode::List(x).wf(),
        Bencode::List(y).wf(),
        Bencode::List(x).same(Bencode::List(y)),
        n <= x.len(),
    ensures
        feed_items(x, n) == feed_items(y, n),
    decreases x, n,
{
    lemma_list_same(x, y);
    lemma_list_wf(x);
    lemma_list_wf(y);
    if n > 0 {
        lemma_feed_items_same(x, y, (n - 1) as nat);
        assert(x[n - 1].same(y[n - 1]));
        assert(x[n - 1].wf() && y[n - 1].wf());
        lemma_feed_same(x[n - 1], y[n - 1]);
    }
}

/// Two valid values that are the same have the same hash code.
pub proof fn lemma_digest_same(a: Bencode, b: Bencode)
    requires
        a.wf(),
        b.wf(),
        a.same(b),
    ensures
        digest(a) == digest(b),
{
    lemma_feed_same(a, b);
}

} // verus!
