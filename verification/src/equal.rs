//! Equality of values: `==` compares two trees as [`Bencode::same`] says.

use crate::model::{entry_matches, finds, found_in, lemma_dict_same, lemma_list_same};
use crate::value::Value;
use crate::wire::bytes_equal;
use vstd::prelude::*;
use vstd::std_specs::cmp::PartialEqSpecImpl;

verus! {

impl Value {
    /// Whether this value and `other` are the same: integers by number,
    /// strings by bytes, lists item by item, maps entry by entry whatever
    /// the order of the entries.
    #[verifier::loop_isolation(false)]
    pub fn same_as(&self, other: &Value) -> (r: bool)
        ensures
            r == self@.same(other@),
        decreases self,
    {
        match self {
            Value::Int(a) => match other {
                Value::Int(b) => *a == *b,
                _ => false,
            },
            Value::Str(a) => match other {
                Value::Str(b) => bytes_equal(a.as_slice(), b.as_slice()),
                _ => false,
            },
            Value::List(a) => match other {
                Value::List(b) => {
                    let ghost ma = self@->List_0;
                    let ghost mb = other@->List_0;
                    proof {
                        lemma_list_same(ma, mb);
                    }
                    if a.len() != b.len() {
                        return false;
                    }
                    let mut i: usize = 0;
                    while i < a.len()
                        invariant
                            i <= a@.len(),
                            forall|k: int| 0 <= k < i ==> (#[trigger] ma[k]).same(mb[k]),
                        decreases a@.len() - i,
                    {
                        if !a[i].same_as(&b[i]) {
                            assert(!ma[i as int].same(mb[i as int]));
                            return false;
                        }
                        i = i + 1;
                    }
                    true
                },
                _ => false,
            },
            Value::Dict(a) => match other {
                Value::Dict(b) => {
                    let ghost ma = self@->Dict_0;
                    let ghost mb = other@->Dict_0;
                    proof {
                        lemma_dict_same(ma, mb);
                        reveal(found_in);
                        reveal(finds);
                    }
                    let mut i: usize = 0;
                    while i < a.len()
                        invariant
                            i <= a@.len(),
                            forall|k: int| 0 <= k < i ==> found_in(#[trigger] ma[k], mb),
                        decreases a@.len() - i,
                    {
                        let mut found: bool = false;
                        let mut j: usize = 0;
                        while j < b.len() && !found
                            invariant
                                j <= b@.len(),
                                found ==> found_in(ma[i as int], mb),
                                !found ==> forall|k: int|
                                    0 <= k < j ==> !entry_matches(ma[i as int], #[trigger] mb[k]),
                            decreases b@.len() - j,
                        {
                            if a[i].0.same_as(&b[j].0) && a[i].1.same_as(&b[j].1) {
                                assert(entry_matches(ma[i as int], mb[j as int]));
                                found = true;
                            }
                            j = j + 1;
                        }
                        if !found {
                            assert(!found_in(ma[i as int], mb));
                            return false;
                        }
                        i = i + 1;
                    }
                    let mut j: usize = 0;
                    while j < b.len()
                        invariant
                            j <= b@.len(),
                            forall|k: int| 0 <= k < j ==> finds(ma, #[trigger] mb[k]),
                        decreases b@.len() - j,
                    {
                        let mut found: bool = false;
                        let mut i: usize = 0;
                        while i < a.len() && !found
                            invariant
                                i <= a@.len(),
                                found ==> finds(ma, mb[j as int]),
                                !found ==> forall|k: int|
                                    0 <= k < i ==> !entry_matches(#[trigger] ma[k], mb[j as int]),
                            decreases a@.len() - i,
                        {
                            if a[i].0.same_as(&b[j].0) && a[i].1.same_as(&b[j].1) {
                                assert(entry_matches(ma[i as int], mb[j as int]));
                                found = true;
                            }
                            i = i + 1;
                        }
                        if !found {
                            assert(!finds(ma, mb[j as int]));
                            return false;
                        }
                        j = j + 1;
                    }
                    true
                },
                _ => false,
            },
        }
    }
}

impl PartialEq for Value {
    fn eq(&self, other: &Value) -> (r: bool) {
        self.same_as(other)
    }
}

impl PartialEqSpecImpl for Value {
    open spec fn obeys_eq_spec() -> bool {
        true
    }

    open spec fn eq_spec(&self, other: &Value) -> bool {
        self@.same(other@)
    }
}

impl Eq for Value {

}

} // verus!
