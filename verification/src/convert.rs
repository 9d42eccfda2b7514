//! Conversions between values and the strings and pairs of a caller.

use crate::dict::{insert_all, store};
use crate::error::{expected_map_text, expected_text_text, BencodeError};
use crate::model::{lemma_dict_wf, lemma_insert_entry_wf, Bencode, Entry};
use crate::render::render;
use crate::text::to_text;
use crate::value::{entry_models, lemma_view_dict, Value};
use vstd::prelude::*;
use vstd::slice::slice_to_vec;
use vstd::std_specs::convert::FromSpecImpl;
use vstd::string::StringSliceAdditionalSpecFns;
use vstd::utf8::{decode_utf8, valid_utf8};

verus! {

/// The string value that holds the bytes of `text`.
pub open spec fn text_value(text: &str) -> Bencode {
    Bencode::Str(text.spec_bytes())
}

/// The entries that hold `pairs` as string values, one for one.
pub open spec fn text_entries(pairs: Seq<(&str, &str)>) -> Seq<Entry> {
    Seq::new(
        pairs.len(),
        |i: int| Entry { key: text_value(pairs[i].0), value: text_value(pairs[i].1) },
    )
}

impl Value {
    /// The string value that holds the bytes of `text`.
    pub fn from_text(text: &str) -> (v: Value)
        ensures
            v@ == text_value(text),
            v@.wf(),
    {
        let bytes = slice_to_vec(text.as_bytes());
        assert(bytes@.len() == bytes.len());
        Value::Str(bytes)
    }

    /// The map that holds `pairs` as string values, stored one after the
    /// other: of two pairs with the same key the last gives the value.
    pub fn from_text_pairs(pairs: Vec<(&str, &str)>) -> (map: Value)
        ensures
            map@ == Bencode::Dict(insert_all(Seq::empty(), text_entries(pairs@), pairs@.len())),
            map@.wf(),
    {
        let ghost given = text_entries(pairs@);
        let mut entries: Vec<(Value, Value)> = Vec::new();
        proof {
            assert(entry_models(entries@) =~= Seq::<Entry>::empty());
            lemma_dict_wf(entry_models(entries@));
        }
        let mut i: usize = 0;
        while i < pairs.len()
            invariant
                i <= pairs@.len(),
                given == text_entries(pairs@),
                entry_models(entries@) == insert_all(Seq::empty(), given, i as nat),
                Bencode::Dict(entry_models(entries@)).wf(),
            decreases pairs@.len() - i,
        {
            let key = Value::from_text(pairs[i].0);
            let value = Value::from_text(pairs[i].1);
            proof {
                lemma_insert_entry_wf(entry_models(entries@), key@, value@);
            }
            store(&mut entries, key, value);
            i = i + 1;
        }
        proof {
            lemma_view_dict(entries);
        }
        Value::Dict(entries)
    }
}

impl From<&str> for Value {
    fn from(text: &str) -> (v: Value)
        ensures
            v@ == text_value(text),
    {
        Value::from_text(text)
    }
}

impl FromSpecImpl<&str> for Value {
    open spec fn obeys_from_spec() -> bool {
        false
    }

    open spec fn from_spec(text: &str) -> Value {
        arbitrary()
    }
}

impl<'a> From<Vec<(&'a str, &'a str)>> for Value {
    fn from(pairs: Vec<(&'a str, &'a str)>) -> (map: Value)
        ensures
            map@ == Bencode::Dict(insert_all(Seq::empty(), text_entries(pairs@), pairs@.len())),
            map@.wf(),
    {
        Value::from_text_pairs(pairs)
    }
}

impl<'a> FromSpecImpl<Vec<(&'a str, &'a str)>> for Value {
    open spec fn obeys_from_spec() -> bool {
        false
    }

    open spec fn from_spec(pairs: Vec<(&'a str, &'a str)>) -> Value {
        arbitrary()
    }
}

impl From<Vec<(Value, Value)>> for Value {
    fn from(pairs: Vec<(Value, Value)>) -> (map: Value)
        ensures
            map@ == Bencode::Dict(insert_all(Seq::empty(), entry_models(pairs@), pairs@.len())),
    {
        Value::dict_from(pairs)
    }
}

impl FromSpecImpl<Vec<(Value, Value)>> for Value {
    open spec fn obeys_from_spec() -> bool {
        false
    }

    open spec fn from_spec(pairs: Vec<(Value, Value)>) -> Value {
        arbitrary()
    }
}

/// One entry of a map of texts.
pub struct TextPair {
    /// The key.
    pub key: Seq<char>,
    /// The text stored under the key.
    pub value: Seq<char>,
}

/// The texts of a list of pairs of strings, one for one.
pub open spec fn text_pairs(pairs: Seq<(String, String)>) -> Seq<TextPair> {
    Seq::new(pairs.len(), |i: int| TextPair { key: pairs[i].0@, value: pairs[i].1@ })
}

/// Whether the rendering of `v` is valid UTF-8, and so a text.
pub open spec fn is_text(v: Bencode) -> bool {
    valid_utf8(render(v))
}

/// The rendering of `v` as the text that its bytes encode.
pub open spec fn as_text(v: Bencode) -> Seq<char> {
    decode_utf8(render(v))
}

/// Whether the renderings of all keys and values of `entries` are texts.
pub open spec fn all_text(entries: Seq<Entry>) -> bool {
    forall|i: int|
        #![trigger entries[i]]
        0 <= i < entries.len() ==> is_text(entries[i].key) && is_text(entries[i].value)
}

/// Whether `i` is the first of `pairs` with the key `key`.
pub open spec fn first_with_key(pairs: Seq<TextPair>, key: Seq<char>, i: int) -> bool {
    &&& 0 <= i < pairs.len()
    &&& pairs[i].key == key
    &&& forall|j: int| 0 <= j < i ==> (#[trigger] pairs[j]).key != key
}

/// The pairs after `value` was stored under `key`: the first pair with that
/// key takes the new value; where there is none, a new pair is added at the
/// end.
pub open spec fn put(pairs: Seq<TextPair>, key: Seq<char>, value: Seq<char>) -> Seq<TextPair> {
    if exists|i: int| first_with_key(pairs, key, i) {
        let i = choose|i: int| first_with_key(pairs, key, i);
        pairs.update(i, TextPair { key, value })
    } else {
        pairs.push(TextPair { key, value })
    }
}

/// The map of texts that holds the first `n` of `entries`, each as the text
/// of its key and the text of its value, stored one after the other.
pub open spec fn text_map(entries: Seq<Entry>, n: nat) -> Seq<TextPair>
    decreases n,
{
    if 0 < n <= entries.len() {
        put(
            text_map(entries, (n - 1) as nat),
            as_text(entries[n - 1].key),
            as_text(entries[n - 1].value),
        )
    } else {
        Seq::empty()
    }
}

/// Stores `value` under `key` in a map of texts.
pub fn put_text(pairs: &mut Vec<(String, String)>, key: String, value: String)
    ensures
        text_pairs(final(pairs)@) == put(text_pairs(old(pairs)@), key@, value@),
{
    let ghost before = text_pairs(pairs@);
    let mut found: Option<usize> = None;
    let mut i: usize = 0;
    while i < pairs.len() && found.is_none()
        invariant
            i <= pairs@.len(),
            before == text_pairs(pairs@),
            match found {
                Some(at) => first_with_key(before, key@, at as int),
                None => forall|j: int| 0 <= j < i ==> (#[trigger] before[j]).key != key@,
            },
        decreases pairs@.len() - i,
    {
        assert(before[i as int].key == pairs@[i as int].0@);
        if pairs[i].0 == key {
            found = Some(i);
        }
        i = i + 1;
    }
    match found {
        Some(at) => {
            proof {
                let chosen = choose|k: int| first_with_key(before, key@, k);
                if chosen < at {
                    assert(before[chosen].key != key@);
                } else if at < chosen {
                    assert(before[at as int].key != key@);
                }
            }
            let _ = pairs.remove(at);
            pairs.insert(at, (key, value));
            assert(text_pairs(pairs@) =~= before.update(
                at as int,
                TextPair { key: key@, value: value@ },
            ));
        },
        None => {
            proof {
                if exists|k: int| first_with_key(before, key@, k) {
                    let k = choose|k: int| first_with_key(before, key@, k);
                    assert(before[k].key != key@);
                }
            }
            pairs.push((key, value));
            assert(text_pairs(pairs@) =~= before.push(TextPair { key: key@, value: value@ }));
        },
    }
}

impl Value {
    /// Turns a map into a map of texts: each key and each value becomes its
    /// rendering. Fails where this value is no map, and where the rendering
    /// of a key or of a value is no valid UTF-8.
    #[verifier::loop_isolation(false)]
    pub fn try_into_text_map(self) -> (r: Result<Vec<(String, String)>, BencodeError>)
        ensures
            match r {
                Ok(pairs) => self@ matches Bencode::Dict(entries) && all_text(entries)
                    && text_pairs(pairs@) == text_map(entries, entries.len()),
                Err(e) => e matches BencodeError::Error(text) && if self@ is Dict {
                    !all_text(self@->Dict_0) && text@ == expected_text_text()
                } else {
                    text@ == expected_map_text()
                },
            },
    {
        match self {
            Value::Dict(entries) => {
                let ghost model = entry_models(entries@);
                proof {
                    lemma_view_dict(entries);
                }
                let mut pairs: Vec<(String, String)> = Vec::new();
                assert(text_pairs(pairs@) =~= Seq::<TextPair>::empty());
                let mut i: usize = 0;
                while i < entries.len()
                    invariant
                        i <= entries@.len(),
                        model == entry_models(entries@),
                        text_pairs(pairs@) == text_map(model, i as nat),
                        forall|k: int|
                            #![trigger model[k]]
                            0 <= k < i ==> is_text(model[k].key) && is_text(model[k].value),
                    decreases entries@.len() - i,
                {
                    assert(model[i as int].key == entries@[i as int].0@);
                    assert(model[i as int].value == entries@[i as int].1@);
                    let key = match to_text(entries[i].0.render_bytes()) {
                        Some(text) => text,
                        None => {
                            return Err(BencodeError::expected_text());
                        },
                    };
                    let value = match to_text(entries[i].1.render_bytes()) {
                        Some(text) => text,
                        None => {
                            return Err(BencodeError::expected_text());
                        },
                    };
                    put_text(&mut pairs, key, value);
                    i = i + 1;
                }
                Ok(pairs)
            },
            _ => Err(BencodeError::expected_map()),
        }
    }
}

} // verus!
