//! Decoding the encoding of a value gives the value back.

use crate::decimal::{
    decimal, digits, is_decimal_byte, is_digit, lemma_decimal_bytes, lemma_digits,
    lemma_parse_integer_decimal, lemma_parse_natural_digits,
};
use crate::decode::{decode_at, decode_entries, decode_items, item, lemma_decode_at, Step};
use crate::encode::{encode, encode_entries, encode_items};
use crate::equivalence::lemma_same_reflexive;
use crate::model::{
    first_match, has_key, insert_entry, lemma_dict_wf, lemma_list_wf, Bencode, Entry,
};
use crate::reader::{first_at, lemma_find_some};
use crate::wire::{COLON, DICT_TAG, END, INT_TAG, LIST_TAG};
use vstd::prelude::*;

verus! {

/// Whether `s` holds `bytes` from position `pos` on.
pub open spec fn holds_at(s: Seq<u8>, pos: int, bytes: Seq<u8>) -> bool {
    &&& 0 <= pos
    &&& pos + bytes.len() <= s.len()
    &&& s.subrange(pos, pos + bytes.len()) == bytes
}

/// Where `s` holds `bytes` from `pos` on, it holds each part of `bytes` at
/// its place.
proof fn lemma_holds_part(s: Seq<u8>, pos: int, bytes: Seq<u8>, from: int, to: int)
    requires
        holds_at(s, pos, bytes),
        0 <= from <= to <= bytes.len(),
    ensures
        holds_at(s, pos + from, bytes.subrange(from, to)),
        forall|k: int| from <= k < to ==> s[pos + k] == bytes[k],
{
    let whole = s.subrange(pos, pos + bytes.len());
    assert forall|k: int| from <= k < to implies s[pos + k] == bytes[k] by {
        assert(whole[k] == s[pos + k]);
    }
    assert(s.subrange(pos + from, pos + from + (to - from)) =~= bytes.subrange(from, to));
}

/// The encodings of the first `k` items open the encodings of the first
/// `n`, for `k` up to `n`.
pub proof fn lemma_encode_items_take(items: Seq<Bencode>, k: nat, n: nat)
    requires
        k <= n <= items.len(),
    ensures
        encode_items(items, k).len() <= encode_items(items, n).len(),
        encode_items(items, n).take(encode_items(items, k).len() as int) == encode_items(items, k),
    decreases n,
{
    if k == n {
        assert(encode_items(items, n).take(encode_items(items, n).len() as int) =~= encode_items(
            items,
            n,
        ));
    } else {
        lemma_encode_items_take(items, k, (n - 1) as nat);
        let shorter = encode_items(items, (n - 1) as nat);
        assert(encode_items(items, n) == shorter + encode(items[n - 1]));
        assert(encode_items(items, n).take(encode_items(items, k).len() as int) =~= shorter.take(
            encode_items(items, k).len() as int,
        ));
    }
}

/// The encodings of the first `k` entries open the encodings of the first
/// `n`, for `k` up to `n`.
pub proof fn lemma_encode_entries_take(entries: Seq<Entry>, k: nat, n: nat)
    requires
        k <= n <= entries.len(),
    ensures
        encode_entries(entries, k).len() <= encode_entries(entries, n).len(),
        encode_entries(entries, n).take(encode_entries(entries, k).len() as int) == encode_entries(
            entries,
            k,
        ),
    decreases n,
{
    if k == n {
        assert(encode_entries(entries, n).take(encode_entries(entries, n).len() as int)
            =~= encode_entries(entries, n));
    } else {
        lemma_encode_entries_take(entries, k, (n - 1) as nat);
        let shorter = encode_entries(entries, (n - 1) as nat);
        assert(encode_entries(entries, n) == shorter + encode(entries[n - 1].key) + encode(
            entries[n - 1].value,
        ));
        assert(encode_entries(entries, n).take(encode_entries(entries, k).len() as int)
            =~= shorter.take(encode_entries(entries, k).len() as int));
    }
}

/// Where the input holds the encoding of a valid value at some position,
/// decoding at that position gives that value and ends after the encoding.
pub proof fn lemma_decode_encode(v: Bencode, s: Seq<u8>, pos: int)
    requires
        v.wf(),
        holds_at(s, pos, encode(v)),
    ensures
        decode_at(s, pos) == item(v, pos + encode(v).len()),
    decreases v, 0nat,
{
    let code = encode(v);
    match v {
        Bencode::Int(n) => {
            let text = decimal(n);
            lemma_decimal_bytes(n);
            lemma_holds_part(s, pos, code, 0, code.len() as int);
            assert(code[0] == INT_TAG);
            let end = pos + 1 + text.len();
            assert(code[1int + text.len()] == END);
            assert forall|k: int| pos + 1 <= k < end implies s[k] != END by {
                assert(s[pos + (k - pos)] == code[k - pos]);
                assert(code[k - pos] == text[k - pos - 1]);
                assert(is_decimal_byte(text[k - pos - 1]));
            }
            assert(s[pos + (1int + text.len())] == code[1int + text.len()]);
            assert(first_at(s, pos + 1, END, end));
            lemma_find_some(s, pos + 1, END, end);
            assert(s.subrange(pos + 1, end) =~= text) by {
                assert forall|k: int| 0 <= k < text.len() implies s[pos + 1 + k] == text[k] by {
                    assert(s[pos + (1 + k)] == code[1 + k]);
                }
            }
            lemma_parse_integer_decimal(n);
        },
        Bencode::Str(bytes) => {
            let count = digits(bytes.len());
            lemma_digits(bytes.len());
            lemma_holds_part(s, pos, code, 0, code.len() as int);
            assert(code[0] == count[0]);
            assert(s[pos + 0] == code[0]);
            let end = pos + count.len();
            assert(code[count.len() as int] == COLON);
            assert(s[pos + count.len()] == code[count.len() as int]);
            assert forall|k: int| pos + 1 <= k < end implies s[k] != COLON by {
                assert(s[pos + (k - pos)] == code[k - pos]);
                assert(code[k - pos] == count[k - pos]);
                assert(is_digit(count[k - pos]));
            }
            assert(first_at(s, pos + 1, COLON, end));
            lemma_find_some(s, pos + 1, COLON, end);
            if bytes.len() == 0 {
                assert(bytes =~= Seq::<u8>::empty());
            } else {
                assert(s.subrange(pos, end) =~= count) by {
                    assert forall|k: int| 0 <= k < count.len() implies s[pos + k] == count[k] by {
                        assert(s[pos + k] == code[k]);
                    }
                }
                lemma_parse_natural_digits(bytes.len(), usize::MAX as nat);
                assert(s.subrange(end + 1, end + 1 + bytes.len()) =~= bytes) by {
                    assert forall|k: int| 0 <= k < bytes.len() implies s[end + 1 + k]
                        == bytes[k] by {
                        assert(s[pos + (count.len() + 1 + k)] == code[count.len() + 1 + k]);
                    }
                }
            }
        },
        Bencode::List(items) => {
            let inner = encode_items(items, items.len());
            lemma_holds_part(s, pos, code, 1, 1int + inner.len());
            lemma_holds_part(s, pos, code, 0, code.len() as int);
            assert(code.subrange(1, 1int + inner.len()) =~= inner);
            assert(code[0] == LIST_TAG);
            assert(s[pos + 0] == code[0]);
            assert(code[1int + inner.len()] == END);
            assert(s[pos + (1int + inner.len())] == code[1int + inner.len()]);
            lemma_decode_items_encoded(items, 0, s, pos + 1);
            assert(items.take(0) =~= Seq::<Bencode>::empty());
        },
        Bencode::Dict(entries) => {
            let inner = encode_entries(entries, entries.len());
            lemma_holds_part(s, pos, code, 1, 1int + inner.len());
            lemma_holds_part(s, pos, code, 0, code.len() as int);
            assert(code.subrange(1, 1int + inner.len()) =~= inner);
            assert(code[0] == DICT_TAG);
            assert(s[pos + 0] == code[0]);
            assert(code[1int + inner.len()] == END);
            assert(s[pos + (1int + inner.len())] == code[1int + inner.len()]);
            lemma_decode_entries_encoded(entries, 0, s, pos + 1);
            assert(entries.take(0) =~= Seq::<Entry>::empty());
        },
    }
}

/// Where the input holds the encodings of the items of a valid list from
/// `base` on, followed by the closing byte, decoding the rest of the list
/// after the first `k` items, with those items at hand, gives the list.
pub proof fn lemma_decode_items_encoded(items: Seq<Bencode>, k: nat, s: Seq<u8>, base: int)
    requires
        Bencode::List(items).wf(),
        k <= items.len(),
        holds_at(s, base, encode_items(items, items.len())),
        base + encode_items(items, items.len()).len() < s.len(),
        s[base + encode_items(items, items.len()).len()] == END,
    ensures
        decode_items(s, base + encode_items(items, k).len(), items.take(k as int)) == item(
            Bencode::List(items),
            base + encode_items(items, items.len()).len() + 1,
        ),
    decreases items, items.len() - k,
{
    let all = encode_items(items, items.len());
    lemma_encode_items_take(items, k, items.len());
    let at = base + encode_items(items, k).len();
    if k == items.len() {
        assert(items.take(k as int) =~= items);
    } else {
        let next = (k + 1) as nat;
        lemma_encode_items_take(items, next, items.len());
        let code = encode(items[k as int]);
        assert(encode_items(items, next) == encode_items(items, k) + code);
        let upto = encode_items(items, next).len() as int;
        lemma_holds_part(s, base, all, encode_items(items, k).len() as int, upto);
        assert(all.subrange(encode_items(items, k).len() as int, upto) =~= code) by {
            assert(all.take(upto) == encode_items(items, next));
            assert forall|t: int| 0 <= t < code.len() implies all[encode_items(items, k).len() + t]
                == code[t] by {
                assert(all.take(upto)[encode_items(items, k).len() + t] == all[encode_items(
                    items,
                    k,
                ).len() + t]);
            }
        }
        lemma_list_wf(items);
        assert(items[k as int].wf());
        lemma_decode_encode(items[k as int], s, at);
        lemma_decode_at(s, at);
        assert(items.take(k as int).push(items[k as int]) =~= items.take(next as int));
        lemma_decode_items_encoded(items, next, s, base);
    }
}

/// The same for the entries of a valid map.
pub proof fn lemma_decode_entries_encoded(entries: Seq<Entry>, k: nat, s: Seq<u8>, base: int)
    requires
        Bencode::Dict(entries).wf(),
        k <= entries.len(),
        holds_at(s, base, encode_entries(entries, entries.len())),
        base + encode_entries(entries, entries.len()).len() < s.len(),
        s[base + encode_entries(entries, entries.len()).len()] == END,
    ensures
        decode_entries(s, base + encode_entries(entries, k).len(), entries.take(k as int)) == item(
            Bencode::Dict(entries),
            base + encode_entries(entries, entries.len()).len() + 1,
        ),
    decreases entries, entries.len() - k,
{
    let all = encode_entries(entries, entries.len());
    lemma_encode_entries_take(entries, k, entries.len());
    let done = encode_entries(entries, k).len() as int;
    let at = base + done;
    if k == entries.len() {
        assert(entries.take(k as int) =~= entries);
    } else {
        let next = (k + 1) as nat;
        lemma_encode_entries_take(entries, next, entries.len());
        let entry = entries[k as int];
        let key_code = encode(entry.key);
        let value_code = encode(entry.value);
        assert(encode_entries(entries, next) == encode_entries(entries, k) + key_code
            + value_code);
        let upto = encode_entries(entries, next).len() as int;
        let mid = done + key_code.len();
        assert(all.take(upto) == encode_entries(entries, next));
        lemma_holds_part(s, base, all, done, mid);
        assert(all.subrange(done, mid) =~= key_code) by {
            assert forall|t: int| 0 <= t < key_code.len() implies all[done + t] == key_code[t] by {
                assert(all.take(upto)[done + t] == all[done + t]);
            }
        }
        lemma_holds_part(s, base, all, mid, upto);
        assert(all.subrange(mid, upto) =~= value_code) by {
            assert forall|t: int| 0 <= t < value_code.len() implies all[mid + t]
                == value_code[t] by {
                assert(all.take(upto)[mid + t] == all[mid + t]);
            }
        }
        lemma_dict_wf(entries);
        assert(entry.key.wf() && entry.value.wf());
        lemma_decode_encode(entry.key, s, at);
        lemma_decode_at(s, at);
        lemma_decode_encode(entry.value, s, base + mid);
        lemma_decode_at(s, base + mid);
        let sofar = entries.take(k as int);
        assert(!has_key(sofar, entry.key)) by {
            if has_key(sofar, entry.key) {
                let i = choose|i: int| first_match(sofar, entry.key, i);
                assert(sofar[i] == entries[i]);
                assert(!entries[i].key.same(entries[k as int].key));
            }
        }
        assert(insert_entry(sofar, entry.key, entry.value) =~= entries.take(next as int));
        lemma_decode_entries_encoded(entries, next, s, base);
    }
}

/// Decoding the encoding of a valid value gives the value and ends with
/// the encoding; in particular it gives a value that is the same.
pub proof fn lemma_roundtrip(v: Bencode)
    requires
        v.wf(),
    ensures
        decode_at(encode(v), 0) == item(v, encode(v).len() as int),
        decode_at(encode(v), 0).step matches Step::Item(back) && back.same(v),
{
    let code = encode(v);
    assert(code.subrange(0, code.len() as int) =~= code);
    lemma_decode_encode(v, code, 0);
    lemma_same_reflexive(v);
}

/// Decoding the encoding of a 32-bit integer gives the integer.
pub proof fn lemma_roundtrip_integer(n: int)
    requires
        i32::MIN <= n <= i32::MAX,
    ensures
        decode_at(encode(Bencode::Int(n)), 0).step == Step::Item(Bencode::Int(n)),
{
    lemma_roundtrip(Bencode::Int(n));
}

/// Decoding the encoding of a string gives the string, whatever its bytes.
pub proof fn lemma_roundtrip_string(bytes: Seq<u8>)
    requires
        bytes.len() <= usize::MAX,
    ensures
        decode_at(encode(Bencode::Str(bytes)), 0).step == Step::Item(Bencode::Str(bytes)),
{
    lemma_roundtrip(Bencode::Str(bytes));
}

} // verus!
