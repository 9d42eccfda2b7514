//! The bytes that the wire format gives a meaning to, and two small
//! operations on byte buffers.

use vstd::prelude::*;

verus! {

/// ASCII `'i'`: the lead byte of an integer.
pub const INT_TAG: u8 = 105;

/// ASCII `'l'`: the lead byte of a list.
pub const LIST_TAG: u8 = 108;

/// ASCII `'d'`: the lead byte of a map.
pub const DICT_TAG: u8 = 100;

/// ASCII `'e'`: closes an integer, a list or a map.
pub const END: u8 = 101;

/// ASCII `':'`: stands between the length of a string and its bytes.
pub const COLON: u8 = 58;

/// ASCII `' '`.
pub const SPACE: u8 = 32;

/// ASCII `','`.
pub const COMMA: u8 = 44;

/// ASCII `'['`.
pub const OPEN_BRACKET: u8 = 91;

/// ASCII `']'`.
pub const CLOSE_BRACKET: u8 = 93;

/// ASCII `'{'`.
pub const OPEN_BRACE: u8 = 123;

/// ASCII `'}'`.
pub const CLOSE_BRACE: u8 = 125;

/// Appends `bytes` to `out`.
pub fn append_bytes(out: &mut Vec<u8>, bytes: &[u8])
    ensures
        final(out)@ == old(out)@ + bytes@,
{
    let mut i: usize = 0;
    while i < bytes.len()
        invariant
            i <= bytes@.len(),
            out@ == old(out)@ + bytes@.take(i as int),
        decreases bytes@.len() - i,
    {
        out.push(bytes[i]);
        assert(bytes@.take(i + 1) == bytes@.take(i as int).push(bytes@[i as int]));
        i = i + 1;
    }
    assert(bytes@.take(bytes@.len() as int) == bytes@);
}

/// Whether two byte strings hold the same bytes.
pub fn bytes_equal(a: &[u8], b: &[u8]) -> (r: bool)
    ensures
        r == (a@ == b@),
{
    if a.len() != b.len() {
        return false;
    }
    let mut i: usize = 0;
    while i < a.len()
        invariant
            i <= a@.len(),
            a@.len() == b@.len(),
            a@.take(i as int) == b@.take(i as int),
        decreases a@.len() - i,
    {
        if a[i] != b[i] {
            return false;
        }
        assert(a@.take(i + 1) == a@.take(i as int).push(a@[i as int]));
        assert(b@.take(i + 1) == b@.take(i as int).push(b@[i as int]));
        i = i + 1;
    }
    assert(a@.take(a@.len() as int) == a@);
    assert(b@.take(b@.len() as int) == b@);
    true
}

} // verus!
