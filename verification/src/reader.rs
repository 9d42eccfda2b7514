//! A cursor over a byte string: the stream that the decoder reads from.

use vstd::prelude::*;

verus! {

/// Whether `at` is the first position from `from` on at which `s` holds `b`.
pub open spec fn first_at(s: Seq<u8>, from: int, b: u8, at: int) -> bool {
    &&& 0 <= from <= at < s.len()
    &&& s[at] == b
    &&& forall|k: int| from <= k < at ==> s[k] != b
}

/// The first position from `from` on at which `s` holds `b`, if there is one.
pub open spec fn find(s: Seq<u8>, from: int, b: u8) -> Option<int> {
    if exists|at: int| first_at(s, from, b, at) {
        Some(choose|at: int| first_at(s, from, b, at))
    } else {
        None
    }
}

/// Where `s` holds `b` first at `at`, counted from `from`, `find` gives `at`.
pub proof fn lemma_find_some(s: Seq<u8>, from: int, b: u8, at: int)
    requires
        first_at(s, from, b, at),
    ensures
        find(s, from, b) == Some(at),
{
    let other = choose|at: int| first_at(s, from, b, at);
    if other < at {
        assert(s[other] != b);
    } else if at < other {
        assert(s[at] != b);
    }
}

/// Where `s` does not hold `b` from `from` on, `find` gives nothing.
pub proof fn lemma_find_none(s: Seq<u8>, from: int, b: u8)
    requires
        forall|k: int| from <= k < s.len() ==> s[k] != b,
    ensures
        find(s, from, b) is None,
{
    if exists|at: int| first_at(s, from, b, at) {
        let at = choose|at: int| first_at(s, from, b, at);
        assert(s[at] != b);
    }
}

/// What `find` gives is the first position that holds the byte; where it
/// gives nothing, no position from `from` on holds it.
pub proof fn lemma_find(s: Seq<u8>, from: int, b: u8)
    requires
        0 <= from,
    ensures
        match find(s, from, b) {
            Some(at) => first_at(s, from, b, at),
            None => forall|k: int| from <= k < s.len() ==> s[k] != b,
        },
    decreases s.len() - from,
{
    if find(s, from, b) is None {
        assert forall|k: int| from <= k < s.len() implies s[k] != b by {
            if s[k] == b {
                lemma_first_exists(s, from, b, k);
            }
        }
    }
}

/// Where some position from `from` on holds the byte, some position is the
/// first to hold it.
pub proof fn lemma_first_exists(s: Seq<u8>, from: int, b: u8, k: int)
    requires
        0 <= from <= k < s.len(),
        s[k] == b,
    ensures
        exists|at: int| first_at(s, from, b, at),
    decreases k - from,
{
    if forall|j: int| from <= j < k ==> s[j] != b {
        assert(first_at(s, from, b, k));
    } else {
        let j = choose|j: int| from <= j < k && s[j] == b;
        lemma_first_exists(s, from, b, j);
    }
}

/// A byte string and a position in it. Reading moves the position forward
/// and never changes the bytes.
pub struct ByteReader<'a> {
    data: &'a [u8],
    pos: usize,
}

impl<'a> ByteReader<'a> {
    #[verifier::type_invariant]
    spec fn in_bounds(self) -> bool {
        self.pos <= self.data@.len()
    }

    /// All the bytes of the stream, read or not.
    pub closed spec fn input(&self) -> Seq<u8> {
        self.data@
    }

    /// How many bytes have been read.
    pub closed spec fn offset(&self) -> int {
        self.pos as int
    }

    /// A reader at the start of `data`.
    pub fn new(data: &'a [u8]) -> (reader: Self)
        ensures
            reader.input() == data@,
            reader.offset() == 0,
    {
        ByteReader { data, pos: 0 }
    }

    /// All the bytes of the stream.
    pub fn data(&self) -> (data: &'a [u8])
        ensures
            data@ == self.input(),
    {
        self.data
    }

    /// How many bytes have been read.
    pub fn position(&self) -> (pos: usize)
        ensures
            pos == self.offset(),
            pos <= self.input().len(),
    {
        proof {
            use_type_invariant(self);
        }
        self.pos
    }

    /// How many bytes are left to read.
    pub fn remaining(&self) -> (n: usize)
        ensures
            n == self.input().len() - self.offset(),
    {
        proof {
            use_type_invariant(self);
        }
        self.data.len() - self.pos
    }

    /// Reads one byte, if one is left.
    pub fn next_byte(&mut self) -> (byte: Option<u8>)
        ensures
            final(self).input() == old(self).input(),
            old(self).offset() < old(self).input().len() ==> byte == Some(
                old(self).input()[old(self).offset()],
            ) && final(self).offset() == old(self).offset() + 1,
            old(self).offset() >= old(self).input().len() ==> byte is None && final(self).offset()
                == old(self).offset(),
    {
        proof {
            use_type_invariant(&*self);
        }
        if self.pos < self.data.len() {
            let b: u8 = self.data[self.pos];
            self.pos = self.pos + 1;
            Some(b)
        } else {
            None
        }
    }

    /// Reads up to and including the next `delim` and returns where it
    /// stands. Where no `delim` is left, reads to the end and returns nothing.
    pub fn skip_past(&mut self, delim: u8) -> (found: Option<usize>)
        ensures
            final(self).input() == old(self).input(),
            match found {
                Some(at) => find(old(self).input(), old(self).offset(), delim) == Some(at as int)
                    && final(self).offset() == at + 1,
                None => find(old(self).input(), old(self).offset(), delim) is None
                    && final(self).offset() == old(self).input().len(),
            },
    {
        proof {
            use_type_invariant(&*self);
        }
        let start: usize = self.pos;
        let mut i: usize = self.pos;
        while i < self.data.len()
            invariant
                start <= i <= self.data@.len(),
                self.pos == start,
                old(self).pos == start,
                self.data == old(self).data,
                forall|k: int| start <= k < i ==> self.data@[k] != delim,
            decreases self.data@.len() - i,
        {
            if self.data[i] == delim {
                proof {
                    assert(first_at(self.data@, start as int, delim, i as int));
                    lemma_find_some(self.data@, start as int, delim, i as int);
                }
                self.pos = i + 1;
                return Some(i);
            }
            i = i + 1;
        }
        proof {
            lemma_find_none(self.data@, start as int, delim);
        }
        self.pos = self.data.len();
        None
    }

    /// Reads exactly `n` bytes. Where fewer are left, reads to the end and
    /// returns nothing.
    pub fn read_exact(&mut self, n: usize) -> (bytes: Option<Vec<u8>>)
        ensures
            final(self).input() == old(self).input(),
            match bytes {
                Some(b) => n <= old(self).input().len() - old(self).offset() && b@ == old(
                    self,
                ).input().subrange(old(self).offset(), old(self).offset() + n)
                    && final(self).offset() == old(self).offset() + n,
                None => n > old(self).input().len() - old(self).offset() && final(self).offset()
                    == old(self).input().len(),
            },
    {
        proof {
            use_type_invariant(&*self);
        }
        if n > self.data.len() - self.pos {
            self.pos = self.data.len();
            return None;
        }
        let start: usize = self.pos;
        let mut out: Vec<u8> = Vec::new();
        let mut i: usize = 0;
        while i < n
            invariant
                i <= n,
                start + n <= self.data@.len(),
                self.pos == start,
                self.data == old(self).data,
                out@ == self.data@.subrange(start as int, start + i),
            decreases n - i,
        {
            out.push(self.data[start + i]);
            assert(self.data@.subrange(start as int, start + i + 1) == self.data@.subrange(
                start as int,
                start + i,
            ).push(self.data@[start + i]));
            i = i + 1;
        }
        self.pos = start + n;
        Some(out)
    }
}

} // verus!
