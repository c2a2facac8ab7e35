//! A short string stored inline in a fixed buffer of bytes.
use vstd::prelude::*;
use vstd::string::StringSliceAdditionalSpecFns;
use vstd::utf8::{decode_utf8, valid_utf8};

verus! {

/// Number of bytes a `TinyString` can hold.
pub const TINY_STRING_CAPACITY: usize = 15;

/// The bytes that a `TinyString` keeps of `b`: its first `TINY_STRING_CAPACITY` bytes.
pub open spec fn truncated(b: Seq<u8>) -> Seq<u8> {
    if b.len() <= TINY_STRING_CAPACITY {
        b
    } else {
        b.take(TINY_STRING_CAPACITY as int)
    }
}

/// A string of at most `TINY_STRING_CAPACITY` bytes, stored inline. Longer input is cut.
#[derive(Clone, Copy)]
pub struct TinyString {
    pub cursor: usize,
    pub buffer: [u8; 15],
}

impl TinyString {
    /// The cursor lies within the buffer.
    pub open spec fn wf(&self) -> bool {
        self.cursor <= TINY_STRING_CAPACITY
    }

    /// The bytes of the string.
    pub open spec fn bytes(&self) -> Seq<u8> {
        self.buffer@.take(self.cursor as int)
    }

    /// An empty string; the unused buffer is filled with `0xFF`.
    pub fn new() -> (ts: TinyString)
        ensures
            ts.wf(),
            ts.cursor == 0,
            ts.bytes() == Seq::<u8>::empty(),
            forall|k: int| 0 <= k < TINY_STRING_CAPACITY ==> #[trigger] ts.buffer@[k] == 0xFFu8,
    {
        let ts = TinyString { buffer: [0xFFu8; 15], cursor: 0 };
        assert(ts.bytes() =~= Seq::<u8>::empty());
        ts
    }

    /// Number of bytes held.
    pub fn len(&self) -> (n: usize)
        ensures
            n == self.cursor,
    {
        self.cursor
    }

    /// Replaces the content by the bytes of `s`, cut to `TINY_STRING_CAPACITY` bytes. The
    /// buffer behind the new content keeps its bytes.
    pub fn copystr(&mut self, s: &str)
        ensures
            final(self).wf(),
            final(self).bytes() == truncated(s.spec_bytes()),
            forall|k: int|
                final(self).cursor <= k < TINY_STRING_CAPACITY ==> #[trigger] final(self).buffer@[k]
                    == old(self).buffer@[k],
    {
        let bytes = s.as_bytes();
        self.cursor = 0;
        let mut i: usize = 0;
        while i < bytes.len()
            invariant
                i <= bytes@.len(),
                bytes@ == s.spec_bytes(),
                i <= TINY_STRING_CAPACITY,
                self.cursor == i,
                forall|k: int| 0 <= k < i ==> #[trigger] self.buffer@[k] == bytes@[k],
                forall|k: int| i <= k < TINY_STRING_CAPACITY ==> #[trigger] self.buffer@[k] == old(
                    self,
                ).buffer@[k],
            ensures
                i == bytes@.len() || i == TINY_STRING_CAPACITY,
                self.cursor == i,
                i <= bytes@.len(),
                i <= TINY_STRING_CAPACITY,
                forall|k: int| 0 <= k < i ==> #[trigger] self.buffer@[k] == bytes@[k],
                forall|k: int| i <= k < TINY_STRING_CAPACITY ==> #[trigger] self.buffer@[k] == old(
                    self,
                ).buffer@[k],
            decreases bytes.len() - i,
        {
            if i >= TINY_STRING_CAPACITY {
                break;
            }
            self.buffer[i] = bytes[i];
            self.cursor = self.cursor + 1;
            i = i + 1;
        }
        assert(self.bytes() =~= truncated(s.spec_bytes()));
    }

    /// A `TinyString` holding the bytes of `string`, cut to `TINY_STRING_CAPACITY` bytes.
    pub fn fromstr(string: &str) -> (ts: TinyString)
        ensures
            ts.wf(),
            ts.bytes() == truncated(string.spec_bytes()),
            forall|k: int| ts.cursor <= k < TINY_STRING_CAPACITY ==> #[trigger] ts.buffer@[k] == 0xFFu8,
    {
        let mut ts = TinyString::new();
        ts.copystr(string);
        ts
    }

    /// Copies the content of `s` into `self`; the buffer behind it keeps its bytes.
    pub fn copy(&mut self, s: &TinyString)
        requires
            s.wf(),
        ensures
            final(self).wf(),
            final(self).cursor == s.cursor,
            final(self).bytes() == s.bytes(),
            forall|k: int|
                s.cursor <= k < TINY_STRING_CAPACITY ==> #[trigger] final(self).buffer@[k] == old(
                    self,
                ).buffer@[k],
    {
        let mut i: usize = 0;
        while i < s.len()
            invariant
                s.wf(),
                i <= s.cursor,
                forall|k: int| 0 <= k < i ==> #[trigger] self.buffer@[k] == s.buffer@[k],
                forall|k: int| i <= k < TINY_STRING_CAPACITY ==> #[trigger] self.buffer@[k] == old(
                    self,
                ).buffer@[k],
            decreases s.cursor - i,
        {
            self.buffer[i] = s.buffer[i];
            i = i + 1;
        }
        self.cursor = s.len();
        assert(self.bytes() =~= s.bytes());
    }

    /// Whether the content equals the bytes of `s`.
    pub fn is_samestr(&self, s: &str) -> (r: bool)
        requires
            self.wf() || self.cursor != s.spec_bytes().len(),
        ensures
            r == (self.cursor == s.spec_bytes().len() && self.bytes() == s.spec_bytes()),
    {
        let bytes = s.as_bytes();
        if self.len() != bytes.len() {
            return false;
        }
        let mut i: usize = 0;
        while i < self.len()
            invariant
                self.wf(),
                bytes@ == s.spec_bytes(),
                self.cursor == bytes@.len(),
                i <= self.cursor,
                forall|k: int| 0 <= k < i ==> self.buffer@[k] == bytes@[k],
            decreases self.cursor - i,
        {
            if self.buffer[i] != bytes[i] {
                assert(self.bytes()[i as int] != s.spec_bytes()[i as int]);
                return false;
            }
            i = i + 1;
        }
        assert(self.bytes() =~= s.spec_bytes());
        true
    }

    /// Whether both hold the same bytes.
    pub fn is_same(&self, s: &TinyString) -> (r: bool)
        requires
            self.wf() || self.cursor != s.cursor,
        ensures
            r == (self.cursor == s.cursor && self.bytes() == s.bytes()),
    {
        if self.len() != s.len() {
            return false;
        }
        let mut i: usize = 0;
        while i < self.len()
            invariant
                self.wf(),
                s.wf(),
                self.cursor == s.cursor,
                i <= self.cursor,
                forall|k: int| 0 <= k < i ==> self.buffer@[k] == s.buffer@[k],
            decreases self.cursor - i,
        {
            if self.buffer[i] != s.buffer[i] {
                assert(self.bytes()[i as int] != s.bytes()[i as int]);
                return false;
            }
            i = i + 1;
        }
        assert(self.bytes() =~= s.bytes());
        true
    }
}

impl TinyString {
    /// The content as text, or `?Error?` where its bytes are not valid UTF-8.
    pub fn as_ref(&self) -> (s: String)
        requires
            self.wf(),
        ensures
            valid_utf8(self.bytes()) ==> s@ == decode_utf8(self.bytes()),
            !valid_utf8(self.bytes()) ==> s@ == "?Error?"@,
    {
        let mut v: Vec<u8> = Vec::new();
        let mut i: usize = 0;
        while i < self.cursor
            invariant
                self.wf(),
                i <= self.cursor,
                v@ == self.bytes().take(i as int),
            decreases self.cursor - i,
        {
            v.push(self.buffer[i]);
            assert(self.bytes().take(i + 1) =~= self.bytes().take(i as int).push(self.buffer@[i as int]));
            i = i + 1;
        }
        assert(self.bytes().take(i as int) =~= self.bytes());
        match text_of_utf8(v) {
            Some(t) => t,
            None => String::from_str("?Error?"),
        }
    }
}

/// The text that `bytes` encode, by `String::from_utf8`: `Some` exactly where the bytes are
/// valid UTF-8, and then the characters they decode to.
#[verifier::external_body]
fn text_of_utf8(bytes: Vec<u8>) -> (r: Option<String>)
    ensures
        r is Some <==> valid_utf8(bytes@),
        r matches Some(s) ==> s@ == decode_utf8(bytes@),
{
    String::from_utf8(bytes).ok()
}

/// A `TinyString` made from a string compares the same as that string exactly when the
/// string has at most `TINY_STRING_CAPACITY` bytes (`fromstr(s).is_samestr(s)`).
pub proof fn lemma_truncated_same_iff_short(b: Seq<u8>)
    ensures
        (truncated(b) == b) <==> b.len() <= TINY_STRING_CAPACITY,
{
    if b.len() > TINY_STRING_CAPACITY {
        assert(truncated(b).len() != b.len());
    }
}

} // verus!
