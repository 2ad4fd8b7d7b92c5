//! Owned, contiguous string storage addressed by [`Span`]s. A boundary
//! type owns one [`StrBuf`] and refers into it with spans; buffers recycle
//! via [`StrBuf::clear`], which invalidates every span issued so far.

use vstd::prelude::*;
use vstd::string::StringSliceAdditionalSpecFns;
use crate::util::text::{readable_range, string_bytes, substr, append_text, string_len, lemma_encoded_valid};

verus! {

/// A `u32` range into a shared buffer: a [`StrBuf`] or a flat `Vec`.
/// ZII: the zero span is the empty string / empty slice.
#[derive(Clone, Copy, Debug, PartialEq, Eq)]
pub struct Span {
    pub start: u32,
    pub len: u32,
}

impl Default for Span {
    fn default() -> (s: Span)
        ensures
            s.start == 0 && s.len == 0,
    {
        Span { start: 0, len: 0 }
    }
}

impl Span {
    /// One past the last index the span covers.
    pub open spec fn end(self) -> int {
        self.start + self.len
    }

    pub fn is_empty(self) -> (b: bool)
        ensures
            b == (self.len == 0),
    {
        self.len == 0
    }

    /// The span as an index range.
    pub fn range(self) -> (r: core::ops::Range<usize>)
        requires
            self.end() <= u32::MAX,
        ensures
            r.start == self.start,
            r.end == self.end(),
    {
        (self.start as usize)..((self.start + self.len) as usize)
    }
}

/// An owned, contiguous string table. The zero value is valid and empty.
#[derive(Clone, Debug)]
pub struct StrBuf(String);

impl View for StrBuf {
    type V = Seq<u8>;

    /// The table's bytes.
    closed spec fn view(&self) -> Seq<u8> {
        string_bytes(&self.0)
    }
}

impl Default for StrBuf {
    fn default() -> (b: StrBuf)
        ensures
            b@.len() == 0,
    {
        StrBuf(String::new())
    }
}

impl StrBuf {
    /// A span this buffer can read back: in bounds, on character
    /// boundaries, and small enough for the `u32` encoding.
    pub open spec fn can_read(&self, span: Span) -> bool {
        &&& readable_range(self@, span.start as int, span.end())
        &&& span.end() <= u32::MAX
    }

    /// The text a readable span names.
    pub open spec fn text(&self, span: Span) -> Seq<u8> {
        self@.subrange(span.start as int, span.end())
    }

    /// Appends a string, returning the span that reads it back. Earlier
    /// spans keep reading what they read before.
    pub fn push(&mut self, text: &str) -> (s: Span)
        requires
            old(self)@.len() + text.spec_bytes().len() <= u32::MAX,
        ensures
            final(self)@ == old(self)@ + text.spec_bytes(),
            s.start == old(self)@.len(),
            s.len == text.spec_bytes().len(),
            final(self).can_read(s),
            final(self).text(s) == text.spec_bytes(),
            forall|t: Span|
                old(self).can_read(t) ==> final(self).can_read(t) && final(self).text(t)
                    == old(self).text(t),
    {
        let start = string_len(&self.0) as u32;
        let len = text.len() as u32;
        append_text(&mut self.0, text);
        let s = Span { start, len };
        assert(self.text(s) =~= text.spec_bytes());
        s
    }

    /// The text under `span`.
    pub fn get(&self, span: Span) -> (r: &str)
        requires
            self.can_read(span),
        ensures
            r.spec_bytes() == self.text(span),
    {
        substr(self.0.as_str(), span.start as usize, (span.start + span.len) as usize)
    }

    /// Empties the table, keeping its allocation; every span issued so far
    /// is invalidated.
    pub fn clear(&mut self)
        ensures
            final(self)@.len() == 0,
    {
        self.0 = String::new();
    }

    /// The number of bytes stored.
    pub fn len(&self) -> (n: usize)
        requires
            self@.len() <= usize::MAX,
        ensures
            n == self@.len(),
    {
        string_len(&self.0)
    }

    pub fn is_empty(&self) -> (b: bool)
        ensures
            b == (self@.len() == 0),
    {
        proof {
            lemma_encoded_valid(self.0@);
            if self.0@.len() > 0 {
                assert(vstd::utf8::encode_utf8(self.0@) =~= vstd::utf8::encode_scalar(self.0@[0] as u32)
                    + vstd::utf8::encode_utf8(self.0@.drop_first()));
            }
        }
        self.0.as_str().is_empty()
    }
}

} // verus!
