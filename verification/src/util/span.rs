//! Flat, contiguous storage addressed by [`Span`]s: a `u32` range into a
//! shared linear buffer (a flat `Vec<T>` for records, a `String` for
//! text). Buffers recycle via `clear`, which invalidates every span issued
//! so far.

use vstd::prelude::*;
use vstd::string::StringSliceAdditionalSpecFns;
use crate::util::text::{readable_range, string_bytes, substr, append_text, string_len, str_range_mut};

verus! {

/// A `u32` range into a shared linear buffer. ZII: the zero span is the
/// empty slice / empty string.
#[derive(Clone, Copy, Debug, PartialEq, Eq)]
pub struct Span {
    pub start: u32,
    pub len: u32,
}

impl Default for Span {
    fn default() -> (s: Span)
        ensures
            s.start == 0 && s.len == 0,
    {
        Span { start: 0, len: 0 }
    }
}

impl Span {
    /// One past the last index the span covers.
    pub open spec fn end(self) -> int {
        self.start + self.len
    }

    pub fn is_empty(self) -> (b: bool)
        ensures
            b == (self.len == 0),
    {
        self.len == 0
    }

    /// The span as an index range.
    pub fn range(self) -> (r: core::ops::Range<usize>)
        requires
            self.end() <= u32::MAX,
        ensures
            r.start == self.start,
            r.end == self.end(),
    {
        (self.start as usize)..((self.start + self.len) as usize)
    }

    /// The span's part of a flat buffer.
    pub fn slice<T>(self, buffer: &[T]) -> (r: &[T])
        requires
            self.end() <= buffer@.len(),
            self.end() <= u32::MAX,
        ensures
            r@ == buffer@.subrange(self.start as int, self.end()),
    {
        let (head, _) = buffer.split_at((self.start + self.len) as usize);
        let (_, tail) = head.split_at(self.start as usize);
        assert(tail@ =~= buffer@.subrange(self.start as int, self.end()));
        tail
    }

    /// The span's part of a flat buffer, writable in place; the rest of the
    /// buffer is left as it was.
    pub fn slice_mut<T>(self, buffer: &mut [T]) -> (r: &mut [T])
        requires
            self.end() <= old(buffer)@.len(),
            self.end() <= u32::MAX,
        ensures
            r@ == old(buffer)@.subrange(self.start as int, self.end()),
            final(buffer)@ == old(buffer)@.subrange(0, self.start as int) + final(r)@
                + old(buffer)@.subrange(self.end(), old(buffer)@.len() as int),
    {
        let end = (self.start + self.len) as usize;
        let (head, rest) = buffer.split_at_mut(end);
        let (lead, tail) = head.split_at_mut(self.start as usize);
        tail
    }

    /// The span's part of a string buffer; both ends must fall on
    /// character boundaries.
    pub fn str(self, buffer: &str) -> (r: &str)
        requires
            readable_range(buffer.spec_bytes(), self.start as int, self.end()),
            self.end() <= u32::MAX,
        ensures
            r.spec_bytes() == buffer.spec_bytes().subrange(self.start as int, self.end()),
    {
        substr(buffer, self.start as usize, (self.start + self.len) as usize)
    }

    /// The span's part of a string buffer, writable in place; the bytes
    /// around it are left as they were.
    pub fn str_mut(self, buffer: &mut str) -> (r: &mut str)
        requires
            readable_range(old(buffer).spec_bytes(), self.start as int, self.end()),
            self.end() <= u32::MAX,
        ensures
            r.spec_bytes() == old(buffer).spec_bytes().subrange(self.start as int, self.end()),
            final(buffer).spec_bytes() == old(buffer).spec_bytes().subrange(0, self.start as int)
                + final(r).spec_bytes() + old(buffer).spec_bytes().subrange(
                self.end(),
                old(buffer).spec_bytes().len() as int,
            ),
    {
        str_range_mut(buffer, self.start as usize, (self.start + self.len) as usize)
    }

    /// Appends one item, returning the span that reads it back. Grow a
    /// multi-item span by widening `len` as contiguous pushes land.
    pub fn push<T>(buffer: &mut Vec<T>, item: T) -> (s: Span)
        requires
            old(buffer)@.len() < u32::MAX,
        ensures
            final(buffer)@ == old(buffer)@.push(item),
            s.start == old(buffer)@.len(),
            s.len == 1,
    {
        let start = buffer.len() as u32;
        buffer.push(item);
        Span { start, len: 1 }
    }

    /// Appends a string, returning the span that reads it back: the new
    /// span is readable and holds exactly `text`'s bytes, and every span
    /// readable before stays readable with the same bytes.
    pub fn push_str(buffer: &mut String, text: &str) -> (s: Span)
        requires
            string_bytes(old(buffer)).len() + text.spec_bytes().len() <= u32::MAX,
        ensures
            string_bytes(final(buffer)) == string_bytes(old(buffer)) + text.spec_bytes(),
            s.start == string_bytes(old(buffer)).len(),
            s.len == text.spec_bytes().len(),
            readable_range(string_bytes(final(buffer)), s.start as int, s.end()),
            string_bytes(final(buffer)).subrange(s.start as int, s.end()) == text.spec_bytes(),
            forall|a: int, b: int|
                readable_range(string_bytes(old(buffer)), a, b) ==> readable_range(
                    string_bytes(final(buffer)),
                    a,
                    b,
                ) && string_bytes(final(buffer)).subrange(a, b) == string_bytes(
                    old(buffer),
                ).subrange(a, b),
    {
        let start = string_len(buffer) as u32;
        let len = text.len() as u32;
        append_text(buffer, text);
        let s = Span { start, len };
        assert(string_bytes(buffer).subrange(s.start as int, s.end()) =~= text.spec_bytes());
        s
    }
}

} // verus!
