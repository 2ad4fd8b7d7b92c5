//! Byte-level facts about UTF-8 text buffers: the spans that the linear
//! string stores hand out are byte ranges whose ends fall on character
//! boundaries, and appending text never disturbs an earlier range.

use vstd::prelude::*;
use vstd::string::StringSliceAdditionalSpecFns;
use vstd::utf8::*;

verus! {

/// A byte range `[start, end)` of `bytes` that can be cut out as text:
/// in bounds, with both ends on character boundaries.
pub open spec fn readable_range(bytes: Seq<u8>, start: int, end: int) -> bool {
    &&& 0 <= start <= end <= bytes.len()
    &&& is_char_boundary(bytes, start)
    &&& is_char_boundary(bytes, end)
}

/// The UTF-8 bytes of an owned string.
pub open spec fn string_bytes(s: &String) -> Seq<u8> {
    encode_utf8(s@)
}

/// Encoding distributes over concatenation.
pub proof fn lemma_encode_concat(a: Seq<char>, b: Seq<char>)
    ensures
        encode_utf8(a + b) == encode_utf8(a) + encode_utf8(b),
    decreases a.len(),
{
    if a.len() == 0 {
        assert(a + b =~= b);
        assert(encode_utf8(a) =~= Seq::<u8>::empty());
        assert(encode_utf8(a) + encode_utf8(b) =~= encode_utf8(b));
    } else {
        lemma_encode_concat(a.drop_first(), b);
        assert((a + b).drop_first() =~= a.drop_first() + b);
        assert((a + b)[0] == a[0]);
        assert(encode_utf8(a + b) =~= encode_scalar(a[0] as u32) + encode_utf8(a.drop_first() + b));
    }
}

/// Every encoding is valid UTF-8 and has boundaries at both ends.
pub proof fn lemma_encoded_valid(c: Seq<char>)
    ensures
        valid_utf8(encode_utf8(c)),
        is_char_boundary(encode_utf8(c), 0),
        is_char_boundary(encode_utf8(c), encode_utf8(c).len() as int),
{
    encode_utf8_valid_utf8(c);
    is_char_boundary_start_end_of_seq(encode_utf8(c));
}

/// A character boundary of `x` stays one in `x + y`, and the join point
/// is a boundary too.
pub proof fn lemma_boundary_extend(x: Seq<u8>, y: Seq<u8>, i: int)
    requires
        valid_utf8(x),
        valid_utf8(y),
        is_char_boundary(x, i),
    ensures
        valid_utf8(x + y),
        is_char_boundary(x + y, i),
        is_char_boundary(x + y, x.len() as int),
    decreases x.len(),
{
    valid_utf8_concat(x, y);
    let xy = x + y;
    is_char_boundary_start_end_of_seq(x);
    is_char_boundary_start_end_of_seq(xy);
    is_char_boundary_start_end_of_seq(y);
    // The join point.
    if y.len() == 0 {
        assert(xy =~= x);
    } else {
        is_char_boundary_iff_not_is_continuation_byte(y, 0);
        assert(xy[x.len() as int] == y[0]);
        is_char_boundary_iff_not_is_continuation_byte(xy, x.len() as int);
    }
    // The old boundary.
    if i == 0 {
    } else if i == x.len() {
    } else {
        reveal_with_fuel(is_char_boundary, 1);
        assert(0 <= i < x.len()) by {
            if i < 0 || i > x.len() {
                assert(!is_char_boundary(x, i));
            }
        }
        is_char_boundary_iff_not_is_continuation_byte(x, i);
        assert(xy[i] == x[i]);
        is_char_boundary_iff_not_is_continuation_byte(xy, i);
    }
}

/// A readable range of `x` stays readable in `x + y`, with the same bytes.
pub proof fn lemma_readable_extend(x: Seq<u8>, y: Seq<u8>, start: int, end: int)
    requires
        valid_utf8(x),
        valid_utf8(y),
        readable_range(x, start, end),
    ensures
        readable_range(x + y, start, end),
        (x + y).subrange(start, end) == x.subrange(start, end),
{
    lemma_boundary_extend(x, y, start);
    lemma_boundary_extend(x, y, end);
    assert((x + y).subrange(start, end) =~= x.subrange(start, end));
}

/// The text `buffer[start..end]`, cut at character boundaries.
pub fn substr(buffer: &str, start: usize, end: usize) -> (r: &str)
    requires
        readable_range(buffer.spec_bytes(), start as int, end as int),
    ensures
        r.spec_bytes() == buffer.spec_bytes().subrange(start as int, end as int),
{
    proof {
        encode_utf8_valid_utf8(buffer@);
    }
    let (head, _) = buffer.split_at(end);
    proof {
        let b = buffer.spec_bytes();
        valid_utf8_split(b, end as int);
        let h = head.spec_bytes();
        assert(h =~= b.subrange(0, end as int));
        is_char_boundary_start_end_of_seq(h);
        if 0 < start < end {
            is_char_boundary_iff_not_is_continuation_byte(b, start as int);
            assert(h[start as int] == b[start as int]);
            is_char_boundary_iff_not_is_continuation_byte(h, start as int);
        }
    }
    let (_, tail) = head.split_at(start);
    proof {
        assert(tail.spec_bytes() =~= buffer.spec_bytes().subrange(start as int, end as int));
    }
    tail
}

/// The writable text `buffer[start..end]` (std's `IndexMut<Range<usize>>`
/// for `str`, which panics off character boundaries). Claims: the piece
/// holds those bytes, and whatever is written through it lands between the
/// untouched bytes before and after it.
#[verifier::external_body]
pub fn str_range_mut(buffer: &mut str, start: usize, end: usize) -> (r: &mut str)
    requires
        readable_range(old(buffer).spec_bytes(), start as int, end as int),
    ensures
        r.spec_bytes() == old(buffer).spec_bytes().subrange(start as int, end as int),
        final(buffer).spec_bytes() == old(buffer).spec_bytes().subrange(0, start as int)
            + final(r).spec_bytes() + old(buffer).spec_bytes().subrange(
            end as int,
            old(buffer).spec_bytes().len() as int,
        ),
{
    &mut buffer[start..end]
}

/// Whether two texts are the same characters, compared byte by byte.
pub fn same_text(a: &str, b: &str) -> (r: bool)
    ensures
        r == (a@ == b@),
{
    let x = a.as_bytes();
    let y = b.as_bytes();
    proof {
        encode_utf8_decode_utf8(a@);
        encode_utf8_decode_utf8(b@);
    }
    if x.len() != y.len() {
        return false;
    }
    let mut i: usize = 0;
    while i < x.len()
        invariant
            x@ == a.spec_bytes(),
            y@ == b.spec_bytes(),
            x@.len() == y@.len(),
            i <= x@.len(),
            forall|k: int| 0 <= k < i ==> x@[k] == y@[k],
        decreases x@.len() - i,
    {
        if x[i] != y[i] {
            return false;
        }
        i = i + 1;
    }
    assert(x@ =~= y@);
    true
}

/// Append `text` to `s` (std's `String::push_str`).
#[verifier::external_body]
pub fn string_push_str(s: &mut String, text: &str)
    ensures
        final(s)@ == old(s)@ + text@,
{
    s.push_str(text);
}

/// The byte length of `s` (std's `String::len`).
pub fn string_len(s: &String) -> (n: usize)
    ensures
        n == string_bytes(s).len() as usize,
{
    s.as_str().len()
}

/// Appends `text`, with the effect on the bytes spelled out: the old bytes
/// are a prefix, `text`'s bytes follow, and every readable range of the old
/// buffer stays readable with the same bytes.
pub fn append_text(s: &mut String, text: &str)
    ensures
        string_bytes(final(s)) == string_bytes(old(s)) + text.spec_bytes(),
        readable_range(
            string_bytes(final(s)),
            string_bytes(old(s)).len() as int,
            string_bytes(final(s)).len() as int,
        ),
        forall|a: int, b: int|
            readable_range(string_bytes(old(s)), a, b) ==> readable_range(
                string_bytes(final(s)),
                a,
                b,
            ) && string_bytes(final(s)).subrange(a, b) == string_bytes(old(s)).subrange(a, b),
{
    let ghost before = s@;
    string_push_str(s, text);
    proof {
        lemma_encode_concat(before, text@);
        lemma_encoded_valid(before);
        lemma_encoded_valid(text@);
        let x = encode_utf8(before);
        let y = encode_utf8(text@);
        lemma_boundary_extend(x, y, x.len() as int);
        assert((x + y).len() == x.len() + y.len());
        is_char_boundary_start_end_of_seq(x + y);
        assert forall|a: int, b: int| readable_range(x, a, b) implies readable_range(x + y, a, b)
            && (x + y).subrange(a, b) == x.subrange(a, b) by {
            lemma_readable_extend(x, y, a, b);
        }
    }
}

} // verus!
