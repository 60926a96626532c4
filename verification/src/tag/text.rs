//! Slicing of UTF-8 text at byte offsets.
//!
//! The scanner cuts its input only at markup bytes, which are all ASCII. This
//! module shows that such cuts fall on character boundaries, so that a slice
//! of the input is again text.

use vstd::prelude::*;
use vstd::string::*;
use vstd::utf8::*;

verus! {

/// The bytes that a text is stored in.
pub open spec fn bytes_of(chars: Seq<char>) -> Seq<u8> {
    encode_utf8(chars)
}

/// The bytes of two texts joined are the bytes of the first and then those of
/// the second.
pub proof fn lemma_bytes_of_concat(a: Seq<char>, b: Seq<char>)
    ensures
        bytes_of(a + b) == bytes_of(a) + bytes_of(b),
    decreases a.len(),
{
    if a.len() == 0 {
        assert(a + b =~= b);
        assert(bytes_of(a) + bytes_of(b) =~= bytes_of(b));
    } else {
        lemma_bytes_of_concat(a.drop_first(), b);
        assert((a + b).drop_first() =~= a.drop_first() + b);
        assert(bytes_of(a + b) =~= bytes_of(a) + bytes_of(b));
    }
}

/// Texts that are stored in the same bytes are the same text.
pub proof fn lemma_bytes_of_injective(a: Seq<char>, b: Seq<char>)
    requires
        bytes_of(a) == bytes_of(b),
    ensures
        a == b,
{
    encode_utf8_decode_utf8(a);
    encode_utf8_decode_utf8(b);
}

/// The bytes of a text of ASCII characters are those characters.
pub proof fn lemma_bytes_of_ascii(chars: Seq<char>)
    requires
        is_ascii_chars(chars),
    ensures
        bytes_of(chars) == Seq::new(chars.len(), |i: int| chars[i] as u8),
{
    is_ascii_chars_encode_utf8(chars);
    assert(bytes_of(chars) =~= Seq::new(chars.len(), |i: int| chars[i] as u8));
}

/// A position in `bytes` that is an end of the sequence or touches an ASCII
/// byte. In UTF-8 text no character straddles such a position.
pub open spec fn safe_cut(bytes: Seq<u8>, i: int) -> bool {
    &&& 0 <= i <= bytes.len()
    &&& (i == 0 || i == bytes.len() || bytes[i] < 0x80 || bytes[i - 1] < 0x80)
}

proof fn lemma_boundary_after_ascii(bytes: Seq<u8>, i: int)
    requires
        valid_utf8(bytes),
        0 <= i < bytes.len(),
        bytes[i] < 0x80,
        is_char_boundary(bytes, i),
    ensures
        is_char_boundary(bytes, i + 1),
    decreases bytes.len(),
{
    reveal_with_fuel(is_char_boundary, 2);
    let rest = pop_first_scalar(bytes);
    let width = length_of_first_scalar(bytes);
    if i == 0 {
        assert(width == 1);
        assert(is_char_boundary(rest, 0));
    } else {
        assert(is_char_boundary(rest, i - width));
        assert(i - width >= 0);
        assert(rest[i - width] == bytes[i]);
        lemma_boundary_after_ascii(rest, i - width);
    }
}

/// A safe cut of UTF-8 text is a character boundary.
pub proof fn lemma_safe_cut_is_boundary(bytes: Seq<u8>, i: int)
    requires
        valid_utf8(bytes),
        safe_cut(bytes, i),
    ensures
        is_char_boundary(bytes, i),
{
    is_char_boundary_start_end_of_seq(bytes);
    if i == 0 || i == bytes.len() {
    } else if bytes[i] < 0x80 {
        is_char_boundary_iff_not_is_continuation_byte(bytes, i);
    } else {
        is_char_boundary_iff_not_is_continuation_byte(bytes, i - 1);
        lemma_boundary_after_ascii(bytes, i - 1);
    }
}

/// The part of `s` from byte `lo` up to byte `hi`.
pub(crate) fn substr<'a>(s: &'a str, lo: usize, hi: usize) -> (r: &'a str)
    requires
        lo <= hi <= s.spec_bytes().len(),
        safe_cut(s.spec_bytes(), lo as int),
        safe_cut(s.spec_bytes(), hi as int),
    ensures
        r.spec_bytes() == s.spec_bytes().subrange(lo as int, hi as int),
{
    proof {
        encode_utf8_valid_utf8(s@);
        lemma_safe_cut_is_boundary(s.spec_bytes(), hi as int);
    }
    let (head, _) = s.split_at(hi);
    proof {
        encode_utf8_valid_utf8(head@);
        assert(safe_cut(head.spec_bytes(), lo as int));
        lemma_safe_cut_is_boundary(head.spec_bytes(), lo as int);
    }
    let (_, r) = head.split_at(lo);
    assert(r.spec_bytes() =~= s.spec_bytes().subrange(lo as int, hi as int));
    r
}

} // verus!
