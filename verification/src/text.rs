//! Text as bytes: slicing a `str` by byte offsets and comparing two of them,
//! with the facts about UTF-8 that make both safe.

use vstd::prelude::*;
use vstd::string::StringSliceAdditionalSpecFns;
use vstd::utf8::*;

verus! {

/// The characters that the bytes `start..end` of `bytes` encode.
pub open spec fn text_between(bytes: Seq<u8>, start: int, end: int) -> Seq<char> {
    decode_utf8(bytes.subrange(start, end))
}

/// Whether position `i` of `bytes` is the end of the text or holds a byte
/// that does not continue a character.
pub open spec fn is_boundary(bytes: Seq<u8>, i: int) -> bool {
    0 <= i <= bytes.len() && (i == bytes.len() || !is_continuation_byte(bytes[i]))
}

/// In valid UTF-8 the positions that this module calls boundaries are the
/// character boundaries.
pub proof fn lemma_boundary_by_byte(bytes: Seq<u8>, i: int)
    requires
        valid_utf8(bytes),
        0 <= i <= bytes.len(),
    ensures
        is_char_boundary(bytes, i) <==> is_boundary(bytes, i),
{
    if i == bytes.len() {
        is_char_boundary_start_end_of_seq(bytes);
    } else {
        is_char_boundary_iff_not_is_continuation_byte(bytes, i);
    }
}

/// The position after an ASCII byte that stands at a boundary is a boundary
/// again.
pub proof fn lemma_boundary_after_ascii(bytes: Seq<u8>, i: int)
    requires
        valid_utf8(bytes),
        0 <= i < bytes.len(),
        is_boundary(bytes, i),
        bytes[i] < 0x80,
    ensures
        is_boundary(bytes, i + 1),
{
    lemma_boundary_by_byte(bytes, i);
    let tail = bytes.subrange(i, bytes.len() as int);
    valid_utf8_split(bytes, i);
    assert(tail[0] == bytes[i]);
    assert(length_of_first_scalar(tail) == 1);
    let rest = pop_first_scalar(tail);
    assert(valid_utf8(rest));
    assert(rest =~= bytes.subrange(i + 1, bytes.len() as int));
    if i + 1 < bytes.len() {
        assert(valid_first_scalar(rest));
        assert(rest[0] == bytes[i + 1]);
        assert(!is_continuation_byte(bytes[i + 1]));
    }
    lemma_boundary_by_byte(bytes, i + 1);
}

/// A boundary of a text is a character boundary of each prefix that ends at
/// a later boundary.
pub proof fn lemma_boundary_in_prefix(bytes: Seq<u8>, start: int, end: int)
    requires
        valid_utf8(bytes),
        start <= end,
        is_boundary(bytes, start),
        is_boundary(bytes, end),
    ensures
        is_char_boundary(bytes, end),
        valid_utf8(bytes.subrange(0, end)),
        is_char_boundary(bytes.subrange(0, end), start),
{
    let head = bytes.subrange(0, end);
    lemma_boundary_by_byte(bytes, end);
    valid_utf8_split(bytes, end);
    if start < end {
        assert(head[start] == bytes[start]);
    }
    lemma_boundary_by_byte(head, start);
}

/// Two texts with the same UTF-8 encoding are the same text.
pub proof fn lemma_encoding_is_injective(a: Seq<char>, b: Seq<char>)
    requires
        encode_utf8(a) == encode_utf8(b),
    ensures
        a == b,
{
    encode_utf8_decode_utf8(a);
    encode_utf8_decode_utf8(b);
}

/// The part of `source` between the byte offsets `start` and `end`.
pub fn slice<'a>(source: &'a str, start: usize, end: usize) -> (part: &'a str)
    requires
        start <= end,
        is_boundary(source.spec_bytes(), start as int),
        is_boundary(source.spec_bytes(), end as int),
    ensures
        part.spec_bytes() == source.spec_bytes().subrange(start as int, end as int),
        part@ == text_between(source.spec_bytes(), start as int, end as int),
{
    proof {
        encode_utf8_valid_utf8(source@);
        lemma_boundary_in_prefix(source.spec_bytes(), start as int, end as int);
    }
    let (head, _) = source.split_at(end);
    let (_, part) = head.split_at(start);
    proof {
        assert(part.spec_bytes() =~= source.spec_bytes().subrange(start as int, end as int));
        encode_utf8_decode_utf8(part@);
    }
    part
}

/// Whether two texts are the same, character for character.
pub fn str_eq(a: &str, b: &str) -> (same: bool)
    ensures
        same == (a@ == b@),
{
    let x = a.as_bytes();
    let y = b.as_bytes();
    if x.len() != y.len() {
        return false;
    }
    let mut i: usize = 0;
    while i < x.len()
        invariant
            x.len() == y.len(),
            0 <= i <= x.len(),
            forall|k: int| 0 <= k < i ==> x@[k] == y@[k],
            x@ == a.spec_bytes(),
            y@ == b.spec_bytes(),
        decreases x.len() - i,
    {
        if x[i] != y[i] {
            assert(a.spec_bytes()[i as int] != b.spec_bytes()[i as int]);
            return false;
        }
        i += 1;
    }
    proof {
        assert(x@ =~= y@);
        lemma_encoding_is_injective(a@, b@);
    }
    true
}

} // verus!
