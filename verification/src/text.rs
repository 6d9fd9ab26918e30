//! Text as UTF-8 bytes: offsets, character boundaries and slices.

use vstd::prelude::*;
use vstd::string::*;
use vstd::utf8::*;

verus! {

/// `lo..hi` is a range of `text` whose two ends fall between characters.
pub open spec fn in_text(text: Seq<u8>, lo: int, hi: int) -> bool {
    &&& 0 <= lo <= hi <= text.len()
    &&& is_char_boundary(text, lo)
    &&& is_char_boundary(text, hi)
}

/// Encoding a concatenation is concatenating the encodings.
pub proof fn lemma_encode_concat(a: Seq<char>, b: Seq<char>)
    ensures
        encode_utf8(a + b) == encode_utf8(a) + encode_utf8(b),
    decreases a.len(),
{
    if a.len() == 0 {
        assert(a + b =~= b);
        assert(encode_utf8(a) + encode_utf8(b) =~= encode_utf8(b));
    } else {
        lemma_encode_concat(a.drop_first(), b);
        assert((a + b).drop_first() =~= a.drop_first() + b);
        assert((a + b)[0] == a[0]);
        assert(encode_utf8(a + b) =~= encode_utf8(a) + encode_utf8(b));
    }
}

/// A character boundary of valid bytes is one of each prefix that reaches it.
proof fn lemma_boundary_in_prefix(text: Seq<u8>, lo: int, hi: int)
    requires
        valid_utf8(text),
        in_text(text, lo, hi),
    ensures
        valid_utf8(text.subrange(0, hi)),
        is_char_boundary(text.subrange(0, hi), lo),
{
    valid_utf8_split(text, hi);
    let front = text.subrange(0, hi);
    if lo == hi {
        is_char_boundary_start_end_of_seq(front);
    } else {
        is_char_boundary_iff_not_is_continuation_byte(text, lo);
        is_char_boundary_iff_not_is_continuation_byte(front, lo);
    }
}

/// A byte that is a character of its own stands between two character
/// boundaries.
pub proof fn lemma_single_byte_boundaries(text: Seq<u8>, at: int)
    requires
        valid_utf8(text),
        0 <= at < text.len(),
        text[at] <= 0x7f,
    ensures
        is_char_boundary(text, at),
        is_char_boundary(text, at + 1),
{
    is_char_boundary_iff_not_is_continuation_byte(text, at);
    if at + 1 == text.len() {
        is_char_boundary_start_end_of_seq(text);
    } else {
        valid_utf8_split(text, at);
        let rest = text.subrange(at, text.len() as int);
        assert(rest[0] == text[at]);
        assert(rest[1] == text[at + 1]);
        assert(length_of_first_scalar(rest) == 1);
        assert(valid_utf8(pop_first_scalar(rest)));
        assert(is_char_boundary(pop_first_scalar(rest), 0));
        assert(is_char_boundary(rest, 1));
        is_char_boundary_iff_not_is_continuation_byte(rest, 1);
        is_char_boundary_iff_not_is_continuation_byte(text, at + 1);
    }
}

/// A character below 128 is encoded as the one byte of its number.
pub proof fn lemma_single_byte_encoding(c: char)
    requires
        c as u32 <= 0x7f,
    ensures
        encode_utf8(seq![c]) == seq![c as u8],
{
    let x = c as u32;
    assert((x & 0x7F) as u8 == x as u8) by (bit_vector)
        requires
            x <= 0x7f,
    ;
    reveal_with_fuel(encode_utf8, 2);
    assert(seq![c].drop_first() =~= Seq::<char>::empty());
    assert(encode_scalar(x) =~= seq![c as u8]);
    assert(encode_utf8(seq![c]) =~= seq![c as u8]);
}

/// The length of `text` in bytes.
pub(crate) fn byte_len(text: &str) -> (n: usize)
    ensures
        n == text.spec_bytes().len(),
{
    text.as_bytes().len()
}

/// Whether `lo..hi` is a range of `text` between characters.
pub(crate) fn is_in_text(text: &str, lo: usize, hi: usize) -> (b: bool)
    ensures
        b == in_text(text.spec_bytes(), lo as int, hi as int),
{
    lo <= hi && hi <= byte_len(text) && text.is_char_boundary(lo) && text.is_char_boundary(hi)
}

/// The part of `text` from byte `lo` up to byte `hi`.
pub(crate) fn slice<'a>(text: &'a str, lo: usize, hi: usize) -> (part: &'a str)
    requires
        in_text(text.spec_bytes(), lo as int, hi as int),
    ensures
        part.spec_bytes() == text.spec_bytes().subrange(lo as int, hi as int),
{
    proof {
        encode_utf8_valid_utf8(text@);
        lemma_boundary_in_prefix(text.spec_bytes(), lo as int, hi as int);
    }
    let (front, _) = text.split_at(hi);
    let (_, part) = front.split_at(lo);
    assert(part.spec_bytes() =~= text.spec_bytes().subrange(lo as int, hi as int));
    part
}

/// Appends `part` to `out`, byte for byte.
pub(crate) fn push_text(out: &mut String, part: &str)
    ensures
        encode_utf8(final(out)@) == encode_utf8(old(out)@) + part.spec_bytes(),
{
    proof {
        lemma_encode_concat(out@, part@);
    }
    out.append(part);
}

} // verus!
