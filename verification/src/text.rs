//! Cutting pieces out of a source text by byte offsets.
//!
//! The scanner and the parser work on the UTF-8 bytes of the source. This
//! module relates byte offsets to the characters of the text, and cuts string
//! slices at offsets that tear no character apart.

use vstd::prelude::*;
use vstd::utf8::*;

verus! {

/// The UTF-8 bytes of a text.
pub open spec fn bytes_of(s: &str) -> Seq<u8> {
    encode_utf8(s@)
}

/// The text that the bytes `from..to` of `src` encode.
pub open spec fn text_between(src: Seq<u8>, from: int, to: int) -> Seq<char> {
    decode_utf8(src.subrange(from, to))
}

/// An offset at which a text can be cut: the end of the text, or the first
/// byte of a character.
pub open spec fn cut_point(src: Seq<u8>, i: int) -> bool {
    0 <= i <= src.len() && (i < src.len() ==> !is_continuation_byte(src[i]))
}

/// In well-formed UTF-8 the cut points are exactly the character boundaries.
pub proof fn lemma_cut_point_is_boundary(src: Seq<u8>, i: int)
    requires
        valid_utf8(src),
    ensures
        cut_point(src, i) <==> is_char_boundary(src, i),
{
    if 0 <= i < src.len() {
        is_char_boundary_iff_not_is_continuation_byte(src, i);
    } else if i == src.len() {
        is_char_boundary_start_end_of_seq(src);
    } else {
    }
}

/// In well-formed UTF-8 a character starts behind every ASCII byte.
pub proof fn lemma_cut_point_after_ascii(src: Seq<u8>, i: int)
    requires
        valid_utf8(src),
        0 <= i < src.len(),
        src[i] < 0x80,
    ensures
        cut_point(src, i + 1),
{
    if i + 1 < src.len() {
        lemma_cut_point_is_boundary(src, i);
        valid_utf8_split(src, i);
        let tail = src.subrange(i, src.len() as int);
        assert(tail[0] == src[i]);
        assert(tail[1] == src[i + 1]);
        assert(valid_utf8(tail));
        assert(length_of_first_scalar(tail) == 1);
        assert(is_char_boundary(tail, 1)) by {
            reveal_with_fuel(is_char_boundary, 2);
        }
        is_char_boundary_iff_not_is_continuation_byte(tail, 1);
    }
}

/// A well-formed UTF-8 text can be cut at its start and at its end.
pub proof fn lemma_cut_point_ends(src: Seq<u8>)
    requires
        valid_utf8(src),
    ensures
        cut_point(src, 0),
        cut_point(src, src.len() as int),
{
    lemma_cut_point_is_boundary(src, 0);
    lemma_cut_point_is_boundary(src, src.len() as int);
    is_char_boundary_start_end_of_seq(src);
}

/// The bytes of a text are well-formed UTF-8, and the text is what they decode to.
pub proof fn lemma_bytes_of(s: &str)
    ensures
        valid_utf8(bytes_of(s)),
        decode_utf8(bytes_of(s)) == s@,
{
    encode_utf8_valid_utf8(s@);
    encode_utf8_decode_utf8(s@);
}

/// The part of `s` that its bytes `from..to` encode.
pub fn slice_between<'a>(s: &'a str, from: usize, to: usize) -> (r: &'a str)
    requires
        from <= to,
        cut_point(bytes_of(s), from as int),
        cut_point(bytes_of(s), to as int),
    ensures
        bytes_of(r) == bytes_of(s).subrange(from as int, to as int),
        r@ == text_between(bytes_of(s), from as int, to as int),
{
    proof {
        lemma_bytes_of(s);
        lemma_cut_point_is_boundary(bytes_of(s), to as int);
    }
    let (head, _) = s.split_at(to);
    proof {
        lemma_bytes_of(head);
        assert(bytes_of(head) == bytes_of(s).subrange(0, to as int));
        lemma_cut_point_is_boundary(bytes_of(head), from as int);
    }
    let (_, r) = head.split_at(from);
    proof {
        lemma_bytes_of(r);
        assert(bytes_of(r) =~= bytes_of(s).subrange(from as int, to as int));
    }
    r
}

/// What `str::trim` gives for a text: the text without the white space at
/// its start and at its end, where white space is what has the Unicode
/// property `White_Space`.
pub uninterp spec fn trimmed(s: Seq<char>) -> Seq<char>;

/// `str::trim`: the slice without its leading and its trailing white space.
/// The result is named, not spelled out: it depends on the text alone.
#[verifier::external_body]
pub(crate) fn trim<'a>(s: &'a str) -> (r: &'a str)
    ensures
        r@ == trimmed(s@),
{
    s.trim()
}

} // verus!
