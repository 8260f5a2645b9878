//! The lexical productions: what a single pass over the bytes recognises
//! without looking into blocks.
//!
//! A production is a function from the bytes of the input and an offset to
//! the offset behind what it matches there, or to nothing where it does not
//! match. Alternatives are tried in the order in which they are written, and
//! a repetition takes as much as it can.

use vstd::prelude::*;
use vstd::utf8::*;
use crate::parser::tokenizer::{comment_closed, comment_end, lemma_comment_end, opens_comment};
use crate::text::{cut_point, lemma_cut_point_after_ascii};

verus! {

/// Whether the byte `b` stands at `i`.
pub open spec fn byte_at(s: Seq<u8>, i: int, b: u8) -> bool {
    0 <= i < s.len() && s[i] == b
}

/// Whether the bytes of `word` stand at `i`.
pub open spec fn word_at(s: Seq<u8>, i: int, word: Seq<u8>) -> bool {
    0 <= i && i + word.len() <= s.len() && s.subrange(i, i + word.len()) == word
}

/// Whether `b` is an ASCII digit.
pub open spec fn is_digit(b: u8) -> bool {
    0x30 <= b <= 0x39
}

/// Whether `b` is an ASCII hexadecimal digit.
pub open spec fn is_hex_digit(b: u8) -> bool {
    is_digit(b) || (0x61 <= b <= 0x66) || (0x41 <= b <= 0x46)
}

/// Whether `b` is an ASCII letter.
pub open spec fn is_letter(b: u8) -> bool {
    (0x61 <= b <= 0x7a) || (0x41 <= b <= 0x5a)
}

/// Whether `b` is one of the characters `*+?<>|[].#~=$^()%:&`, which may
/// stand in a selector.
pub open spec fn is_selector_mark(b: u8) -> bool {
    b == 0x2a || b == 0x2b || b == 0x3f || b == 0x3c || b == 0x3e || b == 0x7c || b == 0x5b || b
        == 0x5d || b == 0x2e || b == 0x23 || b == 0x7e || b == 0x3d || b == 0x24 || b == 0x5e || b
        == 0x28 || b == 0x29 || b == 0x25 || b == 0x3a || b == 0x26
}

/// The first offset from `j` on at which no continuation byte stands.
pub open spec fn continuation_end(s: Seq<u8>, j: int) -> int
    decreases s.len() - j,
{
    if 0 <= j < s.len() && is_continuation_byte(s[j]) {
        continuation_end(s, j + 1)
    } else {
        j
    }
}

/// The offset behind the character that starts at `i`.
pub open spec fn char_end(s: Seq<u8>, i: int) -> int {
    continuation_end(s, i + 1)
}

/// What is known of the offset `e` behind a match that starts at `i < e`:
/// it lies in the input, and where the input is well-formed UTF-8 and `i`
/// tears no character, neither does `e`.
pub open spec fn match_end(s: Seq<u8>, i: int, e: int) -> bool {
    &&& 0 <= i <= e <= s.len()
    &&& valid_utf8(s) && cut_point(s, i) ==> cut_point(s, e)
}

/// What is known of a match that is not empty.
pub open spec fn some_match(s: Seq<u8>, i: int, r: Option<int>) -> bool {
    match r {
        Some(e) => i < e && match_end(s, i, e),
        None => true,
    }
}

/// A character ends behind its first byte, inside the input, and where the
/// next one starts.
pub proof fn lemma_char_end(s: Seq<u8>, i: int)
    requires
        0 <= i < s.len(),
    ensures
        i < char_end(s, i) <= s.len(),
        cut_point(s, char_end(s, i)),
{
    lemma_continuation_end(s, i + 1);
}

/// Continuation bytes end inside the input, where a character starts.
proof fn lemma_continuation_end(s: Seq<u8>, j: int)
    requires
        0 <= j <= s.len(),
    ensures
        j <= continuation_end(s, j) <= s.len(),
        cut_point(s, continuation_end(s, j)),
    decreases s.len() - j,
{
    if j < s.len() && is_continuation_byte(s[j]) {
        lemma_continuation_end(s, j + 1);
    }
}

/// A line break at `i`: a line feed, a carriage return with a line feed, or
/// a carriage return.
pub open spec fn newline_at(s: Seq<u8>, i: int) -> Option<int> {
    if byte_at(s, i, 0x0a) {
        Some(i + 1)
    } else if byte_at(s, i, 0x0d) && byte_at(s, i + 1, 0x0a) {
        Some(i + 2)
    } else if byte_at(s, i, 0x0d) {
        Some(i + 1)
    } else {
        None
    }
}

/// One white space at `i`: a space, a tab or a line break.
pub open spec fn whitespace_at(s: Seq<u8>, i: int) -> Option<int> {
    if byte_at(s, i, 0x20) || byte_at(s, i, 0x09) {
        Some(i + 1)
    } else {
        newline_at(s, i)
    }
}

/// One hexadecimal digit at `i`.
pub open spec fn hex_digit_at(s: Seq<u8>, i: int) -> Option<int> {
    if 0 <= i < s.len() && is_hex_digit(s[i]) {
        Some(i + 1)
    } else {
        None
    }
}

/// One digit at `i`.
pub open spec fn digit_at(s: Seq<u8>, i: int) -> Option<int> {
    if 0 <= i < s.len() && is_digit(s[i]) {
        Some(i + 1)
    } else {
        None
    }
}

/// The offset behind the hexadecimal digits from `i` on, at most `max` of
/// them.
pub open spec fn hex_digits_end(s: Seq<u8>, i: int, max: nat) -> int
    decreases max,
{
    if max > 0 && 0 <= i < s.len() && is_hex_digit(s[i]) {
        hex_digits_end(s, i + 1, (max - 1) as nat)
    } else {
        i
    }
}

/// An escape at `i`: a backslash, and then either one character that starts
/// neither a line break nor a hexadecimal digit, or one to six hexadecimal
/// digits and, if one follows, one white space.
pub open spec fn escape_at(s: Seq<u8>, i: int) -> Option<int> {
    if !byte_at(s, i, 0x5c) || i + 1 >= s.len() {
        None
    } else if newline_at(s, i + 1) is None && !is_hex_digit(s[i + 1]) {
        Some(char_end(s, i + 1))
    } else if is_hex_digit(s[i + 1]) {
        let digits = hex_digits_end(s, i + 1, 6);
        match whitespace_at(s, digits) {
            Some(end) => Some(end),
            None => Some(digits),
        }
    } else {
        None
    }
}

/// The offset behind the white space from `i` on.
pub open spec fn ws_star_end(s: Seq<u8>, i: int) -> int
    decreases s.len() - i,
{
    match whitespace_at(s, i) {
        Some(end) => ws_star_end(s, end),
        None => i,
    }
}

/// One character at `i` that is not ASCII.
pub open spec fn not_ascii_at(s: Seq<u8>, i: int) -> Option<int> {
    if 0 <= i < s.len() && s[i] >= 0x80 {
        Some(char_end(s, i))
    } else {
        None
    }
}

/// One ASCII letter at `i`.
pub open spec fn ascii_alphabetic_at(s: Seq<u8>, i: int) -> Option<int> {
    if 0 <= i < s.len() && is_letter(s[i]) {
        Some(i + 1)
    } else {
        None
    }
}

/// A character at `i` that may start an identifier: a letter, an underscore
/// or a character that is not ASCII.
pub open spec fn valid_first_ident_char_at(s: Seq<u8>, i: int) -> Option<int> {
    if ascii_alphabetic_at(s, i) is Some || byte_at(s, i, 0x5f) {
        Some(i + 1)
    } else {
        not_ascii_at(s, i)
    }
}

/// A character at `i` that may go on an identifier: one that may start it,
/// a digit or a hyphen.
pub open spec fn valid_second_ident_char_at(s: Seq<u8>, i: int) -> Option<int> {
    if valid_first_ident_char_at(s, i) is Some {
        valid_first_ident_char_at(s, i)
    } else if digit_at(s, i) is Some || byte_at(s, i, 0x2d) {
        Some(i + 1)
    } else {
        None
    }
}

/// The first of two alternatives that matches.
pub open spec fn or_else(first: Option<int>, second: Option<int>) -> Option<int> {
    if first is Some {
        first
    } else {
        second
    }
}

/// The offset behind the characters and escapes that go on an identifier
/// from `i` on.
pub open spec fn ident_rest_end(s: Seq<u8>, i: int) -> int
    decreases s.len() - i,
    via ident_rest_end_decreases
{
    match or_else(valid_second_ident_char_at(s, i), escape_at(s, i)) {
        Some(end) => ident_rest_end(s, end),
        None => i,
    }
}

#[via_fn]
proof fn ident_rest_end_decreases(s: Seq<u8>, i: int) {
    lemma_valid_second_ident_char_at(s, i);
    lemma_escape_at(s, i);
}

/// An identifier at `i`: two hyphens, or an optional hyphen and then a
/// character that may start an identifier or an escape; then characters that
/// may go on an identifier and escapes, as many as follow.
pub open spec fn ident_at(s: Seq<u8>, i: int) -> Option<int> {
    let start = if byte_at(s, i, 0x2d) && byte_at(s, i + 1, 0x2d) {
        Some(i + 2)
    } else {
        let first = if byte_at(s, i, 0x2d) {
            i + 1
        } else {
            i
        };
        or_else(valid_first_ident_char_at(s, first), escape_at(s, first))
    };
    match start {
        Some(rest) => Some(ident_rest_end(s, rest)),
        None => None,
    }
}

/// One piece of the inside of a string that `quote` delimits, at `i`: a
/// character other than the quote, the backslash and those that start a line
/// break; an escape; or a backslash and a line break.
pub open spec fn string_piece_at(s: Seq<u8>, i: int, quote: u8) -> Option<int> {
    if 0 <= i < s.len() && s[i] != quote && s[i] != 0x5c && newline_at(s, i) is None {
        Some(char_end(s, i))
    } else if escape_at(s, i) is Some {
        escape_at(s, i)
    } else if byte_at(s, i, 0x5c) {
        newline_at(s, i + 1)
    } else {
        None
    }
}

/// The offset behind the inside of a string that `quote` delimits, from `i`
/// on.
pub open spec fn string_inside_end(s: Seq<u8>, i: int, quote: u8) -> int
    decreases s.len() - i,
    via string_inside_end_decreases
{
    match string_piece_at(s, i, quote) {
        Some(end) => string_inside_end(s, end, quote),
        None => i,
    }
}

#[via_fn]
proof fn string_inside_end_decreases(s: Seq<u8>, i: int, quote: u8) {
    lemma_string_piece_at(s, i, quote);
}

/// A string that `quote` delimits, at `i`: the quote, the inside, the quote.
pub open spec fn quoted_at(s: Seq<u8>, i: int, quote: u8) -> Option<int> {
    if byte_at(s, i, quote) && byte_at(s, string_inside_end(s, i + 1, quote), quote) {
        Some(string_inside_end(s, i + 1, quote) + 1)
    } else {
        None
    }
}

/// A string at `i`, in double or in single quotes. Its text is what stands
/// between the quotes.
pub open spec fn string_at(s: Seq<u8>, i: int) -> Option<int> {
    or_else(quoted_at(s, i, 0x22), quoted_at(s, i, 0x27))
}

/// A comment at `i`: the opening delimiter, and the closing one behind it.
/// Its text is what stands between the two.
pub open spec fn comment_at(s: Seq<u8>, i: int) -> Option<int> {
    if opens_comment(s, i) && comment_closed(s, i + 2) {
        Some(comment_end(s, i + 2))
    } else {
        None
    }
}

/// One piece of a selector at `i`: an identifier, a string, a digit or one
/// of the marks.
pub open spec fn selector_piece_at(s: Seq<u8>, i: int) -> Option<int> {
    if ident_at(s, i) is Some {
        ident_at(s, i)
    } else if string_at(s, i) is Some {
        string_at(s, i)
    } else if digit_at(s, i) is Some || (0 <= i < s.len() && is_selector_mark(s[i])) {
        Some(i + 1)
    } else {
        None
    }
}

/// The offset behind the pieces of a selector from `i` on.
pub open spec fn selector_pieces_end(s: Seq<u8>, i: int) -> int
    decreases s.len() - i,
    via selector_pieces_end_decreases
{
    match selector_piece_at(s, i) {
        Some(end) => selector_pieces_end(s, end),
        None => i,
    }
}

#[via_fn]
proof fn selector_pieces_end_decreases(s: Seq<u8>, i: int) {
    lemma_selector_piece_at(s, i);
}

/// One part of a selector at `i`: pieces, at least one.
pub open spec fn selector_part_at(s: Seq<u8>, i: int) -> Option<int> {
    match selector_piece_at(s, i) {
        Some(end) => Some(selector_pieces_end(s, end)),
        None => None,
    }
}

/// The offset behind the parts of a selector that go on behind `i`, each
/// behind one white space.
pub open spec fn selector_parts_end(s: Seq<u8>, i: int) -> int
    decreases s.len() - i,
    via selector_parts_end_decreases
{
    match whitespace_at(s, i) {
        Some(part) => match selector_part_at(s, part) {
            Some(end) => selector_parts_end(s, end),
            None => i,
        },
        None => i,
    }
}

#[via_fn]
proof fn selector_parts_end_decreases(s: Seq<u8>, i: int) {
    match whitespace_at(s, i) {
        Some(part) => {
            lemma_selector_part_at(s, part);
        },
        None => {},
    }
}

/// The offset behind the selector at `i`: parts with one white space between
/// each two. A selector may be empty.
pub open spec fn selector_end(s: Seq<u8>, i: int) -> int {
    match selector_part_at(s, i) {
        Some(end) => selector_parts_end(s, end),
        None => i,
    }
}

/// The bytes of `important`.
pub open spec fn important_word() -> Seq<u8> {
    seq![0x69u8, 0x6d, 0x70, 0x6f, 0x72, 0x74, 0x61, 0x6e, 0x74]
}

/// The marker at `i`: an exclamation mark, white space, the word
/// `important`, white space.
pub open spec fn important_at(s: Seq<u8>, i: int) -> Option<int> {
    if byte_at(s, i, 0x21) && word_at(s, ws_star_end(s, i + 1), important_word()) {
        Some(ws_star_end(s, ws_star_end(s, i + 1) + 9))
    } else {
        None
    }
}

/// What a line break matches.
pub proof fn lemma_whitespace_at(s: Seq<u8>, i: int)
    ensures
        some_match(s, i, newline_at(s, i)),
        some_match(s, i, whitespace_at(s, i)),
{
    if valid_utf8(s) && 0 <= i < s.len() && s[i] < 0x80 {
        lemma_cut_point_after_ascii(s, i);
        if i + 1 < s.len() && s[i + 1] < 0x80 {
            lemma_cut_point_after_ascii(s, i + 1);
        }
    }
}

/// What single characters match.
pub proof fn lemma_single_char_at(s: Seq<u8>, i: int)
    ensures
        some_match(s, i, hex_digit_at(s, i)),
        some_match(s, i, digit_at(s, i)),
        some_match(s, i, not_ascii_at(s, i)),
        some_match(s, i, ascii_alphabetic_at(s, i)),
        some_match(s, i, valid_first_ident_char_at(s, i)),
        some_match(s, i, valid_second_ident_char_at(s, i)),
        0 <= i < s.len() && s[i] < 0x80 ==> match_end(s, i, i + 1),
        0 <= i < s.len() ==> i < char_end(s, i) && match_end(s, i, char_end(s, i)),
{
    if 0 <= i < s.len() {
        lemma_char_end(s, i);
        if valid_utf8(s) && s[i] < 0x80 {
            lemma_cut_point_after_ascii(s, i);
        }
    }
}

/// See [`lemma_single_char_at`].
pub proof fn lemma_valid_second_ident_char_at(s: Seq<u8>, i: int)
    ensures
        some_match(s, i, valid_second_ident_char_at(s, i)),
{
    lemma_single_char_at(s, i);
}

/// Hexadecimal digits end inside the input.
pub proof fn lemma_hex_digits_end(s: Seq<u8>, i: int, max: nat)
    requires
        0 <= i <= s.len(),
    ensures
        match_end(s, i, hex_digits_end(s, i, max)),
        hex_digits_end(s, i, max) <= i + max,
    decreases max,
{
    if max > 0 && i < s.len() && is_hex_digit(s[i]) {
        lemma_single_char_at(s, i);
        lemma_hex_digits_end(s, i + 1, (max - 1) as nat);
    }
}

/// What an escape matches.
pub proof fn lemma_escape_at(s: Seq<u8>, i: int)
    ensures
        some_match(s, i, escape_at(s, i)),
{
    if byte_at(s, i, 0x5c) && i + 1 < s.len() {
        lemma_single_char_at(s, i);
        lemma_single_char_at(s, i + 1);
        lemma_hex_digits_end(s, i + 1, 6);
        lemma_whitespace_at(s, hex_digits_end(s, i + 1, 6));
    }
}

/// White space ends inside the input, where no white space follows.
pub proof fn lemma_ws_star_end(s: Seq<u8>, i: int)
    requires
        0 <= i <= s.len(),
    ensures
        match_end(s, i, ws_star_end(s, i)),
        whitespace_at(s, ws_star_end(s, i)) is None,
    decreases s.len() - i,
{
    lemma_whitespace_at(s, i);
    match whitespace_at(s, i) {
        Some(end) => {
            lemma_ws_star_end(s, end);
        },
        None => {},
    }
}

/// An identifier goes on to inside the input.
pub proof fn lemma_ident_rest_end(s: Seq<u8>, i: int)
    requires
        0 <= i <= s.len(),
    ensures
        match_end(s, i, ident_rest_end(s, i)),
    decreases s.len() - i,
{
    lemma_valid_second_ident_char_at(s, i);
    lemma_escape_at(s, i);
    match or_else(valid_second_ident_char_at(s, i), escape_at(s, i)) {
        Some(end) => {
            lemma_ident_rest_end(s, end);
        },
        None => {},
    }
}

/// What an identifier matches.
pub proof fn lemma_ident_at(s: Seq<u8>, i: int)
    ensures
        some_match(s, i, ident_at(s, i)),
{
    if 0 <= i < s.len() {
        lemma_single_char_at(s, i);
        lemma_single_char_at(s, i + 1);
        lemma_escape_at(s, i);
        lemma_escape_at(s, i + 1);
        match ident_at(s, i) {
            Some(end) => {
                if byte_at(s, i, 0x2d) && byte_at(s, i + 1, 0x2d) {
                    lemma_ident_rest_end(s, i + 2);
                } else {
                    let first = if byte_at(s, i, 0x2d) {
                        i + 1
                    } else {
                        i
                    };
                    let start = or_else(valid_first_ident_char_at(s, first), escape_at(s, first));
                    lemma_ident_rest_end(s, start.unwrap());
                }
            },
            None => {},
        }
    }
}

/// What a piece of the inside of a string matches.
pub proof fn lemma_string_piece_at(s: Seq<u8>, i: int, quote: u8)
    ensures
        some_match(s, i, string_piece_at(s, i, quote)),
{
    lemma_single_char_at(s, i);
    lemma_escape_at(s, i);
    lemma_whitespace_at(s, i + 1);
}

/// The inside of a string ends inside the input.
pub proof fn lemma_string_inside_end(s: Seq<u8>, i: int, quote: u8)
    requires
        0 <= i <= s.len(),
    ensures
        match_end(s, i, string_inside_end(s, i, quote)),
    decreases s.len() - i,
{
    lemma_string_piece_at(s, i, quote);
    match string_piece_at(s, i, quote) {
        Some(end) => {
            lemma_string_inside_end(s, end, quote);
        },
        None => {},
    }
}

/// What a string matches: at least the two quotes, which are ASCII.
pub proof fn lemma_string_at(s: Seq<u8>, i: int)
    ensures
        some_match(s, i, quoted_at(s, i, 0x22)),
        some_match(s, i, quoted_at(s, i, 0x27)),
        some_match(s, i, string_at(s, i)),
        match string_at(s, i) {
            Some(end) => i + 2 <= end && (valid_utf8(s) && cut_point(s, i) ==> cut_point(s, i + 1)
                && cut_point(s, end - 1)),
            None => true,
        },
{
    if 0 <= i < s.len() {
        lemma_single_char_at(s, i);
        lemma_string_inside_end(s, i + 1, 0x22);
        lemma_string_inside_end(s, i + 1, 0x27);
        lemma_single_char_at(s, string_inside_end(s, i + 1, 0x22));
        lemma_single_char_at(s, string_inside_end(s, i + 1, 0x27));
    }
}

/// What a comment matches: at least the two delimiters, which are ASCII.
pub proof fn lemma_comment_at(s: Seq<u8>, i: int)
    ensures
        some_match(s, i, comment_at(s, i)),
        match comment_at(s, i) {
            Some(end) => i + 4 <= end && (valid_utf8(s) ==> cut_point(s, i + 2) && cut_point(
                s,
                end - 2,
            )),
            None => true,
        },
{
    if opens_comment(s, i) {
        lemma_comment_end(s, i + 2);
        if valid_utf8(s) {
            lemma_cut_point_after_ascii(s, i + 1);
            if comment_closed(s, i + 2) {
                lemma_cut_point_after_ascii(s, comment_end(s, i + 2) - 1);
            }
        }
    }
}

/// What a piece of a selector matches.
pub proof fn lemma_selector_piece_at(s: Seq<u8>, i: int)
    ensures
        some_match(s, i, selector_piece_at(s, i)),
{
    lemma_ident_at(s, i);
    lemma_string_at(s, i);
    lemma_single_char_at(s, i);
}

/// The pieces of a selector end inside the input.
pub proof fn lemma_selector_pieces_end(s: Seq<u8>, i: int)
    requires
        0 <= i <= s.len(),
    ensures
        match_end(s, i, selector_pieces_end(s, i)),
    decreases s.len() - i,
{
    lemma_selector_piece_at(s, i);
    match selector_piece_at(s, i) {
        Some(end) => {
            lemma_selector_pieces_end(s, end);
        },
        None => {},
    }
}

/// What a part of a selector matches.
pub proof fn lemma_selector_part_at(s: Seq<u8>, i: int)
    ensures
        some_match(s, i, selector_part_at(s, i)),
{
    lemma_selector_piece_at(s, i);
    match selector_piece_at(s, i) {
        Some(end) => {
            lemma_selector_pieces_end(s, end);
        },
        None => {},
    }
}

/// The parts of a selector end inside the input.
pub proof fn lemma_selector_parts_end(s: Seq<u8>, i: int)
    requires
        0 <= i <= s.len(),
    ensures
        match_end(s, i, selector_parts_end(s, i)),
    decreases s.len() - i,
{
    lemma_whitespace_at(s, i);
    match whitespace_at(s, i) {
        Some(part) => {
            lemma_selector_part_at(s, part);
            match selector_part_at(s, part) {
                Some(end) => {
                    lemma_selector_parts_end(s, end);
                },
                None => {},
            }
        },
        None => {},
    }
}

/// A selector ends inside the input.
pub proof fn lemma_selector_end(s: Seq<u8>, i: int)
    requires
        0 <= i <= s.len(),
    ensures
        match_end(s, i, selector_end(s, i)),
{
    lemma_selector_part_at(s, i);
    match selector_part_at(s, i) {
        Some(end) => {
            lemma_selector_parts_end(s, end);
        },
        None => {},
    }
}

/// What the marker matches.
pub proof fn lemma_important_at(s: Seq<u8>, i: int)
    ensures
        some_match(s, i, important_at(s, i)),
{
    if byte_at(s, i, 0x21) {
        lemma_single_char_at(s, i);
        lemma_ws_star_end(s, i + 1);
        let word = ws_star_end(s, i + 1);
        if word_at(s, word, important_word()) {
            assert(s.subrange(word, word + 9)[8] == important_word()[8]);
            if valid_utf8(s) {
                lemma_cut_point_after_ascii(s, word + 8);
            }
            lemma_ws_star_end(s, word + 9);
        }
    }
}

} // verus!
