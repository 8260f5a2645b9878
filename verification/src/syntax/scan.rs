//! The lexical productions, carried out on the bytes of an input.

use vstd::prelude::*;
use crate::parser::tokenizer::{lemma_comment_end, scan_comment, ASTERISK, SLASH};
use crate::syntax::lexical::{
    ascii_alphabetic_at, byte_at, char_end, comment_at, continuation_end, digit_at, escape_at,
    hex_digit_at, hex_digits_end, ident_at, ident_rest_end, important_at, important_word, is_digit,
    is_hex_digit, is_letter, is_selector_mark, lemma_escape_at, lemma_selector_part_at,
    lemma_selector_piece_at, lemma_single_char_at, lemma_string_piece_at, lemma_whitespace_at,
    lemma_ws_star_end, newline_at, not_ascii_at, or_else, quoted_at, selector_end, selector_part_at,
    selector_parts_end, selector_piece_at, selector_pieces_end, string_at, string_inside_end,
    string_piece_at, valid_first_ident_char_at, valid_second_ident_char_at, whitespace_at, word_at,
    ws_star_end,
};

verus! {

/// An offset that was found, as the productions give it.
pub open spec fn found(r: Option<usize>) -> Option<int> {
    match r {
        Some(end) => Some(end as int),
        None => None,
    }
}

/// Whether the byte `b` stands at `i`.
pub fn has_byte(bytes: &[u8], i: usize, b: u8) -> (r: bool)
    ensures
        r == byte_at(bytes@, i as int, b),
        bytes@.len() <= usize::MAX,
{
    i < bytes.len() && bytes[i] == b
}

/// Whether `b` is an ASCII digit.
pub fn digit_byte(b: u8) -> (r: bool)
    ensures
        r == is_digit(b),
{
    0x30 <= b && b <= 0x39
}

/// Whether `b` is an ASCII hexadecimal digit.
pub fn hex_digit_byte(b: u8) -> (r: bool)
    ensures
        r == is_hex_digit(b),
{
    digit_byte(b) || (0x61 <= b && b <= 0x66) || (0x41 <= b && b <= 0x46)
}

/// Whether `b` is an ASCII letter.
pub fn letter_byte(b: u8) -> (r: bool)
    ensures
        r == is_letter(b),
{
    (0x61 <= b && b <= 0x7a) || (0x41 <= b && b <= 0x5a)
}

/// Whether `b` is one of the marks that may stand in a selector.
pub fn selector_mark_byte(b: u8) -> (r: bool)
    ensures
        r == is_selector_mark(b),
{
    b == 0x2a || b == 0x2b || b == 0x3f || b == 0x3c || b == 0x3e || b == 0x7c || b == 0x5b || b
        == 0x5d || b == 0x2e || b == 0x23 || b == 0x7e || b == 0x3d || b == 0x24 || b == 0x5e || b
        == 0x28 || b == 0x29 || b == 0x25 || b == 0x3a || b == 0x26
}

/// The offset behind the character that starts at `i`.
pub fn scan_char(bytes: &[u8], i: usize) -> (r: usize)
    requires
        i < bytes@.len(),
    ensures
        r == char_end(bytes@, i as int),
        i < r <= bytes@.len(),
{
    let _ = bytes.len();
    let mut j: usize = i + 1;
    while j < bytes.len() && 0x80 <= bytes[j] && bytes[j] <= 0xbf
        invariant
            i < j <= bytes@.len(),
            continuation_end(bytes@, j as int) == char_end(bytes@, i as int),
        decreases bytes@.len() - j,
    {
        j += 1;
    }
    j
}

/// A line break at `i`.
pub fn scan_newline(bytes: &[u8], i: usize) -> (r: Option<usize>)
    ensures
        found(r) == newline_at(bytes@, i as int),
{
    if has_byte(bytes, i, 0x0a) {
        Some(i + 1)
    } else if has_byte(bytes, i, 0x0d) {
        if has_byte(bytes, i + 1, 0x0a) {
            Some(i + 2)
        } else {
            Some(i + 1)
        }
    } else {
        None
    }
}

/// One white space at `i`.
pub fn scan_whitespace(bytes: &[u8], i: usize) -> (r: Option<usize>)
    ensures
        found(r) == whitespace_at(bytes@, i as int),
{
    if has_byte(bytes, i, 0x20) || has_byte(bytes, i, 0x09) {
        Some(i + 1)
    } else {
        scan_newline(bytes, i)
    }
}

/// One hexadecimal digit at `i`.
pub fn scan_hex_digit(bytes: &[u8], i: usize) -> (r: Option<usize>)
    ensures
        found(r) == hex_digit_at(bytes@, i as int),
{
    if i < bytes.len() && hex_digit_byte(bytes[i]) {
        Some(i + 1)
    } else {
        None
    }
}

/// One digit at `i`.
pub fn scan_digit(bytes: &[u8], i: usize) -> (r: Option<usize>)
    ensures
        found(r) == digit_at(bytes@, i as int),
{
    if i < bytes.len() && digit_byte(bytes[i]) {
        Some(i + 1)
    } else {
        None
    }
}

/// An escape at `i`.
pub fn scan_escape(bytes: &[u8], i: usize) -> (r: Option<usize>)
    ensures
        found(r) == escape_at(bytes@, i as int),
{
    if !has_byte(bytes, i, 0x5c) || bytes.len() - i <= 1 {
        return None;
    }
    let next = bytes[i + 1];
    if hex_digit_byte(next) {
        let mut digits: usize = i + 1;
        let mut left: usize = 6;
        while left > 0 && digits < bytes.len() && hex_digit_byte(bytes[digits])
            invariant
                i < digits <= bytes@.len(),
                left <= 6,
                hex_digits_end(bytes@, digits as int, left as nat) == hex_digits_end(
                    bytes@,
                    i + 1,
                    6,
                ),
            decreases left,
        {
            digits += 1;
            left -= 1;
        }
        match scan_whitespace(bytes, digits) {
            Some(end) => Some(end),
            None => Some(digits),
        }
    } else if scan_newline(bytes, i + 1).is_none() {
        Some(scan_char(bytes, i + 1))
    } else {
        None
    }
}

/// The offset behind the white space from `i` on.
pub fn scan_ws_star(bytes: &[u8], i: usize) -> (r: usize)
    requires
        i <= bytes@.len(),
    ensures
        r == ws_star_end(bytes@, i as int),
        i <= r <= bytes@.len(),
{
    let mut j: usize = i;
    loop
        invariant
            i <= j <= bytes@.len(),
            ws_star_end(bytes@, j as int) == ws_star_end(bytes@, i as int),
        decreases bytes@.len() - j,
    {
        proof {
            lemma_whitespace_at(bytes@, j as int);
        }
        match scan_whitespace(bytes, j) {
            Some(end) => {
                j = end;
            },
            None => {
                return j;
            },
        }
    }
}

/// One character at `i` that is not ASCII.
pub fn scan_not_ascii(bytes: &[u8], i: usize) -> (r: Option<usize>)
    ensures
        found(r) == not_ascii_at(bytes@, i as int),
{
    if i < bytes.len() && bytes[i] >= 0x80 {
        Some(scan_char(bytes, i))
    } else {
        None
    }
}

/// One ASCII letter at `i`.
pub fn scan_ascii_alphabetic(bytes: &[u8], i: usize) -> (r: Option<usize>)
    ensures
        found(r) == ascii_alphabetic_at(bytes@, i as int),
{
    if i < bytes.len() && letter_byte(bytes[i]) {
        Some(i + 1)
    } else {
        None
    }
}

/// A character at `i` that may start an identifier.
pub fn scan_valid_first_ident_char(bytes: &[u8], i: usize) -> (r: Option<usize>)
    ensures
        found(r) == valid_first_ident_char_at(bytes@, i as int),
{
    if scan_ascii_alphabetic(bytes, i).is_some() || has_byte(bytes, i, 0x5f) {
        Some(i + 1)
    } else {
        scan_not_ascii(bytes, i)
    }
}

/// A character at `i` that may go on an identifier.
pub fn scan_valid_second_ident_char(bytes: &[u8], i: usize) -> (r: Option<usize>)
    ensures
        found(r) == valid_second_ident_char_at(bytes@, i as int),
{
    match scan_valid_first_ident_char(bytes, i) {
        Some(end) => Some(end),
        None => {
            if scan_digit(bytes, i).is_some() || has_byte(bytes, i, 0x2d) {
                Some(i + 1)
            } else {
                None
            }
        },
    }
}

/// The first of two alternatives that matches.
pub fn first_of(first: Option<usize>, second: Option<usize>) -> (r: Option<usize>)
    ensures
        found(r) == or_else(found(first), found(second)),
{
    match first {
        Some(end) => Some(end),
        None => second,
    }
}

/// An identifier at `i`.
pub fn scan_ident(bytes: &[u8], i: usize) -> (r: Option<usize>)
    ensures
        found(r) == ident_at(bytes@, i as int),
{
    let start = if has_byte(bytes, i, 0x2d) && has_byte(bytes, i + 1, 0x2d) {
        Some(i + 2)
    } else {
        let first = if has_byte(bytes, i, 0x2d) {
            i + 1
        } else {
            i
        };
        first_of(scan_valid_first_ident_char(bytes, first), scan_escape(bytes, first))
    };
    let mut j: usize = match start {
        Some(j) => j,
        None => {
            return None;
        },
    };
    proof {
        lemma_single_char_at(bytes@, i as int);
        lemma_single_char_at(bytes@, i + 1);
        lemma_escape_at(bytes@, i as int);
        lemma_escape_at(bytes@, i + 1);
    }
    let ghost rest = j;
    loop
        invariant
            j <= bytes@.len(),
            ident_at(bytes@, i as int) == Some(ident_rest_end(bytes@, rest as int)),
            ident_rest_end(bytes@, j as int) == ident_rest_end(bytes@, rest as int),
        decreases bytes@.len() - j,
    {
        proof {
            lemma_single_char_at(bytes@, j as int);
            lemma_escape_at(bytes@, j as int);
        }
        match first_of(scan_valid_second_ident_char(bytes, j), scan_escape(bytes, j)) {
            Some(end) => {
                j = end;
            },
            None => {
                return Some(j);
            },
        }
    }
}

/// One piece of the inside of a string that `quote` delimits, at `i`.
pub fn scan_string_piece(bytes: &[u8], i: usize, quote: u8) -> (r: Option<usize>)
    ensures
        found(r) == string_piece_at(bytes@, i as int, quote),
{
    if i < bytes.len() && bytes[i] != quote && bytes[i] != 0x5c && scan_newline(
        bytes,
        i,
    ).is_none() {
        return Some(scan_char(bytes, i));
    }
    match scan_escape(bytes, i) {
        Some(end) => Some(end),
        None => {
            if has_byte(bytes, i, 0x5c) {
                scan_newline(bytes, i + 1)
            } else {
                None
            }
        },
    }
}

/// A string that `quote` delimits, at `i`.
pub fn scan_quoted(bytes: &[u8], i: usize, quote: u8) -> (r: Option<usize>)
    ensures
        found(r) == quoted_at(bytes@, i as int, quote),
{
    if !has_byte(bytes, i, quote) {
        return None;
    }
    let mut j: usize = i + 1;
    loop
        invariant
            i < j <= bytes@.len(),
            byte_at(bytes@, i as int, quote),
            string_inside_end(bytes@, j as int, quote) == string_inside_end(bytes@, i + 1, quote),
        decreases bytes@.len() - j,
    {
        proof {
            lemma_string_piece_at(bytes@, j as int, quote);
        }
        match scan_string_piece(bytes, j, quote) {
            Some(end) => {
                j = end;
            },
            None => {
                if has_byte(bytes, j, quote) {
                    return Some(j + 1);
                } else {
                    return None;
                }
            },
        }
    }
}

/// A string at `i`.
pub fn scan_string(bytes: &[u8], i: usize) -> (r: Option<usize>)
    ensures
        found(r) == string_at(bytes@, i as int),
{
    first_of(scan_quoted(bytes, i, 0x22), scan_quoted(bytes, i, 0x27))
}

/// A comment at `i`.
pub fn scan_closed_comment(bytes: &[u8], i: usize) -> (r: Option<usize>)
    ensures
        found(r) == comment_at(bytes@, i as int),
{
    if has_byte(bytes, i, SLASH) && has_byte(bytes, i + 1, ASTERISK) {
        let end = scan_comment(bytes, i + 2);
        proof {
            lemma_comment_end(bytes@, i + 2);
        }
        if end - i >= 4 && bytes[end - 2] == ASTERISK && bytes[end - 1] == SLASH {
            Some(end)
        } else {
            None
        }
    } else {
        None
    }
}

/// One piece of a selector at `i`.
pub fn scan_selector_piece(bytes: &[u8], i: usize) -> (r: Option<usize>)
    ensures
        found(r) == selector_piece_at(bytes@, i as int),
{
    match scan_ident(bytes, i) {
        Some(end) => Some(end),
        None => match scan_string(bytes, i) {
            Some(end) => Some(end),
            None => {
                if scan_digit(bytes, i).is_some() || (i < bytes.len() && selector_mark_byte(
                    bytes[i],
                )) {
                    Some(i + 1)
                } else {
                    None
                }
            },
        },
    }
}

/// One part of a selector at `i`.
pub fn scan_selector_part(bytes: &[u8], i: usize) -> (r: Option<usize>)
    ensures
        found(r) == selector_part_at(bytes@, i as int),
{
    proof {
        lemma_selector_piece_at(bytes@, i as int);
    }
    let mut j: usize = match scan_selector_piece(bytes, i) {
        Some(j) => j,
        None => {
            return None;
        },
    };
    let ghost first = j;
    loop
        invariant
            j <= bytes@.len(),
            selector_part_at(bytes@, i as int) == Some(
                selector_pieces_end(bytes@, first as int),
            ),
            selector_pieces_end(bytes@, j as int) == selector_pieces_end(bytes@, first as int),
        decreases bytes@.len() - j,
    {
        proof {
            lemma_selector_piece_at(bytes@, j as int);
        }
        match scan_selector_piece(bytes, j) {
            Some(end) => {
                j = end;
            },
            None => {
                return Some(j);
            },
        }
    }
}

/// The offset behind the selector at `i`.
pub fn scan_selector(bytes: &[u8], i: usize) -> (r: usize)
    requires
        i <= bytes@.len(),
    ensures
        r == selector_end(bytes@, i as int),
        i <= r <= bytes@.len(),
{
    proof {
        lemma_selector_part_at(bytes@, i as int);
    }
    let mut j: usize = match scan_selector_part(bytes, i) {
        Some(j) => j,
        None => {
            return i;
        },
    };
    let ghost first = j;
    loop
        invariant
            i <= j <= bytes@.len(),
            selector_end(bytes@, i as int) == selector_parts_end(bytes@, first as int),
            selector_parts_end(bytes@, j as int) == selector_parts_end(bytes@, first as int),
        decreases bytes@.len() - j,
    {
        proof {
            lemma_whitespace_at(bytes@, j as int);
        }
        match scan_whitespace(bytes, j) {
            Some(part) => {
                proof {
                    lemma_selector_part_at(bytes@, part as int);
                }
                match scan_selector_part(bytes, part) {
                    Some(end) => {
                        j = end;
                    },
                    None => {
                        return j;
                    },
                }
            },
            None => {
                return j;
            },
        }
    }
}

/// Whether the word `important` stands at `i`.
pub fn has_important_word(bytes: &[u8], i: usize) -> (r: bool)
    requires
        i <= bytes@.len(),
    ensures
        r == word_at(bytes@, i as int, important_word()),
{
    if bytes.len() - i < 9 {
        return false;
    }
    let r = bytes[i] == 0x69 && bytes[i + 1] == 0x6d && bytes[i + 2] == 0x70 && bytes[i + 3]
        == 0x6f && bytes[i + 4] == 0x72 && bytes[i + 5] == 0x74 && bytes[i + 6] == 0x61 && bytes[i
        + 7] == 0x6e && bytes[i + 8] == 0x74;
    proof {
        let part = bytes@.subrange(i as int, i + 9);
        if r {
            assert(part =~= important_word());
        } else {
            assert(part[0] == bytes@[i as int]);
            assert(part[1] == bytes@[i + 1]);
            assert(part[2] == bytes@[i + 2]);
            assert(part[3] == bytes@[i + 3]);
            assert(part[4] == bytes@[i + 4]);
            assert(part[5] == bytes@[i + 5]);
            assert(part[6] == bytes@[i + 6]);
            assert(part[7] == bytes@[i + 7]);
            assert(part[8] == bytes@[i + 8]);
        }
    }
    r
}

/// The marker at `i`.
pub fn scan_important(bytes: &[u8], i: usize) -> (r: Option<usize>)
    ensures
        found(r) == important_at(bytes@, i as int),
{
    if !has_byte(bytes, i, 0x21) {
        return None;
    }
    let word = scan_ws_star(bytes, i + 1);
    proof {
        lemma_ws_star_end(bytes@, i + 1);
    }
    if has_important_word(bytes, word) {
        Some(scan_ws_star(bytes, word + 9))
    } else {
        None
    }
}

} // verus!
