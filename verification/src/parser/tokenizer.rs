//! The scanner: a single forward pass that cuts the source into tokens.
//!
//! Each token is classified by its first byte. White space forms maximal
//! runs, a comment runs through its closing delimiter (or to the end of the
//! input when none follows), the five structural characters stand alone, and
//! everything else forms words. A string inside a word belongs to the word
//! as a whole, with whatever stands between its quotes.

use vstd::prelude::*;
use vstd::string::*;
use vstd::utf8::*;
use crate::syntax::lexical::{lemma_string_at, string_at};
use crate::syntax::scan::scan_string;
use crate::text::{
    bytes_of, cut_point, lemma_bytes_of, lemma_cut_point_after_ascii, lemma_cut_point_is_boundary,
    slice_between, text_between,
};

verus! {

/// The line feed.
pub const NEWLINE: u8 = 0x0a;

/// The space.
pub const SPACE: u8 = 0x20;

/// The tab.
pub const TAB: u8 = 0x09;

/// The carriage return.
pub const CR: u8 = 0x0d;

/// The form feed.
pub const FEED: u8 = 0x0c;

/// `/`, which starts the opening delimiter of a comment and ends the closing one.
pub const SLASH: u8 = 0x2f;

/// `*`, which ends the opening delimiter of a comment and starts the closing one.
pub const ASTERISK: u8 = 0x2a;

/// `{`.
pub const OPEN_CURLY: u8 = 0x7b;

/// `}`.
pub const CLOSED_CURLY: u8 = 0x7d;

/// `;`.
pub const SEMICOLON: u8 = 0x3b;

/// `:`.
pub const COLON: u8 = 0x3a;

/// `@`.
pub const AT: u8 = 0x40;

/// What a token is.
#[derive(Debug, PartialEq, Eq, Clone, Copy, Structural)]
pub enum TokenKind {
    /// A run of white space.
    Space,
    /// A comment with its delimiters.
    Comment,
    /// A run of anything else.
    Word,
    /// `{`.
    OpenCurly,
    /// `}`.
    ClosedCurly,
    /// `:`.
    Colon,
    /// `;`.
    Semicolon,
    /// `@`.
    At,
}

/// A token: its kind, the offset of its first byte and the offset of its last.
#[derive(Debug, PartialEq, Eq, Clone, Copy, Structural)]
pub struct Token(pub TokenKind, pub usize, pub usize);

/// White space: space, tab, line feed, carriage return, form feed.
pub open spec fn is_space(b: u8) -> bool {
    b == SPACE || b == TAB || b == NEWLINE || b == CR || b == FEED
}

/// The kind of the structural character `b`, if it is one.
pub open spec fn punctuation(b: u8) -> Option<TokenKind> {
    if b == OPEN_CURLY {
        Some(TokenKind::OpenCurly)
    } else if b == CLOSED_CURLY {
        Some(TokenKind::ClosedCurly)
    } else if b == COLON {
        Some(TokenKind::Colon)
    } else if b == SEMICOLON {
        Some(TokenKind::Semicolon)
    } else if b == AT {
        Some(TokenKind::At)
    } else {
        None
    }
}

/// Whether the opening delimiter of a comment stands at `i`.
pub open spec fn opens_comment(src: Seq<u8>, i: int) -> bool {
    0 <= i && i + 1 < src.len() && src[i] == SLASH && src[i + 1] == ASTERISK
}

/// Whether the closing delimiter of a comment stands at `i`.
pub open spec fn closes_comment(src: Seq<u8>, i: int) -> bool {
    0 <= i && i + 1 < src.len() && src[i] == ASTERISK && src[i + 1] == SLASH
}

/// Whether a word cannot go on at `i`: the input ends, or white space, a
/// structural character or a comment follows.
pub open spec fn ends_word(src: Seq<u8>, i: int) -> bool {
    i < 0 || i >= src.len() || is_space(src[i]) || punctuation(src[i]) is Some || opens_comment(
        src,
        i,
    )
}

/// The offset behind the run of white space that starts at `i`.
pub open spec fn space_end(src: Seq<u8>, i: int) -> int
    decreases src.len() - i,
{
    if 0 <= i < src.len() && is_space(src[i]) {
        space_end(src, i + 1)
    } else {
        i
    }
}

/// The offset behind a comment whose inside starts at `i`: behind the first
/// closing delimiter from `i` on, or the end of the input.
pub open spec fn comment_end(src: Seq<u8>, i: int) -> int
    decreases src.len() - i,
{
    if i < 0 || i >= src.len() {
        src.len() as int
    } else if closes_comment(src, i) {
        i + 2
    } else {
        comment_end(src, i + 1)
    }
}

/// The offset behind the word that goes on at `i`. A word goes on over a
/// whole string where one starts, and over one byte otherwise; a quote that
/// starts no string is a byte like another.
pub open spec fn word_end(src: Seq<u8>, i: int) -> int
    decreases src.len() - i,
    via word_end_decreases
{
    if ends_word(src, i) {
        i
    } else {
        match string_at(src, i) {
            Some(end) => word_end(src, end),
            None => word_end(src, i + 1),
        }
    }
}

#[via_fn]
proof fn word_end_decreases(src: Seq<u8>, i: int) {
    lemma_string_at(src, i);
}

/// The kind of the token that starts at `i`.
pub open spec fn token_kind(src: Seq<u8>, i: int) -> TokenKind
    recommends
        0 <= i < src.len(),
{
    if is_space(src[i]) {
        TokenKind::Space
    } else if opens_comment(src, i) {
        TokenKind::Comment
    } else if punctuation(src[i]) is Some {
        punctuation(src[i]).unwrap()
    } else {
        TokenKind::Word
    }
}

/// The offset behind the token that starts at `i`.
pub open spec fn token_end(src: Seq<u8>, i: int) -> int
    recommends
        0 <= i < src.len(),
{
    if is_space(src[i]) {
        space_end(src, i)
    } else if opens_comment(src, i) {
        comment_end(src, i + 2)
    } else if punctuation(src[i]) is Some {
        i + 1
    } else {
        word_end(src, i)
    }
}

/// The token that starts at `i`; none at the end of the input.
pub open spec fn token_at(src: Seq<u8>, i: int) -> Option<Token> {
    if 0 <= i < src.len() {
        Some(Token(token_kind(src, i), i as usize, (token_end(src, i) - 1) as usize))
    } else {
        None
    }
}

/// The tokens of the input from offset `i` on.
pub open spec fn tokens_from(src: Seq<u8>, i: int) -> Seq<Token>
    decreases src.len() - i,
    via tokens_from_decreases
{
    if 0 <= i < src.len() {
        seq![token_at(src, i).unwrap()] + tokens_from(src, token_end(src, i))
    } else {
        seq![]
    }
}

#[via_fn]
proof fn tokens_from_decreases(src: Seq<u8>, i: int) {
    if 0 <= i < src.len() {
        lemma_token_end(src, i);
    }
}

/// Scanning a text again gives the same tokens: the tokens depend on the
/// characters of the text alone.
pub proof fn lemma_tokens_of_equal_texts(first: &str, second: &str)
    requires
        first@ == second@,
    ensures
        tokens_from(bytes_of(first), 0) == tokens_from(bytes_of(second), 0),
{
}

/// A run of white space is maximal: it holds white space only, and none follows it.
pub proof fn lemma_space_end(src: Seq<u8>, i: int)
    requires
        0 <= i <= src.len(),
    ensures
        i <= space_end(src, i) <= src.len(),
        forall|k: int| i <= k < space_end(src, i) ==> is_space(#[trigger] src[k]),
        space_end(src, i) < src.len() ==> !is_space(src[space_end(src, i)]),
    decreases src.len() - i,
{
    if i < src.len() && is_space(src[i]) {
        lemma_space_end(src, i + 1);
    }
}

/// Whether the comment whose inside starts at `i` is closed by a delimiter.
pub open spec fn comment_closed(src: Seq<u8>, i: int) -> bool {
    i + 2 <= comment_end(src, i) && closes_comment(src, comment_end(src, i) - 2)
}

/// A comment ends behind the first closing delimiter of its inside, or, when
/// there is none, at the end of the input.
pub proof fn lemma_comment_end(src: Seq<u8>, i: int)
    requires
        0 <= i <= src.len(),
    ensures
        i <= comment_end(src, i) <= src.len(),
        forall|k: int| i <= k < comment_end(src, i) - 2 ==> !closes_comment(src, k),
        comment_end(src, i) < src.len() ==> comment_closed(src, i),
        !comment_closed(src, i) ==> forall|k: int| i <= k ==> !closes_comment(src, k),
    decreases src.len() - i,
{
    if i < src.len() && !closes_comment(src, i) {
        lemma_comment_end(src, i + 1);
    }
}

/// A word ends inside the input, where it cannot go on.
pub proof fn lemma_word_end(src: Seq<u8>, i: int)
    requires
        0 <= i <= src.len(),
    ensures
        i <= word_end(src, i) <= src.len(),
        ends_word(src, word_end(src, i)),
    decreases src.len() - i,
{
    if !ends_word(src, i) {
        lemma_string_at(src, i);
        match string_at(src, i) {
            Some(end) => {
                lemma_word_end(src, end);
            },
            None => {
                lemma_word_end(src, i + 1);
            },
        }
    }
}

/// A word without a quote is maximal: no byte of it could end it.
pub proof fn lemma_word_end_without_quotes(src: Seq<u8>, i: int)
    requires
        0 <= i <= src.len(),
        forall|k: int| i <= k < src.len() ==> src[k] != 0x22 && src[k] != 0x27,
    ensures
        forall|k: int| i <= k < word_end(src, i) ==> !ends_word(src, k),
    decreases src.len() - i,
{
    if !ends_word(src, i) {
        assert(string_at(src, i) is None);
        lemma_word_end_without_quotes(src, i + 1);
    }
}

/// No token is empty, and none reaches beyond the input.
pub proof fn lemma_token_end(src: Seq<u8>, i: int)
    requires
        0 <= i < src.len(),
    ensures
        i < token_end(src, i) <= src.len(),
{
    if is_space(src[i]) {
        lemma_space_end(src, i + 1);
    } else if opens_comment(src, i) {
        lemma_comment_end(src, i + 2);
    } else {
        lemma_string_at(src, i);
        match string_at(src, i) {
            Some(end) => {
                lemma_word_end(src, end);
            },
            None => {
                lemma_word_end(src, i + 1);
            },
        }
    }
}

/// The tokens cover the input from `i` on: none is empty, the first starts
/// at `i`, each starts behind the one before it, and the last ends with the
/// input.
pub proof fn lemma_tokens_from(src: Seq<u8>, i: int)
    requires
        0 <= i <= src.len() <= usize::MAX,
    ensures
        tokens_from(src, i).len() == 0 <==> i == src.len(),
        tokens_from(src, i).len() > 0 ==> tokens_from(src, i)[0].1 == i && tokens_from(
            src,
            i,
        ).last().2 == src.len() - 1,
        forall|k: int|
            0 <= k < tokens_from(src, i).len() ==> (#[trigger] tokens_from(src, i)[k]).1
                <= tokens_from(src, i)[k].2 < src.len(),
        forall|j: int, k: int|
            0 <= j && k == j + 1 && k < tokens_from(src, i).len() ==> (#[trigger] tokens_from(
                src,
                i,
            )[k]).1 == (#[trigger] tokens_from(src, i)[j]).2 + 1,
    decreases src.len() - i,
{
    if i < src.len() {
        lemma_token_end(src, i);
        let end = token_end(src, i);
        lemma_tokens_from(src, end);
        let first = seq![token_at(src, i).unwrap()];
        let rest = tokens_from(src, end);
        let all = tokens_from(src, i);
        assert(all == first + rest);
        assert forall|k: int| 0 <= k < all.len() implies (#[trigger] all[k]).1 <= all[k].2
            < src.len() by {
            if k > 0 {
                assert(all[k] == rest[k - 1]);
            }
        }
        assert forall|j: int, k: int| 0 <= j && k == j + 1 && k < all.len() implies (
        #[trigger] all[k]).1 == (#[trigger] all[j]).2 + 1 by {
            assert(all[k] == rest[j]);
            if j > 0 {
                assert(all[j] == rest[j - 1]);
            }
        }
        if rest.len() > 0 {
            assert(all.last() == rest.last());
        }
    }
}

/// In well-formed UTF-8 no token ends inside a character.
pub proof fn lemma_token_end_cut_point(src: Seq<u8>, i: int)
    requires
        valid_utf8(src),
        0 <= i < src.len(),
    ensures
        cut_point(src, token_end(src, i)),
{
    let e = token_end(src, i);
    lemma_token_end(src, i);
    if is_space(src[i]) {
        lemma_space_end(src, i);
        assert(is_space(src[e - 1]));
        lemma_cut_point_after_ascii(src, e - 1);
    } else if opens_comment(src, i) {
        lemma_comment_end(src, i + 2);
        if e < src.len() {
            lemma_cut_point_after_ascii(src, e - 1);
        }
    } else if punctuation(src[i]) is Some {
        lemma_cut_point_after_ascii(src, i);
    } else {
        lemma_word_end(src, i);
    }
}

/// Whether `b` is white space.
pub fn space_byte(b: u8) -> (r: bool)
    ensures
        r == is_space(b),
{
    b == SPACE || b == TAB || b == NEWLINE || b == CR || b == FEED
}

/// The kind of the structural character `b`, if it is one.
pub fn punctuation_kind(b: u8) -> (r: Option<TokenKind>)
    ensures
        r == punctuation(b),
{
    if b == OPEN_CURLY {
        Some(TokenKind::OpenCurly)
    } else if b == CLOSED_CURLY {
        Some(TokenKind::ClosedCurly)
    } else if b == COLON {
        Some(TokenKind::Colon)
    } else if b == SEMICOLON {
        Some(TokenKind::Semicolon)
    } else if b == AT {
        Some(TokenKind::At)
    } else {
        None
    }
}

/// Whether the bytes `first`, `second` stand at `i`.
fn pair_at(bytes: &[u8], i: usize, first: u8, second: u8) -> (r: bool)
    ensures
        r == (i + 1 < bytes@.len() && bytes@[i as int] == first && bytes@[i + 1] == second),
{
    i < bytes.len() && bytes.len() - i > 1 && bytes[i] == first && bytes[i + 1] == second
}

/// The offset behind the run of white space that starts at `i`.
fn scan_space(bytes: &[u8], i: usize) -> (e: usize)
    requires
        i <= bytes@.len(),
    ensures
        e == space_end(bytes@, i as int),
{
    let mut j: usize = i;
    while j < bytes.len() && space_byte(bytes[j])
        invariant
            i <= j <= bytes@.len(),
            space_end(bytes@, i as int) == space_end(bytes@, j as int),
        decreases bytes@.len() - j,
    {
        j += 1;
    }
    j
}

/// The offset behind a comment whose inside starts at `i`.
pub(crate) fn scan_comment(bytes: &[u8], i: usize) -> (e: usize)
    requires
        i <= bytes@.len(),
    ensures
        e == comment_end(bytes@, i as int),
{
    let mut j: usize = i;
    while j < bytes.len() && !pair_at(bytes, j, ASTERISK, SLASH)
        invariant
            i <= j <= bytes@.len(),
            comment_end(bytes@, i as int) == comment_end(bytes@, j as int),
        decreases bytes@.len() - j,
    {
        j += 1;
    }
    if j < bytes.len() {
        j + 2
    } else {
        j
    }
}

/// The offset behind the word that goes on at `i`.
fn scan_word(bytes: &[u8], i: usize) -> (e: usize)
    requires
        i <= bytes@.len(),
    ensures
        e == word_end(bytes@, i as int),
{
    let mut j: usize = i;
    while j < bytes.len() && !space_byte(bytes[j]) && punctuation_kind(bytes[j]).is_none()
        && !pair_at(bytes, j, SLASH, ASTERISK)
        invariant
            i <= j <= bytes@.len(),
            word_end(bytes@, i as int) == word_end(bytes@, j as int),
        decreases bytes@.len() - j,
    {
        proof {
            lemma_string_at(bytes@, j as int);
        }
        j = match scan_string(bytes, j) {
            Some(end) => end,
            None => j + 1,
        };
    }
    j
}

/// Scans the token that starts at `i`.
pub fn scan_token(bytes: &[u8], i: usize) -> (r: Option<Token>)
    ensures
        r == token_at(bytes@, i as int),
        match r {
            Some(token) => token.1 == i && i <= token.2 < bytes@.len() && token.2 + 1 == token_end(
                bytes@,
                i as int,
            ),
            None => i >= bytes@.len(),
        },
        bytes@.len() <= usize::MAX,
{
    if i >= bytes.len() {
        return None;
    }
    proof {
        lemma_token_end(bytes@, i as int);
    }
    let first = bytes[i];
    if space_byte(first) {
        let e = scan_space(bytes, i);
        Some(Token(TokenKind::Space, i, e - 1))
    } else if pair_at(bytes, i, SLASH, ASTERISK) {
        let e = scan_comment(bytes, i + 2);
        Some(Token(TokenKind::Comment, i, e - 1))
    } else {
        match punctuation_kind(first) {
            Some(kind) => Some(Token(kind, i, i)),
            None => {
                let e = scan_word(bytes, i);
                Some(Token(TokenKind::Word, i, e - 1))
            },
        }
    }
}

/// A scanner over one source text. It is used up by scanning: to scan a text
/// again, make a new one.
pub struct Tokenizer<'a> {
    source: &'a str,
    bytes: &'a [u8],
    pos: usize,
}

impl<'a> Tokenizer<'a> {
    #[verifier::type_invariant]
    spec fn well_formed(self) -> bool {
        &&& self.bytes@ == bytes_of(self.source)
        &&& self.pos <= self.bytes@.len()
        &&& cut_point(self.bytes@, self.pos as int)
    }

    /// The bytes of the source text.
    pub closed spec fn source(&self) -> Seq<u8> {
        self.bytes@
    }

    /// The offset of the first byte that has not been scanned yet.
    pub closed spec fn cursor(&self) -> int {
        self.pos as int
    }

    /// The characters that have not been scanned yet.
    pub open spec fn rest(&self) -> Seq<char> {
        text_between(self.source(), self.cursor(), self.source().len() as int)
    }

    /// The cursor, which stands inside the source and never inside a character.
    pub fn position(&self) -> (r: usize)
        ensures
            r == self.cursor(),
            r <= self.source().len() <= usize::MAX,
            valid_utf8(self.source()),
            cut_point(self.source(), self.cursor()),
    {
        proof {
            use_type_invariant(self);
            lemma_bytes_of(self.source);
        }
        let _ = self.bytes.len();
        self.pos
    }

    /// A scanner at the start of `input`.
    pub fn new(input: &'a str) -> (t: Tokenizer<'a>)
        ensures
            t.source() == bytes_of(input),
            t.cursor() == 0,
    {
        proof {
            lemma_bytes_of(input);
            lemma_cut_point_is_boundary(bytes_of(input), 0);
        }
        Tokenizer { source: input, bytes: input.as_bytes(), pos: 0 }
    }

    /// The bytes of the source text.
    pub fn bytes(&self) -> (r: &'a [u8])
        ensures
            r@ == self.source(),
    {
        self.bytes
    }

    /// The text in the bytes `from..to` of the source.
    pub fn slice(&self, from: usize, to: usize) -> (r: &'a str)
        requires
            from <= to,
            cut_point(self.source(), from as int),
            cut_point(self.source(), to as int),
        ensures
            r@ == text_between(self.source(), from as int, to as int),
    {
        proof {
            use_type_invariant(self);
        }
        slice_between(self.source, from, to)
    }

    /// The token at the cursor, which stays where it is.
    pub fn peek(&self) -> (r: Option<Token>)
        ensures
            r == token_at(self.source(), self.cursor()),
    {
        scan_token(self.bytes, self.pos)
    }

    /// The token at the cursor, behind which the cursor then stands; `None`
    /// at the end of the input, where the cursor stays.
    pub fn next(&mut self) -> (r: Option<Token>)
        ensures
            r == token_at(old(self).source(), old(self).cursor()),
            final(self).source() == old(self).source(),
            final(self).cursor() == match r {
                Some(token) => token.2 + 1,
                None => old(self).cursor(),
            },
            old(self).cursor() <= final(self).cursor() <= old(self).source().len(),
        {
        proof {
            use_type_invariant(&*self);
            lemma_bytes_of(self.source);
        }
        let r = scan_token(self.bytes, self.pos);
        match r {
            Some(token) => {
                proof {
                    lemma_token_end(self.bytes@, self.pos as int);
                    lemma_token_end_cut_point(self.bytes@, self.pos as int);
                }
                self.pos = token.2 + 1;
            },
            None => {},
        }
        r
    }

    /// All the tokens from the cursor on, in order.
    pub fn collect(self) -> (r: Vec<Token>)
        ensures
            r@ == tokens_from(self.source(), self.cursor()),
    {
        let mut t = self;
        let mut tokens: Vec<Token> = Vec::new();
        let _ = t.position();
        loop
            invariant
                t.source() == self.source(),
                self.cursor() <= t.cursor() <= t.source().len(),
                tokens@ + tokens_from(t.source(), t.cursor()) == tokens_from(
                    self.source(),
                    self.cursor(),
                ),
            decreases t.source().len() - t.cursor(),
        {
            let before = t.position();
            proof {
                if before < t.source().len() {
                    lemma_token_end(t.source(), before as int);
                }
            }
            match t.next() {
                Some(token) => {
                    tokens.push(token);
                    proof {
                        assert(tokens_from(t.source(), before as int) == seq![token] + tokens_from(
                            t.source(),
                            t.cursor(),
                        ));
                        assert(tokens@ + tokens_from(t.source(), t.cursor()) =~= tokens@.drop_last()
                            + tokens_from(t.source(), before as int));
                    }
                },
                None => {
                    proof {
                        assert(tokens@ + tokens_from(t.source(), t.cursor()) =~= tokens@);
                    }
                    return tokens;
                },
            }
        }
    }

    /// The `n`-th character from the cursor on, counted from 0, with the
    /// offset of its first byte; `None` when fewer characters are left. The
    /// cursor stays where it is.
    pub fn peek_n(&mut self, n: usize) -> (r: Option<(usize, char)>)
        ensures
            *final(self) == *old(self),
            r == if n < old(self).rest().len() {
                Some(
                    (
                        (old(self).cursor() + encode_utf8(
                            old(self).rest().take(n as int),
                        ).len()) as usize,
                        old(self).rest()[n as int],
                    ),
                )
            } else {
                None
            },
    {
        proof {
            use_type_invariant(&*self);
            lemma_bytes_of(self.source);
        }
        let rest = slice_between(self.source, self.pos, self.bytes.len());
        if n < rest.unicode_len() {
            let c = rest.get_char(n);
            let before = rest.substring_char(0, n);
            proof {
                lemma_prefix_bytes(rest@, n as int);
            }
            Some((self.pos + before.len(), c))
        } else {
            None
        }
    }
}

/// The bytes of the first `n` characters of a text are the first bytes of the text.
pub proof fn lemma_prefix_bytes(s: Seq<char>, n: int)
    requires
        0 <= n <= s.len(),
    ensures
        encode_utf8(s.take(n)).len() <= encode_utf8(s).len(),
        encode_utf8(s.take(n)) == encode_utf8(s).take(encode_utf8(s.take(n)).len() as int),
    decreases n,
{
    if n == 0 {
        assert(s.take(0) =~= Seq::<char>::empty());
        assert(encode_utf8(s.take(0)) =~= Seq::<u8>::empty());
        assert(encode_utf8(s).take(0) =~= Seq::<u8>::empty());
    } else {
        let head = encode_scalar(s[0] as u32);
        assert(s.take(n)[0] == s[0]);
        assert(s.take(n).drop_first() =~= s.drop_first().take(n - 1));
        lemma_prefix_bytes(s.drop_first(), n - 1);
        let tail = encode_utf8(s.drop_first());
        let part = encode_utf8(s.drop_first().take(n - 1));
        assert(encode_utf8(s) == head + tail);
        assert(encode_utf8(s.take(n)) == head + part);
        assert(head + part =~= (head + tail).take((head + part).len() as int));
    }
}

} // verus!
