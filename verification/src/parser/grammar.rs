//! The grammar, as functions from a source and an offset to what is parsed
//! there.
//!
//! Each production takes the bytes of the source and the offset `cur` of the
//! first byte that has not been consumed, and gives either the model of the
//! node together with the offset behind what it consumed, or the error.

use vstd::prelude::*;
use vstd::utf8::*;
use crate::ast::{
    at_rule_spans, block_child_spans, block_spans, comment_spans, root_spans, rule_spans,
    AtRuleView, BlockChildView, CommentView, DeclarationView, RootChildView, RootView, RuleView,
};
use crate::parser::error::ParseError;
use crate::parser::tokenizer::{
    comment_closed, lemma_comment_end, lemma_token_end, lemma_token_end_cut_point, opens_comment,
    token_end, token_kind, TokenKind,
};
use crate::text::{
    bytes_of, cut_point, lemma_cut_point_after_ascii, lemma_cut_point_is_boundary, text_between,
    trimmed,
};

verus! {

/// Which tokens a skip passes over.
#[derive(Debug, PartialEq, Eq, Clone, Copy, Structural)]
pub enum Skip {
    /// White space.
    Spaces,
    /// White space and comments.
    SpacesAndComments,
    /// Everything up to the next opening brace.
    UntilOpenCurly,
}

impl Skip {
    /// Whether the skip passes over a token of the given kind.
    pub open spec fn passes(self, kind: TokenKind) -> bool {
        match self {
            Skip::Spaces => kind == TokenKind::Space,
            Skip::SpacesAndComments => kind == TokenKind::Space || kind == TokenKind::Comment,
            Skip::UntilOpenCurly => kind != TokenKind::OpenCurly,
        }
    }
}

/// The kind of the token at `cur`; none at the end of the input.
pub open spec fn kind_at(src: Seq<u8>, cur: int) -> Option<TokenKind> {
    if 0 <= cur < src.len() {
        Some(token_kind(src, cur))
    } else {
        None
    }
}

/// The offset of the last byte consumed before `cur`; 0 when nothing was.
pub open spec fn last_end(cur: int) -> int {
    if cur > 0 {
        cur - 1
    } else {
        0
    }
}

/// How many bytes are left from `cur` on.
pub open spec fn remaining(src: Seq<u8>, cur: int) -> nat {
    if 0 <= cur <= src.len() {
        (src.len() - cur) as nat
    } else {
        0
    }
}

/// The offset reached from `cur` by passing over tokens as `what` says.
pub open spec fn skip_while(src: Seq<u8>, cur: int, what: Skip) -> int
    decreases src.len() - cur,
    via skip_while_decreases
{
    if 0 <= cur < src.len() && what.passes(token_kind(src, cur)) {
        skip_while(src, token_end(src, cur), what)
    } else {
        cur
    }
}

#[via_fn]
proof fn skip_while_decreases(src: Seq<u8>, cur: int, what: Skip) {
    if 0 <= cur < src.len() {
        lemma_token_end(src, cur);
    }
}

/// The error for a token of kind `kind` that is missing at `cur`.
pub open spec fn missing(src: Seq<u8>, cur: int, kind: TokenKind) -> ParseError {
    if 0 <= cur < src.len() {
        ParseError::ExpectedToken(kind, cur as usize)
    } else {
        ParseError::UnexpectedEndOfInput
    }
}

/// Consumes a token of kind `kind` at `cur`: the offset behind it, or the
/// error when another token, or none, stands there.
pub open spec fn expect(src: Seq<u8>, cur: int, kind: TokenKind) -> Result<int, ParseError> {
    if kind_at(src, cur) == Some(kind) {
        Ok(token_end(src, cur))
    } else {
        Err(missing(src, cur, kind))
    }
}

/// The offset at which the text `from..to` is cut for a selector or for
/// parameters: where the first comment opens inside it, or `to`.
pub open spec fn comment_cut(src: Seq<u8>, from: int, to: int) -> int
    decreases to - from,
{
    if from >= to {
        to
    } else if opens_comment(src, from) && from + 1 < to {
        from
    } else {
        comment_cut(src, from + 1, to)
    }
}

/// The text of a selector or of parameters that stand in `from..to`: what
/// precedes the first comment, without the white space around it.
pub open spec fn prelude_text(src: Seq<u8>, from: int, to: int) -> Seq<char> {
    trimmed(text_between(src, from, comment_cut(src, from, to)))
}

/// The comment whose token starts at `cur`. Its text is what stands between
/// the delimiters; where the closing one is missing, the text runs to the end
/// of the input.
pub open spec fn comment_at(src: Seq<u8>, cur: int) -> CommentView {
    let end = token_end(src, cur);
    CommentView {
        text: text_between(
            src,
            cur + 2,
            if comment_closed(src, cur + 2) {
                end - 2
            } else {
                end
            },
        ),
        start: cur,
        end: end - 1,
    }
}

/// Whether the bytes `from..to` spell `word`.
pub open spec fn spells(src: Seq<u8>, from: int, to: int, word: &str) -> bool {
    0 <= from <= to <= src.len() && src.subrange(from, to) == bytes_of(word)
}

/// The offset behind the `!important` marker that starts at `cur`, if one
/// does: either the single word `!important`, or the word `!`, then white
/// space and comments, then the word `important`.
pub open spec fn important_end(src: Seq<u8>, cur: int) -> Option<int> {
    if kind_at(src, cur) == Some(TokenKind::Word) {
        let end = token_end(src, cur);
        if spells(src, cur, end, "!important") {
            Some(end)
        } else if spells(src, cur, end, "!") {
            let word = skip_while(src, end, Skip::SpacesAndComments);
            if kind_at(src, word) == Some(TokenKind::Word) && spells(
                src,
                word,
                token_end(src, word),
                "important",
            ) {
                Some(token_end(src, word))
            } else {
                None
            }
        } else {
            None
        }
    } else {
        None
    }
}

/// A declaration at `cur`: a word, a colon, a word, each pair with white
/// space and comments between, and then, behind white space, the marker if
/// there is one. The declaration ends with its value, or with the marker.
pub open spec fn declaration_at(src: Seq<u8>, cur: int) -> Result<
    (DeclarationView, int),
    ParseError,
> {
    match expect(src, cur, TokenKind::Word) {
        Err(e) => Err(e),
        Ok(prop_end) => {
            let colon = skip_while(src, prop_end, Skip::SpacesAndComments);
            match expect(src, colon, TokenKind::Colon) {
                Err(e) => Err(e),
                Ok(colon_end) => {
                    let value = skip_while(src, colon_end, Skip::SpacesAndComments);
                    match expect(src, value, TokenKind::Word) {
                        Err(e) => Err(e),
                        Ok(value_end) => {
                            let marker = skip_while(src, value_end, Skip::Spaces);
                            let marker_end = important_end(src, marker);
                            Ok(
                                (
                                    DeclarationView {
                                        prop: text_between(src, cur, prop_end),
                                        value: text_between(src, value, value_end),
                                        important: marker_end is Some,
                                        start: cur,
                                        end: match marker_end {
                                            Some(end) => end - 1,
                                            None => value_end - 1,
                                        },
                                    },
                                    match marker_end {
                                        Some(end) => end,
                                        None => marker,
                                    },
                                ),
                            )
                        },
                    }
                },
            }
        },
    }
}

/// What a list of block children gives when `first` stands before `rest`.
pub open spec fn prepend<T>(first: Seq<T>, rest: Result<(Seq<T>, int), ParseError>) -> Result<
    (Seq<T>, int),
    ParseError,
> {
    match rest {
        Ok((nodes, cur)) => Ok((first + nodes, cur)),
        Err(e) => Err(e),
    }
}

/// An at-rule at `cur`: `@`, a word for the name, white space and comments,
/// the parameters up to the opening brace, and a block.
pub open spec fn at_rule_at(src: Seq<u8>, cur: int) -> Result<(AtRuleView, int), ParseError>
    decreases remaining(src, cur), 0nat,
    via at_rule_at_decreases
{
    match expect(src, cur, TokenKind::At) {
        Err(e) => Err(e),
        Ok(name) => match expect(src, name, TokenKind::Word) {
            Err(e) => Err(e),
            Ok(name_end) => {
                let params = skip_while(src, name_end, Skip::SpacesAndComments);
                let brace = skip_while(src, params, Skip::UntilOpenCurly);
                match block_at(src, brace) {
                    Err(e) => Err(e),
                    Ok((nodes, end)) => Ok(
                        (
                            AtRuleView {
                                name: text_between(src, name, name_end),
                                params: prelude_text(src, params, brace),
                                nodes,
                                start: cur,
                                end: end - 1,
                            },
                            end,
                        ),
                    ),
                }
            },
        },
    }
}

/// A block at `cur`: an opening brace, a list of children, a closing brace.
pub open spec fn block_at(src: Seq<u8>, cur: int) -> Result<(Seq<BlockChildView>, int), ParseError>
    decreases remaining(src, cur), 3nat,
    via block_at_decreases
{
    match expect(src, cur, TokenKind::OpenCurly) {
        Err(e) => Err(e),
        Ok(inside) => match list_at(src, inside) {
            Err(e) => Err(e),
            Ok((nodes, brace)) => match expect(src, brace, TokenKind::ClosedCurly) {
                Err(e) => Err(e),
                Ok(end) => Ok((nodes, end)),
            },
        },
    }
}

/// A list of block children at `cur`: white space, the children, white space.
pub open spec fn list_at(src: Seq<u8>, cur: int) -> Result<(Seq<BlockChildView>, int), ParseError>
    decreases remaining(src, cur), 2nat,
    via list_at_decreases
{
    match items_at(src, skip_while(src, cur, Skip::Spaces)) {
        Err(e) => Err(e),
        Ok((nodes, end)) => Ok((nodes, skip_while(src, end, Skip::Spaces))),
    }
}

/// The result `r` of a production that started at `cur`, where it ends
/// behind `cur`. Where it is applied below it changes nothing, as
/// [`lemma_advancing`] shows; the definitions need it said to be
/// well-founded.
pub open spec fn advancing<T>(cur: int, r: Result<(T, int), ParseError>) -> Result<
    (T, int),
    ParseError,
> {
    match r {
        Ok((_, end)) => if end > cur {
            r
        } else {
            Err(ParseError::UnexpectedEndOfInput)
        },
        Err(e) => Err(e),
    }
}

/// The children of a block from `cur` on, up to the first token that starts
/// none.
///
/// A declaration is followed, behind white space and comments, by a
/// semicolon, behind which a list follows, or by the closing brace, which
/// ends the children. An at-rule is followed, behind white space and
/// comments, by a list. A comment stands for itself. Behind a list that
/// followed a semicolon or an at-rule, more children may follow.
pub open spec fn items_at(src: Seq<u8>, cur: int) -> Result<(Seq<BlockChildView>, int), ParseError>
    decreases remaining(src, cur), 1nat,
    via items_at_decreases
{
    match kind_at(src, cur) {
        Some(TokenKind::Word) => match declaration_at(src, cur) {
            Err(e) => Err(e),
            Ok((declaration, end)) => {
                let next = skip_while(src, end, Skip::SpacesAndComments);
                match kind_at(src, next) {
                    Some(TokenKind::Semicolon) => match advancing(cur, list_at(src, next + 1)) {
                        Err(e) => Err(e),
                        Ok((more, rest)) => prepend(
                            seq![BlockChildView::Declaration(declaration)] + more,
                            items_at(src, rest),
                        ),
                    },
                    Some(TokenKind::ClosedCurly) => Ok(
                        (seq![BlockChildView::Declaration(declaration)], next),
                    ),
                    Some(kind) => Err(ParseError::UnexpectedToken(kind, next as usize)),
                    None => Err(ParseError::UnexpectedEndOfInput),
                }
            },
        },
        Some(TokenKind::At) => match advancing(cur, at_rule_at(src, cur)) {
            Err(e) => Err(e),
            Ok((at_rule, end)) => match advancing(
                cur,
                list_at(src, skip_while(src, end, Skip::SpacesAndComments)),
            ) {
                Err(e) => Err(e),
                Ok((more, rest)) => prepend(
                    seq![BlockChildView::AtRule(at_rule)] + more,
                    items_at(src, rest),
                ),
            },
        },
        Some(TokenKind::Comment) => prepend(
            seq![BlockChildView::Comment(comment_at(src, cur))],
            items_at(src, token_end(src, cur)),
        ),
        _ => Ok((seq![], cur)),
    }
}

/// A rule at `cur`: a word that starts the selector, the selector up to the
/// opening brace, and a block.
pub open spec fn rule_at(src: Seq<u8>, cur: int) -> Result<(RuleView, int), ParseError> {
    match expect(src, cur, TokenKind::Word) {
        Err(e) => Err(e),
        Ok(word_end) => {
            let brace = skip_while(src, word_end, Skip::UntilOpenCurly);
            match block_at(src, brace) {
                Err(e) => Err(e),
                Ok((nodes, end)) => Ok(
                    (
                        RuleView {
                            selector: prelude_text(src, cur, brace),
                            nodes,
                            start: cur,
                            end: end - 1,
                        },
                        end,
                    ),
                ),
            }
        },
    }
}

/// The top-level children from `cur` on, to the end of the input. An `@`
/// starts an at-rule, a word a rule, and a comment stands for itself; white
/// space and stray punctuation are passed over.
pub open spec fn root_items_at(src: Seq<u8>, cur: int) -> Result<
    (Seq<RootChildView>, int),
    ParseError,
>
    decreases remaining(src, cur),
    via root_items_at_decreases
{
    match kind_at(src, cur) {
        None => Ok((seq![], cur)),
        Some(TokenKind::Space) => root_items_at(src, skip_while(src, cur, Skip::Spaces)),
        Some(TokenKind::At) => match at_rule_at(src, cur) {
            Err(e) => Err(e),
            Ok((at_rule, end)) => prepend(
                seq![RootChildView::AtRule(at_rule)],
                root_items_at(src, end),
            ),
        },
        Some(TokenKind::Word) => match rule_at(src, cur) {
            Err(e) => Err(e),
            Ok((rule, end)) => prepend(seq![RootChildView::Rule(rule)], root_items_at(src, end)),
        },
        Some(TokenKind::Comment) => prepend(
            seq![RootChildView::Comment(comment_at(src, cur))],
            root_items_at(src, token_end(src, cur)),
        ),
        Some(_) => root_items_at(src, token_end(src, cur)),
    }
}

/// The stylesheet from `cur` on. The root starts with the last byte consumed
/// before it and ends with the last byte consumed.
pub open spec fn root_at(src: Seq<u8>, cur: int) -> Result<RootView, ParseError> {
    match root_items_at(src, cur) {
        Err(e) => Err(e),
        Ok((nodes, end)) => Ok(RootView { nodes, start: last_end(cur), end: last_end(end) }),
    }
}

/// What parsing the source `src` gives.
pub open spec fn parse_source(src: Seq<u8>) -> Result<RootView, ParseError> {
    root_at(src, 0)
}

#[via_fn]
proof fn root_items_at_decreases(src: Seq<u8>, cur: int) {
    if 0 <= cur < src.len() {
        lemma_token_end(src, cur);
        lemma_skip_while(src, cur, Skip::Spaces);
        lemma_rule_at(src, cur);
        lemma_at_rule_at(src, cur);
    }
}

#[via_fn]
proof fn at_rule_at_decreases(src: Seq<u8>, cur: int) {
    if 0 <= cur < src.len() {
        lemma_token_end(src, cur);
        let name = token_end(src, cur);
        if name < src.len() {
            lemma_token_end(src, name);
            let name_end = token_end(src, name);
            lemma_skip_while(src, name_end, Skip::SpacesAndComments);
            lemma_skip_while(
                src,
                skip_while(src, name_end, Skip::SpacesAndComments),
                Skip::UntilOpenCurly,
            );
        }
    }
}

#[via_fn]
proof fn block_at_decreases(src: Seq<u8>, cur: int) {
    if 0 <= cur < src.len() {
        lemma_token_end(src, cur);
    }
}

#[via_fn]
proof fn list_at_decreases(src: Seq<u8>, cur: int) {
    lemma_skip_while(src, cur, Skip::Spaces);
}

#[via_fn]
proof fn items_at_decreases(src: Seq<u8>, cur: int) {
    assert forall|end: int| end <= #[trigger] skip_while(src, end, Skip::SpacesAndComments) by {
        lemma_skip_while(src, end, Skip::SpacesAndComments);
    }
    if 0 <= cur < src.len() {
        lemma_token_end(src, cur);
        lemma_declaration_at(src, cur);
        match declaration_at(src, cur) {
            Ok((_, end)) => {
                lemma_skip_while(src, end, Skip::SpacesAndComments);
            },
            Err(_) => {},
        }
    }
}

/// A skip stays inside the input, stops before a token that it does not pass
/// over, and, in well-formed UTF-8 and from outside a character, stops
/// outside a character.
pub proof fn lemma_skip_while(src: Seq<u8>, cur: int, what: Skip)
    ensures
        cur <= skip_while(src, cur, what),
        0 <= cur <= src.len() ==> skip_while(src, cur, what) <= src.len(),
        match kind_at(src, skip_while(src, cur, what)) {
            Some(kind) => !what.passes(kind),
            None => true,
        },
        valid_utf8(src) && cut_point(src, cur) ==> cut_point(src, skip_while(src, cur, what)),
    decreases src.len() - cur,
{
    if 0 <= cur < src.len() && what.passes(token_kind(src, cur)) {
        lemma_token_end(src, cur);
        if valid_utf8(src) {
            lemma_token_end_cut_point(src, cur);
        }
        lemma_skip_while(src, token_end(src, cur), what);
    }
}

/// A token that is there ends behind its start, inside the input, and, in
/// well-formed UTF-8, outside a character.
pub proof fn lemma_expect(src: Seq<u8>, cur: int, kind: TokenKind)
    ensures
        match expect(src, cur, kind) {
            Ok(end) => {
                &&& 0 <= cur < end <= src.len()
                &&& kind_at(src, cur) == Some(kind)
                &&& valid_utf8(src) ==> cut_point(src, end)
            },
            Err(e) => e == missing(src, cur, kind),
        },
{
    if 0 <= cur < src.len() {
        lemma_token_end(src, cur);
        if valid_utf8(src) {
            lemma_token_end_cut_point(src, cur);
        }
    }
}

/// A marker ends behind its start, inside the input, and, in well-formed
/// UTF-8, outside a character.
pub proof fn lemma_important_end(src: Seq<u8>, cur: int)
    ensures
        match important_end(src, cur) {
            Some(end) => 0 <= cur < end <= src.len() && (valid_utf8(src) ==> cut_point(src, end)),
            None => true,
        },
{
    if 0 <= cur < src.len() {
        lemma_expect(src, cur, TokenKind::Word);
        let end = token_end(src, cur);
        lemma_token_end(src, cur);
        lemma_skip_while(src, end, Skip::SpacesAndComments);
        lemma_expect(src, skip_while(src, end, Skip::SpacesAndComments), TokenKind::Word);
    }
}

/// A declaration starts at the cursor, ends with the last byte consumed or
/// before white space that was consumed, and consumes at least three bytes.
pub proof fn lemma_declaration_at(src: Seq<u8>, cur: int)
    ensures
        match declaration_at(src, cur) {
            Ok((declaration, end)) => {
                &&& 0 <= cur
                &&& declaration.start == cur
                &&& cur + 2 <= declaration.end < end <= src.len()
                &&& valid_utf8(src) ==> cut_point(src, declaration.end + 1) && cut_point(src, end)
            },
            Err(_) => true,
        },
{
    lemma_expect(src, cur, TokenKind::Word);
    if let Ok(prop_end) = expect(src, cur, TokenKind::Word) {
        lemma_skip_while(src, prop_end, Skip::SpacesAndComments);
        let colon = skip_while(src, prop_end, Skip::SpacesAndComments);
        lemma_expect(src, colon, TokenKind::Colon);
        if let Ok(colon_end) = expect(src, colon, TokenKind::Colon) {
            lemma_skip_while(src, colon_end, Skip::SpacesAndComments);
            let value = skip_while(src, colon_end, Skip::SpacesAndComments);
            lemma_expect(src, value, TokenKind::Word);
            if let Ok(value_end) = expect(src, value, TokenKind::Word) {
                lemma_skip_while(src, value_end, Skip::Spaces);
                lemma_important_end(src, skip_while(src, value_end, Skip::Spaces));
            }
        }
    }
}

/// Where a cut for a selector or for parameters falls: inside the text, and
/// before the first byte of a character.
pub proof fn lemma_comment_cut(src: Seq<u8>, from: int, to: int)
    requires
        0 <= from <= to <= src.len(),
    ensures
        from <= comment_cut(src, from, to) <= to,
        cut_point(src, to) ==> cut_point(src, comment_cut(src, from, to)),
    decreases to - from,
{
    if from < to && !(opens_comment(src, from) && from + 1 < to) {
        lemma_comment_cut(src, from + 1, to);
    }
}

/// The comment of a comment token has the span of the token.
pub proof fn lemma_comment_at(src: Seq<u8>, cur: int)
    requires
        valid_utf8(src),
        cut_point(src, cur),
        kind_at(src, cur) == Some(TokenKind::Comment),
    ensures
        comment_spans(src, comment_at(src, cur)),
        comment_at(src, cur).start == cur,
        comment_at(src, cur).end == token_end(src, cur) - 1,
{
    lemma_token_end(src, cur);
    lemma_token_end_cut_point(src, cur);
    lemma_comment_end(src, cur + 2);
}

/// What the productions of a block give lies where it was parsed.
///
/// An at-rule that was parsed at `cur` starts there, ends with the last byte
/// consumed, and is laid out as in the source; so are the children of a
/// block and of a list, which lie between `cur` and the last byte consumed.
/// Each production that consumes a token ends behind `cur`.
pub proof fn lemma_at_rule_at(src: Seq<u8>, cur: int)
    ensures
        match at_rule_at(src, cur) {
            Ok((at_rule, end)) => {
                &&& 0 <= cur < end <= src.len()
                &&& at_rule.start == cur
                &&& at_rule.end == end - 1
                &&& valid_utf8(src) && cut_point(src, cur) ==> cut_point(src, end) && at_rule_spans(
                    src,
                    at_rule,
                )
            },
            Err(_) => true,
        },
    decreases remaining(src, cur), 0nat,
{
    lemma_expect(src, cur, TokenKind::At);
    if let Ok(name) = expect(src, cur, TokenKind::At) {
        lemma_expect(src, name, TokenKind::Word);
        if let Ok(name_end) = expect(src, name, TokenKind::Word) {
            lemma_skip_while(src, name_end, Skip::SpacesAndComments);
            let params = skip_while(src, name_end, Skip::SpacesAndComments);
            lemma_skip_while(src, params, Skip::UntilOpenCurly);
            let brace = skip_while(src, params, Skip::UntilOpenCurly);
            lemma_block_at(src, brace);
        }
    }
}

/// See [`lemma_at_rule_at`].
pub proof fn lemma_block_at(src: Seq<u8>, cur: int)
    ensures
        match block_at(src, cur) {
            Ok((nodes, end)) => {
                &&& 0 <= cur
                &&& cur + 2 <= end <= src.len()
                &&& valid_utf8(src) ==> cut_point(src, end) && block_spans(
                    src,
                    nodes,
                    cur + 1,
                    end - 2,
                )
            },
            Err(_) => true,
        },
    decreases remaining(src, cur), 3nat,
{
    lemma_expect(src, cur, TokenKind::OpenCurly);
    if let Ok(inside) = expect(src, cur, TokenKind::OpenCurly) {
        lemma_cut_point_after_ascii_if(src, cur);
        lemma_list_at(src, inside);
        if let Ok((nodes, brace)) = list_at(src, inside) {
            lemma_expect(src, brace, TokenKind::ClosedCurly);
        }
    }
}

/// See [`lemma_at_rule_at`].
pub proof fn lemma_list_at(src: Seq<u8>, cur: int)
    ensures
        match list_at(src, cur) {
            Ok((nodes, end)) => {
                &&& cur <= end
                &&& 0 <= cur <= src.len() ==> end <= src.len()
                &&& valid_utf8(src) && cut_point(src, cur) ==> cut_point(src, end) && block_spans(
                    src,
                    nodes,
                    cur,
                    end - 1,
                )
            },
            Err(_) => true,
        },
    decreases remaining(src, cur), 2nat,
{
    lemma_skip_while(src, cur, Skip::Spaces);
    let start = skip_while(src, cur, Skip::Spaces);
    lemma_items_at(src, start);
    if let Ok((nodes, end)) = items_at(src, start) {
        lemma_skip_while(src, end, Skip::Spaces);
    }
}

/// See [`lemma_at_rule_at`].
pub proof fn lemma_items_at(src: Seq<u8>, cur: int)
    ensures
        match items_at(src, cur) {
            Ok((nodes, end)) => {
                &&& cur <= end
                &&& 0 <= cur <= src.len() ==> end <= src.len()
                &&& valid_utf8(src) && cut_point(src, cur) ==> cut_point(src, end) && block_spans(
                    src,
                    nodes,
                    cur,
                    end - 1,
                )
            },
            Err(_) => true,
        },
    decreases remaining(src, cur), 1nat,
{
    match kind_at(src, cur) {
        Some(TokenKind::Word) => {
            lemma_declaration_at(src, cur);
            if let Ok((declaration, end)) = declaration_at(src, cur) {
                lemma_skip_while(src, end, Skip::SpacesAndComments);
                let next = skip_while(src, end, Skip::SpacesAndComments);
                if kind_at(src, next) == Some(TokenKind::Semicolon) {
                    lemma_cut_point_after_ascii_if(src, next);
                    lemma_list_at(src, next + 1);
                    if let Ok((more, rest)) = list_at(src, next + 1) {
                        lemma_items_at(src, rest);
                        if let Ok((last, last_end)) = items_at(src, rest) {
                            let first = seq![BlockChildView::Declaration(declaration)];
                            if valid_utf8(src) && cut_point(src, cur) {
                                lemma_block_spans_concat(src, first, more, cur, next + 1, rest - 1);
                                lemma_block_spans_concat(
                                    src,
                                    first + more,
                                    last,
                                    cur,
                                    rest,
                                    last_end - 1,
                                );
                            }
                        }
                    }
                }
            }
        },
        Some(TokenKind::At) => {
            lemma_at_rule_at(src, cur);
            if let Ok((at_rule, end)) = at_rule_at(src, cur) {
                lemma_skip_while(src, end, Skip::SpacesAndComments);
                let next = skip_while(src, end, Skip::SpacesAndComments);
                lemma_list_at(src, next);
                if let Ok((more, rest)) = list_at(src, next) {
                    lemma_items_at(src, rest);
                    if let Ok((last, last_end)) = items_at(src, rest) {
                        let first = seq![BlockChildView::AtRule(at_rule)];
                        if valid_utf8(src) && cut_point(src, cur) {
                            lemma_block_spans_concat(src, first, more, cur, next, rest - 1);
                            lemma_block_spans_concat(
                                src,
                                first + more,
                                last,
                                cur,
                                rest,
                                last_end - 1,
                            );
                        }
                    }
                }
            }
        },
        Some(TokenKind::Comment) => {
            lemma_token_end(src, cur);
            let end = token_end(src, cur);
            lemma_items_at(src, end);
            if let Ok((last, last_end)) = items_at(src, end) {
                if valid_utf8(src) && cut_point(src, cur) {
                    lemma_comment_at(src, cur);
                    lemma_block_spans_concat(
                        src,
                        seq![BlockChildView::Comment(comment_at(src, cur))],
                        last,
                        cur,
                        end,
                        last_end - 1,
                    );
                }
            }
        },
        _ => {},
    }
}

/// An at-rule ends behind its start, and a list does not end before it.
pub proof fn lemma_advancing(src: Seq<u8>, cur: int, list: int)
    requires
        cur < list,
    ensures
        advancing(cur, at_rule_at(src, cur)) == at_rule_at(src, cur),
        advancing(cur, list_at(src, list)) == list_at(src, list),
{
    lemma_at_rule_at(src, cur);
    lemma_list_at(src, list);
}

/// A rule that was parsed at `cur` starts there, ends with the last byte
/// consumed, and is laid out as in the source.
pub proof fn lemma_rule_at(src: Seq<u8>, cur: int)
    ensures
        match rule_at(src, cur) {
            Ok((rule, end)) => {
                &&& 0 <= cur < end <= src.len()
                &&& rule.start == cur
                &&& rule.end == end - 1
                &&& valid_utf8(src) && cut_point(src, cur) ==> cut_point(src, end) && rule_spans(
                    src,
                    rule,
                )
            },
            Err(_) => true,
        },
{
    lemma_expect(src, cur, TokenKind::Word);
    if let Ok(word_end) = expect(src, cur, TokenKind::Word) {
        lemma_skip_while(src, word_end, Skip::UntilOpenCurly);
        lemma_block_at(src, skip_while(src, word_end, Skip::UntilOpenCurly));
    }
}

/// The top-level children reach to the end of the input, and are laid out as
/// in the source.
pub proof fn lemma_root_items_at(src: Seq<u8>, cur: int)
    requires
        0 <= cur <= src.len(),
    ensures
        match root_items_at(src, cur) {
            Ok((nodes, end)) => {
                &&& end == src.len()
                &&& valid_utf8(src) && cut_point(src, cur) ==> root_spans(
                    src,
                    nodes,
                    cur,
                    src.len() - 1,
                )
            },
            Err(_) => true,
        },
    decreases remaining(src, cur),
{
    if cur < src.len() {
        lemma_token_end(src, cur);
        let next = match kind_at(src, cur) {
            Some(TokenKind::Space) => skip_while(src, cur, Skip::Spaces),
            Some(TokenKind::At) => match at_rule_at(src, cur) {
                Ok((_, end)) => end,
                Err(_) => src.len() as int,
            },
            Some(TokenKind::Word) => match rule_at(src, cur) {
                Ok((_, end)) => end,
                Err(_) => src.len() as int,
            },
            _ => token_end(src, cur),
        };
        lemma_skip_while(src, cur, Skip::Spaces);
        lemma_at_rule_at(src, cur);
        lemma_rule_at(src, cur);
        if valid_utf8(src) {
            lemma_token_end_cut_point(src, cur);
        }
        lemma_root_items_at(src, next);
        if valid_utf8(src) && cut_point(src, cur) {
            if kind_at(src, cur) == Some(TokenKind::Comment) {
                lemma_comment_at(src, cur);
            }
        }
    }
}

/// A tree that was parsed from the start of a source is laid out as in the
/// source.
pub proof fn lemma_parse_source(src: Seq<u8>)
    requires
        valid_utf8(src),
    ensures
        match parse_source(src) {
            Ok(root) => root.spans(src),
            Err(_) => true,
        },
{
    lemma_root_items_at(src, 0);
    if src.len() > 0 {
        lemma_cut_point_is_boundary(src, 0);
        lemma_cut_point_is_boundary(src, src.len() as int);
    }
}

/// In well-formed UTF-8 a character starts behind the ASCII byte at `i`.
proof fn lemma_cut_point_after_ascii_if(src: Seq<u8>, i: int)
    ensures
        valid_utf8(src) && 0 <= i < src.len() && src[i] < 0x80 ==> cut_point(src, i + 1),
{
    if valid_utf8(src) && 0 <= i < src.len() && src[i] < 0x80 {
        lemma_cut_point_after_ascii(src, i);
    }
}

/// Children that are laid out in `lo..mid` and children that are laid out in
/// `mid..=hi` are, one after the other, laid out in `lo..=hi`.
pub proof fn lemma_block_spans_concat(
    src: Seq<u8>,
    first: Seq<BlockChildView>,
    second: Seq<BlockChildView>,
    lo: int,
    mid: int,
    hi: int,
)
    requires
        block_spans(src, first, lo, mid - 1),
        block_spans(src, second, mid, hi),
        lo <= mid <= hi + 1,
    ensures
        block_spans(src, first + second, lo, hi),
{
    let all = first + second;
    assert forall|i: int| 0 <= i < all.len() implies {
        &&& lo <= (#[trigger] all[i]).start()
        &&& block_child_spans(src, all[i])
    } by {
        if i < first.len() {
            assert(all[i] == first[i]);
        } else {
            assert(all[i] == second[i - first.len()]);
        }
    }
}

} // verus!
