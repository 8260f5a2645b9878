//! The parser: a recursive descent over the tokens of a source text, with one
//! token of lookahead, that builds the positioned tree.

pub mod error;
pub mod grammar;
pub mod tokenizer;
pub mod visitor;

use vstd::prelude::*;
use vstd::utf8::*;
use crate::ast::{
    block_views, root_views, AtRule, BlockChild, BlockChildView, Comment, Declaration, Root,
    RootChild, RootChildView, Rule,
};
use crate::parser::error::ParseError;
use crate::parser::grammar::{
    at_rule_at, block_at, comment_at, comment_cut, declaration_at, expect, important_end, items_at,
    kind_at, last_end, lemma_at_rule_at, lemma_comment_cut, lemma_declaration_at, lemma_list_at,
    lemma_parse_source, lemma_root_items_at, lemma_rule_at, lemma_skip_while, list_at, parse_source,
    prelude_text, prepend, remaining, root_at, root_items_at, rule_at, skip_while, spells, Skip,
};
use crate::parser::tokenizer::{
    lemma_comment_end, lemma_token_end, scan_token, token_at, token_end, Token, TokenKind,
    Tokenizer, ASTERISK, SLASH,
};
use crate::text::{bytes_of, cut_point, lemma_cut_point_after_ascii, text_between, trim};

verus! {

impl Skip {
    /// Whether the skip passes over a token of the given kind.
    pub fn passes_over(self, kind: TokenKind) -> (r: bool)
        ensures
            r == self.passes(kind),
    {
        match self {
            Skip::Spaces => kind == TokenKind::Space,
            Skip::SpacesAndComments => kind == TokenKind::Space || kind == TokenKind::Comment,
            Skip::UntilOpenCurly => kind != TokenKind::OpenCurly,
        }
    }
}

/// Whether the bytes `from..to` spell `word`.
pub fn spells_word(bytes: &[u8], from: usize, to: usize, word: &str) -> (r: bool)
    requires
        from <= to <= bytes@.len(),
    ensures
        r == spells(bytes@, from as int, to as int, word),
{
    let letters = word.as_bytes();
    if to - from != letters.len() {
        return false;
    }
    let mut i: usize = 0;
    while i < letters.len()
        invariant
            from <= to <= bytes@.len(),
            to - from == letters@.len(),
            letters@ == bytes_of(word),
            i <= letters@.len(),
            forall|k: int| 0 <= k < i ==> bytes@[from + k] == letters@[k],
        decreases letters@.len() - i,
    {
        if bytes[from + i] != letters[i] {
            proof {
                assert(bytes@.subrange(from as int, to as int)[i as int] != letters@[i as int]);
            }
            return false;
        }
        i += 1;
    }
    proof {
        assert(bytes@.subrange(from as int, to as int) =~= letters@);
    }
    true
}

/// Where the text `from..to` is cut for a selector or for parameters.
pub fn cut_at_comment(bytes: &[u8], from: usize, to: usize) -> (r: usize)
    requires
        from <= to <= bytes@.len(),
    ensures
        r == comment_cut(bytes@, from as int, to as int),
{
    let mut i: usize = from;
    while i < to && !(to - i > 1 && bytes[i] == SLASH && bytes[i + 1] == ASTERISK)
        invariant
            from <= i <= to <= bytes@.len(),
            comment_cut(bytes@, from as int, to as int) == comment_cut(bytes@, i as int, to as int),
        decreases to - i,
    {
        i += 1;
    }
    i
}

/// The models of children, one list after another.
pub proof fn lemma_block_views_concat(first: Seq<BlockChild>, second: Seq<BlockChild>)
    ensures
        block_views(first + second) == block_views(first) + block_views(second),
{
    assert(block_views(first + second) =~= block_views(first) + block_views(second));
}

/// A parser for one source text. It is used up by parsing.
pub struct Parser<'a> {
    tokenizer: Tokenizer<'a>,
}

impl<'a> Parser<'a> {
    /// The bytes of the source text.
    pub closed spec fn source(&self) -> Seq<u8> {
        self.tokenizer.source()
    }

    /// The offset of the first byte that has not been consumed yet.
    pub closed spec fn cursor(&self) -> int {
        self.tokenizer.cursor()
    }

    /// The offset of the last byte consumed; 0 when none was.
    pub open spec fn pos(&self) -> int {
        last_end(self.cursor())
    }

    /// A parser at the start of `input`.
    pub fn new(input: &'a str) -> (p: Parser<'a>)
        ensures
            p.source() == bytes_of(input),
            p.cursor() == 0,
    {
        Parser { tokenizer: Tokenizer::new(input) }
    }

    /// Parses what is left of the source, to its end: the whole stylesheet
    /// when nothing has been consumed yet.
    ///
    /// The tree is the one that the grammar gives, and the error is the one
    /// that the grammar gives. A tree that was parsed from the start of the
    /// source is laid out as in the source.
    pub fn parse(&mut self) -> (r: Result<Root, ParseError>)
        ensures
            final(self).source() == old(self).source(),
            match root_at(old(self).source(), old(self).cursor()) {
                Ok(root) => r is Ok && r.unwrap()@ == root && final(self).cursor() == old(
                    self,
                ).source().len(),
                Err(e) => r == Err::<Root, ParseError>(e),
            },
            old(self).cursor() == 0 && r is Ok ==> r.unwrap()@.spans(old(self).source()),
    {
        let mut nodes: Vec<RootChild> = Vec::new();
        let ghost src = self.source();
        let first = self.position();
        let start = if first > 0 {
            first - 1
        } else {
            0
        };
        proof {
            assert(root_views(nodes@) =~= Seq::<RootChildView>::empty());
            lemma_prepend_empty(root_items_at(src, first as int));
            lemma_root_items_at(src, first as int);
            if first == 0 {
                lemma_parse_source(src);
            }
        }
        loop
            invariant
                self.source() == src,
                old(self).source() == src,
                first == old(self).cursor(),
                start == last_end(first as int),
                first <= self.cursor() <= src.len(),
                root_items_at(src, first as int) == prepend(
                    root_views(nodes@),
                    root_items_at(src, self.cursor()),
                ),
                first == 0 ==> match root_at(src, 0) {
                    Ok(root) => root.spans(src),
                    Err(_) => true,
                },
            decreases remaining(src, self.cursor()),
        {
            let at = self.position();
            let ghost before = root_views(nodes@);
            proof {
                if at < src.len() {
                    lemma_token_end(src, at as int);
                }
            }
            match self.peek_kind() {
                None => {
                    proof {
                        assert(before + Seq::<RootChildView>::empty() =~= before);
                    }
                    let end = if at > 0 {
                        at - 1
                    } else {
                        0
                    };
                    return Ok(Root { nodes, start, end });
                },
                Some(TokenKind::Space) => {
                    proof {
                        lemma_skip_while(src, at as int, Skip::Spaces);
                    }
                    self.skip_while(Skip::Spaces);
                },
                Some(TokenKind::At) => {
                    proof {
                        lemma_at_rule_at(src, at as int);
                    }
                    let at_rule = match self.parse_at_rule() {
                        Ok(at_rule) => at_rule,
                        Err(e) => {
                            return Err(e);
                        },
                    };
                    let ghost child = seq![RootChildView::AtRule(at_rule@)];
                    nodes.push(RootChild::AtRule(at_rule));
                    proof {
                        assert(root_views(nodes@) =~= before + child);
                        lemma_prepend_prepend(before, child, root_items_at(src, self.cursor()));
                    }
                },
                Some(TokenKind::Word) => {
                    proof {
                        lemma_rule_at(src, at as int);
                    }
                    let rule = match self.parse_rule() {
                        Ok(rule) => rule,
                        Err(e) => {
                            return Err(e);
                        },
                    };
                    let ghost child = seq![RootChildView::Rule(rule@)];
                    nodes.push(RootChild::Rule(rule));
                    proof {
                        assert(root_views(nodes@) =~= before + child);
                        lemma_prepend_prepend(before, child, root_items_at(src, self.cursor()));
                    }
                },
                Some(TokenKind::Comment) => {
                    let comment = match self.parse_comment() {
                        Ok(comment) => comment,
                        Err(e) => {
                            return Err(e);
                        },
                    };
                    let ghost child = seq![RootChildView::Comment(comment@)];
                    nodes.push(RootChild::Comment(comment));
                    proof {
                        assert(root_views(nodes@) =~= before + child);
                        lemma_prepend_prepend(before, child, root_items_at(src, self.cursor()));
                    }
                },
                Some(_) => {
                    self.next_token();
                },
            }
        }
    }

    /// The cursor.
    fn position(&self) -> (r: usize)
        ensures
            r == self.cursor(),
            r <= self.source().len() <= usize::MAX,
            valid_utf8(self.source()),
            cut_point(self.source(), self.cursor()),
    {
        self.tokenizer.position()
    }

    /// The kind of the token at the cursor.
    fn peek_kind(&self) -> (r: Option<TokenKind>)
        ensures
            r == kind_at(self.source(), self.cursor()),
    {
        match self.tokenizer.peek() {
            Some(token) => Some(token.0),
            None => None,
        }
    }

    /// Consumes the token at the cursor.
    fn next_token(&mut self) -> (r: Option<Token>)
        ensures
            final(self).source() == old(self).source(),
            r == token_at(old(self).source(), old(self).cursor()),
            final(self).cursor() == match r {
                Some(token) => token_end(old(self).source(), old(self).cursor()),
                None => old(self).cursor(),
            },
    {
        let at = self.tokenizer.position();
        proof {
            if at < self.source().len() {
                lemma_token_end(self.source(), at as int);
            }
        }
        self.tokenizer.next()
    }

    /// Passes over tokens as `what` says.
    fn skip_while(&mut self, what: Skip)
        ensures
            final(self).source() == old(self).source(),
            final(self).cursor() == skip_while(old(self).source(), old(self).cursor(), what),
            old(self).cursor() <= final(self).cursor() <= old(self).source().len(),
    {
        let _ = self.position();
        loop
            invariant
                self.source() == old(self).source(),
                old(self).cursor() <= self.cursor() <= self.source().len(),
                skip_while(self.source(), self.cursor(), what) == skip_while(
                    old(self).source(),
                    old(self).cursor(),
                    what,
                ),
            decreases remaining(self.source(), self.cursor()),
        {
            let at = self.position();
            match self.peek_kind() {
                Some(kind) => {
                    if !what.passes_over(kind) {
                        return ;
                    }
                    proof {
                        lemma_token_end(self.source(), at as int);
                    }
                    self.next_token();
                },
                None => {
                    return ;
                },
            }
        }
    }

    /// Consumes the token at the cursor if it is of the given kind.
    fn expect(&mut self, kind: TokenKind) -> (r: Result<Token, ParseError>)
        ensures
            final(self).source() == old(self).source(),
            match expect(old(self).source(), old(self).cursor(), kind) {
                Ok(end) => r == Ok::<Token, ParseError>(
                    Token(kind, old(self).cursor() as usize, (end - 1) as usize),
                ) && final(self).cursor() == end && old(self).cursor() < end
                    <= old(self).source().len(),
                Err(e) => r == Err::<Token, ParseError>(e),
            },
    {
        let at = self.position();
        proof {
            if at < self.source().len() {
                lemma_token_end(self.source(), at as int);
            }
        }
        match self.peek_kind() {
            Some(found) => {
                if found == kind {
                    match self.next_token() {
                        Some(token) => Ok(token),
                        None => Err(ParseError::UnexpectedEndOfInput),
                    }
                } else {
                    Err(ParseError::ExpectedToken(kind, at))
                }
            },
            None => Err(ParseError::UnexpectedEndOfInput),
        }
    }

    /// The text in the bytes `from..to` of the source.
    fn text(&self, from: usize, to: usize) -> (r: String)
        requires
            from <= to,
            cut_point(self.source(), from as int),
            cut_point(self.source(), to as int),
        ensures
            r@ == text_between(self.source(), from as int, to as int),
    {
        self.tokenizer.slice(from, to).to_owned()
    }

    /// The selector or the parameters that stand in the bytes `from..to`.
    fn prelude(&self, from: usize, to: usize) -> (r: String)
        requires
            from <= to,
            cut_point(self.source(), from as int),
            cut_point(self.source(), to as int),
        ensures
            r@ == prelude_text(self.source(), from as int, to as int),
    {
        proof {
            lemma_comment_cut(self.source(), from as int, to as int);
        }
        let cut = cut_at_comment(self.tokenizer.bytes(), from, to);
        trim(self.tokenizer.slice(from, cut)).to_owned()
    }

    /// Consumes the `!important` marker at the cursor, if one stands there.
    fn parse_important(&mut self) -> (r: bool)
        ensures
            final(self).source() == old(self).source(),
            r == important_end(old(self).source(), old(self).cursor()) is Some,
            final(self).cursor() == match important_end(old(self).source(), old(self).cursor()) {
                Some(end) => end,
                None => old(self).cursor(),
            },
            old(self).cursor() <= final(self).cursor(),
    {
        let at = self.position();
        let bytes = self.tokenizer.bytes();
        match self.tokenizer.peek() {
            Some(Token(TokenKind::Word, start, end)) => {
                proof {
                    lemma_token_end(self.source(), at as int);
                }
                if spells_word(bytes, start, end + 1, "!important") {
                    self.next_token();
                    true
                } else if spells_word(bytes, start, end + 1, "!") {
                    let word = skip_tokens(bytes, end + 1, Skip::SpacesAndComments);
                    match scan_token(bytes, word) {
                        Some(Token(TokenKind::Word, word_start, word_end)) => {
                            if spells_word(bytes, word_start, word_end + 1, "important") {
                                self.next_token();
                                self.skip_while(Skip::SpacesAndComments);
                                self.next_token();
                                true
                            } else {
                                false
                            }
                        },
                        _ => false,
                    }
                } else {
                    false
                }
            },
            _ => false,
        }
    }

    /// Parses the comment at the cursor.
    fn parse_comment(&mut self) -> (r: Result<Comment, ParseError>)
        ensures
            final(self).source() == old(self).source(),
            match expect(old(self).source(), old(self).cursor(), TokenKind::Comment) {
                Ok(end) => r is Ok && r.unwrap()@ == comment_at(
                    old(self).source(),
                    old(self).cursor(),
                ) && final(self).cursor() == end,
                Err(e) => r == Err::<Comment, ParseError>(e),
            },
    {
        let start = self.position();
        let token = self.expect(TokenKind::Comment)?;
        let end = self.position();
        let bytes = self.tokenizer.bytes();
        proof {
            lemma_token_end(self.source(), start as int);
            lemma_comment_end(self.source(), start + 2);
            lemma_cut_point_after_ascii(self.source(), start + 1);
        }
        let closed = end - start >= 4 && bytes[end - 2] == ASTERISK && bytes[end - 1] == SLASH;
        let text = if closed {
            self.text(start + 2, end - 2)
        } else {
            self.text(start + 2, end)
        };
        Ok(Comment { text, start, end: end - 1 })
    }

    /// Parses the declaration at the cursor.
    fn parse_declaration(&mut self) -> (r: Result<Declaration, ParseError>)
        ensures
            final(self).source() == old(self).source(),
            match declaration_at(old(self).source(), old(self).cursor()) {
                Ok((declaration, end)) => r is Ok && r.unwrap()@ == declaration
                    && final(self).cursor() == end,
                Err(e) => r == Err::<Declaration, ParseError>(e),
            },
    {
        let start = self.position();
        self.expect(TokenKind::Word)?;
        let prop_end = self.position();
        let prop = self.text(start, prop_end);
        self.skip_while(Skip::SpacesAndComments);
        self.expect(TokenKind::Colon)?;
        self.skip_while(Skip::SpacesAndComments);
        let value_start = self.position();
        self.expect(TokenKind::Word)?;
        let value_end = self.position();
        let value = self.text(value_start, value_end);
        self.skip_while(Skip::Spaces);
        let important = self.parse_important();
        let end = if important {
            self.position() - 1
        } else {
            value_end - 1
        };
        proof {
            lemma_declaration_at(old(self).source(), old(self).cursor());
        }
        Ok(Declaration { prop, value, important, start, end })
    }

    /// Parses the rule at the cursor.
    fn parse_rule(&mut self) -> (r: Result<Rule, ParseError>)
        ensures
            final(self).source() == old(self).source(),
            match rule_at(old(self).source(), old(self).cursor()) {
                Ok((rule, end)) => r is Ok && r.unwrap()@ == rule && final(self).cursor() == end,
                Err(e) => r == Err::<Rule, ParseError>(e),
            },
    {
        let start = self.position();
        self.expect(TokenKind::Word)?;
        self.skip_while(Skip::UntilOpenCurly);
        let brace = self.position();
        let selector = self.prelude(start, brace);
        let nodes = self.parse_block()?;
        proof {
            lemma_rule_at(old(self).source(), old(self).cursor());
        }
        Ok(Rule { selector, nodes, start, end: self.position() - 1 })
    }

    /// Parses the at-rule at the cursor.
    fn parse_at_rule(&mut self) -> (r: Result<AtRule, ParseError>)
        ensures
            final(self).source() == old(self).source(),
            match at_rule_at(old(self).source(), old(self).cursor()) {
                Ok((at_rule, end)) => r is Ok && r.unwrap()@ == at_rule && final(self).cursor()
                    == end,
                Err(e) => r == Err::<AtRule, ParseError>(e),
            },
        decreases remaining(old(self).source(), old(self).cursor()), 0nat,
    {
        let start = self.position();
        self.expect(TokenKind::At)?;
        let name_start = self.position();
        self.expect(TokenKind::Word)?;
        let name = self.text(name_start, self.position());
        self.skip_while(Skip::SpacesAndComments);
        let params_start = self.position();
        self.skip_while(Skip::UntilOpenCurly);
        let brace = self.position();
        let params = self.prelude(params_start, brace);
        proof {
            lemma_skip_while(self.source(), name_start as int + 1, Skip::SpacesAndComments);
            lemma_skip_while(self.source(), params_start as int, Skip::UntilOpenCurly);
        }
        let nodes = self.parse_block()?;
        proof {
            lemma_at_rule_at(old(self).source(), old(self).cursor());
        }
        Ok(AtRule { name, params, nodes, start, end: self.position() - 1 })
    }

    /// Parses the list of block children at the cursor.
    fn parse_declartion_or_at_rule_list(&mut self) -> (r: Result<Vec<BlockChild>, ParseError>)
        ensures
            final(self).source() == old(self).source(),
            match list_at(old(self).source(), old(self).cursor()) {
                Ok((nodes, end)) => r is Ok && block_views(r.unwrap()@) == nodes
                    && final(self).cursor() == end,
                Err(e) => r == Err::<Vec<BlockChild>, ParseError>(e),
            },
        decreases remaining(old(self).source(), old(self).cursor()), 2nat,
    {
        let mut nodes: Vec<BlockChild> = Vec::new();
        let ghost src = self.source();
        proof {
            lemma_skip_while(src, self.cursor(), Skip::Spaces);
        }
        let _ = self.position();
        self.skip_while(Skip::Spaces);
        let ghost start = self.cursor();
        proof {
            assert(block_views(nodes@) =~= Seq::<BlockChildView>::empty());
            lemma_prepend_empty(items_at(src, start));
        }
        loop
            invariant
                self.source() == src,
                old(self).source() == src,
                start == skip_while(src, old(self).cursor(), Skip::Spaces),
                0 <= old(self).cursor() <= start <= self.cursor() <= src.len(),
                items_at(src, start) == prepend(block_views(nodes@), items_at(src, self.cursor())),
            decreases remaining(src, self.cursor()),
        {
            let at = self.position();
            let ghost before = block_views(nodes@);
            match self.peek_kind() {
                Some(TokenKind::Word) => {
                    proof {
                        lemma_declaration_at(src, at as int);
                    }
                    let declaration = match self.parse_declaration() {
                        Ok(declaration) => declaration,
                        Err(e) => {
                            return Err(e);
                        },
                    };
                    let ghost first = seq![BlockChildView::Declaration(declaration@)];
                    nodes.push(BlockChild::Declaration(declaration));
                    proof {
                        assert(block_views(nodes@) =~= before + first);
                        lemma_skip_while(src, self.cursor(), Skip::SpacesAndComments);
                    }
                    self.skip_while(Skip::SpacesAndComments);
                    let next = self.position();
                    match self.peek_kind() {
                        Some(TokenKind::Semicolon) => {
                            self.next_token();
                            proof {
                                lemma_list_at(src, next + 1);
                            }
                            let mut more = match self.parse_declartion_or_at_rule_list() {
                                Ok(more) => more,
                                Err(e) => {
                                    return Err(e);
                                },
                            };
                            let ghost more_views = block_views(more@);
                            proof {
                                lemma_block_views_concat(nodes@, more@);
                                lemma_prepend_prepend(
                                    before,
                                    first + more_views,
                                    items_at(src, self.cursor()),
                                );
                                assert(before + (first + more_views) =~= before + first
                                    + more_views);
                            }
                            nodes.append(&mut more);
                        },
                        Some(TokenKind::ClosedCurly) => {
                            self.skip_while(Skip::Spaces);
                            return Ok(nodes);
                        },
                        Some(kind) => {
                            return Err(ParseError::UnexpectedToken(kind, next));
                        },
                        None => {
                            return Err(ParseError::UnexpectedEndOfInput);
                        },
                    }
                },
                Some(TokenKind::At) => {
                    proof {
                        lemma_at_rule_at(src, at as int);
                    }
                    let at_rule = match self.parse_at_rule() {
                        Ok(at_rule) => at_rule,
                        Err(e) => {
                            return Err(e);
                        },
                    };
                    let ghost first = seq![BlockChildView::AtRule(at_rule@)];
                    nodes.push(BlockChild::AtRule(at_rule));
                    proof {
                        assert(block_views(nodes@) =~= before + first);
                        lemma_skip_while(src, self.cursor(), Skip::SpacesAndComments);
                    }
                    self.skip_while(Skip::SpacesAndComments);
                    proof {
                        lemma_list_at(src, self.cursor());
                    }
                    let mut more = match self.parse_declartion_or_at_rule_list() {
                        Ok(more) => more,
                        Err(e) => {
                            return Err(e);
                        },
                    };
                    let ghost more_views = block_views(more@);
                    proof {
                        lemma_block_views_concat(nodes@, more@);
                        lemma_prepend_prepend(
                            before,
                            first + more_views,
                            items_at(src, self.cursor()),
                        );
                        assert(before + (first + more_views) =~= before + first + more_views);
                    }
                    nodes.append(&mut more);
                },
                Some(TokenKind::Comment) => {
                    proof {
                        lemma_token_end(src, at as int);
                    }
                    let comment = match self.parse_comment() {
                        Ok(comment) => comment,
                        Err(e) => {
                            return Err(e);
                        },
                    };
                    let ghost first = seq![BlockChildView::Comment(comment@)];
                    nodes.push(BlockChild::Comment(comment));
                    proof {
                        assert(block_views(nodes@) =~= before + first);
                        lemma_prepend_prepend(before, first, items_at(src, self.cursor()));
                    }
                },
                _ => {
                    proof {
                        assert(before + Seq::<BlockChildView>::empty() =~= before);
                    }
                    self.skip_while(Skip::Spaces);
                    return Ok(nodes);
                },
            }
        }
    }

    /// Parses the block at the cursor.
    fn parse_block(&mut self) -> (r: Result<Vec<BlockChild>, ParseError>)
        ensures
            final(self).source() == old(self).source(),
            match block_at(old(self).source(), old(self).cursor()) {
                Ok((nodes, end)) => r is Ok && block_views(r.unwrap()@) == nodes
                    && final(self).cursor() == end,
                Err(e) => r == Err::<Vec<BlockChild>, ParseError>(e),
            },
        decreases remaining(old(self).source(), old(self).cursor()), 3nat,
    {
        let _ = self.position();
        self.expect(TokenKind::OpenCurly)?;
        let nodes = self.parse_declartion_or_at_rule_list()?;
        self.expect(TokenKind::ClosedCurly)?;
        Ok(nodes)
    }
}

/// Passes over tokens from `cur` on as `what` says.
pub fn skip_tokens(bytes: &[u8], cur: usize, what: Skip) -> (r: usize)
    requires
        cur <= bytes@.len(),
    ensures
        r == skip_while(bytes@, cur as int, what),
        cur <= r <= bytes@.len(),
{
    let mut at: usize = cur;
    loop
        invariant
            cur <= at <= bytes@.len(),
            skip_while(bytes@, at as int, what) == skip_while(bytes@, cur as int, what),
        decreases bytes@.len() - at,
    {
        match scan_token(bytes, at) {
            Some(token) => {
                if !what.passes_over(token.0) {
                    return at;
                }
                at = token.2 + 1;
            },
            None => {
                return at;
            },
        }
    }
}

/// Nothing before a list leaves the list as it is.
pub proof fn lemma_prepend_empty<T>(rest: Result<(Seq<T>, int), ParseError>)
    ensures
        prepend(Seq::<T>::empty(), rest) == rest,
{
    match rest {
        Ok((nodes, _)) => {
            assert(Seq::<T>::empty() + nodes =~= nodes);
        },
        Err(_) => {},
    }
}

/// Two lists before a third are their concatenation before it.
pub proof fn lemma_prepend_prepend<T>(
    first: Seq<T>,
    second: Seq<T>,
    rest: Result<(Seq<T>, int), ParseError>,
)
    ensures
        prepend(first, prepend(second, rest)) == prepend(first + second, rest),
{
    match rest {
        Ok((nodes, _)) => {
            assert(first + (second + nodes) =~= first + second + nodes);
        },
        Err(_) => {},
    }
}

/// Parses the stylesheet `source`.
///
/// The tree is the one that the grammar gives for the bytes of the source,
/// and it is laid out as in the source; the error is the one that the grammar
/// gives.
pub fn parse(source: &str) -> (r: Result<Root, ParseError>)
    ensures
        match parse_source(bytes_of(source)) {
            Ok(root) => r is Ok && r.unwrap()@ == root && root.spans(bytes_of(source)),
            Err(e) => r == Err::<Root, ParseError>(e),
        },
{
    let mut parser = Parser::new(source);
    parser.parse()
}

} // verus!
