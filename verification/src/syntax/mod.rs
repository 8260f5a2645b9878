//! The syntax of stylesheets, production by production.
//!
//! Each production is a function from a text to what it matches at the start
//! of the text and to the rest of the text.

pub mod grammar;
pub mod lexical;
pub mod rules;
pub mod scan;

use vstd::prelude::*;
use vstd::string::*;
use crate::syntax::grammar::{
    at_keyword_at, at_rule_at, block_at, comment_token_at, declaration_at, ident_token_at,
    lemma_at_rule_at, lemma_at_rule_head, lemma_block_inside_at, lemma_declaration_at,
    lemma_rule_at, lemma_rule_set_at, lemma_token_at, root_at, rule_at, rule_set_at,
    selector_token_at, string_token_at, token_at, Parsed, ParsedList,
};
use crate::syntax::lexical::{
    ascii_alphabetic_at, digit_at, escape_at, hex_digit_at, important_at, lemma_comment_at,
    lemma_escape_at, lemma_ident_at, lemma_important_at, lemma_selector_end, lemma_single_char_at,
    lemma_string_at, lemma_whitespace_at, lemma_ws_star_end, newline_at, not_ascii_at,
    valid_first_ident_char_at, valid_second_ident_char_at, whitespace_at, ws_star_end,
};
use crate::syntax::rules::{
    at_rule_from, block_from, comment_from, declaration_from, ident_from, parsed, root_from,
    rule_from, rule_set_from, selector_from, string_from, token_from,
};
use crate::syntax::scan::{
    found, has_byte, scan_ascii_alphabetic, scan_digit, scan_escape, scan_hex_digit, scan_ident,
    scan_important, scan_newline, scan_not_ascii, scan_valid_first_ident_char,
    scan_valid_second_ident_char, scan_whitespace, scan_ws_star,
};
use crate::text::{
    bytes_of, cut_point, lemma_bytes_of, lemma_cut_point_ends, slice_between, text_between,
};

verus! {

/// What a production gives. The texts are parts of the input.
#[derive(Debug, PartialEq)]
pub enum Token<'a> {
    /// A comment, with what stands between its delimiters.
    Comment { text: &'a str },
    /// A whole stylesheet.
    Root { nodes: Vec<Token<'a>> },
    /// A declaration `prop: value`, with or without the marker `!important`.
    Declaration { prop: &'a str, value: &'a str, important: bool },
    /// A rule `selector { .. }`.
    Rule { selector: &'a str, nodes: Vec<Token<'a>> },
    /// An at-rule `@name params { .. }`, or one without a block.
    AtRule { name: &'a str, params: &'a str, nodes: Vec<Token<'a>> },
    /// A block `{ .. }`.
    Block { nodes: Vec<Token<'a>> },
    /// A string, with what stands between its quotes.
    String(&'a str),
    /// A selector.
    Selector(&'a str),
    /// An identifier.
    Ident(&'a str),
}

/// Model of a [`Token`].
pub ghost enum TokenView {
    Comment { text: Seq<char> },
    Root { nodes: Seq<TokenView> },
    Declaration { prop: Seq<char>, value: Seq<char>, important: bool },
    Rule { selector: Seq<char>, nodes: Seq<TokenView> },
    AtRule { name: Seq<char>, params: Seq<char>, nodes: Seq<TokenView> },
    Block { nodes: Seq<TokenView> },
    String(Seq<char>),
    Selector(Seq<char>),
    Ident(Seq<char>),
}

/// The models of tokens, in order.
pub open spec fn token_views(tokens: Seq<Token>) -> Seq<TokenView>
    decreases tokens,
{
    Seq::new(
        tokens.len(),
        |i: int|
            if 0 <= i < tokens.len() {
                token_view(tokens[i])
            } else {
                arbitrary()
            },
    )
}

/// The model of a token.
pub open spec fn token_view(token: Token) -> TokenView
    decreases token,
{
    match token {
        Token::Comment { text } => TokenView::Comment { text: text@ },
        Token::Root { nodes } => TokenView::Root { nodes: token_views(nodes@) },
        Token::Declaration { prop, value, important } => TokenView::Declaration {
            prop: prop@,
            value: value@,
            important,
        },
        Token::Rule { selector, nodes } => TokenView::Rule {
            selector: selector@,
            nodes: token_views(nodes@),
        },
        Token::AtRule { name, params, nodes } => TokenView::AtRule {
            name: name@,
            params: params@,
            nodes: token_views(nodes@),
        },
        Token::Block { nodes } => TokenView::Block { nodes: token_views(nodes@) },
        Token::String(text) => TokenView::String(text@),
        Token::Selector(text) => TokenView::Selector(text@),
        Token::Ident(text) => TokenView::Ident(text@),
    }
}

impl<'a> View for Token<'a> {
    type V = TokenView;

    open spec fn view(&self) -> TokenView {
        token_view(*self)
    }
}

/// A copy of the tokens.
fn clone_tokens<'a>(tokens: &Vec<Token<'a>>) -> (r: Vec<Token<'a>>)
    ensures
        token_views(r@) == token_views(tokens@),
    decreases tokens, 0nat,
{
    let mut copies: Vec<Token<'a>> = Vec::new();
    let mut i: usize = 0;
    while i < tokens.len()
        invariant
            i <= tokens.len(),
            copies@.len() == i,
            forall|k: int| 0 <= k < i ==> (#[trigger] copies@[k])@ == tokens@[k]@,
        decreases tokens.len() - i,
    {
        copies.push(clone_token(&tokens[i]));
        i += 1;
    }
    proof {
        assert(token_views(copies@) =~= token_views(tokens@));
    }
    copies
}

/// A copy of the token.
fn clone_token<'a>(token: &Token<'a>) -> (r: Token<'a>)
    ensures
        r@ == token@,
    decreases token, 1nat,
{
    match token {
        Token::Comment { text } => Token::Comment { text: *text },
        Token::Root { nodes } => Token::Root { nodes: clone_tokens(nodes) },
        Token::Declaration { prop, value, important } => Token::Declaration {
            prop: *prop,
            value: *value,
            important: *important,
        },
        Token::Rule { selector, nodes } => Token::Rule {
            selector: *selector,
            nodes: clone_tokens(nodes),
        },
        Token::AtRule { name, params, nodes } => Token::AtRule {
            name: *name,
            params: *params,
            nodes: clone_tokens(nodes),
        },
        Token::Block { nodes } => Token::Block { nodes: clone_tokens(nodes) },
        Token::String(text) => Token::String(*text),
        Token::Selector(text) => Token::Selector(*text),
        Token::Ident(text) => Token::Ident(*text),
    }
}

impl<'a> Clone for Token<'a> {
    fn clone(&self) -> (r: Self)
        ensures
            r@ == self@,
    {
        clone_token(self)
    }
}

/// The text does not start with what the production asks for.
#[derive(Debug, PartialEq, Eq, Clone, Copy)]
pub struct NoMatch;

/// The text of the input from the offset `end` on.
pub open spec fn rest_of(input: &str, end: int) -> Seq<char> {
    text_between(bytes_of(input), end, bytes_of(input).len() as int)
}

/// Whether `r` is what a production gives that matches the input up to
/// `end`, or that does not match it: the rest of the input and the text that
/// was matched, or no match.
pub open spec fn recognizes(
    input: &str,
    end: Option<int>,
    r: Result<(&str, &str), NoMatch>,
) -> bool {
    match end {
        Some(end) => r is Ok && r.unwrap().0@ == rest_of(input, end) && r.unwrap().1@
            == text_between(bytes_of(input), 0, end),
        None => r is Err,
    }
}

/// Whether `r` is what a production gives that parses `expected` at the
/// start of the input: the rest of the input and the token, or no match.
pub open spec fn produces(
    input: &str,
    expected: Parsed,
    r: Result<(&str, Token), NoMatch>,
) -> bool {
    match expected {
        Some((token, end)) => r is Ok && r.unwrap().0@ == rest_of(input, end) && r.unwrap().1@
            == token,
        None => r is Err,
    }
}

/// Whether `r` is what a production of several tokens gives that parses
/// `expected` at the start of the input.
pub open spec fn produces_list(
    input: &str,
    expected: ParsedList,
    r: Result<(&str, Vec<Token>), NoMatch>,
) -> bool {
    match expected {
        Some((tokens, end)) => r is Ok && r.unwrap().0@ == rest_of(input, end) && token_views(
            r.unwrap().1@,
        ) == tokens,
        None => r is Err,
    }
}

/// The input from the offset `end` on.
fn rest<'a>(input: &'a str, end: usize) -> (r: &'a str)
    requires
        cut_point(bytes_of(input), end as int),
    ensures
        r@ == rest_of(input, end as int),
{
    proof {
        lemma_bytes_of(input);
        lemma_cut_point_ends(bytes_of(input));
    }
    slice_between(input, end, input.as_bytes().len())
}

/// The rest and the matched text for a match up to `end`.
fn recognized<'a>(input: &'a str, end: Option<usize>) -> (r: Result<(&'a str, &'a str), NoMatch>)
    requires
        match end {
            Some(end) => cut_point(bytes_of(input), end as int),
            None => true,
        },
    ensures
        recognizes(input, found(end), r),
{
    proof {
        lemma_bytes_of(input);
        lemma_cut_point_ends(bytes_of(input));
    }
    match end {
        Some(end) => Ok((rest(input, end), slice_between(input, 0, end))),
        None => Err(NoMatch),
    }
}

/// The rest and the token for what was parsed.
fn produced<'a>(input: &'a str, found: Option<(Token<'a>, usize)>) -> (r: Result<
    (&'a str, Token<'a>),
    NoMatch,
>)
    requires
        match found {
            Some((_, end)) => cut_point(bytes_of(input), end as int),
            None => true,
        },
    ensures
        produces(input, parsed(found), r),
{
    match found {
        Some((token, end)) => Ok((rest(input, end), token)),
        None => Err(NoMatch),
    }
}

/// What is known at the start of an input: its bytes are well-formed UTF-8
/// and can be cut there.
proof fn lemma_start(input: &str)
    ensures
        vstd::utf8::valid_utf8(bytes_of(input)),
        cut_point(bytes_of(input), 0),
{
    lemma_bytes_of(input);
    lemma_cut_point_ends(bytes_of(input));
}

/// A line break at the start of the input.
pub fn newline(input: &str) -> (r: Result<(&str, &str), NoMatch>)
    ensures
        recognizes(input, newline_at(bytes_of(input), 0), r),
{
    proof {
        lemma_start(input);
        lemma_whitespace_at(bytes_of(input), 0);
    }
    recognized(input, scan_newline(input.as_bytes(), 0))
}

/// One white space at the start of the input.
pub fn whitespace(input: &str) -> (r: Result<(&str, &str), NoMatch>)
    ensures
        recognizes(input, whitespace_at(bytes_of(input), 0), r),
{
    proof {
        lemma_start(input);
        lemma_whitespace_at(bytes_of(input), 0);
    }
    recognized(input, scan_whitespace(input.as_bytes(), 0))
}

/// One hexadecimal digit at the start of the input.
pub fn hex_digit(input: &str) -> (r: Result<(&str, &str), NoMatch>)
    ensures
        recognizes(input, hex_digit_at(bytes_of(input), 0), r),
{
    proof {
        lemma_start(input);
        lemma_single_char_at(bytes_of(input), 0);
    }
    recognized(input, scan_hex_digit(input.as_bytes(), 0))
}

/// One digit at the start of the input.
pub fn digit(input: &str) -> (r: Result<(&str, &str), NoMatch>)
    ensures
        recognizes(input, digit_at(bytes_of(input), 0), r),
{
    proof {
        lemma_start(input);
        lemma_single_char_at(bytes_of(input), 0);
    }
    recognized(input, scan_digit(input.as_bytes(), 0))
}

/// An escape at the start of the input.
pub fn escape(input: &str) -> (r: Result<(&str, &str), NoMatch>)
    ensures
        recognizes(input, escape_at(bytes_of(input), 0), r),
{
    proof {
        lemma_start(input);
        lemma_escape_at(bytes_of(input), 0);
    }
    recognized(input, scan_escape(input.as_bytes(), 0))
}

/// The white space at the start of the input, which may be none.
pub fn ws_star(input: &str) -> (r: Result<(&str, &str), NoMatch>)
    ensures
        recognizes(input, Some(ws_star_end(bytes_of(input), 0)), r),
{
    proof {
        lemma_start(input);
        lemma_ws_star_end(bytes_of(input), 0);
    }
    recognized(input, Some(scan_ws_star(input.as_bytes(), 0)))
}

/// One character that is not ASCII at the start of the input.
pub fn not_ascii(input: &str) -> (r: Result<(&str, &str), NoMatch>)
    ensures
        recognizes(input, not_ascii_at(bytes_of(input), 0), r),
{
    proof {
        lemma_start(input);
        lemma_single_char_at(bytes_of(input), 0);
    }
    recognized(input, scan_not_ascii(input.as_bytes(), 0))
}

/// One ASCII letter at the start of the input.
pub fn ascii_alphabetic(input: &str) -> (r: Result<(&str, &str), NoMatch>)
    ensures
        recognizes(input, ascii_alphabetic_at(bytes_of(input), 0), r),
{
    proof {
        lemma_start(input);
        lemma_single_char_at(bytes_of(input), 0);
    }
    recognized(input, scan_ascii_alphabetic(input.as_bytes(), 0))
}

/// A character that may start an identifier, at the start of the input.
pub fn valid_first_ident_char(input: &str) -> (r: Result<(&str, &str), NoMatch>)
    ensures
        recognizes(input, valid_first_ident_char_at(bytes_of(input), 0), r),
{
    proof {
        lemma_start(input);
        lemma_single_char_at(bytes_of(input), 0);
    }
    recognized(input, scan_valid_first_ident_char(input.as_bytes(), 0))
}

/// A character that may go on an identifier, at the start of the input.
pub fn valid_second_ident_char(input: &str) -> (r: Result<(&str, &str), NoMatch>)
    ensures
        recognizes(input, valid_second_ident_char_at(bytes_of(input), 0), r),
{
    proof {
        lemma_start(input);
        lemma_single_char_at(bytes_of(input), 0);
    }
    recognized(input, scan_valid_second_ident_char(input.as_bytes(), 0))
}

/// The marker `!important` at the start of the input, with the white space
/// inside it and behind it.
pub fn important(input: &str) -> (r: Result<(&str, bool), NoMatch>)
    ensures
        match important_at(bytes_of(input), 0) {
            Some(end) => r is Ok && r.unwrap().0@ == rest_of(input, end) && r.unwrap().1,
            None => r is Err,
        },
{
    proof {
        lemma_start(input);
        lemma_important_at(bytes_of(input), 0);
    }
    match scan_important(input.as_bytes(), 0) {
        Some(end) => Ok((rest(input, end), true)),
        None => Err(NoMatch),
    }
}

/// The name of an at-rule at the start of the input: `@` and an identifier,
/// of which the identifier is given.
pub fn at_keyword_token(input: &str) -> (r: Result<(&str, &str), NoMatch>)
    ensures
        match at_keyword_at(bytes_of(input), 0) {
            Some(end) => r is Ok && r.unwrap().0@ == rest_of(input, end) && r.unwrap().1@
                == text_between(bytes_of(input), 1, end),
            None => r is Err,
        },
{
    let bytes = input.as_bytes();
    proof {
        lemma_start(input);
        lemma_at_rule_head(bytes_of(input), 0);
    }
    if !has_byte(bytes, 0, 0x40) {
        return Err(NoMatch);
    }
    match scan_ident(bytes, 1) {
        Some(end) => Ok((rest(input, end), slice_between(input, 1, end))),
        None => Err(NoMatch),
    }
}

/// A comment at the start of the input.
pub fn comment(input: &str) -> (r: Result<(&str, Token), NoMatch>)
    ensures
        produces(input, comment_token_at(bytes_of(input), 0), r),
{
    proof {
        lemma_start(input);
        lemma_comment_at(bytes_of(input), 0);
    }
    produced(input, comment_from(input, 0))
}

/// An identifier at the start of the input.
pub fn ident(input: &str) -> (r: Result<(&str, Token), NoMatch>)
    ensures
        produces(input, ident_token_at(bytes_of(input), 0), r),
{
    proof {
        lemma_start(input);
        lemma_ident_at(bytes_of(input), 0);
    }
    produced(input, ident_from(input, 0))
}

/// A string at the start of the input.
pub fn string(input: &str) -> (r: Result<(&str, Token), NoMatch>)
    ensures
        produces(input, string_token_at(bytes_of(input), 0), r),
{
    proof {
        lemma_start(input);
        lemma_string_at(bytes_of(input), 0);
    }
    produced(input, string_from(input, 0))
}

/// The selector at the start of the input, which may be empty.
pub fn selector(input: &str) -> (r: Result<(&str, Token), NoMatch>)
    ensures
        produces(input, selector_token_at(bytes_of(input), 0), r),
{
    proof {
        lemma_start(input);
        lemma_selector_end(bytes_of(input), 0);
    }
    produced(input, Some(selector_from(input, 0)))
}

/// A declaration at the start of the input.
pub fn declaration(input: &str) -> (r: Result<(&str, Token), NoMatch>)
    ensures
        produces(input, declaration_at(bytes_of(input), 0), r),
{
    proof {
        lemma_start(input);
        lemma_declaration_at(bytes_of(input), 0);
    }
    produced(input, declaration_from(input, 0))
}

/// An at-rule at the start of the input.
pub fn at_rule(input: &str) -> (r: Result<(&str, Token), NoMatch>)
    ensures
        produces(input, at_rule_at(bytes_of(input), 0), r),
{
    proof {
        lemma_start(input);
        lemma_at_rule_at(bytes_of(input), 0);
    }
    produced(input, at_rule_from(input, 0))
}

/// A block at the start of the input.
pub fn block(input: &str) -> (r: Result<(&str, Token), NoMatch>)
    ensures
        produces(input, block_at(bytes_of(input), 0), r),
{
    proof {
        lemma_start(input);
        lemma_block_inside_at(bytes_of(input), 0);
    }
    produced(input, block_from(input, 0))
}

/// A rule at the start of the input.
pub fn rule(input: &str) -> (r: Result<(&str, Token), NoMatch>)
    ensures
        produces(input, rule_at(bytes_of(input), 0), r),
{
    proof {
        lemma_start(input);
        lemma_rule_at(bytes_of(input), 0);
    }
    produced(input, rule_from(input, 0))
}

/// A rule set at the start of the input.
pub fn rule_set(input: &str) -> (r: Result<(&str, Vec<Token>), NoMatch>)
    ensures
        produces_list(input, rule_set_at(bytes_of(input), 0), r),
{
    proof {
        lemma_start(input);
        lemma_rule_set_at(bytes_of(input), 0);
    }
    match rule_set_from(input, 0) {
        Some((tokens, end)) => Ok((rest(input, end), tokens)),
        None => Err(NoMatch),
    }
}

/// A stylesheet that is the whole input.
pub fn root(input: &str) -> (r: Result<(&str, Token), NoMatch>)
    ensures
        produces(input, root_at(bytes_of(input), 0), r),
{
    proof {
        lemma_start(input);
        lemma_cut_point_ends(bytes_of(input));
    }
    produced(input, root_from(input, 0))
}

/// The first of the productions that matches at the start of the input,
/// tried in this order: comment, stylesheet, at-rule, rule, block,
/// declaration, string, identifier, selector. The last one matches every
/// input.
pub fn parse_token(input: &str) -> (r: Result<(&str, Token), NoMatch>)
    ensures
        produces(input, Some(token_at(bytes_of(input), 0)), r),
{
    proof {
        lemma_start(input);
        lemma_token_at(bytes_of(input), 0);
    }
    produced(input, Some(token_from(input, 0)))
}

/// The text of a comment token, between its delimiters; `todo` for another
/// token.
pub fn fmt_comment(token: &Token) -> (r: String)
    ensures
        r@ == match token@ {
            TokenView::Comment { text } => "/*"@ + text + "*/"@,
            _ => "todo"@,
        },
{
    match token {
        Token::Comment { text } => {
            let mut r = String::from_str("/*");
            r.append(text);
            r.append("*/");
            r
        },
        _ => String::from_str("todo"),
    }
}

impl<'a> Token<'a> {
    /// The token at the start of the input, as [`parse_token`] gives it.
    pub fn from(input: &'a str) -> (r: Token<'a>)
        ensures
            r@ == token_at(bytes_of(input), 0).0,
    {
        proof {
            lemma_start(input);
        }
        token_from(input, 0).0
    }

    /// The token as text: a comment between its delimiters, `todo` for
    /// another token.
    pub fn to_string(&self) -> (r: String)
        ensures
            r@ == match self@ {
                TokenView::Comment { text } => "/*"@ + text + "*/"@,
                _ => "todo"@,
            },
    {
        fmt_comment(self)
    }
}

} // verus!
