//! The productions that build tokens, carried out on a text.
//!
//! Each function with a name in `_from` parses at an offset of the input and
//! gives the token with the offset behind it. The functions without it are
//! the productions as they are offered: they parse at the start of the input
//! and give the rest of the input with the token.

use vstd::prelude::*;
use vstd::utf8::*;
use crate::parser::grammar::remaining;
use crate::syntax::grammar::{
    at_rule_at, block_at, block_inside_at, comment_token_at, declaration_at, ident_token_at,
    lemma_at_rule_at, lemma_at_rule_head, lemma_declaration_at, lemma_rule_at, lemma_rule_head,
    lemma_rule_set_at, lemma_rule_set_items_at, root_at, rule_at, rule_set_at, rule_set_items_at,
    rule_sets_at, selector_token_at, semicolon_rule_sets_at, string_token_at, token_at, Parsed,
    ParsedList,
};
use crate::syntax::lexical::{
    lemma_comment_at, lemma_ident_at, lemma_important_at, lemma_selector_end, lemma_single_char_at,
    lemma_string_at, lemma_ws_star_end, selector_end, ws_star_end,
};
use crate::syntax::scan::{
    has_byte, scan_closed_comment, scan_ident, scan_important, scan_selector, scan_string,
    scan_ws_star,
};
use crate::syntax::{token_views, Token, TokenView};
use crate::text::{bytes_of, cut_point, lemma_bytes_of, slice_between};

verus! {

/// What was parsed, as the productions give it.
pub open spec fn parsed(r: Option<(Token, usize)>) -> Parsed {
    match r {
        Some((token, end)) => Some((token@, end as int)),
        None => None,
    }
}

/// What was parsed, as the productions of several tokens give it.
pub open spec fn parsed_list(r: Option<(Vec<Token>, usize)>) -> ParsedList {
    match r {
        Some((tokens, end)) => Some((token_views(tokens@), end as int)),
        None => None,
    }
}

/// The models of tokens, one list after another.
pub proof fn lemma_token_views_concat(first: Seq<Token>, second: Seq<Token>)
    ensures
        token_views(first + second) == token_views(first) + token_views(second),
{
    assert(token_views(first + second) =~= token_views(first) + token_views(second));
}

/// The models of one token.
pub proof fn lemma_token_views_one(token: Token)
    ensures
        token_views(seq![token]) == seq![token@],
{
    assert(token_views(seq![token]) =~= seq![token@]);
}

/// A comment at `i`.
pub fn comment_from<'a>(input: &'a str, i: usize) -> (r: Option<(Token<'a>, usize)>)
    requires
        cut_point(bytes_of(input), i as int),
    ensures
        parsed(r) == comment_token_at(bytes_of(input), i as int),
{
    let bytes = input.as_bytes();
    proof {
        lemma_bytes_of(input);
        lemma_comment_at(bytes@, i as int);
    }
    match scan_closed_comment(bytes, i) {
        Some(end) => Some((Token::Comment { text: slice_between(input, i + 2, end - 2) }, end)),
        None => None,
    }
}

/// An identifier at `i`.
pub fn ident_from<'a>(input: &'a str, i: usize) -> (r: Option<(Token<'a>, usize)>)
    requires
        cut_point(bytes_of(input), i as int),
    ensures
        parsed(r) == ident_token_at(bytes_of(input), i as int),
{
    let bytes = input.as_bytes();
    proof {
        lemma_bytes_of(input);
        lemma_ident_at(bytes@, i as int);
    }
    match scan_ident(bytes, i) {
        Some(end) => Some((Token::Ident(slice_between(input, i, end)), end)),
        None => None,
    }
}

/// A string at `i`.
pub fn string_from<'a>(input: &'a str, i: usize) -> (r: Option<(Token<'a>, usize)>)
    requires
        cut_point(bytes_of(input), i as int),
    ensures
        parsed(r) == string_token_at(bytes_of(input), i as int),
{
    let bytes = input.as_bytes();
    proof {
        lemma_bytes_of(input);
        lemma_string_at(bytes@, i as int);
    }
    match scan_string(bytes, i) {
        Some(end) => Some((Token::String(slice_between(input, i + 1, end - 1)), end)),
        None => None,
    }
}

/// The selector at `i`.
pub fn selector_from<'a>(input: &'a str, i: usize) -> (r: (Token<'a>, usize))
    requires
        cut_point(bytes_of(input), i as int),
    ensures
        parsed(Some(r)) == selector_token_at(bytes_of(input), i as int),
{
    let bytes = input.as_bytes();
    proof {
        lemma_bytes_of(input);
        lemma_selector_end(bytes@, i as int);
    }
    let end = scan_selector(bytes, i);
    (Token::Selector(slice_between(input, i, end)), end)
}

/// A declaration at `i`.
pub fn declaration_from<'a>(input: &'a str, i: usize) -> (r: Option<(Token<'a>, usize)>)
    requires
        cut_point(bytes_of(input), i as int),
    ensures
        parsed(r) == declaration_at(bytes_of(input), i as int),
{
    let bytes = input.as_bytes();
    proof {
        lemma_bytes_of(input);
        lemma_declaration_at(bytes@, i as int);
        lemma_ident_at(bytes@, i as int);
    }
    let prop_end = match scan_ident(bytes, i) {
        Some(end) => end,
        None => {
            return None;
        },
    };
    proof {
        lemma_ws_star_end(bytes@, prop_end as int);
    }
    let colon = scan_ws_star(bytes, prop_end);
    if !has_byte(bytes, colon, 0x3a) {
        return None;
    }
    let value = scan_ws_star(bytes, colon + 1);
    let value_end = scan_selector(bytes, value);
    let marker = scan_important(bytes, scan_ws_star(bytes, value_end));
    proof {
        lemma_important_at(bytes@, ws_star_end(bytes@, value_end as int));
    }
    let prop = slice_between(input, i, prop_end);
    let value = slice_between(input, value, value_end);
    match marker {
        Some(end) => Some((Token::Declaration { prop, value, important: true }, end)),
        None => Some((Token::Declaration { prop, value, important: false }, value_end)),
    }
}

/// An at-rule at `i`.
pub fn at_rule_from<'a>(input: &'a str, i: usize) -> (r: Option<(Token<'a>, usize)>)
    requires
        cut_point(bytes_of(input), i as int),
    ensures
        parsed(r) == at_rule_at(bytes_of(input), i as int),
    decreases remaining(bytes_of(input), i as int), 2nat,
{
    let bytes = input.as_bytes();
    proof {
        lemma_bytes_of(input);
        lemma_at_rule_head(bytes@, i as int);
    }
    if !has_byte(bytes, i, 0x40) {
        return None;
    }
    let name_end = match scan_ident(bytes, i + 1) {
        Some(end) => end,
        None => {
            return None;
        },
    };
    let params = scan_ws_star(bytes, name_end);
    let params_end = scan_selector(bytes, params);
    let brace = scan_ws_star(bytes, params_end);
    let name = slice_between(input, i + 1, name_end);
    let params = slice_between(input, params, params_end);
    match block_inside_from(input, brace) {
        Some((nodes, end)) => Some((Token::AtRule { name, params, nodes }, end)),
        None => {
            let nodes: Vec<Token<'a>> = Vec::new();
            proof {
                assert(token_views(nodes@) =~= Seq::<TokenView>::empty());
            }
            Some((Token::AtRule { name, params, nodes }, brace))
        },
    }
}

/// The inside of a block at `i`.
pub fn block_inside_from<'a>(input: &'a str, i: usize) -> (r: Option<(Vec<Token<'a>>, usize)>)
    requires
        cut_point(bytes_of(input), i as int),
    ensures
        parsed_list(r) == block_inside_at(bytes_of(input), i as int),
    decreases remaining(bytes_of(input), i as int), 1nat,
{
    let bytes = input.as_bytes();
    proof {
        lemma_bytes_of(input);
        lemma_single_char_at(bytes@, i as int);
        lemma_rule_set_at(bytes@, i + 1);
    }
    if !has_byte(bytes, i, 0x7b) {
        return None;
    }
    let (nodes, end) = match rule_set_from(input, i + 1) {
        Some(inside) => inside,
        None => (Vec::new(), i + 1),
    };
    if has_byte(bytes, end, 0x7d) {
        Some((nodes, end + 1))
    } else {
        None
    }
}

/// A block at `i`.
pub fn block_from<'a>(input: &'a str, i: usize) -> (r: Option<(Token<'a>, usize)>)
    requires
        cut_point(bytes_of(input), i as int),
    ensures
        parsed(r) == block_at(bytes_of(input), i as int),
{
    match block_inside_from(input, i) {
        Some((nodes, end)) => Some((Token::Block { nodes }, end)),
        None => None,
    }
}

/// A rule at `i`.
pub fn rule_from<'a>(input: &'a str, i: usize) -> (r: Option<(Token<'a>, usize)>)
    requires
        cut_point(bytes_of(input), i as int),
    ensures
        parsed(r) == rule_at(bytes_of(input), i as int),
    decreases remaining(bytes_of(input), i as int), 2nat,
{
    let bytes = input.as_bytes();
    proof {
        lemma_bytes_of(input);
        lemma_rule_head(bytes@, i as int);
    }
    let selector_end = scan_selector(bytes, i);
    let brace = scan_ws_star(bytes, selector_end);
    match block_inside_from(input, brace) {
        Some((nodes, end)) => Some(
            (Token::Rule { selector: slice_between(input, i, selector_end), nodes }, end),
        ),
        None => None,
    }
}

/// What starts a rule set at `i`, and what follows it.
fn rule_set_items_from<'a>(input: &'a str, i: usize) -> (r: Option<(Vec<Token<'a>>, usize)>)
    requires
        cut_point(bytes_of(input), i as int),
    ensures
        parsed_list(r) == rule_set_items_at(bytes_of(input), i as int),
    decreases remaining(bytes_of(input), i as int), 3nat,
{
    let ghost s = bytes_of(input);
    proof {
        lemma_bytes_of(input);
        lemma_rule_set_items_at(s, i as int);
        lemma_at_rule_at(s, i as int);
        lemma_comment_at(s, i as int);
        lemma_rule_at(s, i as int);
        lemma_declaration_at(s, i as int);
    }
    let (first, end, semicolons) = match at_rule_from(input, i) {
        Some((first, end)) => (first, end, false),
        None => match comment_from(input, i) {
            Some((first, end)) => (first, end, false),
            None => match rule_from(input, i) {
                Some((first, end)) => (first, end, false),
                None => match declaration_from(input, i) {
                    Some((first, end)) => (first, end, true),
                    None => {
                        return None;
                    },
                },
            },
        },
    };
    let (mut more, end) = if semicolons {
        semicolon_rule_sets_from(input, end)
    } else {
        rule_sets_from(input, end)
    };
    proof {
        lemma_token_views_one(first);
        lemma_token_views_concat(seq![first], more@);
    }
    let mut nodes = vec![first];
    nodes.append(&mut more);
    Some((nodes, end))
}

/// A rule set at `i`.
pub fn rule_set_from<'a>(input: &'a str, i: usize) -> (r: Option<(Vec<Token<'a>>, usize)>)
    requires
        cut_point(bytes_of(input), i as int),
    ensures
        parsed_list(r) == rule_set_at(bytes_of(input), i as int),
    decreases remaining(bytes_of(input), i as int), 4nat,
{
    let bytes = input.as_bytes();
    proof {
        lemma_bytes_of(input);
        lemma_ws_star_end(bytes@, i as int);
        lemma_rule_set_items_at(bytes@, ws_star_end(bytes@, i as int));
    }
    let start = scan_ws_star(bytes, i);
    match rule_set_items_from(input, start) {
        Some((nodes, end)) => {
            let end = if has_byte(bytes, end, 0x3b) {
                end + 1
            } else {
                end
            };
            Some((nodes, scan_ws_star(bytes, end)))
        },
        None => None,
    }
}

/// The rule sets from `i` on, as one list.
fn rule_sets_from<'a>(input: &'a str, i: usize) -> (r: (Vec<Token<'a>>, usize))
    requires
        cut_point(bytes_of(input), i as int),
    ensures
        (token_views(r.0@), r.1 as int) == rule_sets_at(bytes_of(input), i as int),
        i <= r.1 <= bytes_of(input).len(),
        cut_point(bytes_of(input), r.1 as int),
    decreases remaining(bytes_of(input), i as int), 5nat,
{
    let ghost s = bytes_of(input);
    let mut nodes: Vec<Token<'a>> = Vec::new();
    let mut at: usize = i;
    proof {
        lemma_bytes_of(input);
        assert(token_views(nodes@) + rule_sets_at(s, i as int).0 =~= rule_sets_at(s, i as int).0);
    }
    loop
        invariant
            s == bytes_of(input),
            vstd::utf8::valid_utf8(s),
            i <= at <= s.len(),
            cut_point(s, at as int),
            rule_sets_at(s, i as int) == (
                token_views(nodes@) + rule_sets_at(s, at as int).0,
                rule_sets_at(s, at as int).1,
            ),
        decreases remaining(s, at as int),
    {
        proof {
            lemma_rule_set_at(s, at as int);
        }
        match rule_set_from(input, at) {
            Some((mut more, end)) => {
                proof {
                    lemma_token_views_concat(nodes@, more@);
                    assert(token_views(nodes@) + (token_views(more@) + rule_sets_at(
                        s,
                        end as int,
                    ).0) =~= token_views(nodes@) + token_views(more@) + rule_sets_at(
                        s,
                        end as int,
                    ).0);
                }
                nodes.append(&mut more);
                at = end;
            },
            None => {
                proof {
                    assert(token_views(nodes@) + Seq::<TokenView>::empty() =~= token_views(
                        nodes@,
                    ));
                }
                return (nodes, at);
            },
        }
    }
}

/// The rule sets from `i` on that a semicolon precedes each, as one list.
fn semicolon_rule_sets_from<'a>(input: &'a str, i: usize) -> (r: (Vec<Token<'a>>, usize))
    requires
        cut_point(bytes_of(input), i as int),
    ensures
        (token_views(r.0@), r.1 as int) == semicolon_rule_sets_at(bytes_of(input), i as int),
        i <= r.1 <= bytes_of(input).len(),
        cut_point(bytes_of(input), r.1 as int),
    decreases remaining(bytes_of(input), i as int), 5nat,
{
    let bytes = input.as_bytes();
    let ghost s = bytes_of(input);
    let mut nodes: Vec<Token<'a>> = Vec::new();
    let mut at: usize = i;
    proof {
        lemma_bytes_of(input);
        assert(token_views(nodes@) + semicolon_rule_sets_at(s, i as int).0
            =~= semicolon_rule_sets_at(s, i as int).0);
    }
    loop
        invariant
            s == bytes_of(input),
            bytes@ == s,
            vstd::utf8::valid_utf8(s),
            i <= at <= s.len(),
            cut_point(s, at as int),
            semicolon_rule_sets_at(s, i as int) == (
                token_views(nodes@) + semicolon_rule_sets_at(s, at as int).0,
                semicolon_rule_sets_at(s, at as int).1,
            ),
        decreases remaining(s, at as int),
    {
        proof {
            lemma_single_char_at(s, at as int);
            lemma_rule_set_at(s, at + 1);
            assert(token_views(nodes@) + Seq::<TokenView>::empty() =~= token_views(nodes@));
        }
        if !has_byte(bytes, at, 0x3b) {
            return (nodes, at);
        }
        match rule_set_from(input, at + 1) {
            Some((mut more, end)) => {
                proof {
                    lemma_token_views_concat(nodes@, more@);
                    assert(token_views(nodes@) + (token_views(more@) + semicolon_rule_sets_at(
                        s,
                        end as int,
                    ).0) =~= token_views(nodes@) + token_views(more@) + semicolon_rule_sets_at(
                        s,
                        end as int,
                    ).0);
                }
                nodes.append(&mut more);
                at = end;
            },
            None => {
                return (nodes, at);
            },
        }
    }
}

/// A stylesheet at `i`.
pub fn root_from<'a>(input: &'a str, i: usize) -> (r: Option<(Token<'a>, usize)>)
    requires
        cut_point(bytes_of(input), i as int),
    ensures
        parsed(r) == root_at(bytes_of(input), i as int),
{
    let bytes = input.as_bytes();
    let ghost s = bytes_of(input);
    proof {
        lemma_bytes_of(input);
        lemma_ws_star_end(s, i as int);
    }
    let start = scan_ws_star(bytes, i);
    proof {
        lemma_comment_at(s, start as int);
        lemma_at_rule_at(s, start as int);
        lemma_rule_at(s, start as int);
    }
    let first = match comment_from(input, start) {
        Some(first) => Some(first),
        None => match at_rule_from(input, start) {
            Some(first) => Some(first),
            None => rule_from(input, start),
        },
    };
    assert(parsed(first) == if comment_token_at(s, start as int) is Some {
        comment_token_at(s, start as int)
    } else if at_rule_at(s, start as int) is Some {
        at_rule_at(s, start as int)
    } else {
        rule_at(s, start as int)
    });
    let (nodes, end) = match first {
        Some((first, end)) => {
            let (mut more, end) = rule_sets_from(input, end);
            proof {
                lemma_token_views_one(first);
                lemma_token_views_concat(seq![first], more@);
            }
            let mut nodes = vec![first];
            nodes.append(&mut more);
            (nodes, end)
        },
        None => {
            let nodes: Vec<Token<'a>> = Vec::new();
            proof {
                assert(token_views(nodes@) =~= Seq::<TokenView>::empty());
            }
            (nodes, start)
        },
    };
    assert((token_views(nodes@), end as int) == match parsed(first) {
        Some((first, end)) => (seq![first] + rule_sets_at(s, end).0, rule_sets_at(s, end).1),
        None => (seq![], start as int),
    });
    if scan_ws_star(bytes, end) == bytes.len() {
        Some((Token::Root { nodes }, bytes.len()))
    } else {
        None
    }
}

/// The first of the productions that matches at `i`.
pub fn token_from<'a>(input: &'a str, i: usize) -> (r: (Token<'a>, usize))
    requires
        cut_point(bytes_of(input), i as int),
    ensures
        (r.0@, r.1 as int) == token_at(bytes_of(input), i as int),
{
    if let Some(r) = comment_from(input, i) {
        return r;
    }
    if let Some(r) = root_from(input, i) {
        return r;
    }
    if let Some(r) = at_rule_from(input, i) {
        return r;
    }
    if let Some(r) = rule_from(input, i) {
        return r;
    }
    if let Some(r) = block_from(input, i) {
        return r;
    }
    if let Some(r) = declaration_from(input, i) {
        return r;
    }
    if let Some(r) = string_from(input, i) {
        return r;
    }
    if let Some(r) = ident_from(input, i) {
        return r;
    }
    selector_from(input, i)
}

} // verus!
