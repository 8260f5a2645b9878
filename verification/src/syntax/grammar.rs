//! The productions that build tokens: what each gives at an offset of the
//! input, as the model of the token and the offset behind it.

use vstd::prelude::*;
use vstd::utf8::*;
use crate::parser::grammar::remaining;
use crate::syntax::lexical::{
    byte_at, comment_at, ident_at, important_at, lemma_comment_at, lemma_ident_at,
    lemma_important_at, lemma_selector_end, lemma_single_char_at, lemma_string_at,
    lemma_ws_star_end, match_end, selector_end, string_at, ws_star_end,
};
use crate::syntax::TokenView;
use crate::text::{lemma_cut_point_ends, text_between};

verus! {

/// What a production gives: the model of a token and the offset behind it.
pub type Parsed = Option<(TokenView, int)>;

/// What a production of several tokens gives.
pub type ParsedList = Option<(Seq<TokenView>, int)>;

/// A comment at `i`, as a token.
pub open spec fn comment_token_at(s: Seq<u8>, i: int) -> Parsed {
    match comment_at(s, i) {
        Some(end) => Some((TokenView::Comment { text: text_between(s, i + 2, end - 2) }, end)),
        None => None,
    }
}

/// An identifier at `i`, as a token.
pub open spec fn ident_token_at(s: Seq<u8>, i: int) -> Parsed {
    match ident_at(s, i) {
        Some(end) => Some((TokenView::Ident(text_between(s, i, end)), end)),
        None => None,
    }
}

/// A string at `i`, as a token: its text is what stands between the quotes.
pub open spec fn string_token_at(s: Seq<u8>, i: int) -> Parsed {
    match string_at(s, i) {
        Some(end) => Some((TokenView::String(text_between(s, i + 1, end - 1)), end)),
        None => None,
    }
}

/// The selector at `i`, as a token.
pub open spec fn selector_token_at(s: Seq<u8>, i: int) -> Parsed {
    Some((TokenView::Selector(text_between(s, i, selector_end(s, i))), selector_end(s, i)))
}

/// A declaration at `i`: an identifier, white space, a colon, white space,
/// a selector for the value, and then, behind white space, the marker if it
/// follows.
pub open spec fn declaration_at(s: Seq<u8>, i: int) -> Parsed {
    match ident_at(s, i) {
        None => None,
        Some(prop_end) => {
            let colon = ws_star_end(s, prop_end);
            if byte_at(s, colon, 0x3a) {
                let value = ws_star_end(s, colon + 1);
                let value_end = selector_end(s, value);
                let marker = important_at(s, ws_star_end(s, value_end));
                Some(
                    (
                        TokenView::Declaration {
                            prop: text_between(s, i, prop_end),
                            value: text_between(s, value, value_end),
                            important: marker is Some,
                        },
                        match marker {
                            Some(end) => end,
                            None => value_end,
                        },
                    ),
                )
            } else {
                None
            }
        },
    }
}

/// The name of an at-rule at `i`: `@` and an identifier.
pub open spec fn at_keyword_at(s: Seq<u8>, i: int) -> Option<int> {
    if byte_at(s, i, 0x40) {
        ident_at(s, i + 1)
    } else {
        None
    }
}

/// The result `r` of a production that started at `i`, where it ends behind
/// `i` and in the input; nothing otherwise. The productions that it is applied to consume at
/// least one byte where they match, as [`lemma_at_rule_at`] and the lemmas
/// beside it show; the definitions need it said to be well-founded.
pub open spec fn consuming<T>(s: Seq<u8>, i: int, r: Option<(T, int)>) -> Option<(T, int)> {
    match r {
        Some((_, end)) => if 0 <= i < end <= s.len() {
            r
        } else {
            None
        },
        None => None,
    }
}

/// An at-rule at `i`: the name, white space, a selector for the parameters,
/// white space, and a block if one follows.
pub open spec fn at_rule_at(s: Seq<u8>, i: int) -> Parsed
    decreases remaining(s, i), 2nat,
    via at_rule_at_decreases
{
    match at_keyword_at(s, i) {
        None => None,
        Some(name_end) => {
            let params = ws_star_end(s, name_end);
            let params_end = selector_end(s, params);
            let brace = ws_star_end(s, params_end);
            let block = block_inside_at(s, brace);
            Some(
                (
                    TokenView::AtRule {
                        name: text_between(s, i + 1, name_end),
                        params: text_between(s, params, params_end),
                        nodes: match block {
                            Some((nodes, _)) => nodes,
                            None => seq![],
                        },
                    },
                    match block {
                        Some((_, end)) => end,
                        None => brace,
                    },
                ),
            )
        },
    }
}

/// The inside of a block at `i`: an opening brace, a rule set if one
/// follows, a closing brace.
pub open spec fn block_inside_at(s: Seq<u8>, i: int) -> ParsedList
    decreases remaining(s, i), 1nat,
    via block_inside_at_decreases
{
    if byte_at(s, i, 0x7b) {
        let inside = match rule_set_at(s, i + 1) {
            Some(inside) => inside,
            None => (seq![], i + 1),
        };
        if byte_at(s, inside.1, 0x7d) {
            Some((inside.0, inside.1 + 1))
        } else {
            None
        }
    } else {
        None
    }
}

/// A block at `i`, as a token.
pub open spec fn block_at(s: Seq<u8>, i: int) -> Parsed {
    match block_inside_at(s, i) {
        Some((nodes, end)) => Some((TokenView::Block { nodes }, end)),
        None => None,
    }
}

/// A rule at `i`: a selector, white space, a block.
pub open spec fn rule_at(s: Seq<u8>, i: int) -> Parsed
    decreases remaining(s, i), 2nat,
    via rule_at_decreases
{
    let selector_end = selector_end(s, i);
    match block_inside_at(s, ws_star_end(s, selector_end)) {
        Some((nodes, end)) => Some(
            (TokenView::Rule { selector: text_between(s, i, selector_end), nodes }, end),
        ),
        None => None,
    }
}

/// What starts a rule set at `i`, and what may follow it: an at-rule, a
/// comment or a rule, each followed by rule sets; or a declaration, followed
/// by rule sets that a semicolon precedes each.
pub open spec fn rule_set_items_at(s: Seq<u8>, i: int) -> ParsedList
    decreases remaining(s, i), 3nat,
    via rule_set_items_at_decreases
{
    if consuming(s, i, at_rule_at(s, i)) is Some {
        let (first, end) = consuming(s, i, at_rule_at(s, i)).unwrap();
        Some((seq![first] + rule_sets_at(s, end).0, rule_sets_at(s, end).1))
    } else if comment_token_at(s, i) is Some {
        let (first, end) = comment_token_at(s, i).unwrap();
        Some((seq![first] + rule_sets_at(s, end).0, rule_sets_at(s, end).1))
    } else if consuming(s, i, rule_at(s, i)) is Some {
        let (first, end) = consuming(s, i, rule_at(s, i)).unwrap();
        Some((seq![first] + rule_sets_at(s, end).0, rule_sets_at(s, end).1))
    } else if declaration_at(s, i) is Some {
        let (first, end) = declaration_at(s, i).unwrap();
        Some((seq![first] + semicolon_rule_sets_at(s, end).0, semicolon_rule_sets_at(s, end).1))
    } else {
        None
    }
}

/// A rule set at `i`: white space, what starts it and what follows, a
/// semicolon if there is one, white space.
pub open spec fn rule_set_at(s: Seq<u8>, i: int) -> ParsedList
    decreases remaining(s, i), 4nat,
    via rule_set_at_decreases
{
    match rule_set_items_at(s, ws_star_end(s, i)) {
        Some((nodes, end)) => Some(
            (
                nodes,
                ws_star_end(
                    s,
                    if byte_at(s, end, 0x3b) {
                        end + 1
                    } else {
                        end
                    },
                ),
            ),
        ),
        None => None,
    }
}

/// The rule sets from `i` on, as many as follow, as one list.
pub open spec fn rule_sets_at(s: Seq<u8>, i: int) -> (Seq<TokenView>, int)
    decreases remaining(s, i), 5nat,
{
    match consuming(s, i, rule_set_at(s, i)) {
        Some((nodes, end)) => (nodes + rule_sets_at(s, end).0, rule_sets_at(s, end).1),
        None => (seq![], i),
    }
}

/// The rule sets from `i` on that a semicolon precedes each, as many as
/// follow, as one list.
pub open spec fn semicolon_rule_sets_at(s: Seq<u8>, i: int) -> (Seq<TokenView>, int)
    decreases remaining(s, i), 5nat,
{
    if byte_at(s, i, 0x3b) {
        match consuming(s, i, rule_set_at(s, i + 1)) {
            Some((nodes, end)) => (
                nodes + semicolon_rule_sets_at(s, end).0,
                semicolon_rule_sets_at(s, end).1,
            ),
            None => (seq![], i),
        }
    } else {
        (seq![], i)
    }
}

/// A stylesheet at `i`: white space; a comment, an at-rule or a rule, and
/// the rule sets that follow it, if there is one; white space; and the end
/// of the input.
pub open spec fn root_at(s: Seq<u8>, i: int) -> Parsed {
    let start = ws_star_end(s, i);
    let first = if comment_token_at(s, start) is Some {
        comment_token_at(s, start)
    } else if at_rule_at(s, start) is Some {
        at_rule_at(s, start)
    } else {
        rule_at(s, start)
    };
    let (nodes, end) = match first {
        Some((first, end)) => (seq![first] + rule_sets_at(s, end).0, rule_sets_at(s, end).1),
        None => (seq![], start),
    };
    if ws_star_end(s, end) == s.len() {
        Some((TokenView::Root { nodes }, s.len() as int))
    } else {
        None
    }
}

/// The first of the productions that matches at `i`, tried in this order:
/// comment, stylesheet, at-rule, rule, block, declaration, string,
/// identifier, selector. The last one always matches.
pub open spec fn token_at(s: Seq<u8>, i: int) -> (TokenView, int) {
    if comment_token_at(s, i) is Some {
        comment_token_at(s, i).unwrap()
    } else if root_at(s, i) is Some {
        root_at(s, i).unwrap()
    } else if at_rule_at(s, i) is Some {
        at_rule_at(s, i).unwrap()
    } else if rule_at(s, i) is Some {
        rule_at(s, i).unwrap()
    } else if block_at(s, i) is Some {
        block_at(s, i).unwrap()
    } else if declaration_at(s, i) is Some {
        declaration_at(s, i).unwrap()
    } else if string_token_at(s, i) is Some {
        string_token_at(s, i).unwrap()
    } else if ident_token_at(s, i) is Some {
        ident_token_at(s, i).unwrap()
    } else {
        selector_token_at(s, i).unwrap()
    }
}

#[via_fn]
proof fn at_rule_at_decreases(s: Seq<u8>, i: int) {
    lemma_at_rule_head(s, i);
}

#[via_fn]
proof fn block_inside_at_decreases(s: Seq<u8>, i: int) {
}

#[via_fn]
proof fn rule_at_decreases(s: Seq<u8>, i: int) {
    lemma_rule_head(s, i);
}

#[via_fn]
proof fn rule_set_items_at_decreases(s: Seq<u8>, i: int) {
    lemma_comment_at(s, i);
    lemma_declaration_at(s, i);
}

#[via_fn]
proof fn rule_set_at_decreases(s: Seq<u8>, i: int) {
    if 0 <= i <= s.len() {
        lemma_ws_star_end(s, i);
    }
}

/// What is known of a token that was parsed at `i`: it ends behind `i`, in
/// the input, and tears no character.
pub open spec fn parsed_ok<T>(s: Seq<u8>, i: int, r: Option<(T, int)>) -> bool {
    match r {
        Some((_, end)) => i < end && match_end(s, i, end),
        None => true,
    }
}

/// Where the block of an at-rule at `i` is looked for.
pub proof fn lemma_at_rule_head(s: Seq<u8>, i: int)
    ensures
        match at_keyword_at(s, i) {
            Some(name_end) => {
                let params = ws_star_end(s, name_end);
                let params_end = selector_end(s, params);
                let brace = ws_star_end(s, params_end);
                &&& 0 <= i
                &&& i + 1 < name_end <= params <= params_end <= brace <= s.len()
                &&& match_end(s, i, i + 1)
                &&& match_end(s, i, name_end)
                &&& match_end(s, i, params)
                &&& match_end(s, i, params_end)
                &&& match_end(s, i, brace)
            },
            None => true,
        },
{
    if byte_at(s, i, 0x40) {
        lemma_single_char_at(s, i);
        lemma_ident_at(s, i + 1);
        match ident_at(s, i + 1) {
            Some(name_end) => {
                lemma_ws_star_end(s, name_end);
                let params = ws_star_end(s, name_end);
                lemma_selector_end(s, params);
                lemma_ws_star_end(s, selector_end(s, params));
            },
            None => {},
        }
    }
}

/// Where the block of a rule at `i` is looked for.
pub proof fn lemma_rule_head(s: Seq<u8>, i: int)
    ensures
        0 <= i <= s.len() ==> {
            &&& match_end(s, i, selector_end(s, i))
            &&& match_end(s, i, ws_star_end(s, selector_end(s, i)))
        },
        i <= s.len() ==> i <= ws_star_end(s, selector_end(s, i)),
        remaining(s, ws_star_end(s, selector_end(s, i))) <= remaining(s, i),
{
    if 0 <= i <= s.len() {
        lemma_selector_end(s, i);
        lemma_ws_star_end(s, selector_end(s, i));
    } else {
        lemma_selector_end_outside(s, i);
    }
}

/// Outside the input nothing matches.
proof fn lemma_selector_end_outside(s: Seq<u8>, i: int)
    requires
        i < 0 || i > s.len(),
    ensures
        selector_end(s, i) == i,
        ws_star_end(s, i) == i,
{
    lemma_ident_outside(s, i);
    lemma_string_at(s, i);
}

/// Outside the input no identifier starts.
proof fn lemma_ident_outside(s: Seq<u8>, i: int)
    requires
        i < 0 || i >= s.len(),
    ensures
        ident_at(s, i) is None,
{
    lemma_ident_at(s, i);
}

/// What a declaration matches, and where its parts lie.
pub proof fn lemma_declaration_at(s: Seq<u8>, i: int)
    ensures
        parsed_ok(s, i, declaration_at(s, i)),
        match ident_at(s, i) {
            Some(prop_end) => {
                let colon = ws_star_end(s, prop_end);
                let value = ws_star_end(s, colon + 1);
                byte_at(s, colon, 0x3a) ==> {
                    &&& match_end(s, i, prop_end)
                    &&& match_end(s, i, value)
                    &&& match_end(s, i, selector_end(s, value))
                    &&& match_end(s, i, ws_star_end(s, selector_end(s, value)))
                }
            },
            None => true,
        },
{
    lemma_ident_at(s, i);
    match ident_at(s, i) {
        Some(prop_end) => {
            lemma_ws_star_end(s, prop_end);
            let colon = ws_star_end(s, prop_end);
            if byte_at(s, colon, 0x3a) {
                lemma_single_char_at(s, colon);
                lemma_ws_star_end(s, colon + 1);
                let value = ws_star_end(s, colon + 1);
                lemma_selector_end(s, value);
                let value_end = selector_end(s, value);
                lemma_ws_star_end(s, value_end);
                lemma_important_at(s, ws_star_end(s, value_end));
            }
        },
        None => {},
    }
}

/// What an at-rule matches.
pub proof fn lemma_at_rule_at(s: Seq<u8>, i: int)
    ensures
        parsed_ok(s, i, at_rule_at(s, i)),
    decreases remaining(s, i), 2nat,
{
    lemma_at_rule_head(s, i);
    match at_keyword_at(s, i) {
        Some(name_end) => {
            lemma_block_inside_at(s, ws_star_end(s, selector_end(s, ws_star_end(s, name_end))));
        },
        None => {},
    }
}

/// What a block matches.
pub proof fn lemma_block_inside_at(s: Seq<u8>, i: int)
    ensures
        parsed_ok(s, i, block_inside_at(s, i)),
        parsed_ok(s, i, block_at(s, i)),
    decreases remaining(s, i), 1nat,
{
    if byte_at(s, i, 0x7b) {
        lemma_single_char_at(s, i);
        lemma_rule_set_at(s, i + 1);
        let inside = match rule_set_at(s, i + 1) {
            Some(inside) => inside,
            None => (seq![], i + 1),
        };
        lemma_single_char_at(s, inside.1);
    }
}

/// What a rule matches.
pub proof fn lemma_rule_at(s: Seq<u8>, i: int)
    ensures
        parsed_ok(s, i, rule_at(s, i)),
    decreases remaining(s, i), 2nat,
{
    lemma_rule_head(s, i);
    lemma_block_inside_at(s, ws_star_end(s, selector_end(s, i)));
}

/// What the start of a rule set and what follows it match.
pub proof fn lemma_rule_set_items_at(s: Seq<u8>, i: int)
    ensures
        parsed_ok(s, i, rule_set_items_at(s, i)),
        consuming(s, i, at_rule_at(s, i)) == at_rule_at(s, i),
        consuming(s, i, rule_at(s, i)) == rule_at(s, i),
    decreases remaining(s, i), 3nat,
{
    lemma_at_rule_at(s, i);
    lemma_comment_at(s, i);
    lemma_rule_at(s, i);
    lemma_declaration_at(s, i);
    if at_rule_at(s, i) is Some {
        lemma_rule_sets_at(s, at_rule_at(s, i).unwrap().1);
    } else if comment_token_at(s, i) is Some {
        lemma_rule_sets_at(s, comment_token_at(s, i).unwrap().1);
    } else if rule_at(s, i) is Some {
        lemma_rule_sets_at(s, rule_at(s, i).unwrap().1);
    } else if declaration_at(s, i) is Some {
        lemma_semicolon_rule_sets_at(s, declaration_at(s, i).unwrap().1);
    }
}

/// What a rule set matches.
pub proof fn lemma_rule_set_at(s: Seq<u8>, i: int)
    ensures
        parsed_ok(s, i, rule_set_at(s, i)),
        consuming(s, i, rule_set_at(s, i)) == rule_set_at(s, i),
    decreases remaining(s, i), 4nat,
{
    if 0 <= i <= s.len() {
        lemma_ws_star_end(s, i);
    }
    let start = ws_star_end(s, i);
    lemma_rule_set_items_at(s, start);
    match rule_set_items_at(s, start) {
        Some((_, end)) => {
            lemma_single_char_at(s, end);
            lemma_ws_star_end(
                s,
                if byte_at(s, end, 0x3b) {
                    end + 1
                } else {
                    end
                },
            );
        },
        None => {},
    }
}

/// Rule sets end inside the input.
pub proof fn lemma_rule_sets_at(s: Seq<u8>, i: int)
    requires
        0 <= i <= s.len(),
    ensures
        match_end(s, i, rule_sets_at(s, i).1),
    decreases remaining(s, i), 5nat,
{
    lemma_rule_set_at(s, i);
    match rule_set_at(s, i) {
        Some((_, end)) => {
            lemma_rule_sets_at(s, end);
        },
        None => {},
    }
}

/// Rule sets that a semicolon precedes each end inside the input.
pub proof fn lemma_semicolon_rule_sets_at(s: Seq<u8>, i: int)
    requires
        0 <= i <= s.len(),
    ensures
        match_end(s, i, semicolon_rule_sets_at(s, i).1),
    decreases remaining(s, i), 5nat,
{
    if byte_at(s, i, 0x3b) {
        lemma_single_char_at(s, i);
        lemma_rule_set_at(s, i + 1);
        match rule_set_at(s, i + 1) {
            Some((_, end)) => {
                lemma_semicolon_rule_sets_at(s, end);
            },
            None => {},
        }
    }
}

/// The first production that matches ends in the input, and tears no
/// character.
pub proof fn lemma_token_at(s: Seq<u8>, i: int)
    requires
        0 <= i <= s.len(),
    ensures
        match_end(s, i, token_at(s, i).1),
{
    lemma_comment_at(s, i);
    lemma_at_rule_at(s, i);
    lemma_rule_at(s, i);
    lemma_block_inside_at(s, i);
    lemma_declaration_at(s, i);
    lemma_string_at(s, i);
    lemma_ident_at(s, i);
    lemma_selector_end(s, i);
    if valid_utf8(s) {
        lemma_cut_point_ends(s);
    }
}

} // verus!
