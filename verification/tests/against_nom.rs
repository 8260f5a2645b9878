use css_parser::syntax::{self, NoMatch, Token};
use nom::branch::alt;
use nom::bytes::complete::{tag, take, take_until};
use nom::character::complete::{char, one_of, satisfy};
use nom::combinator::{eof, not, opt, peek, recognize, value};
use nom::multi::{many0, many1, many_m_n, separated_list0};
use nom::sequence::{delimited, pair, preceded, separated_pair, tuple};
use nom::IResult;

// The productions written with parser combinators, to hold the library to.

fn newline(input: &str) -> IResult<&str, &str> {
    alt((tag("\n"), tag("\r\n"), tag("\r")))(input)
}

fn whitespace(input: &str) -> IResult<&str, &str> {
    alt((tag(" "), tag("\t"), newline))(input)
}

fn hex_digit(input: &str) -> IResult<&str, &str> {
    recognize(one_of("0123456789abcdefABCDEF"))(input)
}

fn digit(input: &str) -> IResult<&str, &str> {
    recognize(one_of("0123456789"))(input)
}

fn escape(input: &str) -> IResult<&str, &str> {
    recognize(preceded(
        char('\\'),
        alt((
            recognize(preceded(peek(not(alt((newline, hex_digit)))), take(1usize))),
            recognize(preceded(many_m_n(1, 6, hex_digit), opt(whitespace))),
        )),
    ))(input)
}

fn ws_star(input: &str) -> IResult<&str, &str> {
    recognize(many0(whitespace))(input)
}

fn not_ascii(input: &str) -> IResult<&str, &str> {
    recognize(satisfy(|c| !c.is_ascii()))(input)
}

fn ascii_alphabetic(input: &str) -> IResult<&str, &str> {
    recognize(satisfy(|c| c.is_ascii_alphabetic()))(input)
}

fn valid_first_ident_char(input: &str) -> IResult<&str, &str> {
    alt((ascii_alphabetic, recognize(char('_')), not_ascii))(input)
}

fn valid_second_ident_char(input: &str) -> IResult<&str, &str> {
    alt((valid_first_ident_char, digit, recognize(char('-'))))(input)
}

fn ident(input: &str) -> IResult<&str, Token<'_>> {
    nom::combinator::map(
        recognize(preceded(
            alt((
                tag("--"),
                preceded(
                    opt(char('-')),
                    alt((recognize(valid_first_ident_char), recognize(escape))),
                ),
            )),
            many0(alt((recognize(valid_second_ident_char), recognize(escape)))),
        )),
        Token::Ident,
    )(input)
}

fn string(input: &str) -> IResult<&str, Token<'_>> {
    nom::combinator::map(
        alt((
            delimited(
                char('"'),
                recognize(many0(alt((
                    recognize(preceded(
                        peek(not(alt((
                            recognize(char('"')),
                            recognize(char('\\')),
                            newline,
                        )))),
                        take(1usize),
                    )),
                    escape,
                    preceded(char('\\'), newline),
                )))),
                char('"'),
            ),
            delimited(
                char('\''),
                recognize(many0(alt((
                    recognize(preceded(
                        peek(not(alt((
                            recognize(char('\'')),
                            recognize(char('\\')),
                            newline,
                        )))),
                        take(1usize),
                    )),
                    escape,
                    preceded(char('\\'), newline),
                )))),
                char('\''),
            ),
        )),
        Token::String,
    )(input)
}

fn comment(input: &str) -> IResult<&str, Token<'_>> {
    nom::combinator::map(delimited(tag("/*"), take_until("*/"), tag("*/")), |text| {
        Token::Comment { text }
    })(input)
}

fn selector(input: &str) -> IResult<&str, Token<'_>> {
    nom::combinator::map(
        recognize(separated_list0(
            whitespace,
            many1(alt((
                recognize(ident),
                recognize(string),
                digit,
                recognize(one_of("*+?<>|[].#~=$^()%:&")),
            ))),
        )),
        Token::Selector,
    )(input)
}

fn important(input: &str) -> IResult<&str, bool> {
    value(
        true,
        preceded(char('!'), delimited(ws_star, tag("important"), ws_star)),
    )(input)
}

fn declaration(input: &str) -> IResult<&str, Token<'_>> {
    nom::combinator::map(
        separated_pair(
            ident,
            preceded(ws_star, pair(char(':'), ws_star)),
            pair(selector, opt(preceded(ws_star, important))),
        ),
        |(token, (selector, important))| match token {
            Token::Ident(prop) => Token::Declaration {
                prop,
                value: if let Token::Selector(value) = selector {
                    value
                } else {
                    ""
                },
                important: matches!(important, Some(true)),
            },
            _ => Token::Declaration {
                prop: "",
                value: "",
                important: false,
            },
        },
    )(input)
}

fn at_keyword_token(input: &str) -> IResult<&str, &str> {
    preceded(char('@'), recognize(ident))(input)
}

fn at_rule(input: &str) -> IResult<&str, Token<'_>> {
    nom::combinator::map(
        tuple((
            at_keyword_token,
            ws_star,
            recognize(selector),
            ws_star,
            opt(block),
        )),
        |(name, _, params, _, rest)| Token::AtRule {
            name,
            params,
            nodes: if let Some(Token::Block { nodes }) = rest {
                nodes
            } else {
                vec![]
            },
        },
    )(input)
}

fn block(input: &str) -> IResult<&str, Token<'_>> {
    nom::combinator::map(delimited(char('{'), opt(rule_set), char('}')), |tokens| {
        Token::Block {
            nodes: if let Some(nodes) = tokens {
                nodes
            } else {
                vec![]
            },
        }
    })(input)
}

fn rule(input: &str) -> IResult<&str, Token<'_>> {
    nom::combinator::map(tuple((selector, ws_star, block)), |(selector, _, rest)| {
        Token::Rule {
            selector: if let Token::Selector(value) = selector {
                value
            } else {
                ""
            },
            nodes: if let Token::Block { nodes } = rest {
                nodes
            } else {
                vec![]
            },
        }
    })(input)
}

fn flatten<'a>(first: Token<'a>, lists: Vec<Vec<Token<'a>>>) -> Vec<Token<'a>> {
    let mut all = vec![first];
    for list in lists {
        all.extend(list);
    }
    all
}

fn rule_set(input: &str) -> IResult<&str, Vec<Token<'_>>> {
    nom::combinator::map(
        delimited(
            ws_star,
            alt((
                tuple((at_rule, many0(rule_set))),
                tuple((comment, many0(rule_set))),
                tuple((rule, many0(rule_set))),
                tuple((declaration, many0(preceded(char(';'), rule_set)))),
            )),
            pair(opt(char(';')), ws_star),
        ),
        |(r, rs)| flatten(r, rs),
    )(input)
}

fn root(input: &str) -> IResult<&str, Token<'_>> {
    nom::combinator::map(
        delimited(
            ws_star,
            opt(alt((
                tuple((comment, many0(rule_set))),
                tuple((at_rule, many0(rule_set))),
                tuple((rule, many0(rule_set))),
            ))),
            pair(ws_star, eof),
        ),
        |tokens| {
            if let Some((r, rs)) = tokens {
                Token::Root {
                    nodes: flatten(r, rs),
                }
            } else {
                Token::Root { nodes: vec![] }
            }
        },
    )(input)
}

fn parse_token(input: &str) -> IResult<&str, Token<'_>> {
    alt((
        comment,
        root,
        at_rule,
        rule,
        block,
        declaration,
        string,
        ident,
        selector,
    ))(input)
}

const ALPHABET: [&str; 18] = [
    "a", "f", "1", "-", "_", "\\", " ", "\n", "\r", "{", "}", ":", ";", "@", "/", "*", "'", "é",
];

const WORDS: [&str; 24] = [
    "a", "b1", "--x", "-", "\\", "\\41 ", " ", "\n", "\r\n", "\t", "{", "}", ":", ";", "@", "@m",
    "/*", "*/", "'", "\"", "!", "important", "é", ".#(",
];

/// Every text of at most `length` pieces of `pieces`.
fn texts(pieces: &[&str], length: usize) -> Vec<String> {
    let mut all = vec![String::new()];
    let mut last = vec![String::new()];
    for _ in 0..length {
        let mut next = Vec::with_capacity(last.len() * pieces.len());
        for text in &last {
            for piece in pieces {
                next.push(format!("{}{}", text, piece));
            }
        }
        all.extend(next.iter().cloned());
        last = next;
    }
    all
}

/// Texts of `length` pieces of `pieces`, picked by a fixed sequence.
fn picked(pieces: &[&str], length: usize, count: usize, seed: u64) -> Vec<String> {
    let mut state = seed;
    let mut all = Vec::with_capacity(count);
    for _ in 0..count {
        let mut text = String::new();
        for _ in 0..length {
            state = state
                .wrapping_mul(6364136223846793005)
                .wrapping_add(1442695040888963407);
            text.push_str(pieces[(state >> 33) as usize % pieces.len()]);
        }
        all.push(text);
    }
    all
}

fn inputs() -> Vec<String> {
    let mut all = texts(&ALPHABET, 3);
    all.extend(texts(&WORDS, 2));
    all.extend(picked(&ALPHABET, 6, 3000, 1));
    all.extend(picked(&WORDS, 5, 3000, 2));
    all.extend(picked(&WORDS, 9, 1500, 3));
    all
}

fn same_text(
    name: &str,
    ours: fn(&str) -> Result<(&str, &str), NoMatch>,
    theirs: fn(&str) -> IResult<&str, &str>,
) {
    for input in inputs() {
        assert_eq!(ours(&input).ok(), theirs(&input).ok(), "{} on {:?}", name, input);
    }
}

fn same_token(
    name: &str,
    ours: for<'a> fn(&'a str) -> Result<(&'a str, Token<'a>), NoMatch>,
    theirs: for<'a> fn(&'a str) -> IResult<&'a str, Token<'a>>,
) {
    for input in inputs() {
        assert_eq!(ours(&input).ok(), theirs(&input).ok(), "{} on {:?}", name, input);
    }
}

#[test]
fn newline_as_with_combinators() {
    same_text("newline", syntax::newline, newline);
}

#[test]
fn whitespace_as_with_combinators() {
    same_text("whitespace", syntax::whitespace, whitespace);
}

#[test]
fn digits_as_with_combinators() {
    same_text("hex_digit", syntax::hex_digit, hex_digit);
    same_text("digit", syntax::digit, digit);
}

#[test]
fn escape_as_with_combinators() {
    same_text("escape", syntax::escape, escape);
}

#[test]
fn ws_star_as_with_combinators() {
    same_text("ws_star", syntax::ws_star, ws_star);
}

#[test]
fn single_characters_as_with_combinators() {
    same_text("not_ascii", syntax::not_ascii, not_ascii);
    same_text("ascii_alphabetic", syntax::ascii_alphabetic, ascii_alphabetic);
    same_text(
        "valid_first_ident_char",
        syntax::valid_first_ident_char,
        valid_first_ident_char,
    );
    same_text(
        "valid_second_ident_char",
        syntax::valid_second_ident_char,
        valid_second_ident_char,
    );
}

#[test]
fn ident_as_with_combinators() {
    same_token("ident", syntax::ident, ident);
}

#[test]
fn string_as_with_combinators() {
    same_token("string", syntax::string, string);
}

#[test]
fn comment_as_with_combinators() {
    same_token("comment", syntax::comment, comment);
}

#[test]
fn selector_as_with_combinators() {
    same_token("selector", syntax::selector, selector);
}

#[test]
fn important_as_with_combinators() {
    for input in inputs() {
        assert_eq!(
            syntax::important(&input).ok(),
            important(&input).ok(),
            "important on {:?}",
            input
        );
    }
}

#[test]
fn declaration_as_with_combinators() {
    same_token("declaration", syntax::declaration, declaration);
}

#[test]
fn at_keyword_token_as_with_combinators() {
    same_text("at_keyword_token", syntax::at_keyword_token, at_keyword_token);
}

#[test]
fn at_rule_as_with_combinators() {
    same_token("at_rule", syntax::at_rule, at_rule);
}

#[test]
fn block_as_with_combinators() {
    same_token("block", syntax::block, block);
}

#[test]
fn rule_as_with_combinators() {
    same_token("rule", syntax::rule, rule);
}

#[test]
fn rule_set_as_with_combinators() {
    for input in inputs() {
        assert_eq!(
            syntax::rule_set(&input).ok(),
            rule_set(&input).ok(),
            "rule_set on {:?}",
            input
        );
    }
}

#[test]
fn root_as_with_combinators() {
    same_token("root", syntax::root, root);
}

#[test]
fn parse_token_as_with_combinators() {
    same_token("parse_token", syntax::parse_token, parse_token);
}

#[test]
fn stylesheets_as_with_combinators() {
    let sheets = [
        ".foo { bar: baz !important }",
        "\n/* a */\n.foo { b: c }\n@media (min-width: 1024px) {\n  /* d */\n  .e { f: g }\n}\n",
        "@media (x) {\n  & + #h { i: j; /* k */ l: m; /* n */ }\n}\n",
        "@a{@b{@c{d:e}}} f{g:h} /* i */",
        "a{b:'c;d}' ! important;e:\"f\\\"g\"}",
        "@import 'a' ; b { c : d }",
        "a { b: c; } } d {}",
        "{{{}}}",
        "a{b:c}{d:e}@f g{h:i;j:k;;}",
    ];
    for sheet in sheets {
        assert_eq!(syntax::root(sheet).ok(), root(sheet).ok(), "root on {:?}", sheet);
        assert_eq!(
            syntax::rule_set(sheet).ok(),
            rule_set(sheet).ok(),
            "rule_set on {:?}",
            sheet
        );
        assert_eq!(
            syntax::parse_token(sheet).ok(),
            parse_token(sheet).ok(),
            "parse_token on {:?}",
            sheet
        );
    }
}
