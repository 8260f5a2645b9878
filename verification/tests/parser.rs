use css_parser::ast::{AtRule, BlockChild, Comment, Declaration, Root, RootChild, Rule};
use css_parser::parser::error::ParseError;
use css_parser::parser::tokenizer::TokenKind;
use css_parser::parser::grammar::Skip;
use css_parser::parser::tokenizer::{scan_token, Token};
use css_parser::parser::{cut_at_comment, parse, skip_tokens, spells_word, Parser};

fn assert_parse_ok(input: &str, output: Root) {
    assert_eq!(Parser::new(input).parse(), Ok(output));
}

fn declaration(start: usize, end: usize, prop: &str, value: &str) -> BlockChild {
    BlockChild::Declaration(Declaration {
        start,
        end,
        prop: prop.to_string(),
        value: value.to_string(),
        important: false,
    })
}

fn important(start: usize, end: usize, prop: &str, value: &str) -> BlockChild {
    BlockChild::Declaration(Declaration {
        start,
        end,
        prop: prop.to_string(),
        value: value.to_string(),
        important: true,
    })
}

fn only_rule(input: &str) -> Rule {
    let mut root = Parser::new(input).parse().unwrap();
    assert_eq!(root.nodes.len(), 1);
    match root.nodes.pop().unwrap() {
        RootChild::Rule(rule) => rule,
        other => panic!("not a rule: {:?}", other),
    }
}

#[test]
fn parse_empty() {
    assert_parse_ok(
        "",
        Root {
            start: 0,
            end: 0,
            nodes: vec![],
        },
    );
}

#[test]
fn parse_root_level_comment() {
    assert_parse_ok(
        "/* hello */",
        Root {
            start: 0,
            end: 10,
            nodes: vec![RootChild::Comment(Comment {
                start: 0,
                end: 10,
                text: " hello ".to_string(),
            })],
        },
    );
}

#[test]
fn parse_empty_rule() {
    assert_parse_ok(
        "foo {}",
        Root {
            start: 0,
            end: 5,
            nodes: vec![RootChild::Rule(Rule {
                start: 0,
                end: 5,
                selector: "foo".to_string(),
                nodes: vec![],
            })],
        },
    );
}

#[test]
fn parse_block_level_comment() {
    assert_parse_ok(
        "foo {a:b; /* hello */ c:b}",
        Root {
            start: 0,
            end: 25,
            nodes: vec![RootChild::Rule(Rule {
                start: 0,
                end: 25,
                selector: "foo".to_string(),
                nodes: vec![
                    BlockChild::Declaration(Declaration {
                        start: 5,
                        end: 7,
                        prop: "a".to_string(),
                        value: "b".to_string(),
                        important: false,
                    }),
                    BlockChild::Comment(Comment {
                        start: 10,
                        end: 20,
                        text: " hello ".to_string(),
                    }),
                    BlockChild::Declaration(Declaration {
                        start: 22,
                        end: 24,
                        prop: "c".to_string(),
                        value: "b".to_string(),
                        important: false,
                    }),
                ],
            })],
        },
    );
}

#[test]
fn parse_rule_with_declaration() {
    assert_parse_ok(
        "foo { a: b }",
        Root {
            start: 0,
            end: 11,
            nodes: vec![RootChild::Rule(Rule {
                start: 0,
                end: 11,
                selector: "foo".to_string(),
                nodes: vec![BlockChild::Declaration(Declaration {
                    start: 6,
                    end: 9,
                    prop: "a".to_string(),
                    value: "b".to_string(),
                    important: false,
                })],
            })],
        },
    );
}

#[test]
fn parse_empty_at_rule() {
    assert_parse_ok(
        "@foo {}",
        Root {
            start: 0,
            end: 6,
            nodes: vec![RootChild::AtRule(AtRule {
                start: 0,
                end: 6,
                name: "foo".to_string(),
                params: "".to_string(),
                nodes: vec![],
            })],
        },
    );
}

#[test]
fn parse_empty_at_rule_with_params() {
    assert_parse_ok(
        "@foo (bar) {}",
        Root {
            start: 0,
            end: 12,
            nodes: vec![RootChild::AtRule(AtRule {
                start: 0,
                end: 12,
                name: "foo".to_string(),
                params: "(bar)".to_string(),
                nodes: vec![],
            })],
        },
    );
}

#[test]
fn parse_at_rule_with_declaration() {
    assert_parse_ok(
        "@foo { a: b }",
        Root {
            start: 0,
            end: 12,
            nodes: vec![RootChild::AtRule(AtRule {
                start: 0,
                end: 12,
                name: "foo".to_string(),
                params: "".to_string(),
                nodes: vec![BlockChild::Declaration(Declaration {
                    start: 7,
                    end: 10,
                    prop: "a".to_string(),
                    value: "b".to_string(),
                    important: false,
                })],
            })],
        },
    );
}

#[test]
fn parse_at_rule_with_declaration_and_params() {
    assert_parse_ok(
        "@foo (bar) { a: b }",
        Root {
            start: 0,
            end: 18,
            nodes: vec![RootChild::AtRule(AtRule {
                start: 0,
                end: 18,
                name: "foo".to_string(),
                params: "(bar)".to_string(),
                nodes: vec![BlockChild::Declaration(Declaration {
                    start: 13,
                    end: 16,
                    prop: "a".to_string(),
                    value: "b".to_string(),
                    important: false,
                })],
            })],
        },
    );
}

#[test]
fn parse_mested_at_rule() {
    assert_parse_ok(
        "foo { hello: world ; foo : bar; @foo { a:b } }",
        Root {
            start: 0,
            end: 45,
            nodes: vec![RootChild::Rule(Rule {
                start: 0,
                end: 45,
                selector: "foo".to_string(),
                nodes: vec![
                    BlockChild::Declaration(Declaration {
                        prop: "hello".to_string(),
                        value: "world".to_string(),
                        important: false,
                        start: 6,
                        end: 17,
                    }),
                    BlockChild::Declaration(Declaration {
                        prop: "foo".to_string(),
                        value: "bar".to_string(),
                        important: false,
                        start: 21,
                        end: 29,
                    }),
                    BlockChild::AtRule(AtRule {
                        start: 32,
                        end: 43,
                        name: "foo".to_string(),
                        params: "".to_string(),
                        nodes: vec![BlockChild::Declaration(Declaration {
                            prop: "a".to_string(),
                            value: "b".to_string(),
                            important: false,
                            start: 39,
                            end: 41,
                        })],
                    }),
                ],
            })],
        },
    );
}

#[test]
fn parse_function_is_the_parser() {
    let source = "a { b: c } /* d */ @e f { g: h }";
    assert_eq!(parse(source), Parser::new(source).parse());
    assert!(parse(source).is_ok());
}

#[test]
fn parse_three_children_in_order() {
    let rule = only_rule("foo {a:b; /* hi */ c:b}");
    assert_eq!(rule.selector, "foo");
    assert_eq!(
        rule.nodes,
        vec![
            declaration(5, 7, "a", "b"),
            BlockChild::Comment(Comment {
                start: 10,
                end: 17,
                text: " hi ".to_string(),
            }),
            declaration(19, 21, "c", "b"),
        ]
    );
}

#[test]
fn parse_important_declaration() {
    let rule = only_rule("a { width: 100px !important }");
    assert_eq!(rule.nodes, vec![important(4, 26, "width", "100px")]);
    let rule = only_rule("a{width: 100px !important}");
    assert_eq!(rule.nodes, vec![important(2, 24, "width", "100px")]);
    let rule = only_rule("a{width: 100px !important; b: c}");
    assert_eq!(
        rule.nodes,
        vec![important(2, 24, "width", "100px"), declaration(27, 30, "b", "c")]
    );
}

#[test]
fn parse_important_with_white_space_and_comments_inside() {
    let rule = only_rule("a{b:c ! important}");
    assert_eq!(rule.nodes, vec![important(2, 16, "b", "c")]);
    let rule = only_rule("a{b:c !/* x */ important ;}");
    assert_eq!(rule.nodes, vec![important(2, 23, "b", "c")]);
    let rule = only_rule("a{b:c\n!\n\timportant\n}");
    assert_eq!(rule.nodes, vec![important(2, 17, "b", "c")]);
}

#[test]
fn parse_marker_must_be_the_whole_word() {
    let rule = only_rule("a{b:c!important}");
    assert_eq!(rule.nodes, vec![declaration(2, 14, "b", "c!important")]);
    assert_eq!(
        parse("a{b:c !importantx}"),
        Err(ParseError::UnexpectedToken(TokenKind::Word, 6))
    );
    assert_eq!(
        parse("a{b:c !Important}"),
        Err(ParseError::UnexpectedToken(TokenKind::Word, 6))
    );
    assert_eq!(
        parse("a{b:c ! d}"),
        Err(ParseError::UnexpectedToken(TokenKind::Word, 6))
    );
    assert_eq!(
        parse("a{b:c /* x */ !important}"),
        Err(ParseError::UnexpectedToken(TokenKind::Word, 14))
    );
}

#[test]
fn parse_missing_colon_fails() {
    assert_eq!(
        parse("foo { a b }"),
        Err(ParseError::ExpectedToken(TokenKind::Colon, 8))
    );
    assert!(Parser::new("foo { a b }").parse().is_err());
}

#[test]
fn parse_errors_name_the_missing_token() {
    assert_eq!(parse("foo"), Err(ParseError::UnexpectedEndOfInput));
    assert_eq!(parse("foo {"), Err(ParseError::UnexpectedEndOfInput));
    assert_eq!(parse("foo { a"), Err(ParseError::UnexpectedEndOfInput));
    assert_eq!(parse("foo { a:"), Err(ParseError::UnexpectedEndOfInput));
    assert_eq!(parse("foo { a: b"), Err(ParseError::UnexpectedEndOfInput));
    assert_eq!(parse("foo { a: b;"), Err(ParseError::UnexpectedEndOfInput));
    assert_eq!(parse("@"), Err(ParseError::UnexpectedEndOfInput));
    assert_eq!(parse("@foo"), Err(ParseError::UnexpectedEndOfInput));
    assert_eq!(
        parse("@ foo {}"),
        Err(ParseError::ExpectedToken(TokenKind::Word, 1))
    );
    assert_eq!(
        parse("@{}"),
        Err(ParseError::ExpectedToken(TokenKind::Word, 1))
    );
    assert_eq!(
        parse("foo { a: ; }"),
        Err(ParseError::ExpectedToken(TokenKind::Word, 9))
    );
    assert_eq!(
        parse("foo { a: b c }"),
        Err(ParseError::UnexpectedToken(TokenKind::Word, 11))
    );
    assert_eq!(
        parse("foo { a: b { } }"),
        Err(ParseError::UnexpectedToken(TokenKind::OpenCurly, 11))
    );
    assert_eq!(
        parse("foo { ; }"),
        Err(ParseError::ExpectedToken(TokenKind::ClosedCurly, 6))
    );
    assert_eq!(
        parse("foo { /* c */ a: b }"),
        Err(ParseError::ExpectedToken(TokenKind::ClosedCurly, 14))
    );
}

#[test]
fn parse_passes_over_stray_punctuation_at_the_top() {
    assert_parse_ok(
        "};:{",
        Root {
            start: 0,
            end: 3,
            nodes: vec![],
        },
    );
    assert_parse_ok(
        "  \n ",
        Root {
            start: 0,
            end: 3,
            nodes: vec![],
        },
    );
    let root = parse("; a{} } /* c */ :").unwrap();
    assert_eq!(root.start, 0);
    assert_eq!(root.end, 16);
    assert_eq!(
        root.nodes,
        vec![
            RootChild::Rule(Rule {
                selector: "a".to_string(),
                nodes: vec![],
                start: 2,
                end: 4,
            }),
            RootChild::Comment(Comment {
                text: " c ".to_string(),
                start: 8,
                end: 14,
            }),
        ]
    );
}

#[test]
fn parse_unterminated_comment() {
    assert_parse_ok(
        "/* abc",
        Root {
            start: 0,
            end: 5,
            nodes: vec![RootChild::Comment(Comment {
                text: " abc".to_string(),
                start: 0,
                end: 5,
            })],
        },
    );
    assert_parse_ok(
        "/*",
        Root {
            start: 0,
            end: 1,
            nodes: vec![RootChild::Comment(Comment {
                text: "".to_string(),
                start: 0,
                end: 1,
            })],
        },
    );
    assert_parse_ok(
        "/*/",
        Root {
            start: 0,
            end: 2,
            nodes: vec![RootChild::Comment(Comment {
                text: "/".to_string(),
                start: 0,
                end: 2,
            })],
        },
    );
    assert_parse_ok(
        "/**/",
        Root {
            start: 0,
            end: 3,
            nodes: vec![RootChild::Comment(Comment {
                text: "".to_string(),
                start: 0,
                end: 3,
            })],
        },
    );
}

#[test]
fn parse_selector_is_cut_at_a_comment_and_trimmed() {
    let rule = only_rule("a  b /* c */ d {}");
    assert_eq!(rule.selector, "a  b");
    assert_eq!((rule.start, rule.end), (0, 16));
    let rule = only_rule("a:hover > b\n{}");
    assert_eq!(rule.selector, "a:hover > b");
    let rule = only_rule("a\u{a0}\u{2003}{}");
    assert_eq!(rule.selector, "a");
    let rule = only_rule("a/b{}");
    assert_eq!(rule.selector, "a/b");
}

#[test]
fn parse_params_are_cut_at_a_comment_and_trimmed() {
    let root = parse("@media /* a */ screen  and /* b */ (x) {}").unwrap();
    assert_eq!(
        root.nodes,
        vec![RootChild::AtRule(AtRule {
            name: "media".to_string(),
            params: "screen  and".to_string(),
            nodes: vec![],
            start: 0,
            end: 40,
        })]
    );
    let root = parse("@a/* b */{}").unwrap();
    assert_eq!(
        root.nodes,
        vec![RootChild::AtRule(AtRule {
            name: "a".to_string(),
            params: "".to_string(),
            nodes: vec![],
            start: 0,
            end: 10,
        })]
    );
}

#[test]
fn parse_at_rule_needs_no_separator_behind_it() {
    let rule = only_rule("a { @b { c: d } e: f; @g {} @i {}}");
    assert_eq!(
        rule.nodes,
        vec![
            BlockChild::AtRule(AtRule {
                name: "b".to_string(),
                params: "".to_string(),
                nodes: vec![declaration(9, 12, "c", "d")],
                start: 4,
                end: 14,
            }),
            declaration(16, 19, "e", "f"),
            BlockChild::AtRule(AtRule {
                name: "g".to_string(),
                params: "".to_string(),
                nodes: vec![],
                start: 22,
                end: 26,
            }),
            BlockChild::AtRule(AtRule {
                name: "i".to_string(),
                params: "".to_string(),
                nodes: vec![],
                start: 28,
                end: 32,
            }),
        ]
    );
}

#[test]
fn parse_passes_over_comments_behind_a_declaration_or_an_at_rule() {
    let rule = only_rule("a { b: c /* d */ ; @e {} /* f */ g: h /* i */ }");
    assert_eq!(
        rule.nodes,
        vec![
            declaration(4, 7, "b", "c"),
            BlockChild::AtRule(AtRule {
                name: "e".to_string(),
                params: "".to_string(),
                nodes: vec![],
                start: 19,
                end: 23,
            }),
            declaration(33, 36, "g", "h"),
        ]
    );
}

#[test]
fn parse_strings_as_parts_of_words() {
    let rule = only_rule("a { b: 'c;d' ; e: \"}\" }");
    assert_eq!(
        rule.nodes,
        vec![declaration(4, 11, "b", "'c;d'"), declaration(15, 20, "e", "\"}\"")]
    );
    let rule = only_rule("a[b='{ c'] { d: e }");
    assert_eq!(rule.selector, "a[b='{ c']");
    assert_eq!((rule.start, rule.end), (0, 18));
    assert_eq!(rule.nodes, vec![declaration(13, 16, "d", "e")]);
}

#[test]
fn parse_counts_bytes() {
    let rule = only_rule("é { ü: ö }");
    assert_eq!(rule.selector, "é");
    assert_eq!((rule.start, rule.end), (0, 12));
    assert_eq!(rule.nodes, vec![declaration(5, 10, "ü", "ö")]);
}

#[test]
fn parse_twice_gives_the_rest() {
    let mut parser = Parser::new("a {}");
    assert!(parser.parse().is_ok());
    assert_eq!(
        parser.parse(),
        Ok(Root {
            nodes: vec![],
            start: 3,
            end: 3,
        })
    );
}

fn check_block(source: &str, nodes: &[BlockChild], lo: usize, hi: usize) {
    let mut next = lo;
    for node in nodes {
        let (start, end) = match node {
            BlockChild::AtRule(a) => {
                check_block(source, &a.nodes, a.start, a.end);
                assert!(source[a.start..a.end + 1].starts_with('@'));
                (a.start, a.end)
            }
            BlockChild::Declaration(d) => {
                assert!(source[d.start..d.end + 1].starts_with(d.prop.as_str()));
                (d.start, d.end)
            }
            BlockChild::Comment(c) => {
                assert_eq!(source[c.start..c.end + 1], format!("/*{}*/", c.text));
                (c.start, c.end)
            }
        };
        assert!(next <= start && start <= end && end <= hi);
        assert!(!source[start..end + 1].is_empty());
        next = end + 1;
    }
}

#[test]
fn spans_lie_in_the_source_inside_the_parent_and_in_order() {
    let source = "/* a */ b c { d: e; /* f */ @g (h) { i: j !important; @k{} } l: m }\n@n o {}";
    let root = parse(source).unwrap();
    assert_eq!((root.start, root.end), (0, source.len() - 1));
    let mut next = root.start;
    for node in &root.nodes {
        let (start, end) = match node {
            RootChild::Rule(r) => {
                check_block(source, &r.nodes, r.start, r.end);
                assert!(source[r.start..r.end + 1].starts_with(r.selector.as_str()));
                (r.start, r.end)
            }
            RootChild::AtRule(a) => {
                check_block(source, &a.nodes, a.start, a.end);
                (a.start, a.end)
            }
            RootChild::Comment(c) => {
                assert_eq!(source[c.start..c.end + 1], format!("/*{}*/", c.text));
                (c.start, c.end)
            }
        };
        assert!(next <= start && start <= end && end <= root.end);
        next = end + 1;
    }
    assert_eq!(root.nodes.len(), 3);
}

#[test]
fn skip_passes_over_what_it_names() {
    let source = "  /* a */ b { c".as_bytes();
    assert_eq!(skip_tokens(source, 0, Skip::Spaces), 2);
    assert_eq!(skip_tokens(source, 2, Skip::Spaces), 2);
    assert_eq!(skip_tokens(source, 0, Skip::SpacesAndComments), 10);
    assert_eq!(skip_tokens(source, 0, Skip::UntilOpenCurly), 12);
    assert_eq!(skip_tokens(source, 12, Skip::UntilOpenCurly), 12);
    assert_eq!(skip_tokens(source, 13, Skip::UntilOpenCurly), 15);
    assert_eq!(skip_tokens(source, 15, Skip::Spaces), 15);
    assert!(Skip::Spaces.passes_over(TokenKind::Space));
    assert!(!Skip::Spaces.passes_over(TokenKind::Comment));
    assert!(Skip::SpacesAndComments.passes_over(TokenKind::Comment));
    assert!(!Skip::SpacesAndComments.passes_over(TokenKind::Word));
    assert!(Skip::UntilOpenCurly.passes_over(TokenKind::ClosedCurly));
    assert!(!Skip::UntilOpenCurly.passes_over(TokenKind::OpenCurly));
}

#[test]
fn words_are_compared_byte_by_byte() {
    let source = "a !important;".as_bytes();
    assert!(spells_word(source, 2, 12, "!important"));
    assert!(spells_word(source, 3, 12, "important"));
    assert!(spells_word(source, 2, 3, "!"));
    assert!(spells_word(source, 5, 5, ""));
    assert!(!spells_word(source, 2, 11, "!important"));
    assert!(!spells_word(source, 2, 13, "!important"));
    assert!(!spells_word(source, 0, 10, "!important"));
}

#[test]
fn a_prelude_is_cut_where_the_first_comment_opens() {
    let source = "a /* b */ c /* d".as_bytes();
    assert_eq!(cut_at_comment(source, 0, 16), 2);
    assert_eq!(cut_at_comment(source, 3, 16), 12);
    assert_eq!(cut_at_comment(source, 0, 3), 3);
    assert_eq!(cut_at_comment(source, 0, 2), 2);
    assert_eq!(cut_at_comment(source, 13, 16), 16);
    assert_eq!(cut_at_comment(source, 4, 4), 4);
}

#[test]
fn scan_token_at_any_offset() {
    let source = "ab {".as_bytes();
    assert_eq!(scan_token(source, 0), Some(Token(TokenKind::Word, 0, 1)));
    assert_eq!(scan_token(source, 1), Some(Token(TokenKind::Word, 1, 1)));
    assert_eq!(scan_token(source, 2), Some(Token(TokenKind::Space, 2, 2)));
    assert_eq!(scan_token(source, 3), Some(Token(TokenKind::OpenCurly, 3, 3)));
    assert_eq!(scan_token(source, 4), None);
    assert_eq!(scan_token(source, 9), None);
}

/// Every text of at most `length` pieces of `pieces`.
fn texts(pieces: &[&str], length: usize) -> Vec<String> {
    let mut all = vec![String::new()];
    let mut last = vec![String::new()];
    for _ in 0..length {
        let mut next = Vec::with_capacity(last.len() * pieces.len());
        for text in &last {
            for piece in pieces {
                next.push(format!("{}{}", text, piece));
            }
        }
        all.extend(next.iter().cloned());
        last = next;
    }
    all
}

fn check_comment(source: &str, comment: &Comment) {
    let slice = &source[comment.start..comment.end + 1];
    assert!(slice.starts_with("/*"));
    if comment.end + 1 < source.len() {
        assert!(slice.len() >= 4 && slice.ends_with("*/"));
    }
    assert!(slice[2..].starts_with(comment.text.as_str()));
}

fn check_children(source: &str, nodes: &[BlockChild], lo: usize, hi: usize) {
    let mut next = lo;
    for node in nodes {
        let (start, end) = match node {
            BlockChild::AtRule(a) => {
                check_children(source, &a.nodes, a.start, a.end);
                (a.start, a.end)
            }
            BlockChild::Declaration(d) => (d.start, d.end),
            BlockChild::Comment(c) => {
                check_comment(source, c);
                (c.start, c.end)
            }
        };
        assert!(next <= start && start <= end && end <= hi, "{:?}", source);
        assert!(source.is_char_boundary(start) && source.is_char_boundary(end + 1));
        next = end + 1;
    }
}

#[test]
fn spans_hold_of_every_tree() {
    let pieces = [
        "a", "é", " ", "{", "}", ":", ";", "@", "/*", "*/", "!important", "'", "\n",
    ];
    let mut parsed = 0;
    for source in texts(&pieces, 5) {
        let root = match parse(&source) {
            Ok(root) => root,
            Err(_) => continue,
        };
        parsed += 1;
        assert_eq!(root.start, 0);
        assert_eq!(root.end, source.len().saturating_sub(1));
        let mut next = 0;
        for node in &root.nodes {
            let (start, end) = match node {
                RootChild::Rule(r) => {
                    check_children(&source, &r.nodes, r.start, r.end);
                    (r.start, r.end)
                }
                RootChild::AtRule(a) => {
                    check_children(&source, &a.nodes, a.start, a.end);
                    (a.start, a.end)
                }
                RootChild::Comment(c) => {
                    check_comment(&source, c);
                    (c.start, c.end)
                }
            };
            assert!(next <= start && start <= end && end <= root.end, "{:?}", source);
            assert!(source.is_char_boundary(start) && source.is_char_boundary(end + 1));
            next = end + 1;
        }
    }
    assert!(parsed > 1000);
}
