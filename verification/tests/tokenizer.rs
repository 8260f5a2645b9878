use css_parser::parser::tokenizer::{Token, TokenKind, Tokenizer};

use TokenKind::{At, ClosedCurly, Colon, Comment, OpenCurly, Semicolon, Space, Word};

fn tokens(source: &str) -> Vec<Token> {
    Tokenizer::new(source).collect()
}

#[test]
fn tokenize() {
    let t = Tokenizer::new("/* foo */    \nabc { foo: bar; }foo baz/*foo*/");
    let res = t.collect();
    assert_eq!(
        res,
        vec![
            Token(Comment, 0, 8),
            Token(Space, 9, 13),
            Token(Word, 14, 16),
            Token(Space, 17, 17),
            Token(OpenCurly, 18, 18),
            Token(Space, 19, 19),
            Token(Word, 20, 22),
            Token(Colon, 23, 23),
            Token(Space, 24, 24),
            Token(Word, 25, 27),
            Token(Semicolon, 28, 28),
            Token(Space, 29, 29),
            Token(ClosedCurly, 30, 30),
            Token(Word, 31, 33),
            Token(Space, 34, 34),
            Token(Word, 35, 37),
            Token(Comment, 38, 44),
        ]
    );
}

#[test]
fn tokenize_empty_input() {
    assert_eq!(tokens(""), vec![]);
    let mut t = Tokenizer::new("");
    assert_eq!(t.next(), None);
    assert_eq!(t.next(), None);
}

#[test]
fn tokenize_every_kind_of_white_space() {
    assert_eq!(tokens(" \t\n\r\n\u{c}"), vec![Token(Space, 0, 5)]);
    assert_eq!(tokens("a\u{b}b"), vec![Token(Word, 0, 2)]);
}

#[test]
fn tokenize_structural_characters() {
    assert_eq!(
        tokens("{}:;@"),
        vec![
            Token(OpenCurly, 0, 0),
            Token(ClosedCurly, 1, 1),
            Token(Colon, 2, 2),
            Token(Semicolon, 3, 3),
            Token(At, 4, 4),
        ]
    );
}

#[test]
fn tokenize_unterminated_comment_runs_to_the_end() {
    assert_eq!(tokens("/* a { b"), vec![Token(Comment, 0, 7)]);
    assert_eq!(tokens("/*"), vec![Token(Comment, 0, 1)]);
    assert_eq!(tokens("/*/"), vec![Token(Comment, 0, 2)]);
    assert_eq!(tokens("/**/a"), vec![Token(Comment, 0, 3), Token(Word, 4, 4)]);
    assert_eq!(tokens("/* * / */;"), vec![Token(Comment, 0, 8), Token(Semicolon, 9, 9)]);
}

#[test]
fn tokenize_slash_in_a_word() {
    assert_eq!(tokens("a/b"), vec![Token(Word, 0, 2)]);
    assert_eq!(tokens("/"), vec![Token(Word, 0, 0)]);
    assert_eq!(tokens("/a"), vec![Token(Word, 0, 1)]);
    assert_eq!(tokens("a/"), vec![Token(Word, 0, 1)]);
    assert_eq!(tokens("a/*b*/"), vec![Token(Word, 0, 0), Token(Comment, 1, 5)]);
    assert_eq!(tokens("//*b*/"), vec![Token(Word, 0, 0), Token(Comment, 1, 5)]);
    assert_eq!(tokens("/a/*b*/"), vec![Token(Word, 0, 1), Token(Comment, 2, 6)]);
}

#[test]
fn tokenize_string_in_a_word() {
    assert_eq!(
        tokens("a'b c'd e"),
        vec![Token(Word, 0, 6), Token(Space, 7, 7), Token(Word, 8, 8)]
    );
    assert_eq!(
        tokens("a: \"x;y\""),
        vec![
            Token(Word, 0, 0),
            Token(Colon, 1, 1),
            Token(Space, 2, 2),
            Token(Word, 3, 7),
        ]
    );
    assert_eq!(tokens("'{}:;@ /* */'"), vec![Token(Word, 0, 12)]);
    assert_eq!(
        tokens("'a\\'b' c"),
        vec![Token(Word, 0, 5), Token(Space, 6, 6), Token(Word, 7, 7)]
    );
    assert_eq!(tokens("'a\\\nb'"), vec![Token(Word, 0, 5)]);
    assert_eq!(tokens("\"a'b\"'c\"d'"), vec![Token(Word, 0, 9)]);
}

#[test]
fn tokenize_quote_that_starts_no_string() {
    assert_eq!(tokens("'a"), vec![Token(Word, 0, 1)]);
    assert_eq!(
        tokens("'a b"),
        vec![Token(Word, 0, 1), Token(Space, 2, 2), Token(Word, 3, 3)]
    );
    assert_eq!(
        tokens("'a\nb'"),
        vec![Token(Word, 0, 1), Token(Space, 2, 2), Token(Word, 3, 4)]
    );
    assert_eq!(
        tokens("a\"{"),
        vec![Token(Word, 0, 1), Token(OpenCurly, 2, 2)]
    );
    assert_eq!(tokens("a/*'"), vec![Token(Word, 0, 0), Token(Comment, 1, 3)]);
}

#[test]
fn tokenize_counts_bytes() {
    assert_eq!(
        tokens("é{ಠ}"),
        vec![
            Token(Word, 0, 1),
            Token(OpenCurly, 2, 2),
            Token(Word, 3, 5),
            Token(ClosedCurly, 6, 6),
        ]
    );
}

#[test]
fn tokenize_twice_gives_the_same_tokens() {
    let source = "@media (min-width: 1px) { a { b: c !important } } /* d";
    assert_eq!(tokens(source), tokens(source));
    let copy = source.to_string();
    assert_eq!(tokens(source), tokens(&copy));
}

#[test]
fn tokens_cover_the_source_without_gaps() {
    let source = "a{b:c;}/**/ @x y{}\n;;";
    let all = tokens(source);
    let mut next = 0;
    for Token(_, start, end) in all {
        assert_eq!(start, next);
        assert!(start <= end);
        next = end + 1;
    }
    assert_eq!(next, source.len());
}

#[test]
fn next_and_peek_agree() {
    let mut t = Tokenizer::new("a b");
    assert_eq!(t.peek(), Some(Token(Word, 0, 0)));
    assert_eq!(t.peek(), Some(Token(Word, 0, 0)));
    assert_eq!(t.next(), Some(Token(Word, 0, 0)));
    assert_eq!(t.position(), 1);
    assert_eq!(t.next(), Some(Token(Space, 1, 1)));
    assert_eq!(t.next(), Some(Token(Word, 2, 2)));
    assert_eq!(t.peek(), None);
    assert_eq!(t.next(), None);
    assert_eq!(t.position(), 3);
}

#[test]
fn peek_n_looks_ahead_without_consuming() {
    let mut t = Tokenizer::new("ab é{");
    assert_eq!(t.peek_n(0), Some((0, 'a')));
    assert_eq!(t.peek_n(1), Some((1, 'b')));
    assert_eq!(t.peek_n(3), Some((3, 'é')));
    assert_eq!(t.peek_n(4), Some((5, '{')));
    assert_eq!(t.peek_n(5), None);
    assert_eq!(t.next(), Some(Token(Word, 0, 1)));
    assert_eq!(t.peek_n(0), Some((2, ' ')));
    assert_eq!(t.peek_n(2), Some((5, '{')));
    assert_eq!(t.peek_n(3), None);
    assert_eq!(t.next(), Some(Token(Space, 2, 2)));
}

#[test]
fn slice_and_bytes_of_the_source() {
    let t = Tokenizer::new("aé b");
    assert_eq!(t.bytes(), "aé b".as_bytes());
    assert_eq!(t.slice(0, 3), "aé");
    assert_eq!(t.slice(1, 3), "é");
    assert_eq!(t.slice(3, 3), "");
    assert_eq!(t.slice(4, 5), "b");
}
