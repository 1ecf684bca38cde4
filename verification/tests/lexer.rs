use sexp_tree::tokenise::{tokenise, Token, TokenStream, TokenType};

fn collect<'a>(mut ts: TokenStream<'a>) -> Vec<Token<'a>> {
    let mut all = Vec::new();
    while let Some(t) = ts.next() {
        all.push(t);
    }
    all
}

fn normalised(text: &str) -> String {
    tokenise(text).stringify().render()
}

#[test]
fn empty_text_has_no_tokens() {
    assert_eq!(collect(tokenise("")), vec![]);
}

#[test]
fn whitespace_only_has_no_tokens() {
    assert_eq!(collect(tokenise(" \t\r\n\x0c ")), vec![]);
}

#[test]
fn trailing_whitespace_ends_the_stream() {
    assert_eq!(collect(tokenise("a  ")), vec![Token::Literal("a")]);
}

#[test]
fn exhausted_stream_stays_exhausted() {
    let mut ts = tokenise("x");
    assert_eq!(ts.next(), Some(Token::Literal("x")));
    assert_eq!(ts.next(), None);
    assert_eq!(ts.next(), None);
}

#[test]
fn parentheses_are_tokens_of_their_own() {
    assert_eq!(
        collect(tokenise("(a b (c 1))")),
        vec![
            Token::LParen,
            Token::Literal("a"),
            Token::Literal("b"),
            Token::LParen,
            Token::Literal("c"),
            Token::Literal("1"),
            Token::RParen,
            Token::RParen,
        ]
    );
}

#[test]
fn literal_runs_to_the_next_delimiter() {
    assert_eq!(
        collect(tokenise("foo)bar(baz\tqux")),
        vec![
            Token::Literal("foo"),
            Token::RParen,
            Token::Literal("bar"),
            Token::LParen,
            Token::Literal("baz"),
            Token::Literal("qux"),
        ]
    );
}

#[test]
fn vertical_tab_is_no_whitespace() {
    assert_eq!(collect(tokenise("a\x0bb")), vec![Token::Literal("a\x0bb")]);
}

#[test]
fn literals_keep_multi_byte_characters() {
    assert_eq!(
        collect(tokenise("(λ héllo)→ 日本語")),
        vec![
            Token::LParen,
            Token::Literal("λ"),
            Token::Literal("héllo"),
            Token::RParen,
            Token::Literal("→"),
            Token::Literal("日本語"),
        ]
    );
}

#[test]
fn every_literal_is_free_of_delimiters() {
    let text = "  (define (sq x)\n\t(* x x))\r\n 42 -7 ) ) ( foo";
    for t in collect(tokenise(text)) {
        if let Token::Literal(s) = t {
            assert!(!s.is_empty());
            assert!(!s.bytes().any(|b| b.is_ascii_whitespace() || b == b'(' || b == b')'));
        }
    }
}

#[test]
fn token_kinds() {
    assert_eq!(Token::Literal("x").ty(), TokenType::Literal);
    assert_eq!(Token::LParen.ty(), TokenType::LParen);
    assert_eq!(Token::RParen.ty(), TokenType::RParen);
}

#[test]
fn rendering_collapses_whitespace() {
    assert_eq!(normalised("  ( a   b\n(c\t1 ) )  "), "(a b (c 1))");
}

#[test]
fn rendering_spaces_between_lists_and_literals() {
    assert_eq!(normalised("(a)(b)c(d"), "(a) (b) c (d");
    assert_eq!(normalised("a b"), "a b");
    assert_eq!(normalised(")("), ") (");
    assert_eq!(normalised("(("), "((");
    assert_eq!(normalised("))"), "))");
    assert_eq!(normalised("a)"), "a)");
    assert_eq!(normalised("(a"), "(a");
    assert_eq!(normalised(""), "");
}

#[test]
fn rendering_canonical_text_gives_it_back() {
    for text in ["(a b (c 1))", "(define (sq x) (* x x))", "a", "()", "(()) (x) y", "(λ → 日本語)"] {
        assert_eq!(normalised(text), text);
    }
}

#[test]
fn rendering_does_not_consume_the_stream() {
    let mut ts = tokenise("(a b)");
    assert_eq!(ts.next(), Some(Token::LParen));
    assert_eq!(ts.stringify().render(), "a b)");
    assert_eq!(ts.stringify().render(), "a b)");
    assert_eq!(ts.next(), Some(Token::Literal("a")));
}

#[test]
fn rendering_bytes_match_the_text() {
    let ts = tokenise(" ( x ) ");
    assert_eq!(ts.stringify().render_bytes(), b"(x)".to_vec());
}

#[test]
fn normalising_twice_changes_nothing() {
    for text in ["  ( a   b\n(c\t1 ) )  ", "a)(b", ")) ((", "x  y   z", "(λ)→(日本語 )"] {
        let once = normalised(text);
        assert_eq!(normalised(&once), once);
        assert_eq!(collect(tokenise(&once)), collect(tokenise(text)));
    }
}

#[test]
fn spaced_out_parentheses_are_pulled_in() {
    assert_eq!(normalised("( a )"), "(a)");
}

#[test]
fn rendering_starts_at_the_end_of_the_last_token() {
    let mut ts = tokenise("(  a   b )  c");
    assert_eq!(ts.next(), Some(Token::LParen));
    assert_eq!(ts.stringify().render_bytes(), b"a b) c".to_vec());
    assert_eq!(ts.next(), Some(Token::Literal("a")));
    assert_eq!(ts.next(), Some(Token::Literal("b")));
    assert_eq!(ts.next(), Some(Token::RParen));
    assert_eq!(ts.stringify().render(), "c");
}
