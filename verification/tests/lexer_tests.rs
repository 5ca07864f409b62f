use clausewitz::lexer::Token;

fn assert_tokens(raw_string: &str, expected_tokens: Vec<Token>) {
    let mut lex = Token::lexer(raw_string);
    for token in expected_tokens {
        assert_eq!(lex.next(), Some(Ok(token)));
    }
    assert_eq!(lex.next(), None);
}

fn text(s: &str) -> Token {
    Token::Text(s.to_string())
}

fn quoted(s: &str) -> Token {
    Token::Str(s.to_string())
}

#[test]
fn test_string_containing_escaped_quotes() {
    assert_tokens(
        r#"
				foo = "string with \" escaped quote"
			"#,
        vec![
            text("foo"),
            Token::Equals,
            quoted(r#"string with \" escaped quote"#),
        ],
    );
}

#[test]
fn test_comment() {
    assert_tokens(
        r#"
				foo = FOO # here's a comment
				bar = BAR
			"#,
        vec![
            text("foo"),
            Token::Equals,
            text("FOO"),
            Token::Comment,
            text("bar"),
            Token::Equals,
            text("BAR"),
        ],
    )
}

#[test]
fn test_string_containing_hashtag() {
    assert_tokens(
        r####"
				3hashtags = "###"
			"####,
        vec![text("3hashtags"), Token::Equals, quoted("###")],
    )
}

#[test]
fn test_comment_containing_quotes() {
    assert_tokens(
        r####"
				foo = FOO # this is a comment, not a "string"
			"####,
        vec![text("foo"), Token::Equals, text("FOO"), Token::Comment],
    )
}

#[test]
fn test_braces_and_equals_tokens() {
    assert_tokens(
        "a = { b }",
        vec![text("a"), Token::Equals, Token::Open, text("b"), Token::Close],
    )
}

#[test]
fn test_unterminated_string_is_an_error() {
    let mut lex = Token::lexer("foo = \"unfinished");
    assert_eq!(lex.next(), Some(Ok(text("foo"))));
    assert_eq!(lex.next(), Some(Ok(Token::Equals)));
    let err = lex.next().unwrap().unwrap_err();
    assert_eq!(err.kind, clausewitz::lexer::LexErrorKind::UnterminatedString);
    assert_eq!(err.offset, 6);
}

#[test]
fn test_word_may_start_with_minus() {
    assert_tokens("-0.5 x", vec![text("-0.5"), text("x")]);
}
