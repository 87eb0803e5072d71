use ducktails::error::ParseError;
use ducktails::scanner::{Scanner, Token};

/// Scan until the input is exhausted. Treats `UnexpectedEOL` as the terminator
/// and propagates any other error.
fn scan_all(input: &str) -> Result<Vec<Token>, ParseError> {
    let mut scanner = Scanner::new(input);
    let mut out = Vec::new();
    loop {
        match scanner.next_token() {
            Ok(token) => out.push(token),
            Err(ParseError::UnexpectedEOL) => return Ok(out),
            Err(other) => return Err(other),
        }
    }
}

#[test]
fn scans_every_punctuation_token() {
    let cases = [
        ("{", Token::OpenBrace),
        ("}", Token::CloseBrace),
        (",", Token::Comma),
        (".", Token::Dot),
        ("(", Token::OpenParenthesis),
        (")", Token::CloseParenthesis),
        ("=", Token::Eq),
        ("!=", Token::Neq),
        ("=~", Token::Re),
        ("!~", Token::Nre),
        ("!>", Token::Npa),
        ("|=", Token::PipeExact),
        ("|~", Token::PipeMatch),
        ("|>", Token::PipePattern),
        ("|", Token::Pipe),
        ("\"foo\"", Token::String("foo".into())),
    ];
    for (input, want) in cases {
        let got = Scanner::new(input)
            .next_token()
            .unwrap_or_else(|e| panic!("input {input:?}: {}", e.to_string()));
        assert_eq!(got, want, "input: {input:?}");
    }
}

#[test]
fn advances_across_a_token_sequence() {
    let got = scan_all("{},.()").expect("should scan");
    assert_eq!(
        got,
        vec![
            Token::OpenBrace,
            Token::CloseBrace,
            Token::Comma,
            Token::Dot,
            Token::OpenParenthesis,
            Token::CloseParenthesis,
        ]
    );
}

#[test]
fn two_char_operators_consume_both_chars() {
    // If `eat` did not advance, `=~` would scan as Eq followed by a stray `~`.
    let got = scan_all("=~|=!>").expect("should scan");
    assert_eq!(got, vec![Token::Re, Token::PipeExact, Token::Npa]);
}

#[test]
fn failed_eat_does_not_consume() {
    // The three `|` guards all fail here, so `,` must still be available.
    let got = scan_all("|,").expect("should scan");
    assert_eq!(got, vec![Token::Pipe, Token::Comma]);
}

#[test]
fn empty_input_signals_end() {
    let got = Scanner::new("").next_token();
    assert!(matches!(got, Err(ParseError::UnexpectedEOL)), "got {got:?}");
}

#[test]
fn rejects_unknown_characters() {
    for c in ['@', '$', ';', '?'] {
        let input = c.to_string();
        let got = Scanner::new(&input).next_token();
        assert!(
            matches!(got, Err(ParseError::UnexpectedChar(g)) if g == c),
            "input {input:?}: got {got:?}"
        );
    }
}

#[test]
fn bare_bang_is_an_error() {
    // All three `!` guards fail without consuming, so the match falls through
    // and reports the `!` itself.
    for input in ["!", "!x"] {
        let got = Scanner::new(input).next_token();
        assert!(
            matches!(got, Err(ParseError::UnexpectedChar('!'))),
            "input {input:?}: got {got:?}"
        );
    }
}

#[test]
fn skips_whitespace_between_tokens() {
    let got = scan_all("{ } , ( )").expect("should scan");
    assert_eq!(
        got,
        vec![
            Token::OpenBrace,
            Token::CloseBrace,
            Token::Comma,
            Token::OpenParenthesis,
            Token::CloseParenthesis,
        ]
    );
}

#[test]
fn scans_identifiers_and_escaped_strings() {
    let got = scan_all(r#"job:name_1 "a\n\"b\q" x"#).expect("should scan");
    assert_eq!(
        got,
        vec![
            Token::Identifier("job:name_1".into()),
            Token::String("a\n\"bq".into()),
            Token::Identifier("x".into()),
        ]
    );
}

#[test]
fn unicode_whitespace_separates_tokens() {
    let got = scan_all("{\u{3000}}\u{a0},").expect("should scan");
    assert_eq!(got, vec![Token::OpenBrace, Token::CloseBrace, Token::Comma]);
}

#[test]
fn unterminated_string_is_an_unexpected_end() {
    assert!(matches!(Scanner::new(r#""abc"#).next_token(), Err(ParseError::UnexpectedEOL)));
    assert!(matches!(Scanner::new(r#""abc\"#).next_token(), Err(ParseError::UnexpectedEOL)));
}

#[test]
fn peek_token_does_not_consume() {
    let mut scanner = Scanner::new(" =~ x");
    assert_eq!(scanner.peek_token().unwrap(), Token::Re);
    assert_eq!(scanner.peek_token().unwrap(), Token::Re);
    assert_eq!(scanner.next_token().unwrap(), Token::Re);
    assert_eq!(scanner.next_token().unwrap(), Token::Identifier("x".into()));
    assert!(scanner.at_end());
}

#[test]
fn character_level_cursor() {
    let mut scanner = Scanner::new("ab");
    assert_eq!(scanner.peek(), Some('a'));
    assert!(!scanner.eat('b'));
    assert!(scanner.eat('a'));
    assert_eq!(scanner.advance(), Some('b'));
    assert_eq!(scanner.advance(), None);
    assert_eq!(scanner.peek(), None);
}

#[test]
fn identifier_and_string_continue_after_their_first_character() {
    let mut scanner = Scanner::new("bc=1");
    assert_eq!(scanner.identifier('a').unwrap(), Token::Identifier("abc".into()));
    assert_eq!(scanner.next_token().unwrap(), Token::Eq);

    let mut scanner = Scanner::new(r#"x\ty" rest"#);
    assert_eq!(scanner.string().unwrap(), Token::String("x\ty".into()));
    assert_eq!(scanner.next_token().unwrap(), Token::Identifier("rest".into()));
}

#[test]
fn tokens_render_as_written() {
    let cases = [
        (Token::OpenBrace, "{"),
        (Token::Neq, "!="),
        (Token::PipePattern, "|>"),
        (Token::Identifier("app".into()), "app"),
        (Token::String("say \"hi\"".into()), r#""say \"hi\"""#),
        (Token::Eol, "end of line"),
    ];
    for (token, want) in cases {
        assert_eq!(token.to_string(), want);
    }
}

#[test]
fn rendered_tokens_scan_back() {
    let input = r#"{ app_1 != , . ( ) = =~ !~ !> |= |~ |> | } :x"#;
    let mut scanner = Scanner::new(input);
    loop {
        match scanner.next_token() {
            Ok(token) => {
                let text = token.to_string();
                let mut again = Scanner::new(&text);
                assert_eq!(again.next_token().unwrap(), token, "text {text:?}");
                assert!(again.at_end(), "text {text:?}");
            }
            Err(ParseError::UnexpectedEOL) => break,
            Err(other) => panic!("got {other:?}"),
        }
    }
}

#[test]
fn leading_whitespace_does_not_change_a_token() {
    for input in ["=~x", "\"a b\"", "name", "|"] {
        let spaced = format!(" \t\n{input}");
        assert_eq!(
            Scanner::new(&spaced).next_token().unwrap(),
            Scanner::new(input).next_token().unwrap()
        );
    }
}
