use ducktails::error::ParseError;
use ducktails::parser::{
    Expr, LineFilter, LineFilterOp, LogQuery, MatchOp, Matcher, Parser, Selector, Stage,
};
use ducktails::scanner::Token;

fn matcher(name: &str, op: MatchOp, value: &str) -> Matcher {
    Matcher {
        name: name.into(),
        op,
        value: value.into(),
    }
}

fn line(op: LineFilterOp, value: &str) -> Stage {
    Stage::Line(LineFilter {
        op,
        value: value.into(),
    })
}

fn log(matchers: Vec<Matcher>, pipeline: Vec<Stage>) -> Expr {
    Expr::Log(LogQuery {
        selector: Selector { matchers },
        pipeline,
    })
}

#[test]
fn parser_selector() {
    let cases = [
        // The grammar admits `{}`; rejecting it is a semantic check, not a
        // parse error.
        ("{}", log(vec![], vec![])),
        (
            r#"{foo="bar"}"#,
            log(vec![matcher("foo", MatchOp::Eq, "bar")], vec![]),
        ),
        (
            r#"{foo="bar", bar!="baz"}"#,
            log(
                vec![
                    matcher("foo", MatchOp::Eq, "bar"),
                    matcher("bar", MatchOp::Neq, "baz"),
                ],
                vec![],
            ),
        ),
        (
            r#"{foo=~"bar", bar!~"baz"}"#,
            log(
                vec![
                    matcher("foo", MatchOp::Re, "bar"),
                    matcher("bar", MatchOp::Nre, "baz"),
                ],
                vec![],
            ),
        ),
        (
            r#"{foo="bar", bar!="baz"} != "bip""#,
            log(
                vec![
                    matcher("foo", MatchOp::Eq, "bar"),
                    matcher("bar", MatchOp::Neq, "baz"),
                ],
                vec![line(LineFilterOp::NotContains, "bip")],
            ),
        ),
        (
            r#"{foo="bar", bar!="baz"} != "bip" !~ ".+bop""#,
            log(
                vec![
                    matcher("foo", MatchOp::Eq, "bar"),
                    matcher("bar", MatchOp::Neq, "baz"),
                ],
                vec![
                    line(LineFilterOp::NotContains, "bip"),
                    line(LineFilterOp::Nre, ".+bop"),
                ],
            ),
        ),
        (
            r#"{foo="bar"} |= "baz" |~ "blip" != "flip" !~ "flap""#,
            log(
                vec![matcher("foo", MatchOp::Eq, "bar")],
                vec![
                    line(LineFilterOp::Contains, "baz"),
                    line(LineFilterOp::Re, "blip"),
                    line(LineFilterOp::NotContains, "flip"),
                    line(LineFilterOp::Nre, "flap"),
                ],
            ),
        ),
        (
            r#"{foo="bar"} |= "baz" | logfmt !~ "flap""#,
            log(
                vec![matcher("foo", MatchOp::Eq, "bar")],
                vec![
                    line(LineFilterOp::Contains, "baz"),
                    Stage::Logfmt,
                    line(LineFilterOp::Nre, "flap"),
                ],
            ),
        ),
    ];
    for (input, want) in cases {
        let got =
            Parser::parse(input).unwrap_or_else(|e| panic!("input {input:?}: {}", e.to_string()));
        assert_eq!(got, want, "input: {input:?}");
    }
}

/// Every input here must fail, and fail for the stated reason.
#[test]
fn parser_selector_errors() {
    type Check = fn(&ParseError) -> bool;

    let cases: [(&str, Check, &str); 10] = [
        (
            r#"{foo="bar",}"#,
            |e| matches!(e, ParseError::UnexpectedToken(Token::CloseBrace, _)),
            "trailing comma: the separator promises another matcher",
        ),
        (
            r#"{foo="bar" bar="baz"}"#,
            |e| matches!(e, ParseError::UnexpectedToken(Token::Identifier(n), Token::CloseBrace) if n == "bar"),
            "missing comma between matchers",
        ),
        (
            r#"{foo="bar"} garbage"#,
            |e| matches!(e, ParseError::UnexpectedToken(Token::Identifier(n), Token::Eol) if n == "garbage"),
            "trailing input after a complete query",
        ),
        (
            r#"{foo="bar""#,
            |e| {
                matches!(
                    e,
                    ParseError::UnexpectedToken(Token::Eol, Token::CloseBrace)
                )
            },
            "unterminated selector",
        ),
        (
            "{",
            |e| {
                matches!(
                    e,
                    ParseError::UnexpectedToken(Token::Eol, Token::Identifier(_))
                )
            },
            "lone opening brace",
        ),
        (
            r#"{="bar"}"#,
            |e| {
                matches!(
                    e,
                    ParseError::UnexpectedToken(Token::Eq, Token::Identifier(_))
                )
            },
            "matcher without a label name",
        ),
        (
            r#"{foo "bar"}"#,
            |e| matches!(e, ParseError::UnexpectedToken(Token::String(v), _) if v == "bar"),
            "matcher without an operator",
        ),
        (
            "{foo=bar}",
            |e| matches!(e, ParseError::UnexpectedToken(Token::Identifier(n), Token::String(_)) if n == "bar"),
            "unquoted matcher value",
        ),
        (
            r#"foo="bar""#,
            |e| matches!(e, ParseError::UnexpectedToken(Token::Identifier(n), Token::OpenBrace) if n == "foo"),
            "no opening brace: a query must start with a selector",
        ),
        (
            // Scanner-level failures must surface through the parser too.
            r#"{foo="bar}"#,
            |e| matches!(e, ParseError::UnexpectedEOL),
            "unterminated string literal",
        ),
    ];

    for (input, is_expected, why) in cases {
        match Parser::parse(input) {
            Ok(expr) => panic!("input {input:?} ({why}): expected an error, got {expr:?}"),
            Err(e) => assert!(is_expected(&e), "input {input:?} ({why}): got {e:?}"),
        }
    }
}

#[test]
fn parses_a_selector_through_the_public_api() {
    let Expr::Log(query) = Parser::parse(r#"{filename=~".*app.*"}"#).expect("should parse");
    let selector = query.selector;

    assert_eq!(selector.matchers.len(), 1);
    assert_eq!(selector.matchers[0].name, "filename");
    assert_eq!(selector.matchers[0].op, MatchOp::Re);
    assert_eq!(selector.matchers[0].value, ".*app.*");
}

#[test]
fn reports_a_parse_error_as_a_readable_message() {
    // The CLI hands this string to its argument parser, so its wording is user-facing.
    let err = Parser::parse("{foo=}").expect_err("should not parse");

    assert_eq!(
        err.to_string(),
        r#"Unexpected token: '}', expected: "string""#
    );
}

#[test]
fn every_error_variant_has_a_message() {
    let err = Parser::parse("{foo@}").expect_err("should not parse");
    assert_eq!(err.to_string(), "Unexpected char: @");

    let err = Parser::parse(r#"{foo="bar"#).expect_err("should not parse");
    assert_eq!(err.to_string(), "Unexpected end of line");

    let err = Parser::parse(r#"{foo="bar"} x"#).expect_err("should not parse");
    assert_eq!(
        err.to_string(),
        "Unexpected token: 'x', expected: end of line"
    );
}

#[test]
fn only_logfmt_may_follow_a_bare_pipe() {
    let err = Parser::parse(r#"{} | json"#).expect_err("should not parse");
    assert!(
        matches!(&err, ParseError::UnexpectedToken(Token::Identifier(n), Token::Identifier(w)) if n == "json" && w == "identifier"),
        "got {err:?}"
    );
    let err = Parser::parse(r#"{} |= x"#).expect_err("should not parse");
    assert!(
        matches!(&err, ParseError::UnexpectedToken(Token::Identifier(n), Token::String(_)) if n == "x"),
        "got {err:?}"
    );
}

#[test]
fn leading_and_trailing_whitespace_is_ignored() {
    let a = Parser::parse(" \t{foo=\"bar\"}|=\"x\"\n").expect("should parse");
    let b = Parser::parse("{foo=\"bar\"} |= \"x\"").expect("should parse");
    assert_eq!(a, b);
}

#[test]
fn whitespace_between_any_two_tokens_changes_nothing() {
    let tight = r#"{foo="bar",bar!="baz"}|="x"|logfmt!~"y""#;
    let spaced = " { foo = \"bar\" ,\tbar != \"baz\" }\n|= \"x\" | logfmt !~ \"y\" ";
    assert_eq!(Parser::parse(tight).unwrap(), Parser::parse(spaced).unwrap());

    // inside a string literal whitespace is part of the value
    let a = Parser::parse(r#"{foo="b r"}"#).unwrap();
    assert_ne!(a, Parser::parse(r#"{foo="b  r"}"#).unwrap());
}

#[test]
fn appending_a_line_filter_appends_one_stage() {
    let q = r#"{foo="bar"} | logfmt"#;
    let Expr::Log(base) = Parser::parse(q).unwrap();
    for (text, op) in [
        ("|=", LineFilterOp::Contains),
        ("!=", LineFilterOp::NotContains),
        ("|~", LineFilterOp::Re),
        ("!~", LineFilterOp::Nre),
    ] {
        let Expr::Log(got) = Parser::parse(&format!("{q} {text} \"v w\"")).unwrap();
        let mut want = base.clone();
        want.pipeline.push(line(op, "v w"));
        assert_eq!(got, want, "op {text}");
    }
}

#[test]
fn whitespace_at_several_boundaries_at_once_changes_nothing() {
    let parts = ["{", "app", "=", "\"a b\"", "}", "", "|", "logfmt", "|~", "\"c\""];
    let tight: String = parts.concat();
    let gaps = [" ", "\t", "  ", "\n", " ", "\t", "", " \t ", "  "];
    let mut spaced = String::new();
    for (i, part) in parts.iter().enumerate() {
        spaced.push_str(part);
        if i < gaps.len() {
            spaced.push_str(gaps[i]);
        }
    }
    assert_eq!(Parser::parse(&tight).unwrap(), Parser::parse(&spaced).unwrap());
}
