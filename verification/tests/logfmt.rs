use ducktails::logfmt::parse_logfmt;

fn as_strs(pairs: &[(String, String)]) -> Vec<(&str, &str)> {
    pairs.iter().map(|(k, v)| (k.as_str(), v.as_str())).collect()
}

#[test]
fn parses_logfmt_lines() {
    let cases: [(&str, Vec<(&str, &str)>); 5] = [
        ("", vec![]),
        (
            "level=info msg=started",
            vec![("level", "info"), ("msg", "started")],
        ),
        (
            r#"level=error msg="something went wrong" code=500"#,
            vec![
                ("level", "error"),
                ("msg", "something went wrong"),
                ("code", "500"),
            ],
        ),
        (
            "  level=info   msg=ok  ",
            vec![("level", "info"), ("msg", "ok")],
        ),
        (
            r#"level=info msg="\"ok""#,
            vec![("level", "info"), ("msg", r#""ok"#)],
        ),
    ];

    for (line, want) in cases {
        assert_eq!(as_strs(&parse_logfmt(line)), want, "line: {line:?}");
    }
}

/// Cases that reach past the happy path. Non-strict `| logfmt` never fails a
/// line: it skips what it cannot read and keeps the rest.
#[test]
fn parses_malformed_logfmt_lines() {
    let cases: [(&str, Vec<(&str, &str)>); 8] = [
        // A key cannot contain whitespace, so `badkey` has no value and is
        // dropped; it must not swallow the following key.
        (
            "level=info badkey msg=ok",
            vec![("level", "info"), ("msg", "ok")],
        ),
        // Only the first `=` separates; the rest belongs to the value.
        ("msg=hello=world", vec![("msg", "hello=world")]),
        // An empty value is dropped exactly like a missing one.
        ("a= b=2", vec![("b", "2")]),
        ("a=1 b", vec![("a", "1")]),
        ("b a=1", vec![("a", "1")]),
        // An unterminated quote takes the rest of the line.
        (r#"msg="unterminated"#, vec![("msg", "unterminated")]),
        ("   ", vec![]),
        // `\"` is unescaped rather than kept literally.
        (
            r#"msg="say \"hi\"" code=1"#,
            vec![("msg", r#"say "hi""#), ("code", "1")],
        ),
    ];

    for (line, want) in cases {
        assert_eq!(as_strs(&parse_logfmt(line)), want, "line: {line:?}");
    }
}

#[test]
fn resolves_every_escape() {
    let got = parse_logfmt(r#"a="\/\'\b\f\n\r\t\\" b="\u0041\u00e9x" c="\u41""#);
    assert_eq!(
        as_strs(&got),
        vec![
            ("a", "/'\u{8}\u{c}\n\r\t\\"),
            ("b", "Aéx"),
            ("c", "A"),
        ]
    );
}

#[test]
fn drops_a_value_with_a_bad_escape() {
    // An unknown escape, a surrogate and a non-hex code all drop their pair.
    let got = parse_logfmt(r#"a="\q" b="\ud800" c="\uzz" e=ok"#);
    assert_eq!(as_strs(&got), vec![("e", "ok")]);
}

#[test]
fn unterminated_quote_keeps_escapes_raw() {
    let got = parse_logfmt(r#"msg="a\"b"#);
    assert_eq!(as_strs(&got), vec![("msg", r#"a\"b"#)]);
}

#[test]
fn empty_key_is_kept() {
    let got = parse_logfmt("=v k=w");
    assert_eq!(as_strs(&got), vec![("", "v"), ("k", "w")]);
}

#[test]
fn leading_whitespace_changes_no_pair() {
    let line = r#"a=1 b="two words""#;
    assert_eq!(parse_logfmt(line), parse_logfmt(&format!("\t  {line}")));
}

#[test]
fn keys_hold_no_separator_and_values_are_never_empty() {
    for line in ["a=1 b c= d=\"\" e=\"x\"", "=v", "k==v", "x\u{3000}y=z"] {
        for (key, value) in parse_logfmt(line) {
            assert!(!key.contains('=') && !key.chars().any(char::is_whitespace), "key {key:?}");
            assert!(!value.is_empty(), "line {line:?}");
        }
    }
    assert_eq!(
        as_strs(&parse_logfmt("k==v x\u{3000}y=z")),
        vec![("k", "=v"), ("y", "z")]
    );
}

#[test]
fn escapes_never_lengthen_a_value() {
    let line = r#"m="\u0041\n\"x""#;
    let got = parse_logfmt(line);
    assert_eq!(as_strs(&got), vec![("m", "A\n\"x")]);
    assert!(got[0].1.chars().count() <= r#"\u0041\n\"x"#.chars().count());
}

#[test]
fn unicode_escapes_read_up_to_four_hex_digits() {
    let got = parse_logfmt(r#"a="\u+41" b="\u-41" c="\u004142" d="\uFFFF" e="\u""#);
    assert_eq!(
        as_strs(&got),
        vec![("a", "A"), ("c", "A42"), ("d", "\u{ffff}")]
    );
}

#[test]
fn a_quoted_pair_comes_first_with_escapes_resolved() {
    let rest = r#"b=2 c="x y""#;
    let line = format!(r#"msg="say \"hi\"\tnow"  {rest}"#);
    let mut want = vec![("msg".to_string(), "say \"hi\"\tnow".to_string())];
    want.extend(parse_logfmt(rest));
    assert_eq!(parse_logfmt(&line), want);
    assert_eq!(
        as_strs(&parse_logfmt(&line)),
        vec![("msg", "say \"hi\"\tnow"), ("b", "2"), ("c", "x y")]
    );
}

#[test]
fn escapes_never_lengthen_a_value_in_bytes() {
    for (raw, want) in [
        (r#"\u20AC"#, "\u{20ac}"),
        (r#"\uFFFF!"#, "\u{ffff}!"),
        (r#"\u7"#, "\u{7}"),
        (r#"\uff"#, "\u{ff}"),
        (r#"\t\"é\/"#, "\t\"é/"),
    ] {
        let got = parse_logfmt(&format!("k=\"{raw}\""));
        assert_eq!(as_strs(&got), vec![("k", want)], "raw {raw:?}");
        assert!(got[0].1.len() <= raw.len(), "raw {raw:?}");
    }
}
