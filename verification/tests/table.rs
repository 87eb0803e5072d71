use ducktails::table::{log_rows, parse_source, select_files, LogRow};

fn row(timestamp: i64, line: &str, filename: &str) -> LogRow {
    LogRow {
        timestamp,
        line: line.into(),
        filename: filename.into(),
    }
}

#[test]
fn one_row_per_line_stamped_in_order() {
    let got = log_rows("a.log", "one\ntwo\nthree\n", 100);
    assert_eq!(
        got,
        vec![
            row(100, "one", "a.log"),
            row(101, "two", "a.log"),
            row(102, "three", "a.log"),
        ]
    );
}

#[test]
fn line_endings_follow_str_lines() {
    let got = log_rows("b.log", "four\r\nfive\r\n\nsix\r", -1);
    let lines: Vec<&str> = got.iter().map(|r| r.line.as_str()).collect();
    assert_eq!(lines, "four\r\nfive\r\n\nsix\r".lines().collect::<Vec<_>>());
    assert_eq!(lines, vec!["four", "five", "", "six\r"]);
    assert_eq!(got.last().map(|r| r.timestamp), Some(2));
}

#[test]
fn empty_file_has_no_rows() {
    assert!(log_rows("c.log", "", 0).is_empty());
}

#[test]
fn a_glob_matching_no_files_is_an_error() {
    let err = select_files("/tmp/x/*.txt", vec![]).expect_err("no files match the glob");
    assert!(err.to_string().contains("no files match"), "got {}", err.to_string());
    assert_eq!(err.to_string(), r#"no files match "/tmp/x/*.txt""#);
}

#[test]
fn files_come_in_path_order() {
    let got = select_files(
        "*/x",
        vec!["b/x".into(), "a-b/x".into(), "a/b".into()],
    )
    .expect("files match");
    // Paths compare by component, so `a` sorts before `a-b`.
    assert_eq!(got, vec!["a/b".to_string(), "a-b/x".into(), "b/x".into()]);
}

#[test]
fn blank_source_is_rejected() {
    assert_eq!(parse_source("  \t").unwrap_err(), "must not be empty");
    assert_eq!(parse_source("").unwrap_err(), "must not be empty");
    assert_eq!(parse_source(" /var/log/*.log").unwrap(), " /var/log/*.log");
}
