use ducktails::parser::Parser;
use ducktails::plan::{plan, Column, LogPlan, PlanError, PlanNode, Predicate, Test};

fn planned(source: &str, query: &str) -> Result<LogPlan, PlanError> {
    plan(source, &Parser::parse(query).expect("test query must parse"))
}

fn pred(column: Column, test: Test) -> Predicate {
    Predicate { column, test }
}

#[test]
fn empty_selector_plans_a_bare_scan() {
    let got = planned("/var/log/*.log", "{}").expect("should plan");
    assert_eq!(
        got,
        LogPlan {
            source: "/var/log/*.log".into(),
            nodes: vec![],
        }
    );
}

#[test]
fn plans_a_filename_and_a_line_filter() {
    let got = planned("*.log", r#"{filename=~".*/a\\.log"} |~ "one|three""#).expect("should plan");
    assert_eq!(
        got.nodes,
        vec![
            PlanNode::Filter(vec![pred(
                Column::Filename,
                Test::Matches(r"^(?:.*/a\.log)$".into())
            )]),
            PlanNode::Filter(vec![pred(Column::Line, Test::Matches("one|three".into()))]),
        ]
    );
}

/// A label regex must match the entire value, so it is anchored at both ends.
#[test]
fn label_regexes_are_anchored_in_the_plan() {
    let got = planned("*.log", r#"{filename=~"a\\.log", filename!~"b|c"}"#).expect("should plan");
    assert_eq!(
        got.nodes,
        vec![PlanNode::Filter(vec![
            pred(Column::Filename, Test::Matches(r"^(?:a\.log)$".into())),
            pred(Column::Filename, Test::NotMatches("^(?:b|c)$".into())),
        ])]
    );
}

/// All four line filters and the parser stage, in source order.
#[test]
fn every_line_filter_operator_plans_in_order() {
    let got = planned(
        "*.log",
        r#"{filename="x", filename!="y"} |= "o" != "t" |~ "^f" | logfmt !~ "^f""#,
    )
    .expect("should plan");
    assert_eq!(
        got.nodes,
        vec![
            PlanNode::Filter(vec![
                pred(Column::Filename, Test::Equals("x".into())),
                pred(Column::Filename, Test::NotEquals("y".into())),
            ]),
            PlanNode::Filter(vec![pred(Column::Line, Test::Contains("o".into()))]),
            PlanNode::Filter(vec![pred(Column::Line, Test::NotContains("t".into()))]),
            PlanNode::Filter(vec![pred(Column::Line, Test::Matches("^f".into()))]),
            PlanNode::ParseLogfmt,
            PlanNode::Filter(vec![pred(Column::Line, Test::NotMatches("^f".into()))]),
        ]
    );
}

/// A label we cannot resolve yet must be reported, not silently return nothing.
#[test]
fn unavailable_label_is_an_error() {
    let ast = Parser::parse(r#"{job="app"}"#).expect("should parse");
    let err = plan("*.log", &ast).expect_err("job is not available yet");

    assert!(err.to_string().contains("job"), "got {}", err.to_string());
    assert_eq!(
        err.to_string(),
        r#"label "job": only `filename` is available until a pipeline stage populates labels"#
    );
}

#[test]
fn the_first_unavailable_label_is_the_one_reported() {
    let err = planned("*.log", r#"{filename="a", app="x", job="y"}"#).expect_err("app is not available");
    assert!(matches!(&err, PlanError::UnavailableLabel(n) if n == "app"), "got {err:?}");
}
