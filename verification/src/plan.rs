//! LogQL AST → a logical plan over the log table.
//!
//! The plan says which rows to keep and which columns to derive; the query
//! engine that runs it is handed this plan node by node, in order.

use crate::parser::{
    matchers_view, stages_view, Expr, LineFilter, LineFilterOp, MatchOp, Matcher, Selector,
    SpecExpr, SpecLineFilter, SpecMatcher, SpecStage, Stage,
};
use crate::text::{debug_quoted, quote_debug};
use vstd::prelude::*;

verus! {

/// The column holding the raw log line: what line filters apply to.
pub const LINE: &'static str = "line";

/// Monotonic line index, carried through projections to preserve order.
pub const TIMESTAMP: &'static str = "timestamp";

/// `List<Struct<key, value>>`: appended to by parser stages.
pub const LABELS: &'static str = "labels";

/// The only label available before a pipeline stage populates `labels`. A
/// plain text file carries no labels of its own.
pub const FILENAME: &'static str = "filename";

/// A column of the log table that a predicate reads.
#[derive(Debug, Clone, Copy, PartialEq, Eq, Structural)]
pub enum Column {
    Line,
    Filename,
}

/// How a column is compared against a literal.
#[derive(Debug, Clone, PartialEq, Eq)]
pub enum Test {
    Equals(String),
    NotEquals(String),
    /// Substring test.
    Contains(String),
    NotContains(String),
    /// Regular-expression search; a pattern that must match the whole value
    /// carries its own anchors.
    Matches(String),
    NotMatches(String),
}

#[derive(Debug, Clone, PartialEq, Eq)]
pub struct Predicate {
    pub column: Column,
    pub test: Test,
}

/// One node of the plan, applied to the rows the previous node let through.
#[derive(Debug, Clone, PartialEq, Eq)]
pub enum PlanNode {
    /// Keeps the rows that meet every predicate (a conjunction, in this order).
    Filter(Vec<Predicate>),
    /// Appends the logfmt pairs of `line` to `labels`; leaves the row count alone.
    ParseLogfmt,
}

/// A scan of the files matched by `source`, then `nodes` in order.
#[derive(Debug, Clone, PartialEq, Eq)]
pub struct LogPlan {
    pub source: String,
    pub nodes: Vec<PlanNode>,
}

#[derive(Debug)]
pub enum PlanError {
    /// A matcher names a label that no stage provides yet.
    UnavailableLabel(String),
}

pub enum SpecTest {
    Equals(Seq<char>),
    NotEquals(Seq<char>),
    Contains(Seq<char>),
    NotContains(Seq<char>),
    Matches(Seq<char>),
    NotMatches(Seq<char>),
}

pub struct SpecPredicate {
    pub column: Column,
    pub test: SpecTest,
}

pub enum SpecPlanNode {
    Filter(Seq<SpecPredicate>),
    ParseLogfmt,
}

pub struct SpecLogPlan {
    pub source: Seq<char>,
    pub nodes: Seq<SpecPlanNode>,
}

impl View for Test {
    type V = SpecTest;

    open spec fn view(&self) -> SpecTest {
        match self {
            Test::Equals(v) => SpecTest::Equals(v@),
            Test::NotEquals(v) => SpecTest::NotEquals(v@),
            Test::Contains(v) => SpecTest::Contains(v@),
            Test::NotContains(v) => SpecTest::NotContains(v@),
            Test::Matches(v) => SpecTest::Matches(v@),
            Test::NotMatches(v) => SpecTest::NotMatches(v@),
        }
    }
}

impl View for Predicate {
    type V = SpecPredicate;

    open spec fn view(&self) -> SpecPredicate {
        SpecPredicate { column: self.column, test: self.test@ }
    }
}

pub open spec fn predicates_view(ps: Seq<Predicate>) -> Seq<SpecPredicate> {
    ps.map_values(|p: Predicate| p@)
}

impl View for PlanNode {
    type V = SpecPlanNode;

    open spec fn view(&self) -> SpecPlanNode {
        match self {
            PlanNode::Filter(ps) => SpecPlanNode::Filter(predicates_view(ps@)),
            PlanNode::ParseLogfmt => SpecPlanNode::ParseLogfmt,
        }
    }
}

pub open spec fn nodes_view(ns: Seq<PlanNode>) -> Seq<SpecPlanNode> {
    ns.map_values(|n: PlanNode| n@)
}

impl View for LogPlan {
    type V = SpecLogPlan;

    open spec fn view(&self) -> SpecLogPlan {
        SpecLogPlan { source: self.source@, nodes: nodes_view(self.nodes@) }
    }
}

/// A label regex must match the whole value, so the pattern is anchored at
/// both ends; the group keeps an alternation inside the anchors.
pub open spec fn anchored(pattern: Seq<char>) -> Seq<char> {
    "^(?:"@ + pattern + ")$"@
}

/// The predicate a matcher stands for; `None` for a label that is not available.
pub open spec fn matcher_predicate_spec(m: SpecMatcher) -> Option<SpecPredicate> {
    if m.name != FILENAME@ {
        None
    } else {
        Some(
            SpecPredicate {
                column: Column::Filename,
                test: match m.op {
                    MatchOp::Eq => SpecTest::Equals(m.value),
                    MatchOp::Neq => SpecTest::NotEquals(m.value),
                    MatchOp::Re => SpecTest::Matches(anchored(m.value)),
                    MatchOp::Nre => SpecTest::NotMatches(anchored(m.value)),
                },
            },
        )
    }
}

/// The predicates of the matchers, in order; the first unavailable label, if any.
pub open spec fn selector_predicates_spec(ms: Seq<SpecMatcher>) -> Result<Seq<SpecPredicate>, Seq<char>>
    decreases ms.len(),
{
    if ms.len() == 0 {
        Ok(Seq::empty())
    } else {
        match matcher_predicate_spec(ms[0]) {
            None => Err(ms[0].name),
            Some(p) => match selector_predicates_spec(ms.drop_first()) {
                Ok(rest) => Ok(seq![p] + rest),
                Err(name) => Err(name),
            },
        }
    }
}

/// A line filter tests the raw line; unlike label regexes, line regexes are
/// not anchored.
pub open spec fn line_predicate_spec(f: SpecLineFilter) -> SpecPredicate {
    SpecPredicate {
        column: Column::Line,
        test: match f.op {
            LineFilterOp::Contains => SpecTest::Contains(f.value),
            LineFilterOp::NotContains => SpecTest::NotContains(f.value),
            LineFilterOp::Re => SpecTest::Matches(f.value),
            LineFilterOp::Nre => SpecTest::NotMatches(f.value),
        },
    }
}

pub open spec fn stage_node_spec(st: SpecStage) -> SpecPlanNode {
    match st {
        SpecStage::Line(f) => SpecPlanNode::Filter(seq![line_predicate_spec(f)]),
        SpecStage::Logfmt => SpecPlanNode::ParseLogfmt,
    }
}

/// The plan of a query over `source`: one filter for the whole selector (none
/// for `{}`, which selects everything), then one node per pipeline stage, in
/// order. `Err` names the first matcher label that is not available.
pub open spec fn plan_spec(source: Seq<char>, q: SpecExpr) -> Result<SpecLogPlan, Seq<char>> {
    match q {
        SpecExpr::Log(lq) => match selector_predicates_spec(lq.selector.matchers) {
            Err(name) => Err(name),
            Ok(preds) => Ok(
                SpecLogPlan {
                    source,
                    nodes: (if preds.len() == 0 {
                        Seq::empty()
                    } else {
                        seq![SpecPlanNode::Filter(preds)]
                    }) + lq.pipeline.map_values(|st: SpecStage| stage_node_spec(st)),
                },
            ),
        },
    }
}

pub open spec fn plan_result_view(r: Result<LogPlan, PlanError>) -> Result<SpecLogPlan, Seq<char>> {
    match r {
        Ok(p) => Ok(p@),
        Err(PlanError::UnavailableLabel(name)) => Err(name@),
    }
}

pub open spec fn plan_error_message(name: Seq<char>) -> Seq<char> {
    "label "@ + debug_quoted(name) + ": only `filename` is available until a pipeline stage populates labels"@
}

impl PlanError {
    pub fn to_string(&self) -> (r: String)
        ensures
            r@ == match self {
                PlanError::UnavailableLabel(name) => plan_error_message(name@),
            },
    {
        match self {
            PlanError::UnavailableLabel(name) => {
                let mut s = String::from_str("label ");
                s.append(quote_debug(name.as_str()).as_str());
                s.append(": only `filename` is available until a pipeline stage populates labels");
                s
            },
        }
    }
}

// ---------------------------------------------------------------------------

proof fn lemma_selector_predicates(ms: Seq<SpecMatcher>)
    ensures
        selector_predicates_spec(ms) is Ok <==> forall|i: int|
            0 <= i < ms.len() ==> (#[trigger] ms[i]).name == FILENAME@,
        selector_predicates_spec(ms) matches Err(name) ==> exists|i: int|
            0 <= i < ms.len() && (#[trigger] ms[i]).name == name && name != FILENAME@ && forall|j: int|
                0 <= j < i ==> (#[trigger] ms[j]).name == FILENAME@,
        selector_predicates_spec(ms) matches Ok(ps) ==> ps.len() == ms.len() && forall|i: int|
            0 <= i < ms.len() ==> Some(#[trigger] ps[i]) == matcher_predicate_spec(ms[i]),
    decreases ms.len(),
{
    if ms.len() > 0 {
        let tail = ms.drop_first();
        lemma_selector_predicates(tail);
        assert forall|i: int| 0 < i < ms.len() implies #[trigger] ms[i] == tail[i - 1] by {}
        if matcher_predicate_spec(ms[0]) is Some {
            match selector_predicates_spec(tail) {
                Ok(rest) => {
                    let p = matcher_predicate_spec(ms[0])->Some_0;
                    let ps = seq![p] + rest;
                    assert forall|i: int| 0 <= i < ms.len() implies Some(#[trigger] ps[i])
                        == matcher_predicate_spec(ms[i]) by {
                        if i > 0 {
                            assert(ps[i] == rest[i - 1]);
                            assert(ms[i] == tail[i - 1]);
                        }
                    }
                },
                Err(name) => {
                    let k = choose|k: int|
                        0 <= k < tail.len() && (#[trigger] tail[k]).name == name && name != FILENAME@
                            && forall|j: int| 0 <= j < k ==> (#[trigger] tail[j]).name == FILENAME@;
                    assert(ms[k + 1] == tail[k]);
                    assert forall|j: int| 0 <= j < k + 1 implies (#[trigger] ms[j]).name == FILENAME@ by {
                        if j > 0 {
                            assert(ms[j] == tail[j - 1]);
                        }
                    }
                    assert(tail[k].name != FILENAME@);
                },
            }
        }
    }
}

/// A query is refused exactly when one of its matchers names a label other
/// than `filename`, and the refusal names the first such label.
pub proof fn lemma_plan_refuses_exactly_unavailable_labels(source: Seq<char>, q: SpecExpr)
    ensures
        ({
            let ms = q->Log_0.selector.matchers;
            &&& plan_spec(source, q) is Err <==> exists|i: int|
                0 <= i < ms.len() && (#[trigger] ms[i]).name != FILENAME@
            &&& plan_spec(source, q) matches Err(name) ==> exists|i: int|
                0 <= i < ms.len() && (#[trigger] ms[i]).name == name && name != FILENAME@ && forall|
                    j: int,
                | 0 <= j < i ==> (#[trigger] ms[j]).name == FILENAME@
        }),
{
    lemma_selector_predicates(q->Log_0.selector.matchers);
}

/// A plan keeps the pipeline's order: the whole selector becomes one filter
/// (none for `{}`), followed by one node per stage, stage `i` as node `i`
/// after it.
pub proof fn lemma_plan_keeps_stage_order(source: Seq<char>, q: SpecExpr)
    ensures
        plan_spec(source, q) matches Ok(p) ==> ({
            let lq = q->Log_0;
            let first: int = if lq.selector.matchers.len() == 0 {
                0
            } else {
                1
            };
            &&& p.source == source
            &&& p.nodes.len() == first + lq.pipeline.len()
            &&& first == 1 ==> (p.nodes[0] matches SpecPlanNode::Filter(ps) && ps.len()
                == lq.selector.matchers.len())
            &&& forall|i: int|
                0 <= i < lq.pipeline.len() ==> p.nodes[first + i] == stage_node_spec(
                    #[trigger] lq.pipeline[i],
                )
        }),
{
    let lq = q->Log_0;
    lemma_selector_predicates(lq.selector.matchers);
}

/// Every test of a plan carries the value written in the query, unchanged:
/// the line filter of stage `i` becomes a filter on the line column that
/// tests exactly its value (a substring for `|=` and `!=`, an unanchored
/// pattern for `|~` and `!~`), `| logfmt` becomes a logfmt node, and matcher
/// `i` of the selector tests the file name against exactly its value (an
/// equality for `=` and `!=`, a pattern anchored at both ends for `=~` and
/// `!~`).
pub proof fn lemma_plan_carries_values_unchanged(source: Seq<char>, q: SpecExpr)
    ensures
        plan_spec(source, q) matches Ok(p) ==> ({
            let lq = q->Log_0;
            let ms = lq.selector.matchers;
            let first: int = if ms.len() == 0 {
                0
            } else {
                1
            };
            &&& forall|i: int|
                #![trigger lq.pipeline[i]]
                0 <= i < lq.pipeline.len() ==> p.nodes[first + i] == match lq.pipeline[i] {
                    SpecStage::Logfmt => SpecPlanNode::ParseLogfmt,
                    SpecStage::Line(f) => SpecPlanNode::Filter(
                        seq![
                            SpecPredicate {
                                column: Column::Line,
                                test: match f.op {
                                    LineFilterOp::Contains => SpecTest::Contains(f.value),
                                    LineFilterOp::NotContains => SpecTest::NotContains(f.value),
                                    LineFilterOp::Re => SpecTest::Matches(f.value),
                                    LineFilterOp::Nre => SpecTest::NotMatches(f.value),
                                },
                            },
                        ],
                    ),
                }
            &&& first == 1 ==> (p.nodes[0] matches SpecPlanNode::Filter(ps) && ps.len() == ms.len()
                && forall|i: int|
                0 <= i < ms.len() ==> #[trigger] ps[i] == (SpecPredicate {
                    column: Column::Filename,
                    test: match ms[i].op {
                        MatchOp::Eq => SpecTest::Equals(ms[i].value),
                        MatchOp::Neq => SpecTest::NotEquals(ms[i].value),
                        MatchOp::Re => SpecTest::Matches("^(?:"@ + ms[i].value + ")$"@),
                        MatchOp::Nre => SpecTest::NotMatches("^(?:"@ + ms[i].value + ")$"@),
                    },
                }))
        }),
{
    let lq = q->Log_0;
    lemma_selector_predicates(lq.selector.matchers);
    lemma_plan_keeps_stage_order(source, q);
}

/// Plans `query` over the files matched by the `source` glob. `source` doubles
/// as the table name.
pub fn plan(source: &str, query: &Expr) -> (r: Result<LogPlan, PlanError>)
    ensures
        plan_result_view(r) == plan_spec(source@, query@),
{
    let Expr::Log(log_query) = query;
    let mut nodes: Vec<PlanNode> = Vec::new();
    // A selector is a conjunction, so it collapses into a single filter.
    match selector_predicate(&log_query.selector) {
        Err(e) => {
            return Err(e);
        },
        Ok(Some(predicates)) => {
            let ghost ps = predicates_view(predicates@);
            nodes.push(PlanNode::Filter(predicates));
            assert(nodes_view(nodes@) =~= seq![SpecPlanNode::Filter(ps)]);
        },
        Ok(None) => {
            assert(nodes_view(nodes@) =~= Seq::<SpecPlanNode>::empty());
        },
    }
    let ghost first = nodes_view(nodes@);
    let ghost stages = stages_view(log_query.pipeline@);
    // Each pipeline stage is its own node: order is semantic.
    let mut i: usize = 0;
    while i < log_query.pipeline.len()
        invariant
            i <= log_query.pipeline.len(),
            stages == stages_view(log_query.pipeline@),
            nodes_view(nodes@) == first + stages.take(i as int).map_values(
                |st: SpecStage| stage_node_spec(st),
            ),
        decreases log_query.pipeline.len() - i,
    {
        let node = match &log_query.pipeline[i] {
            Stage::Line(filter) => {
                let p = line_predicate(filter);
                let mut ps: Vec<Predicate> = Vec::new();
                ps.push(p);
                assert(predicates_view(ps@) =~= seq![p@]);
                PlanNode::Filter(ps)
            },
            // A parser stage rewrites `labels` and leaves the row count alone.
            Stage::Logfmt => PlanNode::ParseLogfmt,
        };
        let ghost before = nodes_view(nodes@);
        nodes.push(node);
        assert(nodes_view(nodes@) =~= before.push(node@));
        assert(stages.take(i + 1) =~= stages.take(i as int).push(stages[i as int]));
        assert(stages.take(i + 1).map_values(|st: SpecStage| stage_node_spec(st)) =~= stages.take(
            i as int,
        ).map_values(|st: SpecStage| stage_node_spec(st)).push(stage_node_spec(stages[i as int])));
        i = i + 1;
    }
    assert(stages.take(i as int) =~= stages);
    assert(nodes_view(nodes@) =~= first + stages.map_values(|st: SpecStage| stage_node_spec(st)));
    Ok(LogPlan { source: String::from_str(source), nodes })
}

/// ANDs the matchers together; `None` for `{}`, which selects everything
/// rather than nothing.
fn selector_predicate(selector: &Selector) -> (r: Result<Option<Vec<Predicate>>, PlanError>)
    ensures
        match selector_predicates_spec(selector@.matchers) {
            Err(name) => r matches Err(PlanError::UnavailableLabel(n)) && n@ == name,
            Ok(ps) => r matches Ok(x) && (if ps.len() == 0 {
                x is None
            } else {
                x matches Some(v) && predicates_view(v@) == ps
            }),
        },
{
    let ghost ms = selector@.matchers;
    let mut predicates: Vec<Predicate> = Vec::new();
    let mut i: usize = 0;
    assert(ms.skip(0) =~= ms);
    while i < selector.matchers.len()
        invariant
            i <= selector.matchers.len() == ms.len(),
            ms == matchers_view(selector.matchers@),
            predicates_view(predicates@).len() == i,
            selector_predicates_spec(ms) == match selector_predicates_spec(ms.skip(i as int)) {
                Ok(rest) => Ok(predicates_view(predicates@) + rest),
                Err(name) => Err(name),
            },
        decreases selector.matchers.len() - i,
    {
        let ghost s = ms.skip(i as int);
        assert(s.drop_first() =~= ms.skip(i + 1));
        assert(s[0] == selector.matchers@[i as int]@);
        let ghost before = predicates_view(predicates@);
        match matcher_predicate(&selector.matchers[i]) {
            Err(e) => {
                return Err(e);
            },
            Ok(p) => {
                predicates.push(p);
                assert(predicates_view(predicates@) =~= before.push(p@));
                proof {
                    if let Ok(rest) = selector_predicates_spec(ms.skip(i + 1)) {
                        assert(before + (seq![p@] + rest) =~= predicates_view(predicates@) + rest);
                    }
                }
            },
        }
        i = i + 1;
    }
    assert(ms.skip(i as int) =~= Seq::<SpecMatcher>::empty());
    assert(predicates_view(predicates@) + Seq::<SpecPredicate>::empty() =~= predicates_view(
        predicates@,
    ));
    if predicates.len() == 0 {
        Ok(None)
    } else {
        Ok(Some(predicates))
    }
}

fn matcher_predicate(matcher: &Matcher) -> (r: Result<Predicate, PlanError>)
    ensures
        match matcher_predicate_spec(matcher@) {
            None => r matches Err(PlanError::UnavailableLabel(n)) && n@ == matcher.name@,
            Some(p) => r matches Ok(x) && x@ == p,
        },
{
    if matcher.name != String::from_str(FILENAME) {
        return Err(PlanError::UnavailableLabel(matcher.name.clone()));
    }
    let value = matcher.value.clone();
    let test = match matcher.op {
        MatchOp::Eq => Test::Equals(value),
        MatchOp::Neq => Test::NotEquals(value),
        MatchOp::Re => Test::Matches(anchor(&matcher.value)),
        MatchOp::Nre => Test::NotMatches(anchor(&matcher.value)),
    };
    Ok(Predicate { column: Column::Filename, test })
}

/// `^(?:pattern)$`.
fn anchor(pattern: &String) -> (r: String)
    ensures
        r@ == anchored(pattern@),
{
    let mut s = String::from_str("^(?:");
    s.append(pattern.as_str());
    s.append(")$");
    s
}

/// A line filter tests the raw line, so every variant reads the `line` column.
fn line_predicate(filter: &LineFilter) -> (r: Predicate)
    ensures
        r@ == line_predicate_spec(filter@),
{
    let value = filter.value.clone();
    let test = match filter.op {
        // `|=` and `!=` are substring tests, not equality.
        LineFilterOp::Contains => Test::Contains(value),
        LineFilterOp::NotContains => Test::NotContains(value),
        LineFilterOp::Re => Test::Matches(value),
        LineFilterOp::Nre => Test::NotMatches(value),
    };
    Predicate { column: Column::Line, test }
}

} // verus!
