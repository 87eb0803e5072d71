//! The LogQL parser: a recursive descent over the scanner's tokens.

use crate::error::{ParseError, SpecParseError};
use crate::scanner::{is_label_name, lemma_label_name_scans_whole, lemma_reaches_trans, lemma_reaches_between, lemma_reaches_spaced, lemma_reaches_past_whitespace, lemma_scan_token_len, lemma_scan_token_suffix, lemma_scan_token_extend, lemma_scanned_token_is_plain, separated, scan_string, reaches, lemma_reaches_suffix, lemma_scan_token_boundary, lemma_scan_skips_whitespace, lemma_scan_token_truncate, same_token, scan_token, token_result_view, Scanner, SpecToken, Token};
use crate::text::{all_whitespace, is_whitespace_spec, lemma_trim_start, lemma_trim_start_prefix, lemma_trim_start_suffix, lemma_trim_start_extend, trim_start};
use vstd::prelude::*;

verus! {

/// How a matcher compares a label against its value.
///
/// A narrowed view of [`Token`]: only these four operators are legal inside a
/// selector.
#[derive(Debug, Clone, Copy, PartialEq, Eq, Structural)]
pub enum MatchOp {
    /// `=`
    Eq,
    /// `!=`
    Neq,
    /// `=~`
    Re,
    /// `!~`
    Nre,
}

/// A single label matcher: `app="foo"`, `env=~"prod|staging"`.
#[derive(Debug, Clone, PartialEq, Eq)]
pub struct Matcher {
    pub name: String,
    pub op: MatchOp,
    pub value: String,
}

/// A stream selector: `{app="foo", env=~"prod|staging"}`.
///
/// The grammar admits `{}`; rejecting it is a semantic matter, so an empty
/// `matchers` is representable here on purpose.
#[derive(Debug, Clone, PartialEq, Eq)]
pub struct Selector {
    pub matchers: Vec<Matcher>,
}

/// `|= "error"`, `!~ "debug|trace"`. Distinct from `MatchOp`: `=` on a label is
/// equality, `|=` on a line is containment.
#[derive(Debug, Clone, Copy, PartialEq, Eq, Structural)]
pub enum LineFilterOp {
    Contains,
    NotContains,
    Re,
    Nre,
}

#[derive(Debug, Clone, PartialEq, Eq)]
pub struct LineFilter {
    pub op: LineFilterOp,
    pub value: String,
}

/// One stage of a log pipeline; a pipeline is an ordered sequence of them.
#[derive(Debug, Clone, PartialEq, Eq)]
pub enum Stage {
    Line(LineFilter),
    Logfmt,
}

#[derive(Debug, Clone, PartialEq, Eq)]
pub struct LogQuery {
    pub selector: Selector,
    pub pipeline: Vec<Stage>,
}

/// The root of a LogQL query.
#[derive(Debug, Clone, PartialEq, Eq)]
pub enum Expr {
    /// A log query: a selector and a pipeline.
    Log(LogQuery),
}

pub struct SpecMatcher {
    pub name: Seq<char>,
    pub op: MatchOp,
    pub value: Seq<char>,
}

pub struct SpecSelector {
    pub matchers: Seq<SpecMatcher>,
}

pub struct SpecLineFilter {
    pub op: LineFilterOp,
    pub value: Seq<char>,
}

pub enum SpecStage {
    Line(SpecLineFilter),
    Logfmt,
}

pub struct SpecLogQuery {
    pub selector: SpecSelector,
    pub pipeline: Seq<SpecStage>,
}

pub enum SpecExpr {
    Log(SpecLogQuery),
}

impl View for Matcher {
    type V = SpecMatcher;

    open spec fn view(&self) -> SpecMatcher {
        SpecMatcher { name: self.name@, op: self.op, value: self.value@ }
    }
}

pub open spec fn matchers_view(ms: Seq<Matcher>) -> Seq<SpecMatcher> {
    ms.map_values(|m: Matcher| m@)
}

impl View for Selector {
    type V = SpecSelector;

    open spec fn view(&self) -> SpecSelector {
        SpecSelector { matchers: matchers_view(self.matchers@) }
    }
}

impl View for LineFilter {
    type V = SpecLineFilter;

    open spec fn view(&self) -> SpecLineFilter {
        SpecLineFilter { op: self.op, value: self.value@ }
    }
}

impl View for Stage {
    type V = SpecStage;

    open spec fn view(&self) -> SpecStage {
        match self {
            Stage::Line(f) => SpecStage::Line(f@),
            Stage::Logfmt => SpecStage::Logfmt,
        }
    }
}

pub open spec fn stages_view(st: Seq<Stage>) -> Seq<SpecStage> {
    st.map_values(|s: Stage| s@)
}

impl View for LogQuery {
    type V = SpecLogQuery;

    open spec fn view(&self) -> SpecLogQuery {
        SpecLogQuery { selector: self.selector@, pipeline: stages_view(self.pipeline@) }
    }
}

impl View for Expr {
    type V = SpecExpr;

    open spec fn view(&self) -> SpecExpr {
        match self {
            Expr::Log(q) => SpecExpr::Log(q@),
        }
    }
}

pub open spec fn expr_result_view(r: Result<Expr, ParseError>) -> Result<SpecExpr, SpecParseError> {
    match r {
        Ok(e) => Ok(e@),
        Err(e) => Err(e@),
    }
}

// ---------------------------------------------------------------------------
// The grammar, over the characters not yet consumed. Each rule gives what it
// parsed together with the input left after it, or the error that stops the
// parse.

/// The parser's view of the token stream: once only whitespace is left, the
/// next token is `Eol`, and reading it consumes nothing.
pub open spec fn lex(s: Seq<char>) -> (Result<SpecToken, SpecParseError>, Seq<char>) {
    if trim_start(s).len() == 0 {
        (Ok(SpecToken::Eol), s)
    } else {
        scan_token(s)
    }
}

pub open spec fn expect_rule(s: Seq<char>, expected: SpecToken) -> Result<Seq<char>, SpecParseError> {
    match lex(s) {
        (Ok(t), rest) => if t == expected {
            Ok(rest)
        } else {
            Err(SpecParseError::UnexpectedToken(t, expected))
        },
        (Err(e), _) => Err(e),
    }
}

/// Consumes `expected` if it is the next token.
pub open spec fn eat_rule(s: Seq<char>, expected: SpecToken) -> Result<(bool, Seq<char>), SpecParseError> {
    match lex(s) {
        (Ok(t), rest) => if t == expected {
            Ok((true, rest))
        } else {
            Ok((false, s))
        },
        (Err(e), _) => Err(e),
    }
}

pub open spec fn match_op_of(t: SpecToken) -> Option<MatchOp> {
    match t {
        SpecToken::Eq => Some(MatchOp::Eq),
        SpecToken::Neq => Some(MatchOp::Neq),
        SpecToken::Re => Some(MatchOp::Re),
        SpecToken::Nre => Some(MatchOp::Nre),
        _ => None,
    }
}

/// `name op "value"`.
pub open spec fn matcher_rule(s: Seq<char>) -> Result<(SpecMatcher, Seq<char>), SpecParseError> {
    match lex(s) {
        (Err(e), _) => Err(e),
        (Ok(SpecToken::Identifier(name)), s1) => match lex(s1) {
            (Err(e), _) => Err(e),
            (Ok(t), s2) => match match_op_of(t) {
                None => Err(SpecParseError::UnexpectedToken(t, SpecToken::Eq)),
                Some(op) => match lex(s2) {
                    (Err(e), _) => Err(e),
                    (Ok(SpecToken::String(value)), s3) => Ok((SpecMatcher { name, op, value }, s3)),
                    (Ok(t2), _) => Err(SpecParseError::UnexpectedToken(t2, SpecToken::String("string"@))),
                },
            },
        },
        (Ok(t), _) => Err(SpecParseError::UnexpectedToken(t, SpecToken::Identifier("Identifier"@))),
    }
}

/// `(, matcher)*`, appended to `acc`.
pub open spec fn matcher_list_rule(s: Seq<char>, acc: Seq<SpecMatcher>) -> Result<(Seq<SpecMatcher>, Seq<char>), SpecParseError>
    decreases s.len(),
{
    match eat_rule(s, SpecToken::Comma) {
        Err(e) => Err(e),
        Ok((false, s1)) => Ok((acc, s1)),
        Ok((true, s1)) => match matcher_rule(s1) {
            Err(e) => Err(e),
            Ok((m, s2)) => if s2.len() < s.len() {
                matcher_list_rule(s2, acc.push(m))
            } else {
                // never taken: a comma and a matcher always consume input
                Ok((acc.push(m), s2))
            },
        },
    }
}

/// `{ }` or `{ matcher (, matcher)* }`.
pub open spec fn selector_rule(s: Seq<char>) -> Result<(SpecSelector, Seq<char>), SpecParseError> {
    match expect_rule(s, SpecToken::OpenBrace) {
        Err(e) => Err(e),
        Ok(s1) => match lex(s1).0 {
            Err(e) => Err(e),
            Ok(t) => {
                let listed = if t != SpecToken::CloseBrace {
                    match matcher_rule(s1) {
                        Err(e) => Err(e),
                        Ok((m, s2)) => matcher_list_rule(s2, seq![m]),
                    }
                } else {
                    Ok((Seq::empty(), s1))
                };
                match listed {
                    Err(e) => Err(e),
                    Ok((ms, s3)) => match expect_rule(s3, SpecToken::CloseBrace) {
                        Err(e) => Err(e),
                        Ok(s4) => Ok((SpecSelector { matchers: ms }, s4)),
                    },
                }
            },
        },
    }
}

pub open spec fn line_filter_op_of(t: SpecToken) -> Option<LineFilterOp> {
    match t {
        SpecToken::PipeExact => Some(LineFilterOp::Contains),
        SpecToken::Neq => Some(LineFilterOp::NotContains),
        SpecToken::PipeMatch => Some(LineFilterOp::Re),
        SpecToken::Nre => Some(LineFilterOp::Nre),
        _ => None,
    }
}

/// `|= "v"`, `!= "v"`, `|~ "v"`, `!~ "v"`, or nothing.
pub open spec fn line_filter_rule(s: Seq<char>) -> Result<(Option<SpecLineFilter>, Seq<char>), SpecParseError> {
    match lex(s) {
        (Err(e), _) => Err(e),
        (Ok(t), s1) => match line_filter_op_of(t) {
            None => Ok((None, s)),
            Some(op) => match lex(s1) {
                (Err(e), _) => Err(e),
                (Ok(SpecToken::String(value)), s2) => Ok((Some(SpecLineFilter { op, value }), s2)),
                (Ok(t2), _) => Err(SpecParseError::UnexpectedToken(t2, SpecToken::String("string"@))),
            },
        },
    }
}

/// `| logfmt`, a line filter, or nothing.
pub open spec fn stage_rule(s: Seq<char>) -> Result<(Option<SpecStage>, Seq<char>), SpecParseError> {
    match lex(s) {
        (Err(e), _) => Err(e),
        (Ok(SpecToken::Pipe), s1) => match lex(s1) {
            (Err(e), _) => Err(e),
            (Ok(t), s2) => if t == SpecToken::Identifier("logfmt"@) {
                Ok((Some(SpecStage::Logfmt), s2))
            } else {
                Err(SpecParseError::UnexpectedToken(t, SpecToken::Identifier("identifier"@)))
            },
        },
        (Ok(_), _) => match line_filter_rule(s) {
            Err(e) => Err(e),
            Ok((None, s1)) => Ok((None, s1)),
            Ok((Some(f), s1)) => Ok((Some(SpecStage::Line(f)), s1)),
        },
    }
}

/// `stage*`, appended to `acc`.
pub open spec fn pipeline_rule(s: Seq<char>, acc: Seq<SpecStage>) -> Result<(Seq<SpecStage>, Seq<char>), SpecParseError>
    decreases s.len(),
{
    match stage_rule(s) {
        Err(e) => Err(e),
        Ok((None, s1)) => Ok((acc, s1)),
        Ok((Some(st), s1)) => if s1.len() < s.len() {
            pipeline_rule(s1, acc.push(st))
        } else {
            // never taken: a stage always consumes input
            Ok((acc.push(st), s1))
        },
    }
}

pub open spec fn log_query_rule(s: Seq<char>) -> Result<(SpecLogQuery, Seq<char>), SpecParseError> {
    match selector_rule(s) {
        Err(e) => Err(e),
        Ok((selector, s1)) => match pipeline_rule(s1, Seq::empty()) {
            Err(e) => Err(e),
            Ok((pipeline, s2)) => Ok((SpecLogQuery { selector, pipeline }, s2)),
        },
    }
}

/// A whole query: a log query and then the end of the input.
pub open spec fn parse_query(q: Seq<char>) -> Result<SpecExpr, SpecParseError> {
    match log_query_rule(q) {
        Err(e) => Err(e),
        Ok((lq, s1)) => match expect_rule(s1, SpecToken::Eol) {
            Err(e) => Err(e),
            Ok(_) => Ok(SpecExpr::Log(lq)),
        },
    }
}

// ---------------------------------------------------------------------------

/// Reading a token never grows the input, and any token but `Eol` consumes some.
pub proof fn lemma_lex_len(s: Seq<char>)
    ensures
        lex(s).1.len() <= s.len(),
        (lex(s).0 matches Ok(t) && t != SpecToken::Eol) ==> lex(s).1.len() < s.len(),
{
    lemma_scan_token_len(s);
    lemma_trim_start(s);
}

pub proof fn lemma_matcher_len(s: Seq<char>)
    ensures
        matcher_rule(s) matches Ok((_, s3)) ==> s3.len() < s.len(),
{
    lemma_lex_len(s);
    lemma_lex_len(lex(s).1);
    lemma_lex_len(lex(lex(s).1).1);
}

pub proof fn lemma_stage_len(s: Seq<char>)
    ensures
        stage_rule(s) matches Ok((st, s1)) ==> s1.len() <= s.len() && (st is Some ==> s1.len() < s.len()),
{
    lemma_lex_len(s);
    lemma_lex_len(lex(s).1);
}

/// Whitespace in front of a query changes nothing: the query parses, or
/// fails, exactly as it does without it.
pub proof fn lemma_parse_skips_leading_whitespace(ws: Seq<char>, q: Seq<char>)
    requires
        all_whitespace(ws),
    ensures
        parse_query(ws + q) == parse_query(q),
{
    lemma_trim_start_prefix(ws, q);
    assert(expect_rule(ws + q, SpecToken::OpenBrace) == expect_rule(q, SpecToken::OpenBrace));
    assert(selector_rule(ws + q) == selector_rule(q));
}

/// `r` with `w` added to what is left after it.
pub open spec fn extended<X>(r: Result<(X, Seq<char>), SpecParseError>, w: Seq<char>) -> Result<(X, Seq<char>), SpecParseError> {
    match r {
        Ok((x, rest)) => Ok((x, rest + w)),
        Err(e) => Err(e),
    }
}

proof fn lemma_lex_suffix(s: Seq<char>, w: Seq<char>)
    requires
        all_whitespace(w),
    ensures
        lex(s + w).0 == lex(s).0,
        lex(s).0 is Ok ==> lex(s + w).1 == lex(s).1 + w,
{
    lemma_trim_start_suffix(s, w);
    if trim_start(s).len() > 0 {
        lemma_scan_token_suffix(s, w);
    }
}

proof fn lemma_expect_suffix(s: Seq<char>, e: SpecToken, w: Seq<char>)
    requires
        all_whitespace(w),
    ensures
        expect_rule(s + w, e) == match expect_rule(s, e) {
            Ok(r) => Ok(r + w),
            Err(x) => Err(x),
        },
{
    lemma_lex_suffix(s, w);
}

proof fn lemma_eat_suffix(s: Seq<char>, e: SpecToken, w: Seq<char>)
    requires
        all_whitespace(w),
    ensures
        eat_rule(s + w, e) == extended(eat_rule(s, e), w),
{
    lemma_lex_suffix(s, w);
}

proof fn lemma_matcher_suffix(s: Seq<char>, w: Seq<char>)
    requires
        all_whitespace(w),
    ensures
        matcher_rule(s + w) == extended(matcher_rule(s), w),
{
    lemma_lex_suffix(s, w);
    lemma_lex_suffix(lex(s).1, w);
    lemma_lex_suffix(lex(lex(s).1).1, w);
}

proof fn lemma_matcher_list_suffix(s: Seq<char>, acc: Seq<SpecMatcher>, w: Seq<char>)
    requires
        all_whitespace(w),
    ensures
        matcher_list_rule(s + w, acc) == extended(matcher_list_rule(s, acc), w),
    decreases s.len(),
{
    lemma_eat_suffix(s, SpecToken::Comma, w);
    if let Ok((true, s1)) = eat_rule(s, SpecToken::Comma) {
        lemma_matcher_suffix(s1, w);
        if let Ok((m, s2)) = matcher_rule(s1) {
            if s2.len() < s.len() {
                lemma_matcher_list_suffix(s2, acc.push(m), w);
            }
        }
    }
}

proof fn lemma_selector_suffix(s: Seq<char>, w: Seq<char>)
    requires
        all_whitespace(w),
    ensures
        selector_rule(s + w) == extended(selector_rule(s), w),
{
    lemma_expect_suffix(s, SpecToken::OpenBrace, w);
    if let Ok(s1) = expect_rule(s, SpecToken::OpenBrace) {
        lemma_lex_suffix(s1, w);
        lemma_matcher_suffix(s1, w);
        if let Ok((m, s2)) = matcher_rule(s1) {
            lemma_matcher_list_suffix(s2, seq![m], w);
        }
        let listed = if lex(s1).0 != Ok::<SpecToken, SpecParseError>(SpecToken::CloseBrace) {
            match matcher_rule(s1) {
                Err(e) => Err(e),
                Ok((m, s2)) => matcher_list_rule(s2, seq![m]),
            }
        } else {
            Ok((Seq::empty(), s1))
        };
        if let Ok((ms, s3)) = listed {
            lemma_expect_suffix(s3, SpecToken::CloseBrace, w);
        }
    }
}

proof fn lemma_line_filter_suffix(s: Seq<char>, w: Seq<char>)
    requires
        all_whitespace(w),
    ensures
        line_filter_rule(s + w) == extended(line_filter_rule(s), w),
{
    lemma_lex_suffix(s, w);
    lemma_lex_suffix(lex(s).1, w);
}

proof fn lemma_stage_suffix(s: Seq<char>, w: Seq<char>)
    requires
        all_whitespace(w),
    ensures
        stage_rule(s + w) == extended(stage_rule(s), w),
{
    lemma_lex_suffix(s, w);
    lemma_lex_suffix(lex(s).1, w);
    lemma_line_filter_suffix(s, w);
}

proof fn lemma_pipeline_suffix(s: Seq<char>, acc: Seq<SpecStage>, w: Seq<char>)
    requires
        all_whitespace(w),
    ensures
        pipeline_rule(s + w, acc) == extended(pipeline_rule(s, acc), w),
    decreases s.len(),
{
    lemma_stage_suffix(s, w);
    if let Ok((Some(st), s1)) = stage_rule(s) {
        if s1.len() < s.len() {
            lemma_pipeline_suffix(s1, acc.push(st), w);
        }
    }
}

/// Whitespace after a query changes nothing: the query parses, or fails,
/// exactly as it does without it.
pub proof fn lemma_parse_skips_trailing_whitespace(q: Seq<char>, w: Seq<char>)
    requires
        all_whitespace(w),
    ensures
        parse_query(q + w) == parse_query(q),
{
    lemma_selector_suffix(q, w);
    if let Ok((sel, s1)) = selector_rule(q) {
        lemma_pipeline_suffix(s1, Seq::empty(), w);
        if let Ok((pl, s2)) = pipeline_rule(s1, Seq::empty()) {
            lemma_expect_suffix(s2, SpecToken::Eol, w);
        }
    }
}

/// Whitespace around a query changes nothing.
pub proof fn lemma_parse_ignores_surrounding_whitespace(before: Seq<char>, q: Seq<char>, after: Seq<char>)
    requires
        all_whitespace(before),
        all_whitespace(after),
    ensures
        parse_query(before + q + after) == parse_query(q),
{
    lemma_parse_skips_leading_whitespace(before, q + after);
    lemma_parse_skips_trailing_whitespace(q, after);
    assert(before + q + after =~= before + (q + after));
}

// ---------------------------------------------------------------------------
// Text that cannot continue the last token read leaves a successful parse of
// what comes before it as it was.

proof fn lemma_lex_extend(s: Seq<char>, x: Seq<char>)
    requires
        separated(x),
        lex(s).0 matches Ok(t) && t != SpecToken::Eol,
    ensures
        lex(s + x) == (lex(s).0, lex(s).1 + x),
{
    if trim_start(s).len() == 0 {
        assert(false);
    }
    lemma_trim_start_extend(s, x);
    lemma_scan_token_extend(s, x);
}

/// Nothing the scanner reads is `Eol`.
proof fn lemma_scan_not_eol(s: Seq<char>)
    ensures
        scan_token(s).0 != Ok::<SpecToken, SpecParseError>(SpecToken::Eol),
{
    lemma_scanned_token_is_plain(s);
}

proof fn lemma_lex_eol(s: Seq<char>)
    ensures
        lex(s).0 == Ok::<SpecToken, SpecParseError>(SpecToken::Eol) <==> trim_start(s).len() == 0,
{
    lemma_scan_not_eol(s);
}

proof fn lemma_matcher_extend(s: Seq<char>, x: Seq<char>)
    requires
        separated(x),
        matcher_rule(s) is Ok,
    ensures
        matcher_rule(s + x) == extended(matcher_rule(s), x),
{
    lemma_lex_extend(s, x);
    lemma_lex_extend(lex(s).1, x);
    lemma_lex_extend(lex(lex(s).1).1, x);
}

proof fn lemma_matcher_list_extend(s: Seq<char>, acc: Seq<SpecMatcher>, x: Seq<char>)
    requires
        separated(x),
        matcher_list_rule(s, acc) matches Ok((_, r)) && (lex(r).0 matches Ok(t) && t
            != SpecToken::Eol),
    ensures
        matcher_list_rule(s + x, acc) == extended(matcher_list_rule(s, acc), x),
    decreases s.len(),
{
    if lex(s).0 == Ok::<SpecToken, SpecParseError>(SpecToken::Eol) {
        assert(eat_rule(s, SpecToken::Comma) == Ok::<(bool, Seq<char>), SpecParseError>((false, s)));
        assert(false);
    }
    lemma_lex_extend(s, x);
    if let Ok((true, s1)) = eat_rule(s, SpecToken::Comma) {
        lemma_matcher_extend(s1, x);
        let (m, s2) = matcher_rule(s1)->Ok_0;
        if s2.len() < s.len() {
            lemma_matcher_list_extend(s2, acc.push(m), x);
        }
    }
}

proof fn lemma_selector_extend(s: Seq<char>, x: Seq<char>)
    requires
        separated(x),
        selector_rule(s) is Ok,
    ensures
        selector_rule(s + x) == extended(selector_rule(s), x),
{
    lemma_lex_extend(s, x);
    let s1 = expect_rule(s, SpecToken::OpenBrace)->Ok_0;
    if lex(s1).0 == Ok::<SpecToken, SpecParseError>(SpecToken::Eol) {
        assert(false);
    }
    lemma_lex_extend(s1, x);
    let t = lex(s1).0->Ok_0;
    let listed = if t != SpecToken::CloseBrace {
        match matcher_rule(s1) {
            Err(e) => Err(e),
            Ok((m, s2)) => matcher_list_rule(s2, seq![m]),
        }
    } else {
        Ok((Seq::empty(), s1))
    };
    let (ms, s3) = listed->Ok_0;
    assert(lex(s3).0 == Ok::<SpecToken, SpecParseError>(SpecToken::CloseBrace));
    if t != SpecToken::CloseBrace {
        lemma_matcher_extend(s1, x);
        let (m, s2) = matcher_rule(s1)->Ok_0;
        lemma_matcher_list_extend(s2, seq![m], x);
    }
    lemma_lex_extend(s3, x);
}

proof fn lemma_stage_extend(s: Seq<char>, x: Seq<char>)
    requires
        separated(x),
        stage_rule(s) matches Ok((st, _)) && st is Some,
    ensures
        stage_rule(s + x) == extended(stage_rule(s), x),
{
    lemma_lex_eol(s);
    lemma_lex_extend(s, x);
    lemma_lex_extend(lex(s).1, x);
}

proof fn lemma_pipeline_extend(s: Seq<char>, acc: Seq<SpecStage>, x: Seq<char>)
    requires
        separated(x),
        pipeline_rule(s, acc) matches Ok((_, r)) && trim_start(r).len() == 0,
    ensures
        pipeline_rule(s + x, acc) == ({
            let (ps, r) = pipeline_rule(s, acc)->Ok_0;
            pipeline_rule(r + x, ps)
        }),
    decreases s.len(),
{
    lemma_stage_len(s);
    if let Ok((Some(st), s1)) = stage_rule(s) {
        lemma_stage_extend(s, x);
        lemma_pipeline_extend(s1, acc.push(st), x);
    }
}

// ---------------------------------------------------------------------------
// Whitespace put between two tokens: `x` is what is left of the input with
// the whitespace `w` put in front of `b`, `y` what is left without it.

pub open spec fn related(x: Seq<char>, y: Seq<char>, w: Seq<char>, b: Seq<char>) -> bool {
    x == y || (y.len() >= b.len() && y.skip(y.len() - b.len()) == b && x == y.take(
        y.len() - b.len(),
    ) + w + b && reaches(y, b))
}

/// The two parses agree: the same error, or the same result with related
/// inputs left.
pub open spec fn agree<X>(rx: Result<(X, Seq<char>), SpecParseError>, ry: Result<(X, Seq<char>), SpecParseError>, w: Seq<char>, b: Seq<char>) -> bool {
    match ry {
        Err(e) => rx == Err::<(X, Seq<char>), SpecParseError>(e),
        Ok((v, r)) => rx matches Ok((v2, r2)) && v2 == v && related(r2, r, w, b),
    }
}

proof fn lemma_lex_related(x: Seq<char>, y: Seq<char>, w: Seq<char>, b: Seq<char>)
    requires
        all_whitespace(w),
        related(x, y, w, b),
    ensures
        lex(x).0 == lex(y).0,
        related(lex(x).1, lex(y).1, w, b),
{
    if x != y {
        let k = y.len() - b.len();
        let a = y.take(k);
        assert(y =~= a + b);
        if w.len() == 0 {
            assert(x =~= y);
        } else if k == 0 {
            assert(y =~= b);
            assert(x =~= w + b);
            lemma_trim_start_prefix(w, b);
            lemma_scan_skips_whitespace(w, b);
            if trim_start(b).len() == 0 {
                assert(b.skip(0) =~= b);
                assert(b.take(0) + w + b =~= w + b);
            }
        } else {
            assert(y != b);
            let r = scan_token(y).1;
            lemma_reaches_suffix(r, b);
            lemma_scan_token_boundary(a, w, b);
            assert(a + w + b =~= x);
            lemma_scan_token_len(y);
            lemma_scan_token_truncate(a, b);
            assert(trim_start(a).len() > 0);
            lemma_trim_start_extend(a, w + b);
            assert(trim_start(x).len() > 0) by {
                assert(a + (w + b) =~= x);
            }
            assert(r.take(r.len() - b.len()) + w + b == lex(x).1);
        }
    }
}

proof fn lemma_expect_related(x: Seq<char>, y: Seq<char>, e: SpecToken, w: Seq<char>, b: Seq<char>)
    requires
        all_whitespace(w),
        related(x, y, w, b),
    ensures
        match expect_rule(y, e) {
            Err(er) => expect_rule(x, e) == Err::<Seq<char>, SpecParseError>(er),
            Ok(ry) => expect_rule(x, e) matches Ok(rx) && related(rx, ry, w, b),
        },
{
    lemma_lex_related(x, y, w, b);
}

proof fn lemma_eat_related(x: Seq<char>, y: Seq<char>, e: SpecToken, w: Seq<char>, b: Seq<char>)
    requires
        all_whitespace(w),
        related(x, y, w, b),
    ensures
        agree(eat_rule(x, e), eat_rule(y, e), w, b),
{
    lemma_lex_related(x, y, w, b);
}

proof fn lemma_matcher_related(x: Seq<char>, y: Seq<char>, w: Seq<char>, b: Seq<char>)
    requires
        all_whitespace(w),
        related(x, y, w, b),
    ensures
        agree(matcher_rule(x), matcher_rule(y), w, b),
{
    lemma_lex_related(x, y, w, b);
    lemma_lex_related(lex(x).1, lex(y).1, w, b);
    lemma_lex_related(lex(lex(x).1).1, lex(lex(y).1).1, w, b);
}

proof fn lemma_matcher_list_related(x: Seq<char>, y: Seq<char>, acc: Seq<SpecMatcher>, w: Seq<char>, b: Seq<char>)
    requires
        all_whitespace(w),
        related(x, y, w, b),
    ensures
        agree(matcher_list_rule(x, acc), matcher_list_rule(y, acc), w, b),
    decreases y.len(),
{
    lemma_eat_related(x, y, SpecToken::Comma, w, b);
    lemma_lex_len(x);
    lemma_lex_len(y);
    if let Ok((true, y1)) = eat_rule(y, SpecToken::Comma) {
        let x1 = eat_rule(x, SpecToken::Comma)->Ok_0.1;
        lemma_matcher_related(x1, y1, w, b);
        lemma_matcher_len(x1);
        lemma_matcher_len(y1);
        if let Ok((m, y2)) = matcher_rule(y1) {
            let x2 = matcher_rule(x1)->Ok_0.1;
            lemma_matcher_list_related(x2, y2, acc.push(m), w, b);
        }
    }
}

proof fn lemma_selector_related(x: Seq<char>, y: Seq<char>, w: Seq<char>, b: Seq<char>)
    requires
        all_whitespace(w),
        related(x, y, w, b),
    ensures
        agree(selector_rule(x), selector_rule(y), w, b),
{
    lemma_expect_related(x, y, SpecToken::OpenBrace, w, b);
    if let Ok(y1) = expect_rule(y, SpecToken::OpenBrace) {
        let x1 = expect_rule(x, SpecToken::OpenBrace)->Ok_0;
        lemma_lex_related(x1, y1, w, b);
        lemma_matcher_related(x1, y1, w, b);
        if let Ok((m, y2)) = matcher_rule(y1) {
            let x2 = matcher_rule(x1)->Ok_0.1;
            lemma_matcher_list_related(x2, y2, seq![m], w, b);
        }
        if let Ok(t) = lex(y1).0 {
            let listed_y = if t != SpecToken::CloseBrace {
                match matcher_rule(y1) {
                    Err(e) => Err(e),
                    Ok((m, s2)) => matcher_list_rule(s2, seq![m]),
                }
            } else {
                Ok((Seq::empty(), y1))
            };
            let listed_x = if t != SpecToken::CloseBrace {
                match matcher_rule(x1) {
                    Err(e) => Err(e),
                    Ok((m, s2)) => matcher_list_rule(s2, seq![m]),
                }
            } else {
                Ok((Seq::empty(), x1))
            };
            assert(agree(listed_x, listed_y, w, b));
            if let Ok((ms, y3)) = listed_y {
                let x3 = listed_x->Ok_0.1;
                lemma_expect_related(x3, y3, SpecToken::CloseBrace, w, b);
            }
        }
    }
}

proof fn lemma_stage_related(x: Seq<char>, y: Seq<char>, w: Seq<char>, b: Seq<char>)
    requires
        all_whitespace(w),
        related(x, y, w, b),
    ensures
        agree(stage_rule(x), stage_rule(y), w, b),
{
    lemma_lex_related(x, y, w, b);
    lemma_lex_related(lex(x).1, lex(y).1, w, b);
}

proof fn lemma_pipeline_related(x: Seq<char>, y: Seq<char>, acc: Seq<SpecStage>, w: Seq<char>, b: Seq<char>)
    requires
        all_whitespace(w),
        related(x, y, w, b),
    ensures
        agree(pipeline_rule(x, acc), pipeline_rule(y, acc), w, b),
    decreases y.len(),
{
    lemma_stage_related(x, y, w, b);
    lemma_stage_len(x);
    lemma_stage_len(y);
    if let Ok((Some(st), y1)) = stage_rule(y) {
        let x1 = stage_rule(x)->Ok_0.1;
        lemma_pipeline_related(x1, y1, acc.push(st), w, b);
    }
}

/// Whitespace put between two tokens of a query, or in front of its first,
/// changes nothing: the query parses, or fails, exactly as it does without
/// it. `reaches(a + b, b)` says the cut between `a` and `b` falls right after
/// a token (or before the first), not inside one.
pub proof fn lemma_parse_ignores_whitespace_between_tokens(a: Seq<char>, w: Seq<char>, b: Seq<char>)
    requires
        all_whitespace(w),
        reaches(a + b, b),
    ensures
        parse_query(a + w + b) == parse_query(a + b),
{
    let y = a + b;
    let x = a + w + b;
    assert(y.skip(y.len() - b.len()) =~= b);
    assert(y.take(y.len() - b.len()) =~= a);
    assert(related(x, y, w, b));
    lemma_selector_related(x, y, w, b);
    if let Ok((sel, y1)) = selector_rule(y) {
        let x1 = selector_rule(x)->Ok_0.1;
        lemma_pipeline_related(x1, y1, Seq::empty(), w, b);
        if let Ok((pl, y2)) = pipeline_rule(y1, Seq::empty()) {
            let x2 = pipeline_rule(x1, Seq::empty())->Ok_0.1;
            lemma_expect_related(x2, y2, SpecToken::Eol, w, b);
        }
    }
}

/// The parts with the gaps put between them:
/// `parts[0] + gaps[0] + parts[1] + gaps[1] + ... + parts.last()`.
pub open spec fn interleave(parts: Seq<Seq<char>>, gaps: Seq<Seq<char>>) -> Seq<char>
    decreases gaps.len(),
{
    if gaps.len() == 0 || parts.len() == 0 {
        parts.flatten()
    } else {
        parts[0] + gaps[0] + interleave(parts.drop_first(), gaps.drop_first())
    }
}

proof fn lemma_flatten_skip(parts: Seq<Seq<char>>, i: int, j: int)
    requires
        0 <= i <= j <= parts.len(),
    ensures
        parts.skip(j).flatten().len() <= parts.skip(i).flatten().len(),
        i < parts.len() ==> parts.skip(i).flatten() == parts[i] + parts.skip(i + 1).flatten(),
    decreases j - i,
{
    if i < parts.len() {
        assert(parts.skip(i).drop_first() =~= parts.skip(i + 1));
        assert(parts.skip(i).first() == parts[i]);
        if i < j {
            lemma_flatten_skip(parts, i + 1, j);
        }
    }
}

proof fn lemma_whitespace_at_boundaries_after(pre: Seq<char>, parts: Seq<Seq<char>>, gaps: Seq<Seq<char>>)
    requires
        parts.len() == gaps.len() + 1,
        forall|i: int| 0 <= i < gaps.len() ==> all_whitespace(#[trigger] gaps[i]),
        forall|i: int|
            0 < i < parts.len() ==> reaches(pre + parts.flatten(), #[trigger] parts.skip(i).flatten()),
    ensures
        parse_query(pre + interleave(parts, gaps)) == parse_query(pre + parts.flatten()),
    decreases gaps.len(),
{
    if gaps.len() == 0 {
        return;
    }
    let p = parts[0];
    let g = gaps[0];
    let tail = parts.drop_first();
    let gtail = gaps.drop_first();
    let f = tail.flatten();
    lemma_flatten_skip(parts, 0, 1);
    if gaps.len() >= 2 && parts[1].len() == 0 {
        // Two gaps at the same cut: one gap made of both.
        let g2 = g + gaps[1];
        let mparts = seq![p] + parts.skip(2);
        let mgaps = seq![g2] + gaps.skip(2);
        assert(all_whitespace(g2)) by {
            assert forall|i: int| 0 <= i < g2.len() implies is_whitespace_spec(#[trigger] g2[i]) by {
                if i < g.len() {
                    assert(g2[i] == g[i]);
                } else {
                    assert(g2[i] == gaps[1][i - g.len()]);
                }
            }
        }
        assert forall|i: int| 0 <= i < mgaps.len() implies all_whitespace(#[trigger] mgaps[i]) by {
            if i > 0 {
                assert(mgaps[i] == gaps[i + 1]);
            }
        }
        lemma_flatten_skip(parts, 1, 2);
        lemma_flatten_skip(mparts, 0, 1);
        assert(mparts.skip(0) =~= mparts);
        assert(mparts.skip(1) =~= parts.skip(2));
        assert(parts[1] + parts.skip(2).flatten() =~= parts.skip(2).flatten());
        assert(mparts.flatten() == parts.flatten());
        assert forall|i: int| 0 < i < mparts.len() implies reaches(pre + mparts.flatten(), #[trigger] mparts.skip(i).flatten()) by {
            assert(mparts.skip(i) =~= parts.skip(i + 1));
        }
        lemma_whitespace_at_boundaries_after(pre, mparts, mgaps);
        assert(tail.drop_first() =~= parts.skip(2));
        assert(gtail.drop_first() =~= gaps.skip(2));
        assert(mparts.drop_first() =~= parts.skip(2));
        assert(mgaps.drop_first() =~= gaps.skip(2));
        let rest = interleave(parts.skip(2), gaps.skip(2));
        assert(interleave(tail, gtail) == tail[0] + gtail[0] + rest);
        assert(tail[0] + gtail[0] + rest =~= gaps[1] + rest);
        assert(interleave(parts, gaps) == p + g + interleave(tail, gtail));
        assert(mparts[0] == p && mgaps[0] == g2);
        assert(interleave(mparts, mgaps) == p + g2 + rest);
        assert(p + g + (gaps[1] + rest) =~= p + g2 + rest);
        assert(pre + interleave(parts, gaps) =~= pre + interleave(mparts, mgaps));
        return;
    }
    assert(parts.skip(0) =~= parts);
    assert(parts.skip(1) =~= tail);
    let pre2 = pre + p + g;
    assert(pre + parts.flatten() =~= (pre + p) + f);
    assert(reaches((pre + p) + f, f));
    assert forall|j: int| 0 < j < tail.len() implies reaches(pre2 + tail.flatten(), #[trigger] tail.skip(j).flatten()) by {
        let c = tail.skip(j).flatten();
        assert(tail.skip(j) =~= parts.skip(j + 1));
        assert(reaches((pre + p) + f, c));
        lemma_flatten_skip(tail, 0, 1);
        lemma_flatten_skip(tail, 1, j);
        assert(tail.skip(0) =~= tail);
        assert(tail[0] == parts[1]);
        assert(c.len() < f.len());
        lemma_reaches_between((pre + p) + f, f, c);
        lemma_reaches_spaced(pre + p, g, f);
        lemma_reaches_past_whitespace(g, f, c);
        assert(pre + p + g + f =~= pre2 + tail.flatten());
        lemma_reaches_trans(pre2 + tail.flatten(), g + f, c);
    }
    assert forall|i: int| 0 <= i < gtail.len() implies all_whitespace(#[trigger] gtail[i]) by {
        assert(gtail[i] == gaps[i + 1]);
    }
    lemma_whitespace_at_boundaries_after(pre2, tail, gtail);
    lemma_parse_ignores_whitespace_between_tokens(pre + p, g, f);
    assert(pre + interleave(parts, gaps) =~= pre2 + interleave(tail, gtail));
}

/// Whitespace put at any number of token boundaries of a query changes
/// nothing: the query is cut into `parts`, each cut right after a token (or
/// in front of the first), the whitespace `gaps[i]` goes between `parts[i]`
/// and `parts[i + 1]`, and the query parses, or fails, exactly as it does
/// without it.
pub proof fn lemma_parse_ignores_whitespace_at_token_boundaries(parts: Seq<Seq<char>>, gaps: Seq<Seq<char>>)
    requires
        parts.len() == gaps.len() + 1,
        forall|i: int| 0 <= i < gaps.len() ==> all_whitespace(#[trigger] gaps[i]),
        forall|i: int| 0 < i < parts.len() ==> reaches(parts.flatten(), #[trigger] parts.skip(i).flatten()),
    ensures
        parse_query(interleave(parts, gaps)) == parse_query(parts.flatten()),
{
    let pre = Seq::<char>::empty();
    assert(pre + parts.flatten() =~= parts.flatten());
    assert(pre + interleave(parts, gaps) =~= interleave(parts, gaps));
    lemma_whitespace_at_boundaries_after(pre, parts, gaps);
}

/// How a line filter with operator `op` is written.
pub open spec fn line_filter_text(op: LineFilterOp) -> Seq<char> {
    match op {
        LineFilterOp::Contains => seq!['|', '='],
        LineFilterOp::NotContains => seq!['!', '='],
        LineFilterOp::Re => seq!['|', '~'],
        LineFilterOp::Nre => seq!['!', '~'],
    }
}

/// ` op "v"`: a line filter written after a query.
pub open spec fn line_filter_source(op: LineFilterOp, v: Seq<char>) -> Seq<char> {
    seq![' '] + line_filter_text(op) + seq![' ', '"'] + v + seq!['"']
}

/// A string body that needs no escapes.
pub open spec fn is_plain_string(v: Seq<char>) -> bool {
    forall|i: int| 0 <= i < v.len() ==> #[trigger] v[i] != '"' && v[i] != '\\'
}

proof fn lemma_scan_plain_string(v: Seq<char>, acc: Seq<char>)
    requires
        is_plain_string(v),
    ensures
        scan_string(v + seq!['"'], acc) == (
        Ok::<SpecToken, SpecParseError>(SpecToken::String(acc + v)),
        Seq::<char>::empty(),
        ),
    decreases v.len(),
{
    if v.len() == 0 {
        assert(v + seq!['"'] =~= seq!['"']);
        assert(acc + v =~= acc);
        assert(seq!['"'].drop_first() =~= Seq::<char>::empty());
    } else {
        assert((v + seq!['"'])[0] == v[0]);
        assert((v + seq!['"']).drop_first() =~= v.drop_first() + seq!['"']);
        assert forall|i: int| 0 <= i < v.drop_first().len() implies #[trigger] v.drop_first()[i] != '"'
            && v.drop_first()[i] != '\\' by {
            assert(v.drop_first()[i] == v[i + 1]);
        }
        lemma_scan_plain_string(v.drop_first(), acc.push(v[0]));
        assert(acc.push(v[0]) + v.drop_first() =~= acc + v);
    }
}

/// How a matcher operator is written.
pub open spec fn match_op_text(op: MatchOp) -> Seq<char> {
    match op {
        MatchOp::Eq => seq!['='],
        MatchOp::Neq => seq!['!', '='],
        MatchOp::Re => seq!['=', '~'],
        MatchOp::Nre => seq!['!', '~'],
    }
}

/// `name op "value"`, written out.
pub open spec fn matcher_source(m: SpecMatcher) -> Seq<char> {
    m.name + match_op_text(m.op) + seq!['"'] + m.value + seq!['"']
}

/// `, m` for each matcher `m`, in order.
pub open spec fn matcher_list_source(ms: Seq<SpecMatcher>) -> Seq<char>
    decreases ms.len(),
{
    if ms.len() == 0 {
        Seq::empty()
    } else {
        seq![',', ' '] + matcher_source(ms[0]) + matcher_list_source(ms.drop_first())
    }
}

/// `{m1, m2, ...}`: the matchers written out, in order, in braces.
pub open spec fn selector_source(ms: Seq<SpecMatcher>) -> Seq<char> {
    if ms.len() == 0 {
        seq!['{', '}']
    } else {
        seq!['{'] + matcher_source(ms[0]) + matcher_list_source(ms.drop_first()) + seq!['}']
    }
}

/// A matcher that can be written: its name is a label name, and its value
/// holds no quote and no backslash.
pub open spec fn is_writable_matcher(m: SpecMatcher) -> bool {
    is_label_name(m.name) && is_plain_string(m.value)
}

proof fn lemma_scan_plain_string_then(v: Seq<char>, rest: Seq<char>, acc: Seq<char>)
    requires
        is_plain_string(v),
    ensures
        scan_string(v + seq!['"'] + rest, acc) == (
        Ok::<SpecToken, SpecParseError>(SpecToken::String(acc + v)),
        rest,
        ),
    decreases v.len(),
{
    let s = v + seq!['"'] + rest;
    if v.len() == 0 {
        assert(s =~= seq!['"'] + rest);
        assert(acc + v =~= acc);
        assert(s.drop_first() =~= rest);
    } else {
        assert(s[0] == v[0]);
        assert(s.drop_first() =~= v.drop_first() + seq!['"'] + rest);
        assert forall|i: int| 0 <= i < v.drop_first().len() implies #[trigger] v.drop_first()[i] != '"'
            && v.drop_first()[i] != '\\' by {
            assert(v.drop_first()[i] == v[i + 1]);
        }
        lemma_scan_plain_string_then(v.drop_first(), rest, acc.push(v[0]));
        assert(acc.push(v[0]) + v.drop_first() =~= acc + v);
    }
}

/// A written matcher reads back as that matcher, whatever follows it.
proof fn lemma_matcher_source_reads(m: SpecMatcher, rest: Seq<char>)
    requires
        is_writable_matcher(m),
    ensures
        matcher_rule(matcher_source(m) + rest) == Ok::<(SpecMatcher, Seq<char>), SpecParseError>((m, rest)),
{
    let ot = match_op_text(m.op);
    let y = seq!['"'] + (m.value + seq!['"'] + rest);
    let x = ot + y;
    let s = matcher_source(m) + rest;
    assert(s =~= m.name + x);
    assert(x[0] == ot[0]);
    lemma_label_name_scans_whole(m.name, x);
    assert(s[0] == m.name[0]);
    assert(trim_start(s) == s);
    assert(lex(s) == (Ok::<SpecToken, SpecParseError>(SpecToken::Identifier(m.name)), x));
    assert(trim_start(x) == x);
    assert(x.drop_first() =~= ot.drop_first() + y);
    if ot.len() == 2 {
        assert(x[1] == ot[1]);
        assert(x.drop_first().drop_first() =~= y);
    } else {
        assert(x.drop_first() =~= y);
        assert(x[1] == y[0]);
    }
    assert(lex(x).1 == y);
    assert(match_op_of(lex(x).0->Ok_0) == Some(m.op));
    assert(y[0] == '"');
    assert(trim_start(y) == y);
    assert(y.drop_first() =~= m.value + seq!['"'] + rest);
    lemma_scan_plain_string_then(m.value, rest, Seq::empty());
    assert(Seq::<char>::empty() + m.value =~= m.value);
    assert(lex(y) == (Ok::<SpecToken, SpecParseError>(SpecToken::String(m.value)), rest));
}

proof fn lemma_matcher_list_source_reads(ms: Seq<SpecMatcher>, acc: Seq<SpecMatcher>)
    requires
        forall|i: int| 0 <= i < ms.len() ==> is_writable_matcher(#[trigger] ms[i]),
    ensures
        matcher_list_rule(matcher_list_source(ms) + seq!['}'], acc) == Ok::<(Seq<SpecMatcher>, Seq<char>), SpecParseError>((acc + ms, seq!['}'])),
    decreases ms.len(),
{
    let close = seq!['}'];
    if ms.len() == 0 {
        assert(matcher_list_source(ms) + close =~= close);
        assert(trim_start(close) == close);
        assert(close.drop_first() =~= Seq::<char>::empty());
        assert(acc + ms =~= acc);
    } else {
        let m = ms[0];
        let tail = ms.drop_first();
        let more = matcher_list_source(tail) + close;
        let z = matcher_source(m) + more;
        let s = matcher_list_source(ms) + close;
        assert(s =~= seq![','] + (seq![' '] + z));
        assert(trim_start(s) == s);
        assert(s.drop_first() =~= seq![' '] + z);
        assert(lex(s) == (Ok::<SpecToken, SpecParseError>(SpecToken::Comma), seq![' '] + z));
        let s1 = seq![' '] + z;
        assert(all_whitespace(seq![' ']));
        lemma_scan_skips_whitespace(seq![' '], z);
        assert(s1[0] == ' ');
        assert(z[0] == m.name[0]);
        assert(trim_start(z) == z);
        assert(s1.drop_first() =~= z);
        assert(crate::text::is_whitespace_spec(s1[0]));
        assert(trim_start(s1) == z);
        assert(lex(s1) == lex(z));
        assert(matcher_rule(s1) == matcher_rule(z));
        lemma_matcher_source_reads(m, more);
        assert forall|i: int| 0 <= i < tail.len() implies is_writable_matcher(#[trigger] tail[i]) by {
            assert(tail[i] == ms[i + 1]);
        }
        lemma_matcher_list_source_reads(tail, acc.push(m));
        assert(acc.push(m) + tail =~= acc + ms);
    }
}

/// A selector holds one matcher for each matcher written in it, in the order
/// written, for any number of matchers: `{m1, m2, ...}` parses to exactly
/// those matchers and an empty pipeline.
pub proof fn lemma_selector_holds_every_matcher(ms: Seq<SpecMatcher>)
    requires
        forall|i: int| 0 <= i < ms.len() ==> is_writable_matcher(#[trigger] ms[i]),
    ensures
        parse_query(selector_source(ms)) == Ok::<SpecExpr, SpecParseError>(
            SpecExpr::Log(SpecLogQuery { selector: SpecSelector { matchers: ms }, pipeline: Seq::empty() }),
        ),
{
    let q = selector_source(ms);
    let close = seq!['}'];
    let e = Seq::<char>::empty();
    assert(q[0] == '{');
    assert(trim_start(q) == q);
    let s1 = q.drop_first();
    assert(expect_rule(q, SpecToken::OpenBrace) == Ok::<Seq<char>, SpecParseError>(s1));
    assert(trim_start(close) == close);
    assert(close.drop_first() =~= e);
    assert(expect_rule(close, SpecToken::CloseBrace) == Ok::<Seq<char>, SpecParseError>(e));
    if ms.len() == 0 {
        assert(s1 =~= close);
        assert(lex(s1).0 == Ok::<SpecToken, SpecParseError>(SpecToken::CloseBrace));
        assert(ms =~= Seq::<SpecMatcher>::empty());
        assert(selector_rule(q) == Ok::<(SpecSelector, Seq<char>), SpecParseError>((SpecSelector { matchers: ms }, e)));
    } else {
        let m = ms[0];
        let more = matcher_list_source(ms.drop_first()) + close;
        assert(s1 =~= matcher_source(m) + more);
        lemma_matcher_source_reads(m, more);
        assert(s1[0] == m.name[0]);
        assert(trim_start(s1) == s1);
        lemma_label_name_scans_whole(m.name, match_op_text(m.op) + seq!['"'] + m.value + seq!['"'] + more);
        assert(matcher_source(m) + more =~= m.name + (match_op_text(m.op) + seq!['"'] + m.value + seq!['"'] + more));
        assert(match_op_text(m.op)[0] == (match_op_text(m.op) + seq!['"'] + m.value + seq!['"'] + more)[0]);
        assert(lex(s1).0 == Ok::<SpecToken, SpecParseError>(SpecToken::Identifier(m.name)));
        assert forall|i: int| 0 <= i < ms.drop_first().len() implies is_writable_matcher(#[trigger] ms.drop_first()[i]) by {
            assert(ms.drop_first()[i] == ms[i + 1]);
        }
        lemma_matcher_list_source_reads(ms.drop_first(), seq![m]);
        assert(seq![m] + ms.drop_first() =~= ms);
        assert(matcher_rule(s1) == Ok::<(SpecMatcher, Seq<char>), SpecParseError>((m, more)));
        assert(matcher_list_rule(more, seq![m]) == Ok::<(Seq<SpecMatcher>, Seq<char>), SpecParseError>((ms, close)));
        let t = lex(s1).0->Ok_0;
        assert(t != SpecToken::CloseBrace);
        assert(selector_rule(q) == Ok::<(SpecSelector, Seq<char>), SpecParseError>((SpecSelector { matchers: ms }, e)));
    }
    assert(selector_rule(q) == Ok::<(SpecSelector, Seq<char>), SpecParseError>((SpecSelector { matchers: ms }, e)));
    assert(trim_start(e).len() == 0);
    assert(stage_rule(e) == Ok::<(Option<SpecStage>, Seq<char>), SpecParseError>((None, e)));
    assert(pipeline_rule(e, Seq::empty()) == Ok::<(Seq<SpecStage>, Seq<char>), SpecParseError>((Seq::empty(), e)));
    assert(expect_rule(e, SpecToken::Eol) == Ok::<Seq<char>, SpecParseError>(e));
}

/// Writing a line filter after a query that parses adds exactly that stage
/// at the end of its pipeline, and changes nothing else.
#[verifier::spinoff_prover]
pub proof fn lemma_appending_a_line_filter(q: Seq<char>, op: LineFilterOp, v: Seq<char>)
    requires
        is_plain_string(v),
        parse_query(q) is Ok,
    ensures
        parse_query(q + line_filter_source(op, v)) == ({
            let SpecExpr::Log(lq) = parse_query(q)->Ok_0;
            Ok::<SpecExpr, SpecParseError>(
                SpecExpr::Log(
                    SpecLogQuery {
                        selector: lq.selector,
                        pipeline: lq.pipeline.push(SpecStage::Line(SpecLineFilter { op, value: v })),
                    },
                ),
            )
        }),
{
    let x = line_filter_source(op, v);
    assert(x[0] == ' ');
    let (sel, s1) = selector_rule(q)->Ok_0;
    let (pl, s2) = pipeline_rule(s1, Seq::empty())->Ok_0;
    lemma_lex_eol(s2);
    lemma_selector_extend(q, x);
    lemma_pipeline_extend(s1, Seq::empty(), x);
    // what is left of `q` is whitespace, and the filter comes right after it
    lemma_trim_start(s2);
    assert(all_whitespace(s2 + seq![' '])) by {
        assert forall|i: int| 0 <= i < (s2 + seq![' ']).len() implies crate::text::is_whitespace_spec(
            #[trigger] (s2 + seq![' '])[i],
        ) by {
            if i < s2.len() {
                assert((s2 + seq![' '])[i] == s2[i]);
            }
        }
    }
    let y = line_filter_text(op) + seq![' ', '"'] + v + seq!['"'];
    assert(s2 + x =~= (s2 + seq![' ']) + y);
    lemma_trim_start_prefix(s2 + seq![' '], y);
    assert(y[0] == line_filter_text(op)[0]);
    assert(trim_start(y) == y);
    let z = seq![' ', '"'] + v + seq!['"'];
    assert(y.drop_first().drop_first() =~= z);
    assert(y.drop_first()[0] == line_filter_text(op)[1]);
    assert(trim_start(s2 + x) == y);
    let op_token = lex(s2 + x).0->Ok_0;
    assert(lex(s2 + x).1 == z);
    assert(line_filter_op_of(op_token) == Some(op));
    // then the quoted value, and nothing after it
    assert(z[0] == ' ');
    assert(z.drop_first() =~= seq!['"'] + (v + seq!['"']));
    assert(trim_start(z.drop_first()) == z.drop_first());
    assert(trim_start(z) == z.drop_first());
    assert(z.drop_first().drop_first() =~= v + seq!['"']);
    lemma_scan_plain_string(v, Seq::empty());
    assert(Seq::<char>::empty() + v =~= v);
    assert(lex(z) == (Ok::<SpecToken, SpecParseError>(SpecToken::String(v)), Seq::<char>::empty()));
    let st = SpecStage::Line(SpecLineFilter { op, value: v });
    assert(line_filter_rule(s2 + x) == Ok::<(Option<SpecLineFilter>, Seq<char>), SpecParseError>((Some(SpecLineFilter { op, value: v }), Seq::<char>::empty())));
    assert(stage_rule(s2 + x) == Ok::<(Option<SpecStage>, Seq<char>), SpecParseError>((Some(st), Seq::<char>::empty())));
    let e = Seq::<char>::empty();
    assert(trim_start(e).len() == 0);
    assert(stage_rule(e) == Ok::<(Option<SpecStage>, Seq<char>), SpecParseError>((None, e)));
    assert(pipeline_rule(e, pl.push(st)) == Ok::<(Seq<SpecStage>, Seq<char>), SpecParseError>((pl.push(st), e)));
    assert(pipeline_rule(s2 + x, pl) == pipeline_rule(e, pl.push(st)));
    assert(expect_rule(e, SpecToken::Eol) == Ok::<Seq<char>, SpecParseError>(e));
}

pub struct Parser {
    scanner: Scanner,
}

impl Parser {
    pub fn parse(query: &str) -> (r: Result<Expr, ParseError>)
        ensures
            expr_result_view(r) == parse_query(query@),
    {
        let mut p = Parser { scanner: Scanner::new(query) };
        let log_query = match p.log_query() {
            Ok(q) => q,
            Err(e) => {
                return Err(e);
            },
        };
        match p.expect(Token::Eol) {
            Ok(()) => Ok(Expr::Log(log_query)),
            Err(e) => Err(e),
        }
    }

    /// The next token, `Eol` once only whitespace is left.
    fn next_token(&mut self) -> (r: Result<Token, ParseError>)
        ensures
            token_result_view(r) == lex(old(self).scanner@).0,
            final(self).scanner@ == lex(old(self).scanner@).1,
    {
        if self.scanner.at_end() {
            Ok(Token::Eol)
        } else {
            self.scanner.next_token()
        }
    }

    /// The next token, `Eol` once only whitespace is left, without consuming it.
    fn peek_token(&mut self) -> (r: Result<Token, ParseError>)
        ensures
            token_result_view(r) == lex(old(self).scanner@).0,
            final(self).scanner@ == old(self).scanner@,
    {
        if self.scanner.at_end() {
            Ok(Token::Eol)
        } else {
            self.scanner.peek_token()
        }
    }

    fn expect(&mut self, expected: Token) -> (r: Result<(), ParseError>)
        ensures
            match expect_rule(old(self).scanner@, expected@) {
                Ok(s1) => r is Ok && final(self).scanner@ == s1,
                Err(e) => r matches Err(x) && x@ == e,
            },
    {
        let actual = match self.next_token() {
            Ok(t) => t,
            Err(e) => {
                return Err(e);
            },
        };
        if !same_token(&actual, &expected) {
            Err(ParseError::UnexpectedToken(actual, expected))
        } else {
            Ok(())
        }
    }

    fn eat(&mut self, expected: Token) -> (r: Result<bool, ParseError>)
        ensures
            match eat_rule(old(self).scanner@, expected@) {
                Ok((b, s1)) => r == Ok::<bool, ParseError>(b) && final(self).scanner@ == s1,
                Err(e) => r matches Err(x) && x@ == e,
            },
    {
        let actual = match self.peek_token() {
            Ok(t) => t,
            Err(e) => {
                return Err(e);
            },
        };
        if same_token(&actual, &expected) {
            // consume
            match self.next_token() {
                Ok(_) => Ok(true),
                Err(e) => Err(e),
            }
        } else {
            Ok(false)
        }
    }

    /// Parse `{ name op "value", ... } |= "Debug"`.
    fn log_query(&mut self) -> (r: Result<LogQuery, ParseError>)
        ensures
            match log_query_rule(old(self).scanner@) {
                Ok((q, s1)) => r matches Ok(x) && x@ == q && final(self).scanner@ == s1,
                Err(e) => r matches Err(x) && x@ == e,
            },
    {
        let selector = match self.selector() {
            Ok(s) => s,
            Err(e) => {
                return Err(e);
            },
        };
        let pipeline = match self.pipeline() {
            Ok(p) => p,
            Err(e) => {
                return Err(e);
            },
        };
        Ok(LogQuery { selector, pipeline })
    }

    /// Parse `{ name op "value", ... }`.
    fn selector(&mut self) -> (r: Result<Selector, ParseError>)
        ensures
            match selector_rule(old(self).scanner@) {
                Ok((sel, s1)) => r matches Ok(x) && x@ == sel && final(self).scanner@ == s1,
                Err(e) => r matches Err(x) && x@ == e,
            },
    {
        match self.expect(Token::OpenBrace) {
            Ok(()) => {},
            Err(e) => {
                return Err(e);
            },
        }
        let ghost s1 = self.scanner@;
        let mut matchers: Vec<Matcher> = Vec::new();
        let next = match self.peek_token() {
            Ok(t) => t,
            Err(e) => {
                return Err(e);
            },
        };
        if !same_token(&next, &Token::CloseBrace) {
            let first = match self.matcher() {
                Ok(m) => m,
                Err(e) => {
                    return Err(e);
                },
            };
            matchers.push(first);
            let ghost target = matcher_list_rule(self.scanner@, seq![first@]);
            assert(matchers_view(matchers@) =~= seq![first@]);
            #[verifier::loop_isolation(false)]
            loop
                invariant
                    matcher_list_rule(self.scanner@, matchers_view(matchers@)) == target,
                decreases self.scanner@.len(),
            {
                let ghost s = self.scanner@;
                let ghost acc = matchers_view(matchers@);
                let more = match self.eat(Token::Comma) {
                    Ok(b) => b,
                    Err(e) => {
                        return Err(e);
                    },
                };
                if !more {
                    break;
                }
                proof {
                    lemma_lex_len(s);
                    lemma_matcher_len(self.scanner@);
                }
                let m = match self.matcher() {
                    Ok(m) => m,
                    Err(e) => {
                        return Err(e);
                    },
                };
                matchers.push(m);
                assert(matchers_view(matchers@) =~= acc.push(m@));
            }
        } else {
            assert(matchers_view(matchers@) =~= Seq::<SpecMatcher>::empty());
        }
        match self.expect(Token::CloseBrace) {
            Ok(()) => {},
            Err(e) => {
                return Err(e);
            },
        }
        Ok(Selector { matchers })
    }

    fn matcher(&mut self) -> (r: Result<Matcher, ParseError>)
        ensures
            match matcher_rule(old(self).scanner@) {
                Ok((m, s1)) => r matches Ok(x) && x@ == m && final(self).scanner@ == s1,
                Err(e) => r matches Err(x) && x@ == e,
            },
    {
        match self.next_token() {
            Ok(Token::Identifier(name)) => {
                let op = match self.next_token() {
                    Ok(Token::Eq) => MatchOp::Eq,
                    Ok(Token::Neq) => MatchOp::Neq,
                    Ok(Token::Re) => MatchOp::Re,
                    Ok(Token::Nre) => MatchOp::Nre,
                    Ok(other) => {
                        return Err(ParseError::UnexpectedToken(other, Token::Eq));
                    },
                    Err(e) => {
                        return Err(e);
                    },
                };
                let value = match self.next_token() {
                    Ok(Token::String(v)) => v,
                    Ok(other) => {
                        return Err(
                            ParseError::UnexpectedToken(
                                other,
                                Token::String(String::from_str("string")),
                            ),
                        );
                    },
                    Err(e) => {
                        return Err(e);
                    },
                };
                Ok(Matcher { name, op, value })
            },
            Ok(other) => Err(
                ParseError::UnexpectedToken(other, Token::Identifier(String::from_str("Identifier"))),
            ),
            Err(e) => Err(e),
        }
    }

    /// Parse `|= "Debug" | logfmt !~ "Fatal|Info"`.
    fn pipeline(&mut self) -> (r: Result<Vec<Stage>, ParseError>)
        ensures
            match pipeline_rule(old(self).scanner@, Seq::empty()) {
                Ok((st, s1)) => r matches Ok(x) && stages_view(x@) == st && final(self).scanner@ == s1,
                Err(e) => r matches Err(x) && x@ == e,
            },
    {
        let mut stages: Vec<Stage> = Vec::new();
        let ghost target = pipeline_rule(self.scanner@, Seq::empty());
        assert(stages_view(stages@) =~= Seq::<SpecStage>::empty());
        #[verifier::loop_isolation(false)]
        loop
            invariant
                pipeline_rule(self.scanner@, stages_view(stages@)) == target,
            decreases self.scanner@.len(),
        {
            let ghost s = self.scanner@;
            let ghost acc = stages_view(stages@);
            proof {
                lemma_stage_len(s);
            }
            match self.stage() {
                Ok(Some(next_stage)) => {
                    stages.push(next_stage);
                    assert(stages_view(stages@) =~= acc.push(next_stage@));
                },
                Ok(None) => {
                    return Ok(stages);
                },
                Err(e) => {
                    return Err(e);
                },
            }
        }
    }

    /// Parse `|= "Debug"` or `| logfmt` or `!~ "Fatal|Info"`, if one comes next.
    fn stage(&mut self) -> (r: Result<Option<Stage>, ParseError>)
        ensures
            match stage_rule(old(self).scanner@) {
                Ok((st, s1)) => r matches Ok(x) && (match st {
                    None => x is None,
                    Some(v) => x matches Some(y) && y@ == v,
                }) && final(self).scanner@ == s1,
                Err(e) => r matches Err(x) && x@ == e,
            },
    {
        let next = match self.peek_token() {
            Ok(t) => t,
            Err(e) => {
                return Err(e);
            },
        };
        match next {
            Token::Pipe => {
                match self.next_token() {
                    Ok(_) => {},
                    Err(e) => {
                        return Err(e);
                    },
                }
                match self.next_token() {
                    Ok(Token::Identifier(id)) => {
                        if id == String::from_str("logfmt") {
                            Ok(Some(Stage::Logfmt))
                        } else {
                            Err(
                                ParseError::UnexpectedToken(
                                    Token::Identifier(id),
                                    Token::Identifier(String::from_str("identifier")),
                                ),
                            )
                        }
                    },
                    Ok(other) => Err(
                        ParseError::UnexpectedToken(
                            other,
                            Token::Identifier(String::from_str("identifier")),
                        ),
                    ),
                    Err(e) => Err(e),
                }
            },
            _ => match self.line_filter() {
                Ok(Some(f)) => Ok(Some(Stage::Line(f))),
                Ok(None) => Ok(None),
                Err(e) => Err(e),
            },
        }
    }

    fn line_filter(&mut self) -> (r: Result<Option<LineFilter>, ParseError>)
        ensures
            match line_filter_rule(old(self).scanner@) {
                Ok((f, s1)) => r matches Ok(x) && (match f {
                    None => x is None,
                    Some(v) => x matches Some(y) && y@ == v,
                }) && final(self).scanner@ == s1,
                Err(e) => r matches Err(x) && x@ == e,
            },
    {
        let op = match self.peek_token() {
            Ok(Token::PipeExact) => LineFilterOp::Contains,
            Ok(Token::Neq) => LineFilterOp::NotContains,
            Ok(Token::PipeMatch) => LineFilterOp::Re,
            Ok(Token::Nre) => LineFilterOp::Nre,
            Ok(_) => {
                return Ok(None);
            },
            Err(e) => {
                return Err(e);
            },
        };
        // committed now
        match self.next_token() {
            Ok(_) => {},
            Err(e) => {
                return Err(e);
            },
        }
        let value = match self.next_token() {
            Ok(Token::String(v)) => v,
            Ok(other) => {
                return Err(
                    ParseError::UnexpectedToken(other, Token::String(String::from_str("string"))),
                );
            },
            Err(e) => {
                return Err(e);
            },
        };
        Ok(Some(LineFilter { op, value }))
    }
}

} // verus!
