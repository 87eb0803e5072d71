//! The LogQL tokenizer.

use crate::error::{ParseError, SpecParseError};
use crate::text::{
    all_whitespace, lemma_trim_start_prefix, lemma_trim_start_suffix, lemma_trim_start_extend, chars_of, debug_quoted, quote_debug, is_ascii_alphabetic, is_ascii_alphabetic_spec, is_ascii_alphanumeric,
    is_ascii_alphanumeric_spec, lemma_trim_start, skip_whitespace, trim_start,
};
use vstd::prelude::*;

verus! {

#[derive(Debug, Clone, PartialEq)]
pub enum Token {
    Comma,
    Dot,
    OpenBrace,
    CloseBrace,
    Eq,
    Neq,
    Re,
    Nre,
    Npa,
    PipeExact,
    PipeMatch,
    PipePattern,
    Pipe,
    OpenParenthesis,
    CloseParenthesis,
    Identifier(String),
    String(String),
    /// The end of the query. The scanner never yields it; the parser does,
    /// once only whitespace is left.
    Eol,
}

/// `Token` with its text taken as a sequence of characters.
pub enum SpecToken {
    Comma,
    Dot,
    OpenBrace,
    CloseBrace,
    Eq,
    Neq,
    Re,
    Nre,
    Npa,
    PipeExact,
    PipeMatch,
    PipePattern,
    Pipe,
    OpenParenthesis,
    CloseParenthesis,
    Identifier(Seq<char>),
    String(Seq<char>),
    Eol,
}

impl View for Token {
    type V = SpecToken;

    open spec fn view(&self) -> SpecToken {
        match self {
            Token::Comma => SpecToken::Comma,
            Token::Dot => SpecToken::Dot,
            Token::OpenBrace => SpecToken::OpenBrace,
            Token::CloseBrace => SpecToken::CloseBrace,
            Token::Eq => SpecToken::Eq,
            Token::Neq => SpecToken::Neq,
            Token::Re => SpecToken::Re,
            Token::Nre => SpecToken::Nre,
            Token::Npa => SpecToken::Npa,
            Token::PipeExact => SpecToken::PipeExact,
            Token::PipeMatch => SpecToken::PipeMatch,
            Token::PipePattern => SpecToken::PipePattern,
            Token::Pipe => SpecToken::Pipe,
            Token::OpenParenthesis => SpecToken::OpenParenthesis,
            Token::CloseParenthesis => SpecToken::CloseParenthesis,
            Token::Identifier(name) => SpecToken::Identifier(name@),
            Token::String(value) => SpecToken::String(value@),
            Token::Eol => SpecToken::Eol,
        }
    }
}

pub open spec fn token_result_view(r: Result<Token, ParseError>) -> Result<SpecToken, SpecParseError> {
    match r {
        Ok(t) => Ok(t@),
        Err(e) => Err(e@),
    }
}

/// How a token appears in source, so that error messages can quote the
/// user's own syntax back at them.
pub open spec fn token_text(t: SpecToken) -> Seq<char> {
    match t {
        SpecToken::Comma => ","@,
        SpecToken::Dot => "."@,
        SpecToken::OpenBrace => "{"@,
        SpecToken::CloseBrace => "}"@,
        SpecToken::Eq => "="@,
        SpecToken::Neq => "!="@,
        SpecToken::Re => "=~"@,
        SpecToken::Nre => "!~"@,
        SpecToken::Npa => "!>"@,
        SpecToken::PipeExact => "|="@,
        SpecToken::PipeMatch => "|~"@,
        SpecToken::PipePattern => "|>"@,
        SpecToken::Pipe => "|"@,
        SpecToken::OpenParenthesis => "("@,
        SpecToken::CloseParenthesis => ")"@,
        SpecToken::Identifier(name) => name,
        SpecToken::String(value) => debug_quoted(value),
        SpecToken::Eol => "end of line"@,
    }
}

impl Token {
    /// The token as it appears in source; a string literal in double quotes,
    /// with its special characters escaped.
    pub fn to_string(&self) -> (r: String)
        ensures
            r@ == token_text(self@),
    {
        match self {
            Token::Comma => String::from_str(","),
            Token::Dot => String::from_str("."),
            Token::OpenBrace => String::from_str("{"),
            Token::CloseBrace => String::from_str("}"),
            Token::Eq => String::from_str("="),
            Token::Neq => String::from_str("!="),
            Token::Re => String::from_str("=~"),
            Token::Nre => String::from_str("!~"),
            Token::Npa => String::from_str("!>"),
            Token::PipeExact => String::from_str("|="),
            Token::PipeMatch => String::from_str("|~"),
            Token::PipePattern => String::from_str("|>"),
            Token::Pipe => String::from_str("|"),
            Token::OpenParenthesis => String::from_str("("),
            Token::CloseParenthesis => String::from_str(")"),
            Token::Identifier(name) => name.clone(),
            Token::String(value) => quote_debug(value.as_str()),
            Token::Eol => String::from_str("end of line"),
        }
    }
}

/// Whether two tokens are the same token with the same text.
pub fn same_token(a: &Token, b: &Token) -> (r: bool)
    ensures
        r == (a@ == b@),
{
    match (a, b) {
        (Token::Identifier(x), Token::Identifier(y)) => *x == *y,
        (Token::String(x), Token::String(y)) => *x == *y,
        (Token::Comma, Token::Comma) => true,
        (Token::Dot, Token::Dot) => true,
        (Token::OpenBrace, Token::OpenBrace) => true,
        (Token::CloseBrace, Token::CloseBrace) => true,
        (Token::Eq, Token::Eq) => true,
        (Token::Neq, Token::Neq) => true,
        (Token::Re, Token::Re) => true,
        (Token::Nre, Token::Nre) => true,
        (Token::Npa, Token::Npa) => true,
        (Token::PipeExact, Token::PipeExact) => true,
        (Token::PipeMatch, Token::PipeMatch) => true,
        (Token::PipePattern, Token::PipePattern) => true,
        (Token::Pipe, Token::Pipe) => true,
        (Token::OpenParenthesis, Token::OpenParenthesis) => true,
        (Token::CloseParenthesis, Token::CloseParenthesis) => true,
        (Token::Eol, Token::Eol) => true,
        _ => false,
    }
}

pub open spec fn starts_with(s: Seq<char>, c: char) -> bool {
    s.len() > 0 && s[0] == c
}

/// A character that may start an identifier.
pub open spec fn is_ident_start(c: char) -> bool {
    is_ascii_alphabetic_spec(c) || c == ':' || c == '_'
}

/// A character that may continue an identifier (a label name).
pub open spec fn is_label_cont_spec(c: char) -> bool {
    is_ascii_alphanumeric_spec(c) || c == '_' || c == ':'
}

/// The length of the longest prefix of `s` made of label characters.
pub open spec fn label_len(s: Seq<char>) -> nat
    decreases s.len(),
{
    if s.len() > 0 && is_label_cont_spec(s[0]) {
        1 + label_len(s.drop_first())
    } else {
        0
    }
}

/// What the escape `\c` stands for inside a quoted string.
pub open spec fn escaped_char(c: char) -> char {
    if c == 'n' {
        '\n'
    } else if c == 't' {
        '\t'
    } else if c == 'r' {
        '\r'
    } else {
        c
    }
}

/// Reads the body of a string literal whose opening quote is already consumed,
/// appending to `acc`: the token (or error) and what is left of the input.
pub open spec fn scan_string(s: Seq<char>, acc: Seq<char>) -> (Result<SpecToken, SpecParseError>, Seq<char>)
    decreases s.len(),
{
    if s.len() == 0 {
        (Err(SpecParseError::UnexpectedEOL), s)
    } else if s[0] == '"' {
        (Ok(SpecToken::String(acc)), s.drop_first())
    } else if s[0] == '\\' {
        if s.len() == 1 {
            (Err(SpecParseError::UnexpectedEOL), s.drop_first())
        } else {
            scan_string(s.skip(2), acc.push(escaped_char(s[1])))
        }
    } else {
        scan_string(s.drop_first(), acc.push(s[0]))
    }
}

/// The lexical grammar: the next token of `s` (or the error), and what is left.
pub open spec fn scan_token(s: Seq<char>) -> (Result<SpecToken, SpecParseError>, Seq<char>) {
    let t = trim_start(s);
    if t.len() == 0 {
        (Err(SpecParseError::UnexpectedEOL), t)
    } else {
        let c = t[0];
        let r = t.drop_first();
        if c == '{' {
            (Ok(SpecToken::OpenBrace), r)
        } else if c == '}' {
            (Ok(SpecToken::CloseBrace), r)
        } else if c == ',' {
            (Ok(SpecToken::Comma), r)
        } else if c == '.' {
            (Ok(SpecToken::Dot), r)
        } else if c == '(' {
            (Ok(SpecToken::OpenParenthesis), r)
        } else if c == ')' {
            (Ok(SpecToken::CloseParenthesis), r)
        } else if c == '=' {
            if starts_with(r, '~') {
                (Ok(SpecToken::Re), r.drop_first())
            } else {
                (Ok(SpecToken::Eq), r)
            }
        } else if c == '!' {
            if starts_with(r, '=') {
                (Ok(SpecToken::Neq), r.drop_first())
            } else if starts_with(r, '~') {
                (Ok(SpecToken::Nre), r.drop_first())
            } else if starts_with(r, '>') {
                (Ok(SpecToken::Npa), r.drop_first())
            } else {
                (Err(SpecParseError::UnexpectedChar('!')), r)
            }
        } else if c == '|' {
            if starts_with(r, '=') {
                (Ok(SpecToken::PipeExact), r.drop_first())
            } else if starts_with(r, '~') {
                (Ok(SpecToken::PipeMatch), r.drop_first())
            } else if starts_with(r, '>') {
                (Ok(SpecToken::PipePattern), r.drop_first())
            } else {
                (Ok(SpecToken::Pipe), r)
            }
        } else if c == '"' {
            scan_string(r, Seq::empty())
        } else if is_ident_start(c) {
            let n = label_len(r);
            (Ok(SpecToken::Identifier(seq![c] + r.take(n as int))), r.skip(n as int))
        } else {
            (Err(SpecParseError::UnexpectedChar(c)), r)
        }
    }
}

pub proof fn lemma_label_len(s: Seq<char>)
    ensures
        label_len(s) <= s.len(),
        forall|i: int| 0 <= i < label_len(s) ==> is_label_cont_spec(#[trigger] s[i]),
        label_len(s) < s.len() ==> !is_label_cont_spec(s[label_len(s) as int]),
    decreases s.len(),
{
    if s.len() > 0 && is_label_cont_spec(s[0]) {
        lemma_label_len(s.drop_first());
        assert forall|i: int| 0 <= i < label_len(s) implies is_label_cont_spec(#[trigger] s[i]) by {
            if i > 0 {
                assert(s[i] == s.drop_first()[i - 1]);
            }
        }
    }
}

pub proof fn lemma_scan_string_len(s: Seq<char>, acc: Seq<char>)
    ensures
        scan_string(s, acc).1.len() <= s.len(),
        scan_string(s, acc).1 == s.skip(s.len() - scan_string(s, acc).1.len()),
        scan_string(s, acc).0 is Ok ==> scan_string(s, acc).1.len() < s.len(),
    decreases s.len(),
{
    if s.len() == 0 {
        assert(s.skip(0) =~= s);
    } else if s[0] == '"' {
        assert(s.drop_first() =~= s.skip(1));
    } else if s[0] == '\\' {
        if s.len() > 1 {
            lemma_scan_string_len(s.skip(2), acc.push(escaped_char(s[1])));
            let r = scan_string(s, acc).1;
            assert(s.skip(2).skip(s.skip(2).len() - r.len()) =~= s.skip(s.len() - r.len()));
        } else {
            assert(s.drop_first() =~= s.skip(1));
        }
    } else {
        lemma_scan_string_len(s.drop_first(), acc.push(s[0]));
        let r = scan_string(s, acc).1;
        assert(s.drop_first().skip(s.drop_first().len() - r.len()) =~= s.skip(s.len() - r.len()));
    }
}

/// Scanning never grows the input: what is left after a token is a suffix of
/// the input, and a proper one whenever a token was read, so scanning token
/// by token always reaches the end.
pub proof fn lemma_scan_token_len(s: Seq<char>)
    ensures
        scan_token(s).1.len() <= s.len(),
        scan_token(s).1 == s.skip(s.len() - scan_token(s).1.len()),
        scan_token(s).0 is Ok ==> scan_token(s).1.len() < s.len(),
{
    lemma_trim_start(s);
    let t = trim_start(s);
    let k = s.len() - t.len();
    if t.len() > 0 {
        let r = t.drop_first();
        assert(r =~= s.skip(k + 1));
        lemma_scan_string_len(r, Seq::empty());
        lemma_label_len(r);
        let rest = scan_token(s).1;
        assert(r.skip(r.len() - rest.len()) =~= s.skip(s.len() - rest.len())) by {
            lemma_scan_string_len(r, Seq::empty());
        }
        if rest.len() < r.len() {
            assert(r.drop_first() =~= s.skip(k + 2));
        }
        let n = label_len(r);
        assert(r.skip(n as int) =~= s.skip(s.len() - (r.len() - n)));
    }
}

/// Whether a string body, its opening quote consumed, has a closing quote:
/// one not escaped by a backslash, which escapes whatever character follows it.
pub open spec fn has_closing_quote(s: Seq<char>) -> bool
    decreases s.len(),
{
    if s.len() == 0 {
        false
    } else if s[0] == '"' {
        true
    } else if s[0] == '\\' {
        s.len() >= 2 && has_closing_quote(s.skip(2))
    } else {
        has_closing_quote(s.drop_first())
    }
}

/// The characters a token can start with.
pub open spec fn starts_token(c: char) -> bool {
    c == '{' || c == '}' || c == ',' || c == '.' || c == '(' || c == ')' || c == '=' || c == '!'
        || c == '|' || c == '"' || is_ident_start(c)
}

proof fn lemma_scan_string_terminates(s: Seq<char>, acc: Seq<char>)
    ensures
        scan_string(s, acc).0 is Ok <==> has_closing_quote(s),
        scan_string(s, acc).0 is Err ==> scan_string(s, acc).0 == Err::<SpecToken, SpecParseError>(
            SpecParseError::UnexpectedEOL,
        ),
    decreases s.len(),
{
    if s.len() > 0 && s[0] != '"' {
        if s[0] == '\\' {
            if s.len() > 1 {
                lemma_scan_string_terminates(s.skip(2), acc.push(escaped_char(s[1])));
            }
        } else {
            lemma_scan_string_terminates(s.drop_first(), acc.push(s[0]));
        }
    }
}

/// When the next token fails, and why: end of input exactly when only
/// whitespace is left or a string literal is never closed; an unexpected
/// character exactly when the first one starts no token, or is a `!` not
/// followed by `=`, `~` or `>`; and no other error.
pub proof fn lemma_scan_token_errors(s: Seq<char>)
    ensures
        ({
            let t = trim_start(s);
            let r = t.drop_first();
            &&& (scan_token(s).0 == Err::<SpecToken, SpecParseError>(SpecParseError::UnexpectedEOL))
                <==> (t.len() == 0 || (t[0] == '"' && !has_closing_quote(r)))
            &&& (scan_token(s).0 matches Err(SpecParseError::UnexpectedChar(_))) <==> (t.len() > 0 && (
            !starts_token(t[0]) || (t[0] == '!' && !starts_with(r, '=') && !starts_with(r, '~')
                && !starts_with(r, '>'))))
            &&& scan_token(s).0 matches Err(SpecParseError::UnexpectedChar(c)) ==> c == t[0]
            &&& scan_token(s).0 matches Err(e) ==> (e is UnexpectedEOL || e is UnexpectedChar)
        }),
{
    let t = trim_start(s);
    if t.len() > 0 {
        lemma_scan_string_terminates(t.drop_first(), Seq::empty());
    }
}

/// A token as the scanner can yield it: not a string literal (whose rendering
/// escapes it), not `Eol`, and an identifier only if it is spelled like one.
pub open spec fn is_plain_token(t: SpecToken) -> bool {
    match t {
        SpecToken::String(_) => false,
        SpecToken::Eol => false,
        SpecToken::Identifier(n) => n.len() > 0 && is_ident_start(n[0]) && label_len(n.drop_first())
            == n.len() - 1,
        _ => true,
    }
}

proof fn lemma_label_len_all(s: Seq<char>, t: Seq<char>)
    requires
        forall|i: int| 0 <= i < s.len() ==> is_label_cont_spec(#[trigger] s[i]),
    ensures
        label_len(s + t) == s.len() + label_len(t),
    decreases s.len(),
{
    if s.len() > 0 {
        assert((s + t)[0] == s[0]);
        assert((s + t).drop_first() =~= s.drop_first() + t);
        lemma_label_len_all(s.drop_first(), t);
    } else {
        assert(s + t =~= t);
    }
}

/// Scanning ignores whitespace in front of a token: LogQL is
/// whitespace-insensitive between tokens.
pub proof fn lemma_scan_skips_whitespace(ws: Seq<char>, s: Seq<char>)
    requires
        all_whitespace(ws),
    ensures
        scan_token(ws + s) == scan_token(s),
{
    lemma_trim_start_prefix(ws, s);
}

/// Every token the scanner yields, but a string literal, renders as text that
/// scans back to that same token, with nothing left over.
pub proof fn lemma_rendering_scans_back(s: Seq<char>)
    requires
        scan_token(s).0 matches Ok(t) && !(t is String),
    ensures
        scan_token(s).0 matches Ok(t) && scan_token(token_text(t)) == (
        Ok::<SpecToken, SpecParseError>(t),
        Seq::<char>::empty(),
        ),
{
    lemma_scanned_token_is_plain(s);
    let t = scan_token(s).0->Ok_0;
    lemma_plain_token_scans_back(t);
}

/// What the scanner yields, but a string literal, is a plain token.
pub proof fn lemma_scanned_token_is_plain(s: Seq<char>)
    ensures
        scan_token(s).0 matches Ok(t) ==> (t is String || is_plain_token(t)),
{
    let t = trim_start(s);
    if t.len() > 0 {
        lemma_scan_string_yields_string(t.drop_first(), Seq::empty());
    }
    if t.len() > 0 && is_ident_start(t[0]) {
        let r = t.drop_first();
        let n = label_len(r);
        lemma_label_len(r);
        let name = seq![t[0]] + r.take(n as int);
        assert(name.drop_first() =~= r.take(n as int));
        assert forall|i: int| 0 <= i < n implies is_label_cont_spec(#[trigger] r.take(n as int)[i]) by {
            assert(r.take(n as int)[i] == r[i]);
        }
        lemma_label_len_all(r.take(n as int), Seq::empty());
        assert(r.take(n as int) + Seq::<char>::empty() =~= r.take(n as int));
    }
}

proof fn lemma_scan_string_yields_string(s: Seq<char>, acc: Seq<char>)
    ensures
        scan_string(s, acc).0 matches Ok(t) ==> t is String,
    decreases s.len(),
{
    if s.len() > 0 && s[0] != '"' {
        if s[0] == '\\' {
            if s.len() > 1 {
                lemma_scan_string_yields_string(s.skip(2), acc.push(escaped_char(s[1])));
            }
        } else {
            lemma_scan_string_yields_string(s.drop_first(), acc.push(s[0]));
        }
    }
}

/// A plain token's rendering scans back to it.
pub proof fn lemma_plain_token_scans_back(t: SpecToken)
    requires
        is_plain_token(t),
    ensures
        scan_token(token_text(t)) == (Ok::<SpecToken, SpecParseError>(t), Seq::<char>::empty()),
{
    reveal_strlit(",");
    reveal_strlit(".");
    reveal_strlit("{");
    reveal_strlit("}");
    reveal_strlit("=");
    reveal_strlit("!=");
    reveal_strlit("=~");
    reveal_strlit("!~");
    reveal_strlit("!>");
    reveal_strlit("|=");
    reveal_strlit("|~");
    reveal_strlit("|>");
    reveal_strlit("|");
    reveal_strlit("(");
    reveal_strlit(")");
    let text = token_text(t);
    assert(text.len() > 0);
    assert(!crate::text::is_whitespace_spec(text[0]));
    assert(trim_start(text) == text);
    let r = text.drop_first();
    if let SpecToken::Identifier(n) = t {
        assert(label_len(r) == r.len());
        assert(r.take(r.len() as int) =~= r);
        assert(seq![n[0]] + r =~= n);
        assert(r.skip(r.len() as int) =~= Seq::<char>::empty());
    } else {
        assert(r.len() <= 1);
        if r.len() == 1 {
            assert(r.drop_first() =~= Seq::<char>::empty());
        } else {
            assert(r =~= Seq::<char>::empty());
        }
    }
}

proof fn lemma_label_len_suffix(r: Seq<char>, w: Seq<char>)
    requires
        all_whitespace(w),
    ensures
        label_len(r + w) == label_len(r),
    decreases r.len(),
{
    if r.len() == 0 {
        assert(r + w =~= w);
        if w.len() > 0 {
            assert(crate::text::is_whitespace_spec(w[0]));
        }
    } else {
        assert((r + w)[0] == r[0]);
        if is_label_cont_spec(r[0]) {
            assert((r + w).drop_first() =~= r.drop_first() + w);
            lemma_label_len_suffix(r.drop_first(), w);
        }
    }
}

proof fn lemma_scan_string_whitespace(w: Seq<char>, acc: Seq<char>)
    requires
        all_whitespace(w),
    ensures
        scan_string(w, acc).0 == Err::<SpecToken, SpecParseError>(SpecParseError::UnexpectedEOL),
    decreases w.len(),
{
    if w.len() > 0 {
        assert(crate::text::is_whitespace_spec(w[0]));
        lemma_scan_string_whitespace(w.drop_first(), acc.push(w[0]));
    }
}

proof fn lemma_scan_string_suffix(s: Seq<char>, acc: Seq<char>, w: Seq<char>)
    requires
        all_whitespace(w),
    ensures
        scan_string(s + w, acc).0 == scan_string(s, acc).0,
        scan_string(s, acc).0 is Ok ==> scan_string(s + w, acc).1 == scan_string(s, acc).1 + w,
    decreases s.len(),
{
    if s.len() == 0 {
        assert(s + w =~= w);
        lemma_scan_string_whitespace(w, acc);
    } else {
        assert((s + w)[0] == s[0]);
        if s[0] == '"' {
            assert((s + w).drop_first() =~= s.drop_first() + w);
        } else if s[0] == '\\' {
            if s.len() == 1 {
                if w.len() > 0 {
                    assert((s + w)[1] == w[0]);
                    assert((s + w).skip(2) =~= w.drop_first());
                    lemma_scan_string_whitespace(w.drop_first(), acc.push(escaped_char(w[0])));
                }
            } else {
                assert((s + w)[1] == s[1]);
                assert((s + w).skip(2) =~= s.skip(2) + w);
                lemma_scan_string_suffix(s.skip(2), acc.push(escaped_char(s[1])), w);
            }
        } else {
            assert((s + w).drop_first() =~= s.drop_first() + w);
            lemma_scan_string_suffix(s.drop_first(), acc.push(s[0]), w);
        }
    }
}

/// Whitespace after a token changes neither the token nor what came before
/// it: it stays at the end of what is left.
pub proof fn lemma_scan_token_suffix(s: Seq<char>, w: Seq<char>)
    requires
        all_whitespace(w),
        trim_start(s).len() > 0,
    ensures
        scan_token(s + w).0 == scan_token(s).0,
        scan_token(s).0 is Ok ==> scan_token(s + w).1 == scan_token(s).1 + w,
{
    lemma_trim_start_suffix(s, w);
    let t = trim_start(s);
    let r = t.drop_first();
    assert((t + w)[0] == t[0]);
    assert((t + w).drop_first() =~= r + w);
    if r.len() > 0 {
        assert((r + w)[0] == r[0]);
        assert((r + w).drop_first() =~= r.drop_first() + w);
    } else {
        assert(r + w =~= w);
        if w.len() > 0 {
            assert(crate::text::is_whitespace_spec(w[0]));
        }
    }
    lemma_scan_string_suffix(r, Seq::empty(), w);
    lemma_label_len_suffix(r, w);
    let n = label_len(r);
    lemma_label_len(r);
    assert((r + w).take(n as int) =~= r.take(n as int));
    assert((r + w).skip(n as int) =~= r.skip(n as int) + w);
}

/// Text that cannot continue a token: empty, or starting with whitespace.
pub open spec fn separated(x: Seq<char>) -> bool {
    x.len() == 0 || crate::text::is_whitespace_spec(x[0])
}

proof fn lemma_label_len_extend(r: Seq<char>, x: Seq<char>)
    requires
        separated(x),
    ensures
        label_len(r + x) == label_len(r),
    decreases r.len(),
{
    if r.len() == 0 {
        assert(r + x =~= x);
    } else {
        assert((r + x)[0] == r[0]);
        if is_label_cont_spec(r[0]) {
            assert((r + x).drop_first() =~= r.drop_first() + x);
            lemma_label_len_extend(r.drop_first(), x);
        }
    }
}

proof fn lemma_scan_string_extend(s: Seq<char>, acc: Seq<char>, x: Seq<char>)
    requires
        scan_string(s, acc).0 is Ok,
    ensures
        scan_string(s + x, acc) == (scan_string(s, acc).0, scan_string(s, acc).1 + x),
    decreases s.len(),
{
    assert((s + x)[0] == s[0]);
    if s[0] == '"' {
        assert((s + x).drop_first() =~= s.drop_first() + x);
    } else if s[0] == '\\' {
        assert((s + x)[1] == s[1]);
        assert((s + x).skip(2) =~= s.skip(2) + x);
        lemma_scan_string_extend(s.skip(2), acc.push(escaped_char(s[1])), x);
    } else {
        assert((s + x).drop_first() =~= s.drop_first() + x);
        lemma_scan_string_extend(s.drop_first(), acc.push(s[0]), x);
    }
}

/// A token read before text that cannot continue it is read the same, with
/// that text left over after it.
pub proof fn lemma_scan_token_extend(s: Seq<char>, x: Seq<char>)
    requires
        separated(x),
        scan_token(s).0 is Ok,
    ensures
        scan_token(s + x) == (scan_token(s).0, scan_token(s).1 + x),
{
    let t = trim_start(s);
    assert(t.len() > 0);
    lemma_trim_start_extend(s, x);
    let r = t.drop_first();
    assert((t + x)[0] == t[0]);
    assert((t + x).drop_first() =~= r + x);
    if r.len() > 0 {
        assert((r + x)[0] == r[0]);
        assert((r + x).drop_first() =~= r.drop_first() + x);
    } else {
        assert(r + x =~= x);
    }
    if t[0] == '"' {
        lemma_scan_string_extend(r, Seq::empty(), x);
    }
    lemma_label_len_extend(r, x);
    let n = label_len(r);
    lemma_label_len(r);
    assert((r + x).take(n as int) =~= r.take(n as int));
    assert((r + x).skip(n as int) =~= r.skip(n as int) + x);
}

/// `r` is what is left of `s` after reading some number of tokens from it:
/// `s` ends in `r`, and the cut between them lies between two tokens.
pub open spec fn reaches(s: Seq<char>, r: Seq<char>) -> bool
    decreases s.len(),
{
    s == r || (scan_token(s).0 is Ok && scan_token(s).1.len() < s.len() && reaches(
        scan_token(s).1,
        r,
    ))
}

pub proof fn lemma_reaches_suffix(s: Seq<char>, r: Seq<char>)
    requires
        reaches(s, r),
    ensures
        r.len() <= s.len(),
        s.skip(s.len() - r.len()) == r,
    decreases s.len(),
{
    if s == r {
        assert(s.skip(0) =~= s);
    } else {
        let s1 = scan_token(s).1;
        lemma_scan_token_len(s);
        lemma_reaches_suffix(s1, r);
        assert(s1.skip(s1.len() - r.len()) =~= s.skip(s.len() - r.len()));
    }
}

proof fn lemma_label_len_truncate(r: Seq<char>, b: Seq<char>)
    requires
        label_len(r + b) <= r.len(),
    ensures
        label_len(r) == label_len(r + b),
    decreases r.len(),
{
    if r.len() > 0 {
        assert((r + b)[0] == r[0]);
        if is_label_cont_spec(r[0]) {
            assert((r + b).drop_first() =~= r.drop_first() + b);
            lemma_label_len_truncate(r.drop_first(), b);
        }
    } else {
        assert(r + b =~= b);
    }
}

proof fn lemma_scan_string_truncate(r: Seq<char>, b: Seq<char>, acc: Seq<char>)
    requires
        scan_string(r + b, acc).0 is Ok,
        scan_string(r + b, acc).1.len() >= b.len(),
    ensures
        scan_string(r, acc).0 == scan_string(r + b, acc).0,
        scan_string(r, acc).1 + b == scan_string(r + b, acc).1,
    decreases r.len(),
{
    lemma_scan_string_len(r + b, acc);
    if r.len() == 0 {
        assert(r + b =~= b);
        assert(false);
    }
    assert((r + b)[0] == r[0]);
    if r[0] == '"' {
        assert((r + b).drop_first() =~= r.drop_first() + b);
    } else if r[0] == '\\' {
        if r.len() == 1 {
            lemma_scan_string_len((r + b).skip(2), acc.push(escaped_char((r + b)[1])));
            assert(false);
        }
        assert((r + b)[1] == r[1]);
        assert((r + b).skip(2) =~= r.skip(2) + b);
        lemma_scan_string_truncate(r.skip(2), b, acc.push(escaped_char(r[1])));
    } else {
        assert((r + b).drop_first() =~= r.drop_first() + b);
        lemma_scan_string_truncate(r.drop_first(), b, acc.push(r[0]));
    }
}

/// A token of `a + b` that ends within `a` is the token `a` alone starts with.
pub proof fn lemma_scan_token_truncate(a: Seq<char>, b: Seq<char>)
    requires
        scan_token(a + b).0 is Ok,
        scan_token(a + b).1.len() >= b.len(),
    ensures
        scan_token(a).0 == scan_token(a + b).0,
        scan_token(a).1 + b == scan_token(a + b).1,
{
    lemma_scan_token_len(a + b);
    lemma_trim_start(a);
    if trim_start(a).len() == 0 {
        let k = a.len() as int;
        assert(all_whitespace(a)) by {
            assert forall|i: int| 0 <= i < a.len() implies crate::text::is_whitespace_spec(
                #[trigger] a[i],
            ) by {}
        }
        lemma_scan_skips_whitespace(a, b);
        lemma_scan_token_len(b);
        assert(false);
    }
    lemma_trim_start_extend(a, b);
    let t = trim_start(a);
    let r = t.drop_first();
    assert((t + b)[0] == t[0]);
    assert((t + b).drop_first() =~= r + b);
    if r.len() > 0 {
        assert((r + b)[0] == r[0]);
        assert((r + b).drop_first() =~= r.drop_first() + b);
    } else {
        assert(r + b =~= b);
        if b.len() > 0 {
            assert(b.drop_first().len() < b.len());
        }
    }
    if t[0] == '"' {
        lemma_scan_string_truncate(r, b, Seq::empty());
    }
    if is_ident_start(t[0]) {
        let n = label_len(r + b);
        lemma_label_len(r + b);
        lemma_label_len_truncate(r, b);
        assert((r + b).take(n as int) =~= r.take(n as int));
        assert((r + b).skip(n as int) =~= r.skip(n as int) + b);
    }
}

/// Whitespace put right after a token, or in front of the first, is read as
/// nothing: the token read there is the same, and the whitespace is left
/// over with the rest.
pub proof fn lemma_scan_token_boundary(a: Seq<char>, w: Seq<char>, b: Seq<char>)
    requires
        all_whitespace(w),
        w.len() > 0,
        scan_token(a + b).0 is Ok,
        scan_token(a + b).1.len() >= b.len(),
    ensures
        scan_token(a + w + b) == (
            scan_token(a + b).0,
            scan_token(a + b).1.take(scan_token(a + b).1.len() - b.len()) + w + b,
        ),
{
    lemma_scan_token_truncate(a, b);
    let x = w + b;
    assert(separated(x)) by {
        assert(x[0] == w[0]);
    }
    lemma_scan_token_extend(a, x);
    assert(a + w + b =~= a + x);
    let r = scan_token(a + b).1;
    let ra = scan_token(a).1;
    assert(r.take(r.len() - b.len()) =~= ra);
    assert(ra + x =~= ra + w + b);
}

/// A character of a label name: an ASCII letter (either case), an ASCII
/// digit, `_` or `:`.
pub open spec fn is_label_name_char(c: char) -> bool {
    ('a' <= c <= 'z') || ('A' <= c <= 'Z') || ('0' <= c <= '9') || c == '_' || c == ':'
}

/// A label name: an ASCII letter, `_` or `:`, then label name characters.
pub open spec fn is_label_name(n: Seq<char>) -> bool {
    &&& n.len() > 0
    &&& ('a' <= n[0] <= 'z') || ('A' <= n[0] <= 'Z') || n[0] == '_' || n[0] == ':'
    &&& forall|i: int| 1 <= i < n.len() ==> is_label_name_char(#[trigger] n[i])
}

/// A label name is read as one identifier, whole: it stops only where a
/// character that cannot be in a name follows it, or at the end.
pub proof fn lemma_label_name_scans_whole(n: Seq<char>, rest: Seq<char>)
    requires
        is_label_name(n),
        rest.len() == 0 || !is_label_name_char(rest[0]),
    ensures
        scan_token(n + rest) == (Ok::<SpecToken, SpecParseError>(SpecToken::Identifier(n)), rest),
{
    let s = n + rest;
    assert(s[0] == n[0]);
    assert(trim_start(s) == s);
    let tail = n.drop_first();
    assert(s.drop_first() =~= tail + rest);
    assert forall|i: int| 0 <= i < tail.len() implies is_label_cont_spec(#[trigger] tail[i]) by {
        assert(tail[i] == n[i + 1]);
        assert(is_label_name_char(n[i + 1]));
    }
    lemma_label_len_all(tail, rest);
    assert(label_len(rest) == 0);
    let k = tail.len() as int;
    assert((tail + rest).take(k) =~= tail);
    assert((tail + rest).skip(k) =~= rest);
    assert(seq![n[0]] + tail =~= n);
}

/// Reading on from where a read stops keeps reaching token boundaries.
pub proof fn lemma_reaches_trans(s: Seq<char>, b: Seq<char>, c: Seq<char>)
    requires
        reaches(s, b),
        reaches(b, c),
    ensures
        reaches(s, c),
    decreases s.len(),
{
    if s != b {
        lemma_reaches_trans(scan_token(s).1, b, c);
    }
}

/// Of two boundaries reached from the same text, the later one is reached
/// from the earlier.
pub proof fn lemma_reaches_between(s: Seq<char>, b: Seq<char>, c: Seq<char>)
    requires
        reaches(s, b),
        reaches(s, c),
        c.len() <= b.len(),
    ensures
        reaches(b, c),
    decreases s.len(),
{
    if s != b {
        lemma_reaches_suffix(s, b);
        if s == c {
            assert(s.skip(s.len() - b.len()) =~= s);
        } else {
            lemma_reaches_between(scan_token(s).1, b, c);
        }
    }
}

/// Whitespace put at a boundary stays in front of what follows it, and the
/// read lands on it.
pub proof fn lemma_reaches_spaced(a: Seq<char>, w: Seq<char>, b: Seq<char>)
    requires
        all_whitespace(w),
        reaches(a + b, b),
    ensures
        reaches(a + w + b, w + b),
    decreases a.len(),
{
    if a.len() == 0 {
        assert(a + w + b =~= w + b);
    } else if w.len() == 0 {
        assert(a + w + b =~= a + b);
        assert(w + b =~= b);
    } else {
        assert(a + b != b);
        let r = scan_token(a + b).1;
        lemma_reaches_suffix(r, b);
        lemma_scan_token_boundary(a, w, b);
        let a1 = r.take(r.len() - b.len());
        assert(a1 + b =~= r);
        lemma_reaches_spaced(a1, w, b);
        assert(scan_token(a + w + b).1 == a1 + w + b);
    }
}

/// Whitespace in front of text that reads on to `c` reads on to `c` too.
pub proof fn lemma_reaches_past_whitespace(w: Seq<char>, j: Seq<char>, c: Seq<char>)
    requires
        all_whitespace(w),
        reaches(j, c),
        j != c,
    ensures
        reaches(w + j, c),
{
    lemma_scan_skips_whitespace(w, j);
}

/// A cursor over the characters of a query.
pub struct Scanner {
    chars: Vec<char>,
    pos: usize,
}

impl View for Scanner {
    type V = Seq<char>;

    /// The input not yet consumed.
    closed spec fn view(&self) -> Seq<char> {
        self.chars@.subrange(self.pos as int, self.chars@.len() as int)
    }
}

impl Scanner {
    #[verifier::type_invariant]
    spec fn inv(self) -> bool {
        self.pos <= self.chars.len()
    }

    /// The whole query, consumed or not; no method of the scanner changes it.
    pub closed spec fn text(&self) -> Seq<char> {
        self.chars@
    }

    pub fn new(query: &str) -> (s: Scanner)
        ensures
            s@ == query@,
            s.text() == query@,
    {
        let chars = chars_of(query);
        let s = Scanner { chars, pos: 0 };
        assert(s.chars@.subrange(0, s.chars@.len() as int) =~= s.chars@);
        s
    }

    pub fn next_token(&mut self) -> (r: Result<Token, ParseError>)
        ensures
            token_result_view(r) == scan_token(old(self)@).0,
            final(self)@ == scan_token(old(self)@).1,
            final(self).text() == old(self).text(),
    {
        self.skip_trivia();
        let c = match self.advance() {
            Some(c) => c,
            None => {
                return Err(ParseError::UnexpectedEOL);
            },
        };
        if c == '{' {
            Ok(Token::OpenBrace)
        } else if c == '}' {
            Ok(Token::CloseBrace)
        } else if c == ',' {
            Ok(Token::Comma)
        } else if c == '.' {
            Ok(Token::Dot)
        } else if c == '(' {
            Ok(Token::OpenParenthesis)
        } else if c == ')' {
            Ok(Token::CloseParenthesis)
        } else if c == '=' {
            if self.eat('~') {
                Ok(Token::Re)
            } else {
                Ok(Token::Eq)
            }
        } else if c == '!' {
            if self.eat('=') {
                Ok(Token::Neq)
            } else if self.eat('~') {
                Ok(Token::Nre)
            } else if self.eat('>') {
                Ok(Token::Npa)
            } else {
                Err(ParseError::UnexpectedChar(c))
            }
        } else if c == '|' {
            if self.eat('=') {
                Ok(Token::PipeExact)
            } else if self.eat('~') {
                Ok(Token::PipeMatch)
            } else if self.eat('>') {
                Ok(Token::PipePattern)
            } else {
                Ok(Token::Pipe)
            }
        } else if c == '"' {
            self.string()
        } else if is_ascii_alphabetic(c) || c == ':' || c == '_' {
            self.identifier(c)
        } else {
            Err(ParseError::UnexpectedChar(c))
        }
    }

    /// The next token, without consuming it.
    pub fn peek_token(&mut self) -> (r: Result<Token, ParseError>)
        ensures
            token_result_view(r) == scan_token(old(self)@).0,
            final(self)@ == old(self)@,
            final(self).text() == old(self).text(),
    {
        proof {
            use_type_invariant(&*self);
        }
        let saved = self.pos;
        let result = self.next_token();
        self.pos = saved;
        result
    }

    /// Whether only whitespace is left.
    pub fn at_end(&self) -> (r: bool)
        ensures
            r == (trim_start(self@).len() == 0),
    {
        proof {
            use_type_invariant(self);
        }
        skip_whitespace(&self.chars, self.pos) == self.chars.len()
    }

    fn skip_trivia(&mut self)
        ensures
            final(self)@ == trim_start(old(self)@),
            final(self).text() == old(self).text(),
    {
        proof {
            use_type_invariant(&*self);
        }
        self.pos = skip_whitespace(&self.chars, self.pos);
    }

    pub fn advance(&mut self) -> (r: Option<char>)
        ensures
            old(self)@.len() == 0 ==> r is None && final(self)@ == old(self)@,
            old(self)@.len() > 0 ==> r == Some(old(self)@[0]) && final(self)@ == old(self)@.drop_first(),
            final(self).text() == old(self).text(),
    {
        proof {
            use_type_invariant(&*self);
        }
        if self.pos < self.chars.len() {
            let c = self.chars[self.pos];
            assert(self@.drop_first() =~= self.chars@.subrange(self.pos + 1, self.chars@.len() as int));
            self.pos = self.pos + 1;
            Some(c)
        } else {
            None
        }
    }

    pub fn peek(&self) -> (r: Option<char>)
        ensures
            self@.len() == 0 ==> r is None,
            self@.len() > 0 ==> r == Some(self@[0]),
    {
        proof {
            use_type_invariant(self);
        }
        if self.pos < self.chars.len() {
            Some(self.chars[self.pos])
        } else {
            None
        }
    }

    /// Consumes `expected` if it is the next character.
    pub fn eat(&mut self, expected: char) -> (r: bool)
        ensures
            r == starts_with(old(self)@, expected),
            final(self)@ == if r {
                old(self)@.drop_first()
            } else {
                old(self)@
            },
            final(self).text() == old(self).text(),
    {
        if self.peek() == Some(expected) {
            self.advance();
            true
        } else {
            false
        }
    }

    /// Reads a string literal whose opening quote has been consumed.
    pub fn string(&mut self) -> (r: Result<Token, ParseError>)
        ensures
            token_result_view(r) == scan_string(old(self)@, Seq::empty()).0,
            final(self)@ == scan_string(old(self)@, Seq::empty()).1,
            final(self).text() == old(self).text(),
    {
        let mut value = String::new();
        loop
            invariant
                scan_string(self@, value@) == scan_string(old(self)@, Seq::<char>::empty()),
                self.text() == old(self).text(),
            decreases self@.len(),
        {
            let ghost s = self@;
            match self.advance() {
                None => {
                    return Err(ParseError::UnexpectedEOL);
                },
                Some(c) => {
                    if c == '"' {
                        return Ok(Token::String(value));
                    } else if c == '\\' {
                        match self.advance() {
                            None => {
                                return Err(ParseError::UnexpectedEOL);
                            },
                            Some(esc) => {
                                assert(s.skip(2) =~= s.drop_first().drop_first());
                                let e = if esc == 'n' {
                                    '\n'
                                } else if esc == 't' {
                                    '\t'
                                } else if esc == 'r' {
                                    '\r'
                                } else {
                                    esc
                                };
                                value.push(e);
                            },
                        }
                    } else {
                        value.push(c);
                    }
                },
            }
        }
    }

    /// Whether `c` may continue an identifier.
    fn is_label_cont(c: char) -> (r: bool)
        ensures
            r == is_label_cont_spec(c),
    {
        is_ascii_alphanumeric(c) || c == '_' || c == ':'
    }

    /// Reads the rest of an identifier whose first character, `first`, has been consumed.
    pub fn identifier(&mut self, first: char) -> (r: Result<Token, ParseError>)
        ensures
            r matches Ok(t) && t@ == SpecToken::Identifier(
                seq![first] + old(self)@.take(label_len(old(self)@) as int),
            ),
            final(self)@ == old(self)@.skip(label_len(old(self)@) as int),
            final(self).text() == old(self).text(),
    {
        proof {
            use_type_invariant(&*self);
        }
        let start = self.pos;
        let len = self.chars.len();
        let mut end = start;
        while end < len && Scanner::is_label_cont(self.chars[end])
            invariant
                start <= end <= len == self.chars.len(),
                start == self.pos,
                label_len(self@) == (end - start) + label_len(
                    self.chars@.subrange(end as int, len as int),
                ),
            decreases len - end,
        {
            assert(self.chars@.subrange(end as int, len as int).drop_first() =~= self.chars@.subrange(
                end + 1,
                len as int,
            ));
            end = end + 1;
        }
        let mut name = String::new();
        name.push(first);
        let mut i = start;
        while i < end
            invariant
                start <= i <= end <= len == self.chars.len(),
                name@ == seq![first] + self.chars@.subrange(start as int, i as int),
            decreases end - i,
        {
            name.push(self.chars[i]);
            assert(self.chars@.subrange(start as int, i + 1) =~= self.chars@.subrange(
                start as int,
                i as int,
            ).push(self.chars@[i as int]));
            i = i + 1;
        }
        let ghost n = label_len(self@);
        assert(n == end - start);
        assert(self@.take(n as int) =~= self.chars@.subrange(start as int, end as int));
        assert(self@.skip(n as int) =~= self.chars@.subrange(end as int, len as int));
        self.pos = end;
        Ok(Token::Identifier(name))
    }
}

} // verus!
