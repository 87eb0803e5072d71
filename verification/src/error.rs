//! Errors reported while scanning and parsing a LogQL query.

use crate::scanner::{token_text, SpecToken, Token};
use vstd::prelude::*;

verus! {

#[derive(Debug)]
pub enum ParseError {
    UnexpectedChar(char),
    /// The token found, then the token the grammar wanted there.
    UnexpectedToken(Token, Token),
    UnexpectedEOL,
}

/// `ParseError` with its tokens taken by their view.
pub enum SpecParseError {
    UnexpectedChar(char),
    UnexpectedToken(SpecToken, SpecToken),
    UnexpectedEOL,
}

impl View for ParseError {
    type V = SpecParseError;

    open spec fn view(&self) -> SpecParseError {
        match self {
            ParseError::UnexpectedChar(c) => SpecParseError::UnexpectedChar(*c),
            ParseError::UnexpectedToken(a, e) => SpecParseError::UnexpectedToken(a@, e@),
            ParseError::UnexpectedEOL => SpecParseError::UnexpectedEOL,
        }
    }
}

/// The message a user reads for `e`.
pub open spec fn error_message(e: SpecParseError) -> Seq<char> {
    match e {
        SpecParseError::UnexpectedChar(c) => "Unexpected char: "@.push(c),
        SpecParseError::UnexpectedToken(actual, expected) => "Unexpected token: '"@ + token_text(actual)
            + "', expected: "@ + token_text(expected),
        SpecParseError::UnexpectedEOL => "Unexpected end of line"@,
    }
}

impl ParseError {
    /// The message a user reads; the found token is quoted as written.
    pub fn to_string(&self) -> (r: String)
        ensures
            r@ == error_message(self@),
    {
        match self {
            ParseError::UnexpectedChar(c) => {
                let mut s = String::from_str("Unexpected char: ");
                s.push(*c);
                s
            },
            ParseError::UnexpectedToken(actual, expected) => {
                let mut s = String::from_str("Unexpected token: '");
                s.append(actual.to_string().as_str());
                s.append("', expected: ");
                s.append(expected.to_string().as_str());
                s
            },
            ParseError::UnexpectedEOL => String::from_str("Unexpected end of line"),
        }
    }
}

} // verus!
