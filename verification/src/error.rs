//! Errors shared by the scanner, the parser and the two type engines.

use vstd::prelude::*;
use crate::scanner::{Token, TokenV, spec_unknown_token};

verus! {

/// Every failure the front end can report.
///
/// `EndOfTerm` is an internal, recoverable signal: the parser uses it to stop
/// collecting factors and never surfaces it to callers.
#[derive(PartialEq, Eq, Debug, Clone)]
pub enum Error {
    ParseError(String, Token),
    TypeError(String, Token),
    UnexpectedEndOfFile(String),
    UnexpectedToken(String, Token),
    EndOfTerm,
}

/// The mathematical model of an [`Error`].
pub enum ErrorV {
    ParseError(Seq<char>, TokenV),
    TypeError(Seq<char>, TokenV),
    UnexpectedEndOfFile(Seq<char>),
    UnexpectedToken(Seq<char>, TokenV),
    EndOfTerm,
}

impl View for Error {
    type V = ErrorV;

    open spec fn view(&self) -> ErrorV {
        match self {
            Error::ParseError(m, t) => ErrorV::ParseError(m@, t@),
            Error::TypeError(m, t) => ErrorV::TypeError(m@, t@),
            Error::UnexpectedEndOfFile(m) => ErrorV::UnexpectedEndOfFile(m@),
            Error::UnexpectedToken(m, t) => ErrorV::UnexpectedToken(m@, t@),
            Error::EndOfTerm => ErrorV::EndOfTerm,
        }
    }
}

/// The error reported when a parameter counter cannot grow any further.
/// The counters are machine words, so this is unreachable in practice.
pub open spec fn spec_exhausted_error() -> ErrorV {
    ErrorV::TypeError("Too many type parameters"@, spec_unknown_token())
}

/// The error for an identifier that the current environment does not know.
pub open spec fn spec_unknown_identifier_error(name: Seq<char>, token: TokenV) -> ErrorV {
    ErrorV::TypeError("Unknown identifier "@ + name, token)
}

} // verus!
