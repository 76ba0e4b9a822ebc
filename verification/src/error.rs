//! The crate-wide error type: one of the three disjoint failure families,
//! lexical, syntactic, or binding.

use crate::lexer::LexError;
use crate::parser::{ParseError, ParseErrorView};
use vstd::prelude::*;

verus! {

/// Any failure of the pipeline: a binding mismatch described in text, a
/// lexical error, or a syntactic error.
#[derive(Debug, Clone)]
pub enum Error {
    /// A binding failure: a shape mismatch or an unsupported feature.
    Serde(String),
    /// A failure of the tokenizer.
    LexError(LexError),
    /// A failure of the parser.
    ParseError(ParseError),
}

/// The mathematical model of an [`Error`].
#[verifier::ext_equal]
pub enum ErrorView {
    Serde(Seq<char>),
    LexError(LexError),
    ParseError(ParseErrorView),
}

impl View for Error {
    type V = ErrorView;

    open spec fn view(&self) -> ErrorView {
        match self {
            Error::Serde(s) => ErrorView::Serde(s@),
            Error::LexError(e) => ErrorView::LexError(*e),
            Error::ParseError(e) => ErrorView::ParseError(e@),
        }
    }
}

impl From<LexError> for Error {
    /// Wraps a lexical error.
    fn from(e: LexError) -> (r: Error)
        ensures
            r == Error::LexError(e),
    {
        Error::LexError(e)
    }
}

impl vstd::std_specs::convert::FromSpecImpl<LexError> for Error {
    open spec fn obeys_from_spec() -> bool {
        true
    }

    open spec fn from_spec(e: LexError) -> Error {
        Error::LexError(e)
    }
}

impl From<ParseError> for Error {
    /// Wraps a syntactic error.
    fn from(e: ParseError) -> (r: Error)
        ensures
            r == Error::ParseError(e),
    {
        Error::ParseError(e)
    }
}

impl vstd::std_specs::convert::FromSpecImpl<ParseError> for Error {
    open spec fn obeys_from_spec() -> bool {
        true
    }

    open spec fn from_spec(e: ParseError) -> Error {
        Error::ParseError(e)
    }
}

} // verus!
