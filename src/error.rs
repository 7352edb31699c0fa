use vstd::prelude::*;

verus! {

/// Which structural expectation of the markup was not met.
#[derive(Debug, Clone, Copy, PartialEq, Eq, Structural)]
pub enum Expectation {
    /// a `<` opening an element
    OpenAngle,
    /// a `>` closing a tag
    CloseAngle,
    /// the `/` of a closing tag
    Slash,
    /// at least one letter or digit of a tag name
    TagName,
    /// at least one character of an attribute name
    AttributeName,
    /// the `=` before an attribute value
    Equals,
    /// a `"` or `'` opening an attribute value
    Quote,
    /// the quote that ends an attribute value
    ClosingQuote,
    /// a root element for the document
    RootElement,
    /// no more than one top-level node in the document
    SingleRoot,
    /// the end of the input, where a closing tag has no open element
    EndOfInput,
}

/// Why a parse failed. Every failure ends the parse.
#[derive(Debug, PartialEq, Eq)]
pub enum ParseError {
    /// A character was required but the input was exhausted.
    UnexpectedEndOfInput,
    /// The expectation `context` failed at character offset `offset`.
    MalformedMarkup { context: Expectation, offset: usize },
    /// A closing tag named `found` where `expected` was open.
    TagMismatch { expected: String, found: String },
    /// Elements nest deeper than `limit`.
    NestingTooDeep { limit: usize },
}

/// A parse failure as plain values.
pub enum ErrorView {
    UnexpectedEndOfInput,
    MalformedMarkup { context: Expectation, offset: int },
    TagMismatch { expected: Seq<char>, found: Seq<char> },
    NestingTooDeep { limit: int },
}

impl ParseError {
    /// The failure as plain values.
    pub open spec fn view(&self) -> ErrorView {
        match self {
            ParseError::UnexpectedEndOfInput => ErrorView::UnexpectedEndOfInput,
            ParseError::MalformedMarkup { context, offset } => ErrorView::MalformedMarkup {
                context: *context,
                offset: *offset as int,
            },
            ParseError::TagMismatch { expected, found } => ErrorView::TagMismatch {
                expected: expected@,
                found: found@,
            },
            ParseError::NestingTooDeep { limit } => ErrorView::NestingTooDeep {
                limit: *limit as int,
            },
        }
    }
}

} // verus!
