//! The error model: one tagged error type per failure class, each
//! carrying its kind and the span of the offending text.
//!
//! An error holds a span (a character range into the source) and
//! structured data, never the source text itself; rendering a message
//! with source context is a separate concern outside this crate's core.

use vstd::prelude::*;

use crate::lexer::Token;
use crate::num::ParseIntError;

verus! {

/// A range `[start, end)` of character indices into the source text.
#[derive(Debug, Clone, Copy, PartialEq, Eq, Structural)]
pub struct Span {
    pub start: usize,
    pub end: usize,
}

/// The mathematical model of a span.
pub type SpecSpan = (int, int);

impl View for Span {
    type V = SpecSpan;

    open spec fn view(&self) -> SpecSpan {
        (self.start as int, self.end as int)
    }
}

impl Span {
    /// A span from character `start` to character `end`, exclusive.
    pub fn new(start: usize, end: usize) -> (r: Span)
        ensures
            r@ == (start as int, end as int),
    {
        Span { start, end }
    }
}

/// List of expected tokens, kept for error reporting.
#[derive(Debug, Clone)]
pub struct TokenList(pub Vec<Token>);

impl View for TokenList {
    type V = Seq<Token>;

    open spec fn view(&self) -> Seq<Token> {
        self.0@
    }
}

/// A token that wasn't expected was found while parsing.
#[derive(Debug, Clone)]
pub struct UnexpectedTokenError {
    /// The tokens the grammar would have accepted at this position.
    pub expected: TokenList,
    /// The token that was found, or `None` at the end of input.
    pub found: Option<Token>,
    /// Where the offending token (or the end of input) lies.
    pub span: Span,
}

impl UnexpectedTokenError {
    /// Build the error from the expected set, what was found, and where.
    pub fn new(expected: Vec<Token>, found: Option<Token>, span: Span) -> (r: UnexpectedTokenError)
        ensures
            r@ == SpecParseError::UnexpectedToken(expected@, found, span@),
    {
        UnexpectedTokenError { expected: TokenList(expected), found, span }
    }
}

impl View for UnexpectedTokenError {
    type V = SpecParseError;

    open spec fn view(&self) -> SpecParseError {
        SpecParseError::UnexpectedToken(self.expected@, self.found, self.span@)
    }
}

/// Why a literal failed to decode into a primitive value.
#[derive(Debug, Clone, PartialEq, Eq, Structural)]
pub enum PrimitiveErrorKind {
    /// A boolean literal spelled in none of the accepted ways.
    InvalidBoolLiteral,
    /// A malformed integer literal, with the exact reason.
    InvalidIntLiteral(ParseIntError),
    /// A malformed float literal.
    InvalidFloatLiteral,
    /// A string literal with a malformed escape sequence.
    InvalidStringLiteral,
}

impl PrimitiveErrorKind {
    /// A short human-readable description of the error.
    pub fn desc(&self) -> (r: &'static str)
        ensures
            r@ == self.spec_desc(),
    {
        match self {
            PrimitiveErrorKind::InvalidBoolLiteral => "Not a boolean",
            PrimitiveErrorKind::InvalidIntLiteral(err) => err.desc(),
            PrimitiveErrorKind::InvalidFloatLiteral => "Not a valid float",
            PrimitiveErrorKind::InvalidStringLiteral => "Not a string literal",
        }
    }

    /// The text `desc` returns, as a sequence of characters.
    pub open spec fn spec_desc(&self) -> Seq<char> {
        match self {
            PrimitiveErrorKind::InvalidBoolLiteral => "Not a boolean"@,
            PrimitiveErrorKind::InvalidIntLiteral(err) => err.spec_desc(),
            PrimitiveErrorKind::InvalidFloatLiteral => "Not a valid float"@,
            PrimitiveErrorKind::InvalidStringLiteral => "Not a string literal"@,
        }
    }
}

/// A malformed integer, float, boolean or string literal was found.
#[derive(Debug, Clone, PartialEq, Eq, Structural)]
pub struct PrimitiveError {
    pub kind: PrimitiveErrorKind,
    pub span: Span,
}

impl View for PrimitiveError {
    type V = SpecParseError;

    open spec fn view(&self) -> SpecParseError {
        SpecParseError::InvalidPrimitive(self.kind, self.span@)
    }
}

/// What went wrong with an array key.
#[derive(Debug, Clone, Copy, PartialEq, Eq, Structural)]
pub enum ArrayKeyErrorKind {
    /// The value on the left of `=>` cannot be coerced into a key.
    IntegerExpected,
    /// An explicit key broke the consecutive run a sequence requires.
    NonConsecutive,
}

/// An array key was found that is invalid for this position.
#[derive(Debug, Clone, Copy, PartialEq, Eq, Structural)]
pub struct ArrayKeyError {
    pub kind: ArrayKeyErrorKind,
    pub span: Span,
}

impl ArrayKeyError {
    /// Build the error from its kind and the key's span.
    pub fn new(kind: ArrayKeyErrorKind, span: Span) -> (r: ArrayKeyError)
        ensures
            r@ == SpecParseError::UnexpectedArrayKey(kind, span@),
    {
        ArrayKeyError { kind, span }
    }
}

impl View for ArrayKeyError {
    type V = SpecParseError;

    open spec fn view(&self) -> SpecParseError {
        SpecParseError::UnexpectedArrayKey(self.kind, self.span@)
    }
}

/// Trailing characters were left after the top-level value.
#[derive(Debug, Clone, Copy, PartialEq, Eq, Structural)]
pub struct TrailingError {
    pub span: Span,
}

impl TrailingError {
    /// Build the error from the span of the first trailing token.
    pub fn new(span: Span) -> (r: TrailingError)
        ensures
            r@ == SpecParseError::TrailingCharacters(span@),
    {
        TrailingError { span }
    }
}

impl View for TrailingError {
    type V = SpecParseError;

    open spec fn view(&self) -> SpecParseError {
        SpecParseError::TrailingCharacters(self.span@)
    }
}

/// The mathematical model of a parse error.
pub enum SpecParseError {
    UnexpectedToken(Seq<Token>, Option<Token>, SpecSpan),
    InvalidPrimitive(PrimitiveErrorKind, SpecSpan),
    UnexpectedArrayKey(ArrayKeyErrorKind, SpecSpan),
    TrailingCharacters(SpecSpan),
    Custom(Seq<char>),
}

/// Any error that occurred while trying to parse the php literal.
#[derive(Debug, Clone)]
pub enum ParseError {
    /// A token that wasn't expected was found while parsing
    UnexpectedToken(UnexpectedTokenError),
    /// A malformed integer, float, boolean or string literal was found
    InvalidPrimitive(PrimitiveError),
    /// An array key was found that is invalid for this position
    UnexpectedArrayKey(ArrayKeyError),
    /// Trailing characters after parsing
    TrailingCharacters(TrailingError),
    /// An error raised by a typed consumer driving the token walker
    Serde(String),
}

impl View for ParseError {
    type V = SpecParseError;

    open spec fn view(&self) -> SpecParseError {
        match self {
            ParseError::UnexpectedToken(e) => e@,
            ParseError::InvalidPrimitive(e) => e@,
            ParseError::UnexpectedArrayKey(e) => e@,
            ParseError::TrailingCharacters(e) => e@,
            ParseError::Serde(msg) => SpecParseError::Custom(msg@),
        }
    }
}

} // verus!
