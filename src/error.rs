//! The error taxonomy. Every failure is returned as a value; the first error ends a call.
use vstd::prelude::*;

use crate::text::{chars_of, string_of};

verus! {

/// Failures of the lexer.
#[derive(Debug)]
pub enum TokenError {
    InvalidChar(char),
    UnterminatedString,
    Internal(String),
}

/// The message of a lexer failure.
pub open spec fn token_error_message(e: TokenError) -> Seq<char> {
    match e {
        TokenError::InvalidChar(c) => "Invalid character: '"@.push(c).push('\''),
        TokenError::UnterminatedString => "Unterminated string literal"@,
        TokenError::Internal(s) => "Internal lexer error: "@ + s@,
    }
}

impl TokenError {
    /// A one-line description of the failure.
    pub fn message(&self) -> (r: String)
        ensures
            r@ == token_error_message(*self),
    {
        match self {
            TokenError::InvalidChar(c) => {
                let mut cs = chars_of("Invalid character: '");
                cs.push(*c);
                cs.push('\'');
                string_of(&cs)
            },
            TokenError::UnterminatedString => string_of(&chars_of("Unterminated string literal")),
            TokenError::Internal(s) => {
                let mut cs = chars_of("Internal lexer error: ");
                crate::analyzer::push_all(&mut cs, &chars_of(s.as_str()));
                string_of(&cs)
            },
        }
    }
}

/// Failures of one line's shape.
#[derive(Debug, PartialEq, Eq, Structural)]
pub enum LineStructureError {
    MissingSeparators,
    MultipleSeparators,
    MissingLeftSide,
    LeftSideMustBeIdent,
    RightSideContainsInvalidTokens,
}

/// Failures of a dotted key.
#[derive(Debug)]
pub enum KeyError {
    InvalidKeyStartsWithHyphen { key_part: String },
    InvalidKeyEndsWithHyphen { key_part: String },
    UnexpectedTokenInKey,
    KeyCannotBeNumeric { key_part: String },
}

pub enum KeyErrorView {
    InvalidKeyStartsWithHyphen(Seq<char>),
    InvalidKeyEndsWithHyphen(Seq<char>),
    UnexpectedTokenInKey,
    KeyCannotBeNumeric(Seq<char>),
}

impl View for KeyError {
    type V = KeyErrorView;

    open spec fn view(&self) -> KeyErrorView {
        match self {
            KeyError::InvalidKeyStartsWithHyphen { key_part } => KeyErrorView::InvalidKeyStartsWithHyphen(key_part@),
            KeyError::InvalidKeyEndsWithHyphen { key_part } => KeyErrorView::InvalidKeyEndsWithHyphen(key_part@),
            KeyError::UnexpectedTokenInKey => KeyErrorView::UnexpectedTokenInKey,
            KeyError::KeyCannotBeNumeric { key_part } => KeyErrorView::KeyCannotBeNumeric(key_part@),
        }
    }
}

/// Failures of the value side of a line.
#[derive(Debug, PartialEq, Eq, Structural)]
pub enum ValueError {
    MultipleNonNumericIdents,
    MultipleQuotedIdents,
    MultipleMixedIdents,
    MultipleDots,
    InvalidValueFormat,
}

/// Failures found while checking one line's tokens.
#[derive(Debug)]
pub enum TokenValidationError {
    Key(KeyError),
    Value(ValueError),
    LineStructure(LineStructureError),
    Internal(String),
}

pub enum TokenValidationErrorView {
    Key(KeyErrorView),
    Value(ValueError),
    LineStructure(LineStructureError),
    Internal,
}

impl View for TokenValidationError {
    type V = TokenValidationErrorView;

    open spec fn view(&self) -> TokenValidationErrorView {
        match self {
            TokenValidationError::Key(e) => TokenValidationErrorView::Key(e@),
            TokenValidationError::Value(e) => TokenValidationErrorView::Value(*e),
            TokenValidationError::LineStructure(e) => TokenValidationErrorView::LineStructure(*e),
            TokenValidationError::Internal(_) => TokenValidationErrorView::Internal,
        }
    }
}

/// Failures found while checking a whole document.
#[derive(Debug)]
pub enum SyntaxValidationError {
    Duplicate { key: String },
    QuotedNotAllowed,
    KeyPathConflict { key: String },
    UnknownType { symbol: String },
}

pub enum SyntaxValidationErrorView {
    Duplicate(Seq<char>),
    QuotedNotAllowed,
    KeyPathConflict(Seq<char>),
    UnknownType(Seq<char>),
}

impl View for SyntaxValidationError {
    type V = SyntaxValidationErrorView;

    open spec fn view(&self) -> SyntaxValidationErrorView {
        match self {
            SyntaxValidationError::Duplicate { key } => SyntaxValidationErrorView::Duplicate(key@),
            SyntaxValidationError::QuotedNotAllowed => SyntaxValidationErrorView::QuotedNotAllowed,
            SyntaxValidationError::KeyPathConflict { key } => SyntaxValidationErrorView::KeyPathConflict(key@),
            SyntaxValidationError::UnknownType { symbol } => SyntaxValidationErrorView::UnknownType(symbol@),
        }
    }
}

/// Failures of the parser.
#[derive(Debug)]
pub enum ParseError {
    Token(TokenValidationError),
    Syntax(SyntaxValidationError),
}

/// Failures of the public entry points.
#[derive(Debug)]
pub enum Error {
    Lexer(TokenError),
    Parse(ParseError),
    UnknownKey { key: String },
    MissingKey { key: String },
    TypeMismatch { expected: String, found: String },
}

/// A failure while reading a value tree into a typed structure.
#[derive(Debug, Clone)]
pub struct DeserializeError(pub String);

} // verus!
