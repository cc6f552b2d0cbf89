//! The errors of scanning and parsing. Every position is a byte offset into the input.

use vstd::prelude::*;
use crate::token::TokenType;

verus! {

/// Why the scanner could not produce a token.
#[derive(Debug, PartialEq)]
pub enum LexError {
    /// A byte that starts no token, and where it stands.
    UnexpectedCharacter(u8, usize),
    /// A string whose closing quote is missing; the position of its opening quote.
    UnterminatedString(usize),
    /// A run of lowercase letters that is no keyword, and where it starts.
    UnknownKeyword(String, usize),
    /// A backslash in a string that starts no escape sequence; the position of the backslash.
    InvalidEscape(usize),
    /// A string or keyword whose bytes are not UTF-8; the position where it starts.
    InvalidUtf8(usize),
}

/// The mathematical content of a [`LexError`].
pub enum LexErrorView {
    UnexpectedCharacter(u8, usize),
    UnterminatedString(usize),
    UnknownKeyword(Seq<char>, usize),
    InvalidEscape(usize),
    InvalidUtf8(usize),
}

impl View for LexError {
    type V = LexErrorView;

    open spec fn view(&self) -> LexErrorView {
        match self {
            LexError::UnexpectedCharacter(c, p) => LexErrorView::UnexpectedCharacter(*c, *p),
            LexError::UnterminatedString(p) => LexErrorView::UnterminatedString(*p),
            LexError::UnknownKeyword(t, p) => LexErrorView::UnknownKeyword(t@, *p),
            LexError::InvalidEscape(p) => LexErrorView::InvalidEscape(*p),
            LexError::InvalidUtf8(p) => LexErrorView::InvalidUtf8(*p),
        }
    }
}

/// Why the parser could not produce a value.
#[derive(Debug, PartialEq)]
pub enum ParseError {
    /// A token that cannot stand where it was found: its kind and position.
    UnexpectedToken(TokenType, usize),
    /// After an array element, something other than `,` or `]`.
    ExpectedCommaOrBracket(usize),
    /// Where an object wants a key, or `,` or `}` after a member, something else.
    ExpectedKeyOrBrace(usize),
    /// After an object key, something other than `:`.
    ExpectedColon(usize),
    /// A token other than end of input after the document's value.
    TrailingInput(usize),
    /// A number literal that the number type cannot hold.
    InvalidNumber(usize),
    /// The parser was asked for a value before its lookahead window was filled.
    EmptyLookahead,
    /// The scanner failed while the lookahead window was being filled.
    Lex(LexError),
}

/// The mathematical content of a [`ParseError`].
pub enum ParseErrorView {
    UnexpectedToken(TokenType, usize),
    ExpectedCommaOrBracket(usize),
    ExpectedKeyOrBrace(usize),
    ExpectedColon(usize),
    TrailingInput(usize),
    InvalidNumber(usize),
    EmptyLookahead,
    Lex(LexErrorView),
}

impl View for ParseError {
    type V = ParseErrorView;

    open spec fn view(&self) -> ParseErrorView {
        match self {
            ParseError::UnexpectedToken(k, p) => ParseErrorView::UnexpectedToken(*k, *p),
            ParseError::ExpectedCommaOrBracket(p) => ParseErrorView::ExpectedCommaOrBracket(*p),
            ParseError::ExpectedKeyOrBrace(p) => ParseErrorView::ExpectedKeyOrBrace(*p),
            ParseError::ExpectedColon(p) => ParseErrorView::ExpectedColon(*p),
            ParseError::TrailingInput(p) => ParseErrorView::TrailingInput(*p),
            ParseError::InvalidNumber(p) => ParseErrorView::InvalidNumber(*p),
            ParseError::EmptyLookahead => ParseErrorView::EmptyLookahead,
            ParseError::Lex(e) => ParseErrorView::Lex(e@),
        }
    }
}

} // verus!
