//! The token vocabulary: the closed set of token kinds, the `Token` value
//! (a kind paired with its lexeme), and the scanner's single error.

use vstd::prelude::*;

verus! {

/// The full lexical vocabulary of the language. No other kinds exist.
#[derive(Clone, Copy, Debug, PartialEq, Eq, Structural)]
pub enum TokenType {
    NumberLiteral,
    Identifier,
    Equal,
    Plus,
    Minus,
    Star,
    Slash,
    LeftParen,
    RightParen,
    Newline,
}

/// A meaningful unit of source code: a kind together with its lexeme, the
/// exact substring of the source text that produced it.
#[derive(Debug, PartialEq)]
pub struct Token {
    pub token_type: TokenType,
    pub lexeme: String,
}

/// The mathematical value of a `Token`: its kind and its lexeme as a
/// sequence of characters.
pub struct SpecToken {
    pub token_type: TokenType,
    pub lexeme: Seq<char>,
}

impl View for Token {
    type V = SpecToken;

    open spec fn view(&self) -> SpecToken {
        SpecToken { token_type: self.token_type, lexeme: self.lexeme@ }
    }
}

impl DeepView for Token {
    type V = SpecToken;

    open spec fn deep_view(&self) -> SpecToken {
        self.view()
    }
}

/// The scanner's single, fatal error: while accumulating a number literal,
/// the next character was neither a digit nor one of the literal's
/// terminators (space, `)`, newline). Carries the offending character and
/// its character position in the source.
#[derive(Clone, Copy, Debug, PartialEq, Eq, Structural)]
pub struct ScanError {
    pub ch: char,
    pub position: usize,
}

/// The mathematical value of a `ScanError`: the offending character and its
/// character position.
pub struct SpecScanError {
    pub ch: char,
    pub position: int,
}

impl View for ScanError {
    type V = SpecScanError;

    open spec fn view(&self) -> SpecScanError {
        SpecScanError { ch: self.ch, position: self.position as int }
    }
}

} // verus!
