//! A verified lexical analyzer for a minimal imperative expression language:
//! variable assignment, the four arithmetic operators, parentheses, and line
//! breaks. `tokenize` turns source text into an ordered sequence of classified
//! tokens, or reports the single fatal lexical error (an invalid character
//! inside a number literal).

pub mod classify;
pub mod laws;
pub mod scan;
pub mod token;

pub use scan::tokenize;
pub use token::ScanError;
pub use token::Token;
pub use token::TokenType;
