//! The errors that lexing and parsing report.

use vstd::prelude::*;

verus! {

/// What went wrong while lexing or parsing.
#[derive(Clone, Copy, Debug, PartialEq, Eq, Structural)]
pub enum ErrorKind {
    /// The input ended where a token was expected.
    UnexpectedEOF,
    /// A character that starts no token.
    UnknownCharacter(char),
    /// An integer literal whose value does not fit in a `usize`.
    IntegerOverflow,
    /// A literal that is no number: a dot with no digit.
    InvalidNumber,
    /// An identifier cannot start with a decimal digit.
    IdentifierStartsWithDigit,
    /// Not one character of the expected kind was found.
    NoMatches,
    /// The parser expected a literal.
    ExpectedLiteral,
    /// The parser expected an identifier.
    ExpectedIdentifier,
}

/// A lexing error together with the byte offset of the token that could
/// not be read.
#[derive(Clone, Copy, Debug, PartialEq, Eq, Structural)]
pub struct LexError {
    /// Where, as a byte offset into the source, the failing token starts.
    pub location: usize,
    /// What went wrong there.
    pub kind: ErrorKind,
}

} // verus!
