//! What the parser reports when the source does not fit the grammar.

use vstd::prelude::*;
use crate::parser::tokenizer::TokenKind;

verus! {

/// Why a source text was refused. An offset is that of the first byte of the
/// token at which the fault was found.
#[derive(Debug, PartialEq, Eq, Clone, Copy, Structural)]
pub enum ParseError {
    /// The input ended where a token was required.
    UnexpectedEndOfInput,
    /// A token of the given kind was required at the given offset, and
    /// another one stands there.
    ExpectedToken(TokenKind, usize),
    /// The token of the given kind at the given offset cannot follow a
    /// declaration.
    UnexpectedToken(TokenKind, usize),
}

} // verus!
