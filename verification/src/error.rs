//! The two kinds of failure: a byte that starts no token, and a token that
//! the grammar does not allow where it stands.

use crate::token::{Token, TokenView};
use crate::util::copy_bytes;
use vstd::prelude::*;

verus! {

/// Why the scanner could not produce a token.
#[derive(Clone, Copy, Debug, PartialEq, Eq, Structural)]
pub enum LexError {
    /// The byte starts no token.
    UnexpectedByte(u8),
    /// A run of digits denotes a number above `usize::MAX`.
    NumberTooLarge,
}

/// What the parser was looking for when it met a token it could not use.
#[derive(Clone, Copy, Debug, PartialEq, Eq, Structural)]
pub enum Expected {
    /// A number, a name, `(` or `if`, at the start of an operand.
    Primary,
    /// The `)` that closes a parenthesised expression.
    RightParen,
    /// The `then` of a conditional.
    Then,
    /// The `else` of a conditional.
    Else,
    /// The name at the start of a prototype.
    PrototypeName,
    /// The `(` that opens a prototype's parameter list.
    LeftParen,
    /// A parameter name, a comma or the closing `)` of a parameter list.
    Parameter,
}

/// Why a statement could not be parsed. Every variant is fatal.
#[derive(Debug, PartialEq, Eq)]
pub enum ParseError {
    /// The scanner failed while the parser was pulling a token.
    Lex(LexError),
    /// `found` stands where `expected` was required.
    Unexpected { expected: Expected, found: Token },
    /// In the argument list of a call to `callee`, an argument is followed
    /// by `found`, which is neither `,` nor `)`.
    BadArgumentList { callee: Vec<u8>, found: Token },
}

/// A parse error as a mathematical value.
pub ghost enum ParseErrorView {
    Lex(LexError),
    Unexpected { expected: Expected, found: TokenView },
    BadArgumentList { callee: Seq<u8>, found: TokenView },
}

impl View for ParseError {
    type V = ParseErrorView;

    open spec fn view(&self) -> ParseErrorView {
        match self {
            ParseError::Lex(e) => ParseErrorView::Lex(*e),
            ParseError::Unexpected { expected, found } => ParseErrorView::Unexpected {
                expected: *expected,
                found: found@,
            },
            ParseError::BadArgumentList { callee, found } => ParseErrorView::BadArgumentList {
                callee: callee@,
                found: found@,
            },
        }
    }
}

impl Clone for ParseError {
    fn clone(&self) -> (copy: ParseError)
        ensures
            copy@ == self@,
    {
        match self {
            ParseError::Lex(e) => ParseError::Lex(*e),
            ParseError::Unexpected { expected, found } => ParseError::Unexpected {
                expected: *expected,
                found: found.clone(),
            },
            ParseError::BadArgumentList { callee, found } => ParseError::BadArgumentList {
                callee: copy_bytes(callee),
                found: found.clone(),
            },
        }
    }
}

} // verus!
