//! The alphabet that the scanner emits.

use crate::operator::Operator;
use crate::util::copy_bytes;
use vstd::prelude::*;

verus! {

/// A token. `Eof` is the last one, and is given again whenever more is
/// asked for.
#[derive(Debug, PartialEq, Eq)]
pub enum Token {
    /// One of `*`, `+`, `-`, `/` and `<`.
    Operator(Operator),
    /// The end of the input.
    Eof,
    /// The keyword `def`.
    Def,
    /// The keyword `extern`.
    Extern,
    /// The keyword `if`.
    If,
    /// The keyword `then`.
    Then,
    /// The keyword `else`.
    Else,
    /// `(`.
    LeftParen,
    /// `)`.
    RightParen,
    /// `,`.
    Comma,
    /// A name: a letter followed by letters and digits, and no keyword.
    Identifier(Vec<u8>),
    /// A number in decimal digits.
    Number(usize),
}

/// A token as a mathematical value: a name is a sequence of bytes.
pub ghost enum TokenView {
    Operator(Operator),
    Eof,
    Def,
    Extern,
    If,
    Then,
    Else,
    LeftParen,
    RightParen,
    Comma,
    Identifier(Seq<u8>),
    Number(usize),
}

impl View for Token {
    type V = TokenView;

    open spec fn view(&self) -> TokenView {
        match self {
            Token::Operator(op) => TokenView::Operator(*op),
            Token::Eof => TokenView::Eof,
            Token::Def => TokenView::Def,
            Token::Extern => TokenView::Extern,
            Token::If => TokenView::If,
            Token::Then => TokenView::Then,
            Token::Else => TokenView::Else,
            Token::LeftParen => TokenView::LeftParen,
            Token::RightParen => TokenView::RightParen,
            Token::Comma => TokenView::Comma,
            Token::Identifier(name) => TokenView::Identifier(name@),
            Token::Number(value) => TokenView::Number(*value),
        }
    }
}

impl Clone for Token {
    fn clone(&self) -> (copy: Token)
        ensures
            copy@ == self@,
    {
        match self {
            Token::Operator(op) => Token::Operator(*op),
            Token::Eof => Token::Eof,
            Token::Def => Token::Def,
            Token::Extern => Token::Extern,
            Token::If => Token::If,
            Token::Then => Token::Then,
            Token::Else => Token::Else,
            Token::LeftParen => Token::LeftParen,
            Token::RightParen => Token::RightParen,
            Token::Comma => Token::Comma,
            Token::Identifier(name) => Token::Identifier(copy_bytes(name)),
            Token::Number(value) => Token::Number(*value),
        }
    }
}

} // verus!
