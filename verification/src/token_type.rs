//! The closed enumeration of token kinds.

use vstd::prelude::*;

verus! {

/// Kind of a token: single-character punctuators, one- or two-character
/// operators, literals, and the sixteen reserved words.
#[derive(Clone, Copy, Debug, PartialEq, Eq, Structural)]
pub enum Type {
    // Single-character punctuators.
    LeftParen,
    RightParen,
    LeftBrace,
    RightBrace,
    Comma,
    Dot,
    Minus,
    Plus,
    Semicolon,
    Slash,
    Star,
    // One- or two-character operators.
    Bang,
    BangEqual,
    Equal,
    EqualEqual,
    Less,
    LessEqual,
    Greater,
    GreaterEqual,
    // Literals.
    Identifier,
    String,
    Number,
    // Reserved words.
    And,
    Class,
    Else,
    False,
    For,
    Fun,
    If,
    Nil,
    Or,
    Print,
    Return,
    Super,
    This,
    True,
    Var,
    While,
}

} // verus!
