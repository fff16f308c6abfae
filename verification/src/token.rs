//! The token record.

use vstd::prelude::*;
use crate::token_type::Type;
use crate::literal::Literal;
use crate::model::{TokenV, LitV};

verus! {

/// Source line, counted from 0.
pub type Line = u64;

/// Source column, counted from 0 and reset at each newline.
pub type Column = u64;

/// A `(line, column)` pair.
pub type Position = (Line, Column);

/// The text of a single token, exactly as it stood in the source.
pub type Lexeme = String;

/// One token: its kind, its lexeme, the literal value the lexeme spells (if
/// any), and the position recorded when its emission was committed.
#[derive(Debug)]
pub struct Token {
    pub token_type: Type,
    pub lexeme: Lexeme,
    pub literal: Option<Literal>,
    pub position: Position,
}

impl View for Token {
    type V = TokenV;

    open spec fn view(&self) -> TokenV {
        TokenV {
            kind: self.token_type,
            lexeme: self.lexeme@,
            literal: match self.literal {
                Some(l) => Some(l@),
                None => None,
            },
            position: (self.position.0 as int, self.position.1 as int),
        }
    }
}

impl Token {
    pub fn new(tt: Type, lex: Lexeme, lit: Option<Literal>, pos: Position) -> (t: Token)
        ensures
            t.token_type == tt,
            t.lexeme == lex,
            t.literal == lit,
            t.position == pos,
    {
        Token { token_type: tt, lexeme: lex, literal: lit, position: pos }
    }
}

} // verus!
