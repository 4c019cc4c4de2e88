//! The tokens of a formula.

use vstd::prelude::*;

verus! {

/// A token and the part of the source text that it was read from.
#[derive(Debug, PartialEq)]
pub struct Token {
    pub tok: TokenKind,
    pub pos: usize,
    pub len: usize,
}

/// What a token is.
#[derive(Debug, PartialEq)]
pub enum TokenKind {
    Elem(String),
    Coefficient(u32),
    ParenOpen,
    ParenClose,
    Plus,
    RightArrow,
}

impl TokenKind {
    /// The name of the element, if the token is one.
    pub fn elem(&self) -> (r: Option<&String>)
        ensures
            match *self {
                TokenKind::Elem(name) => r == Some(&name),
                _ => r is None,
            },
    {
        match self {
            TokenKind::Elem(name) => Some(name),
            _ => None,
        }
    }

    /// The coefficient, if the token is one.
    pub fn coef(&self) -> (r: Option<&u32>)
        ensures
            match *self {
                TokenKind::Coefficient(coef) => r == Some(&coef),
                _ => r is None,
            },
    {
        match self {
            TokenKind::Coefficient(coef) => Some(coef),
            _ => None,
        }
    }
}

} // verus!
