//! Identifiers and operators.
use vstd::prelude::*;

use crate::token::TokenKind;

verus! {

/// A name in the tree: its interned symbol, and how many bytes its text takes.
#[derive(Clone, Copy, PartialEq, Eq, Debug, Structural)]
pub struct Ident {
    pub sym: usize,
    pub width: usize,
}

/// A binary operator.
#[derive(Clone, Copy, PartialEq, Eq, Debug, Structural)]
pub enum OpKind {
    Equal,
    Or,
    And,
    Greater,
    GreaterEqual,
    Less,
    LessEqual,
    Add,
    Sub,
    Mult,
    Div,
}

impl OpKind {
    /// The operator that a token of kind `kind` stands for, if it stands for one.
    pub open spec fn of_token(kind: TokenKind) -> Option<OpKind> {
        match kind {
            TokenKind::EqualEqual => Some(OpKind::Equal),
            TokenKind::Or => Some(OpKind::Or),
            TokenKind::And => Some(OpKind::And),
            TokenKind::Greater => Some(OpKind::Greater),
            TokenKind::GreaterEqual => Some(OpKind::GreaterEqual),
            TokenKind::Less => Some(OpKind::Less),
            TokenKind::LessEqual => Some(OpKind::LessEqual),
            TokenKind::Plus => Some(OpKind::Add),
            TokenKind::Minus => Some(OpKind::Sub),
            TokenKind::Star => Some(OpKind::Mult),
            TokenKind::Slash => Some(OpKind::Div),
            _ => None,
        }
    }

    /// Reads a token kind as an operator; `None` where it is no operator.
    pub fn from_token(kind: TokenKind) -> (op: Option<OpKind>)
        ensures
            op == Self::of_token(kind),
    {
        match kind {
            TokenKind::EqualEqual => Some(OpKind::Equal),
            TokenKind::Or => Some(OpKind::Or),
            TokenKind::And => Some(OpKind::And),
            TokenKind::Greater => Some(OpKind::Greater),
            TokenKind::GreaterEqual => Some(OpKind::GreaterEqual),
            TokenKind::Less => Some(OpKind::Less),
            TokenKind::LessEqual => Some(OpKind::LessEqual),
            TokenKind::Plus => Some(OpKind::Add),
            TokenKind::Minus => Some(OpKind::Sub),
            TokenKind::Star => Some(OpKind::Mult),
            TokenKind::Slash => Some(OpKind::Div),
            _ => None,
        }
    }
}

} // verus!
