//! Tokens: the alphabet that the parser reads.
use vstd::prelude::*;

verus! {

/// What a token is, without its text.
#[derive(Clone, Copy, PartialEq, Eq, Debug, Structural)]
pub enum TokenKind {
    /// `let`
    Let,
    /// `fn`
    Fn,
    /// `if`
    If,
    /// `else`
    Else,
    /// `for`
    For,
    /// `impl`
    Impl,
    /// `struct`
    Struct,
    /// A name.
    Ident,
    /// A whole number.
    Number,
    /// A number with a fractional part.
    Float,
    /// `(`
    LeftParen,
    /// `)`
    RightParen,
    /// `{`
    LeftBrace,
    /// `}`
    RightBrace,
    /// `,`
    Comma,
    /// `:`
    Colon,
    /// `;`
    Semicolon,
    /// `->`
    Arrow,
    /// `=`
    Equal,
    /// `==`
    EqualEqual,
    /// `||`
    Or,
    /// `&&`
    And,
    /// `>`
    Greater,
    /// `>=`
    GreaterEqual,
    /// `<`
    Less,
    /// `<=`
    LessEqual,
    /// `+`
    Plus,
    /// `-`
    Minus,
    /// `*`
    Star,
    /// `/`
    Slash,
}

/// A token: its kind, its text, and the byte offset at which the text starts.
#[derive(Clone, Copy, Debug)]
pub struct Token<'de> {
    pub kind: TokenKind,
    pub lexeme: &'de str,
    pub start: usize,
}

} // verus!
