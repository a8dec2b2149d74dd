//! What the parser reports.
use vstd::prelude::*;

use crate::source_map::Ctxt;
use crate::token::TokenKind;

verus! {

/// What was expected, with the text that was found in its place.
#[derive(PartialEq, Eq, Debug)]
pub enum ParseErrorKind {
    /// One of the listed tokens.
    ExpFound(Vec<TokenKind>, String),
    /// The name of the struct that an `impl` block is for.
    ExpImplStructTargetFound(String),
    ExpIdentFound(String),
    ExpTyFound(String),
    ExpTyAnnotationFound(String),
    ExpParamFound(String),
    ExpExprFound(String),
    ExpOperandFound(String),
    ExpEqualFound(String),
    ExpSemicolonFound(String),
    ExpLParenFound(String),
    ExpRParenFound(String),
    ExpLBraceFound(String),
    ExpRBraceFound(String),
    /// The index of a `for` loop without a first value.
    IdxNotInitialised,
    /// An error that no input leads to.
    Unreachable(String),
}

/// [`ParseErrorKind`] as contracts speak of it.
pub enum KindView {
    ExpFound(Seq<TokenKind>, Seq<char>),
    ExpImplStructTargetFound(Seq<char>),
    ExpIdentFound(Seq<char>),
    ExpTyFound(Seq<char>),
    ExpTyAnnotationFound(Seq<char>),
    ExpParamFound(Seq<char>),
    ExpExprFound(Seq<char>),
    ExpOperandFound(Seq<char>),
    ExpEqualFound(Seq<char>),
    ExpSemicolonFound(Seq<char>),
    ExpLParenFound(Seq<char>),
    ExpRParenFound(Seq<char>),
    ExpLBraceFound(Seq<char>),
    ExpRBraceFound(Seq<char>),
    IdxNotInitialised,
    Unreachable(Seq<char>),
}

impl View for ParseErrorKind {
    type V = KindView;

    open spec fn view(&self) -> KindView {
        match self {
            ParseErrorKind::ExpFound(kinds, s) => KindView::ExpFound(kinds@, s@),
            ParseErrorKind::ExpImplStructTargetFound(s) => KindView::ExpImplStructTargetFound(s@),
            ParseErrorKind::ExpIdentFound(s) => KindView::ExpIdentFound(s@),
            ParseErrorKind::ExpTyFound(s) => KindView::ExpTyFound(s@),
            ParseErrorKind::ExpTyAnnotationFound(s) => KindView::ExpTyAnnotationFound(s@),
            ParseErrorKind::ExpParamFound(s) => KindView::ExpParamFound(s@),
            ParseErrorKind::ExpExprFound(s) => KindView::ExpExprFound(s@),
            ParseErrorKind::ExpOperandFound(s) => KindView::ExpOperandFound(s@),
            ParseErrorKind::ExpEqualFound(s) => KindView::ExpEqualFound(s@),
            ParseErrorKind::ExpSemicolonFound(s) => KindView::ExpSemicolonFound(s@),
            ParseErrorKind::ExpLParenFound(s) => KindView::ExpLParenFound(s@),
            ParseErrorKind::ExpRParenFound(s) => KindView::ExpRParenFound(s@),
            ParseErrorKind::ExpLBraceFound(s) => KindView::ExpLBraceFound(s@),
            ParseErrorKind::ExpRBraceFound(s) => KindView::ExpRBraceFound(s@),
            ParseErrorKind::IdxNotInitialised => KindView::IdxNotInitialised,
            ParseErrorKind::Unreachable(s) => KindView::Unreachable(s@),
        }
    }
}

/// A parse error, and the place it is about.
#[derive(PartialEq, Eq, Debug)]
pub struct ParseError {
    pub kind: ParseErrorKind,
    pub ctxt: Option<Ctxt>,
}

/// [`ParseError`] as contracts speak of it.
pub struct ErrorView {
    pub kind: KindView,
    pub ctxt: Option<Ctxt>,
}

impl View for ParseError {
    type V = ErrorView;

    open spec fn view(&self) -> ErrorView {
        ErrorView { kind: self.kind@, ctxt: self.ctxt }
    }
}

/// What a production expects at some point; with the text that is found there instead it
/// makes a [`ParseErrorKind`].
#[derive(Clone, Copy, PartialEq, Eq, Debug, Structural)]
pub enum Expected {
    /// `fn` or `let`: the start of a statement.
    FnOrLet,
    /// `,` or `}`: inside a struct.
    CommaOrRBrace,
    /// A name or `)`: inside a list of parameters.
    IdentOrRParen,
    /// `{` or `->`: behind a list of parameters.
    LBraceOrArrow,
    /// `;` or `=`: behind the name in a declaration.
    SemicolonOrEqual,
    /// `,` or `)`: behind an argument.
    CommaOrRParen,
    ImplTarget,
    Ident,
    Ty,
    TyAnnotation,
    Param,
    Expr,
    Operand,
    Equal,
    Semicolon,
    LParen,
    RParen,
    LBrace,
    RBrace,
    InitialisedIdx,
    Nothing,
}

impl Expected {
    /// The error for finding `found` instead.
    pub open spec fn kind_view(self, found: Seq<char>) -> KindView {
        match self {
            Expected::FnOrLet => KindView::ExpFound(seq![TokenKind::Fn, TokenKind::Let], found),
            Expected::CommaOrRBrace => KindView::ExpFound(
                seq![TokenKind::Comma, TokenKind::RightBrace],
                found,
            ),
            Expected::IdentOrRParen => KindView::ExpFound(
                seq![TokenKind::Ident, TokenKind::RightParen],
                found,
            ),
            Expected::LBraceOrArrow => KindView::ExpFound(
                seq![TokenKind::LeftBrace, TokenKind::Arrow],
                found,
            ),
            Expected::SemicolonOrEqual => KindView::ExpFound(
                seq![TokenKind::Semicolon, TokenKind::Equal],
                found,
            ),
            Expected::CommaOrRParen => KindView::ExpFound(
                seq![TokenKind::Comma, TokenKind::RightParen],
                found,
            ),
            Expected::ImplTarget => KindView::ExpImplStructTargetFound(found),
            Expected::Ident => KindView::ExpIdentFound(found),
            Expected::Ty => KindView::ExpTyFound(found),
            Expected::TyAnnotation => KindView::ExpTyAnnotationFound(found),
            Expected::Param => KindView::ExpParamFound(found),
            Expected::Expr => KindView::ExpExprFound(found),
            Expected::Operand => KindView::ExpOperandFound(found),
            Expected::Equal => KindView::ExpEqualFound(found),
            Expected::Semicolon => KindView::ExpSemicolonFound(found),
            Expected::LParen => KindView::ExpLParenFound(found),
            Expected::RParen => KindView::ExpRParenFound(found),
            Expected::LBrace => KindView::ExpLBraceFound(found),
            Expected::RBrace => KindView::ExpRBraceFound(found),
            Expected::InitialisedIdx => KindView::IdxNotInitialised,
            Expected::Nothing => KindView::Unreachable(found),
        }
    }

    /// Makes the error for finding `found` instead.
    pub fn kind(self, found: String) -> (kind: ParseErrorKind)
        ensures
            kind@ == self.kind_view(found@),
    {
        match self {
            Expected::FnOrLet => ParseErrorKind::ExpFound(
                vec![TokenKind::Fn, TokenKind::Let],
                found,
            ),
            Expected::CommaOrRBrace => ParseErrorKind::ExpFound(
                vec![TokenKind::Comma, TokenKind::RightBrace],
                found,
            ),
            Expected::IdentOrRParen => ParseErrorKind::ExpFound(
                vec![TokenKind::Ident, TokenKind::RightParen],
                found,
            ),
            Expected::LBraceOrArrow => ParseErrorKind::ExpFound(
                vec![TokenKind::LeftBrace, TokenKind::Arrow],
                found,
            ),
            Expected::SemicolonOrEqual => ParseErrorKind::ExpFound(
                vec![TokenKind::Semicolon, TokenKind::Equal],
                found,
            ),
            Expected::CommaOrRParen => ParseErrorKind::ExpFound(
                vec![TokenKind::Comma, TokenKind::RightParen],
                found,
            ),
            Expected::ImplTarget => ParseErrorKind::ExpImplStructTargetFound(found),
            Expected::Ident => ParseErrorKind::ExpIdentFound(found),
            Expected::Ty => ParseErrorKind::ExpTyFound(found),
            Expected::TyAnnotation => ParseErrorKind::ExpTyAnnotationFound(found),
            Expected::Param => ParseErrorKind::ExpParamFound(found),
            Expected::Expr => ParseErrorKind::ExpExprFound(found),
            Expected::Operand => ParseErrorKind::ExpOperandFound(found),
            Expected::Equal => ParseErrorKind::ExpEqualFound(found),
            Expected::Semicolon => ParseErrorKind::ExpSemicolonFound(found),
            Expected::LParen => ParseErrorKind::ExpLParenFound(found),
            Expected::RParen => ParseErrorKind::ExpRParenFound(found),
            Expected::LBrace => ParseErrorKind::ExpLBraceFound(found),
            Expected::RBrace => ParseErrorKind::ExpRBraceFound(found),
            Expected::InitialisedIdx => ParseErrorKind::IdxNotInitialised,
            Expected::Nothing => ParseErrorKind::Unreachable(found),
        }
    }
}

} // verus!
