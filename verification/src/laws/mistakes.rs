//! The language with its mistakes: what any text can be made of.
//!
//! As [`super::language`] says which trees are programs, so this says which parts a text has if
//! it is none: where a token can be missing, what is reported about it, what is then skipped,
//! and what is still a node.
use vstd::prelude::*;

use crate::error::KindView;
use crate::syntax::SyntaxKind;
use crate::token::{Token, TokenKind};

use super::language::rank;
use super::parts::{all_done, ending, is_done, kids, none_of, spelled_of, Part};

verus! {

/// A token of kind `kind`.
pub open spec fn is_token<'de>(part: Part<'de>, kind: TokenKind) -> bool {
    part matches Part::Token(tok) && tok.kind == kind
}

/// A name.
pub open spec fn is_name<'de>(part: Part<'de>) -> bool {
    part matches Part::Name(tok) && tok.kind == TokenKind::Ident
}

/// A token that is reported, or the end: `report` makes the error from what is found.
pub open spec fn is_missing<'de>(part: Part<'de>, report: spec_fn(Seq<char>) -> KindView) -> bool {
    match part {
        Part::Lost(tok, kind) => kind == report(tok.lexeme@),
        Part::End(kind) => kind == report("EOF"@),
        _ => false,
    }
}

/// A token of kind `kind`; or another one or the end, reported.
pub open spec fn token_or<'de>(
    part: Part<'de>,
    kind: TokenKind,
    report: spec_fn(Seq<char>) -> KindView,
) -> bool {
    ||| is_token(part, kind)
    ||| is_missing(part, report) && (part matches Part::Lost(tok, _) ==> tok.kind != kind)
}

/// A name; or another token or the end, reported.
pub open spec fn name_or<'de>(part: Part<'de>, report: spec_fn(Seq<char>) -> KindView) -> bool {
    ||| is_name(part)
    ||| is_missing(part, report) && (part matches Part::Lost(tok, _) ==> tok.kind
        != TokenKind::Ident)
}

/// All parts but the last have been read to their ends.
pub open spec fn is_cut<'de>(c: Seq<Part<'de>>) -> bool {
    c.len() > 0 && all_done(c.drop_last()) && !is_done(c[c.len() - 1])
}

/// A node of kind `kind`, if its parts are the `whole` of it; or parts up to one at which it was
/// given up.
pub open spec fn is_made<'de>(part: Part<'de>, kind: SyntaxKind, whole: bool) -> bool {
    match part {
        Part::Node(k, c) => k == kind && whole && all_done(c),
        Part::Open(c) => is_cut(c),
        _ => false,
    }
}

/// An error node over tokens, none of which is of a kind in `set`.
pub open spec fn is_skipped<'de>(part: Part<'de>, set: Seq<TokenKind>) -> bool {
    part matches Part::Node(kind, c) && kind == SyntaxKind::Error && none_of(c, set)
}

/// Something that failed has been given up, and what follows has been skipped.
pub open spec fn is_recovered<'de>(part: Part<'de>) -> bool {
    part matches Part::Plain(c) && c.len() == 2 && (c[1] matches Part::Node(kind, _) && kind
        == SyntaxKind::Error)
}

/// The kind of the node that the part is or ends with, if it does.
pub open spec fn last_node<'de>(part: Part<'de>) -> Option<SyntaxKind> {
    match part {
        Part::Node(kind, _) => Some(kind),
        Part::Plain(c) => if c.len() > 0 {
            match c[c.len() - 1] {
                Part::Node(kind, _) => Some(kind),
                _ => None,
            }
        } else {
            None
        },
        _ => None,
    }
}

/// A kind of node that a statement ends with.
pub open spec fn is_stmt_kind(kind: SyntaxKind) -> bool {
    ||| kind == SyntaxKind::Declaration
    ||| kind == SyntaxKind::Assignment
    ||| kind == SyntaxKind::Struct
    ||| kind == SyntaxKind::FnDecl
    ||| kind == SyntaxKind::If
    ||| kind == SyntaxKind::Impl
    ||| kind == SyntaxKind::Block
}

/// The part is empty, or its first token is of a kind in `set`.
pub open spec fn starts_in<'de>(part: Part<'de>, set: Seq<TokenKind>) -> bool {
    spelled_of(part).len() > 0 ==> set.contains(spelled_of(part)[0].kind)
}

/// The part is not empty, and its first token is of kind `kind`.
pub open spec fn starts<'de>(part: Part<'de>, kind: TokenKind) -> bool {
    spelled_of(part).len() > 0 && spelled_of(part)[0].kind == kind
}

/// The last operand of an expression is a name.
pub open spec fn ends_in_name<'de>(part: Part<'de>) -> bool
    decreases part,
{
    match part {
        Part::Node(SyntaxKind::AtomExpr, c) => c.len() == 1 && is_name(c[0]),
        Part::Node(SyntaxKind::BinExpr, c) => c.len() == 3 && ends_in_name(c[2]),
        _ => false,
    }
}

/// An expression ends in front of `toks`: no operator of rank `min` or more follows; and behind
/// a name there is a token, which is no `(`.
pub open spec fn expr_stops<'de>(part: Part<'de>, min: nat, toks: Seq<Token<'de>>) -> bool {
    &&& toks.len() > 0 ==> (rank(toks[0].kind) matches Some(r) ==> r < min)
    &&& ends_in_name(part) ==> toks.len() > 0 && toks[0].kind != TokenKind::LeftParen
}

/// An expression whose operators are at least of rank `min`; or, given up, one without an
/// operand.
pub open spec fn expr_part<'de>(part: Part<'de>, min: nat) -> bool
    decreases part, 0nat,
{
    match part {
        Part::Lost(tok, kind) => {
            &&& tok.kind != TokenKind::Number
            &&& tok.kind != TokenKind::Float
            &&& tok.kind != TokenKind::Ident
            &&& kind == KindView::ExpOperandFound(tok.lexeme@)
        },
        Part::End(kind) => kind == KindView::ExpExprFound("EOF"@),
        Part::Node(SyntaxKind::AtomExpr, c) => c.len() == 1 && (is_token(c[0], TokenKind::Number)
            || is_token(c[0], TokenKind::Float) || is_name(c[0])),
        Part::Node(SyntaxKind::FnApp, c) => {
            &&& c.len() == 2
            &&& is_name(c[0])
            &&& arguments_part(c[1])
            &&& is_done(c[1])
        },
        Part::Node(SyntaxKind::BinExpr, c) => {
            &&& c.len() == 3
            &&& is_done(c[0])
            &&& is_done(c[2])
            &&& c[1] matches Part::Token(tok) && rank(tok.kind) matches Some(r) && {
                &&& r >= min
                &&& expr_part(c[0], r)
                &&& expr_part(c[2], r + 1)
            }
        },
        Part::Open(c) => if c.len() == 2 {
            &&& is_name(c[0])
            &&& !is_done(c[1])
            &&& c[1] == Part::<'de>::End(KindView::ExpSemicolonFound("EOF"@)) || arguments_part(c[1])
        } else {
            &&& c.len() == 3
            &&& is_done(c[0])
            &&& !is_done(c[2])
            &&& c[1] matches Part::Token(tok) && rank(tok.kind) matches Some(r) && {
                &&& r >= min
                &&& expr_part(c[0], r)
                &&& expr_part(c[2], r + 1)
            }
        },
        _ => false,
    }
}

/// An argument; or, if it failed, what there is of it and what has been skipped up to a `;`.
pub open spec fn argument_part<'de>(part: Part<'de>) -> bool
    decreases part, 1nat,
{
    ||| expr_part(part, 0) && !(ending(part) is Failed)
    ||| part matches Part::Plain(c) && {
        &&& c.len() == 2
        &&& expr_part(c[0], 0)
        &&& ending(c[0]) is Failed
        &&& is_skipped(c[1], seq![TokenKind::Semicolon])
    }
}

/// What follows an argument: where one was given up, a `;`.
pub open spec fn argument_stops<'de>(part: Part<'de>, toks: Seq<Token<'de>>) -> bool {
    if is_recovered(part) {
        toks.len() > 0 ==> toks[0].kind == TokenKind::Semicolon
    } else {
        expr_stops(part, 0, toks)
    }
}

/// What stands between arguments: a `,`. Or else what is skipped up to a `;`, which is reported.
pub open spec fn separator_part<'de>(part: Part<'de>) -> bool {
    let report = |found: Seq<char>|
        KindView::ExpFound(seq![TokenKind::Comma, TokenKind::RightParen], found);
    match part {
        Part::Token(tok) => tok.kind == TokenKind::Comma,
        Part::End(_) => is_missing(part, report),
        Part::Plain(c) => {
            &&& c.len() == 2
            &&& is_skipped(c[0], seq![TokenKind::Semicolon])
            &&& c[1] matches Part::Lost(tok, _) && tok.kind == TokenKind::Semicolon && is_missing(
                c[1],
                report,
            )
            &&& !starts(part, TokenKind::Comma)
            &&& !starts(part, TokenKind::RightParen)
        },
        Part::Open(c) => {
            &&& c.len() == 2
            &&& is_skipped(c[0], seq![TokenKind::Semicolon])
            &&& c[1] is End && is_missing(c[1], report)
            &&& spelled_of(part).len() > 0
            &&& !starts(part, TokenKind::Comma)
            &&& !starts(part, TokenKind::RightParen)
        },
        _ => false,
    }
}

/// What stands at index `i` of a list of arguments.
pub open spec fn argument_item<'de>(i: int, part: Part<'de>) -> bool
    decreases part, 2nat,
{
    if i % 2 == 1 {
        &&& argument_part(part)
        &&& i == 1 ==> !starts(part, TokenKind::RightParen)
    } else {
        separator_part(part)
    }
}

/// Behind each argument stands what can follow it.
pub open spec fn arguments_stop<'de>(c: Seq<Part<'de>>) -> bool {
    forall|i: int, j: int|
        1 <= i && i + 1 == j < c.len() && i % 2 == 1 && c.len() > 2 ==> argument_stops(
            #[trigger] c[i],
            spelled_of(#[trigger] c[j]),
        )
}

/// `(`, arguments with commas between them, and `)`; or, given up, a list without an end.
pub open spec fn arguments_part<'de>(part: Part<'de>) -> bool
    decreases part, 0nat,
{
    match part {
        Part::Node(SyntaxKind::ParamList, c) => {
            &&& c.len() >= 2
            &&& all_done(c)
            &&& is_token(c[0], TokenKind::LeftParen)
            &&& is_token(c[c.len() - 1], TokenKind::RightParen)
            &&& c.len() == 2 || c.len() % 2 == 1
            &&& arguments_stop(c)
            &&& forall|i: int| 1 <= i < c.len() - 1 ==> argument_item(i, #[trigger] c[i])
        },
        Part::Open(c) => {
            &&& c.len() >= 2
            &&& is_cut(c)
            &&& is_token(c[0], TokenKind::LeftParen)
            &&& arguments_stop(c)
            &&& forall|i: int| 1 <= i < c.len() ==> argument_item(i, #[trigger] c[i])
        },
        _ => false,
    }
}

/// `name = value`, with a `;` behind it if `semi` is set.
#[verifier::opaque]
pub open spec fn assignment_part<'de>(part: Part<'de>, semi: bool) -> bool {
    let c = kids(part);
    let n: int = if semi {
        4
    } else {
        3
    };
    &&& is_made(part, SyntaxKind::Assignment, c.len() == n)
    &&& 1 <= c.len() <= n
    &&& name_or(c[0], |found: Seq<char>| KindView::ExpIdentFound(found))
    &&& c.len() > 1 ==> token_or(
        c[1],
        TokenKind::Equal,
        |found: Seq<char>| KindView::ExpEqualFound(found),
    )
    &&& c.len() > 2 ==> expr_part(c[2], 0)
    &&& c.len() > 3 ==> expr_stops(c[2], 0, spelled_of(c[3])) && token_or(
        c[3],
        TokenKind::Semicolon,
        |found: Seq<char>| KindView::ExpSemicolonFound(found),
    )
}

/// `let name;` or `let name = value;`. Behind a type there is always something missing.
#[verifier::opaque]
pub open spec fn declaration_part<'de>(part: Part<'de>) -> bool {
    let c = kids(part);
    let report = |found: Seq<char>|
        KindView::ExpFound(seq![TokenKind::Semicolon, TokenKind::Equal], found);
    &&& is_made(
        part,
        SyntaxKind::Declaration,
        c.len() == 5 || (c.len() == 3 && is_token(c[2], TokenKind::Semicolon)),
    )
    &&& 2 <= c.len() <= 5
    &&& is_token(c[0], TokenKind::Let)
    &&& name_or(c[1], |found: Seq<char>| KindView::ExpIdentFound(found))
    &&& c.len() > 2 ==> {
        ||| is_token(c[2], TokenKind::Semicolon)
        ||| is_token(c[2], TokenKind::Equal)
        ||| is_token(c[2], TokenKind::Colon)
        ||| is_missing(c[2], report) && (c[2] matches Part::Lost(tok, _) ==> tok.kind
            != TokenKind::Semicolon && tok.kind != TokenKind::Equal && tok.kind
            != TokenKind::Colon)
    }
    &&& c.len() > 3 ==> {
        ||| is_token(c[2], TokenKind::Equal) && expr_part(c[3], 0)
        ||| is_token(c[2], TokenKind::Colon) && name_or(
            c[3],
            |found: Seq<char>| KindView::ExpTyFound(found),
        )
    }
    &&& c.len() > 4 ==> {
        ||| is_token(c[2], TokenKind::Equal) && expr_stops(c[3], 0, spelled_of(c[4])) && token_or(
            c[4],
            TokenKind::Semicolon,
            |found: Seq<char>| KindView::ExpSemicolonFound(found),
        )
        ||| is_token(c[2], TokenKind::Colon) && is_missing(c[4], report)
    }
}

/// A token that is reported and gone, without giving anything up.
pub open spec fn is_let_go<'de>(
    part: Part<'de>,
    kind: TokenKind,
    report: spec_fn(Seq<char>) -> KindView,
) -> bool {
    part matches Part::Plain(c) && c.len() == 1 && (c[0] matches Part::Lost(tok, _) && tok.kind
        != kind) && is_missing(c[0], report)
}

/// `name: type`, and a `,` if there is one. Other tokens in place of the `:` and of the type are
/// reported, and the parameter is complete without them.
pub open spec fn param_part<'de>(part: Part<'de>) -> bool {
    let c = kids(part);
    let annotation = |found: Seq<char>| KindView::ExpTyAnnotationFound(found);
    let ty = |found: Seq<char>| KindView::ExpTyFound(found);
    &&& is_made(part, SyntaxKind::Param, c.len() == 4)
    &&& 2 <= c.len() <= 4
    &&& is_name(c[0])
    &&& {
        ||| is_token(c[1], TokenKind::Colon)
        ||| is_let_go(c[1], TokenKind::Colon, annotation)
        ||| c[1] is End && is_missing(c[1], annotation)
    }
    &&& c.len() > 2 ==> {
        ||| is_name(c[2])
        ||| is_let_go(c[2], TokenKind::Ident, ty)
        ||| c[2] is End && is_missing(c[2], ty)
    }
    &&& c.len() > 3 ==> {
        ||| is_token(c[3], TokenKind::Comma)
        ||| c[3] == Part::<'de>::Plain(Seq::empty())
        ||| c[3] == Part::<'de>::End(KindView::ExpRParenFound("EOF"@))
    }
}

/// The parameter has no `,`.
pub open spec fn lacks_comma<'de>(part: Part<'de>) -> bool {
    part matches Part::Node(SyntaxKind::Param, c) && c.len() == 4 && !is_token(
        c[3],
        TokenKind::Comma,
    )
}

/// Behind a parameter without a `,` stands none.
pub open spec fn commas_stop<'de>(c: Seq<Part<'de>>) -> bool {
    forall|i: int, j: int|
        0 <= i && i + 1 == j < c.len() && lacks_comma(#[trigger] c[i]) ==> !starts(
            #[trigger] c[j],
            TokenKind::Comma,
        )
}

/// What can stand behind `i` other things in a struct.
pub open spec fn field_part<'de>(i: int, part: Part<'de>) -> bool {
    let set = if i == 0 {
        seq![TokenKind::Comma, TokenKind::RightBrace]
    } else {
        seq![TokenKind::Ident, TokenKind::RightParen]
    };
    let bad = |found: Seq<char>| KindView::ExpParamFound(found);
    ||| param_part(part)
    ||| part == Part::<'de>::End(KindView::ExpFound(set, "EOF"@))
    // Something else is reported, and what stands behind it becomes an error node.
    ||| {
        let c = kids(part);
        &&& c.len() == 2
        &&& c[0] matches Part::Lost(tok, _) && tok.kind != TokenKind::Ident && tok.kind
            != TokenKind::RightBrace && is_missing(c[0], bad)
        &&& {
            ||| part is Plain && (c[1] matches Part::Node(SyntaxKind::Error, d) && d.len() == 1
                && d[0] is Token)
            ||| part is Open && c[1] is End && is_missing(c[1], bad)
        }
    }
}

/// `struct name { fields }`
#[verifier::opaque]
pub open spec fn structure_part<'de>(part: Part<'de>) -> bool {
    let c = kids(part);
    let n = c.len() as int;
    let closed = n >= 4 && is_token(c[n - 1], TokenKind::RightBrace);
    &&& is_made(part, SyntaxKind::Struct, closed)
    &&& c.len() >= 2
    &&& is_token(c[0], TokenKind::Struct)
    &&& name_or(c[1], |found: Seq<char>| KindView::ExpIdentFound(found))
    &&& c.len() > 2 ==> token_or(
        c[2],
        TokenKind::LeftBrace,
        |found: Seq<char>| KindView::ExpLBraceFound(found),
    )
    &&& commas_stop(c)
    &&& forall|i: int|
        3 <= i < (if closed {
            n - 1
        } else {
            n
        }) ==> field_part(i - 3, #[trigger] c[i])
}

/// The kinds of the tokens at which a list of parameters is given up.
pub open spec fn list_ends() -> Seq<TokenKind> {
    seq![TokenKind::Arrow, TokenKind::LeftBrace, TokenKind::RightParen]
}

/// What stands in a list of parameters where none is, and what is skipped behind it.
pub open spec fn bad_param<'de>(part: Part<'de>) -> bool {
    part matches Part::Plain(c) && {
        &&& c.len() == 2
        &&& c[0] matches Part::Lost(tok, kind) && tok.kind != TokenKind::Ident && tok.kind
            != TokenKind::RightParen && kind == KindView::ExpParamFound(tok.lexeme@)
        &&& is_skipped(c[1], list_ends())
    }
}

/// What can stand in a list of parameters.
pub open spec fn parameter_item<'de>(part: Part<'de>) -> bool {
    ||| param_part(part)
    ||| bad_param(part)
    ||| part == Part::<'de>::End(
        KindView::ExpFound(seq![TokenKind::Ident, TokenKind::RightParen], "EOF"@),
    )
}

/// Parameters; or parameters up to where something else stands.
pub open spec fn parameters_part<'de>(part: Part<'de>) -> bool {
    let c = kids(part);
    &&& match part {
        Part::Plain(_) => all_done(c),
        Part::Open(_) => is_cut(c),
        _ => false,
    }
    &&& commas_stop(c)
    &&& forall|i: int| 0 <= i < c.len() ==> parameter_item(#[trigger] c[i])
    &&& forall|i: int| 0 <= i < c.len() - 1 ==> param_part(#[trigger] c[i])
}

/// A list of parameters was given up.
pub open spec fn has_bad_param<'de>(part: Part<'de>) -> bool {
    part matches Part::Plain(c) && c.len() > 0 && bad_param(c[c.len() - 1])
}

/// The token that ends a list of parameters: a `)`, unless the list was given up.
pub open spec fn list_end<'de>(params: Part<'de>, part: Part<'de>) -> bool {
    if has_bad_param(params) {
        ||| part matches Part::Token(tok) && list_ends().contains(tok.kind)
        ||| part == Part::<'de>::End(KindView::ExpRParenFound("EOF"@))
    } else {
        is_token(part, TokenKind::RightParen)
    }
}

/// What stands between the parameters of a function and its body: nothing, or `-> type`. Or
/// else what is reported there, and what is skipped up to a `{`.
pub open spec fn result_part<'de>(part: Part<'de>) -> bool {
    let c = kids(part);
    let report = |found: Seq<char>|
        KindView::ExpFound(seq![TokenKind::LeftBrace, TokenKind::Arrow], found);
    let name = |found: Seq<char>| KindView::ExpIdentFound(found);
    match part {
        Part::End(_) => is_missing(part, report),
        Part::Plain(_) => {
            ||| c.len() == 0
            ||| c.len() == 2 && is_token(c[0], TokenKind::Arrow) && (c[1] is Name || c[1] is Lost)
                && name_or(c[1], name)
            ||| c.len() == 2 && (c[0] matches Part::Lost(tok, _) && tok.kind != TokenKind::Arrow
                && tok.kind != TokenKind::LeftBrace) && is_missing(c[0], report) && is_skipped(
                c[1],
                seq![TokenKind::LeftBrace],
            )
        },
        Part::Open(_) => c.len() == 2 && is_token(c[0], TokenKind::Arrow) && c[1] is End
            && is_missing(c[1], name),
        _ => false,
    }
}

/// A function. In front of its name stands `fn`; inside an `impl` block it may be any other
/// token that does not end the block.
pub open spec fn fn_decl_part<'de>(part: Part<'de>, inside_impl: bool) -> bool
    decreases part, 0nat,
{
    let c = kids(part);
    &&& is_made(part, SyntaxKind::FnDecl, c.len() == 7)
    &&& 2 <= c.len() <= 7
    &&& c[0] matches Part::Token(tok) && if inside_impl {
        tok.kind != TokenKind::RightBrace
    } else {
        tok.kind == TokenKind::Fn
    }
    &&& name_or(c[1], |found: Seq<char>| KindView::ExpIdentFound(found))
    &&& c.len() > 2 ==> token_or(
        c[2],
        TokenKind::LeftParen,
        |found: Seq<char>| KindView::ExpLParenFound(found),
    )
    &&& c.len() > 3 ==> parameters_part(c[3])
    &&& c.len() > 4 ==> list_end(c[3], c[4])
    &&& c.len() > 5 ==> result_part(c[5])
    &&& c.len() > 6 ==> {
        &&& block_part(c[6])
        // Without a type the body starts where the signature ends.
        &&& kids(c[5]).len() == 0 ==> starts(c[6], TokenKind::LeftBrace)
        &&& is_recovered(c[5]) ==> starts_in(c[6], seq![TokenKind::LeftBrace])
    }
}

/// The kinds of the tokens at which a failed statement is given up.
pub open spec fn stmt_starts() -> Seq<TokenKind> {
    seq![TokenKind::Let, TokenKind::Fn, TokenKind::If, TokenKind::Impl, TokenKind::Struct]
}

/// The statement is an `if`, without an `else` at its end.
pub open spec fn lacks_else<'de>(part: Part<'de>) -> bool
    decreases part,
{
    part matches Part::Node(SyntaxKind::If, c) && (c.len() == 5 || (c.len() == 7 && lacks_else(
        c[6],
    )))
}

/// What can follow a statement: behind one that failed, another one of certain kinds; and behind
/// an `if` no `else`.
pub open spec fn stmt_stops<'de>(part: Part<'de>, toks: Seq<Token<'de>>) -> bool {
    toks.len() > 0 ==> {
        &&& is_recovered(part) ==> stmt_starts().contains(toks[0].kind)
        &&& lacks_else(part) ==> toks[0].kind != TokenKind::Else
    }
}

/// Behind each part from index `from` on stands what can follow it.
pub open spec fn stmts_stop<'de>(c: Seq<Part<'de>>, from: int) -> bool {
    forall|i: int, j: int|
        from <= i && i + 1 == j < c.len() ==> stmt_stops(
            #[trigger] c[i],
            spelled_of(#[trigger] c[j]),
        )
}

/// What can stand behind `i` other things in a block.
pub open spec fn block_item<'de>(i: int, part: Part<'de>) -> bool
    decreases part, 3nat,
{
    ||| part == Part::<'de>::End(
        if i == 0 {
            KindView::ExpLBraceFound("EOF"@)
        } else {
            KindView::ExpRBraceFound("EOF"@)
        },
    )
    ||| stmt_part(part) && !starts(part, TokenKind::RightBrace)
}

/// `{ statements }`
pub open spec fn block_part<'de>(part: Part<'de>) -> bool
    decreases part, 0nat,
{
    let c = kids(part);
    let n = c.len() as int;
    let closed = n >= 2 && is_token(c[n - 1], TokenKind::RightBrace);
    &&& is_made(part, SyntaxKind::Block, closed)
    &&& c.len() >= 1
    &&& token_or(
        c[0],
        TokenKind::LeftBrace,
        |found: Seq<char>| KindView::ExpLParenFound(found),
    )
    &&& stmts_stop(c, 1)
    &&& forall|i: int|
        1 <= i < (if closed {
            n - 1
        } else {
            n
        }) ==> block_item(i - 1, #[trigger] c[i])
}

/// `if (condition) block`, with `else` and another `if` or a block behind it if there is one.
pub open spec fn if_part<'de>(part: Part<'de>) -> bool
    decreases part, 0nat,
{
    let c = kids(part);
    &&& is_made(part, SyntaxKind::If, c.len() == 5 || c.len() == 7)
    &&& 2 <= c.len() <= 7
    &&& is_token(c[0], TokenKind::If)
    &&& token_or(
        c[1],
        TokenKind::LeftParen,
        |found: Seq<char>| KindView::ExpLParenFound(found),
    )
    &&& c.len() > 2 ==> expr_part(c[2], 0)
    &&& c.len() > 3 ==> expr_stops(c[2], 0, spelled_of(c[3])) && token_or(
        c[3],
        TokenKind::RightParen,
        |found: Seq<char>| KindView::ExpRParenFound(found),
    )
    &&& c.len() > 4 ==> block_part(c[4])
    &&& c.len() > 5 ==> is_token(c[5], TokenKind::Else)
    &&& c.len() > 6 ==> if starts(c[6], TokenKind::If) {
        if_part(c[6])
    } else {
        block_part(c[6])
    }
}

/// The type of the index of a loop: `: type`, or nothing.
pub open spec fn index_type<'de>(part: Part<'de>) -> bool {
    let c = kids(part);
    let report = |found: Seq<char>| KindView::ExpTyFound(found);
    match part {
        Part::Plain(_) => c.len() == 0 || (c.len() == 2 && is_token(c[0], TokenKind::Colon)
            && is_name(c[1])),
        Part::Open(_) => c.len() == 2 && is_token(c[0], TokenKind::Colon) && !(c[1] is Name)
            && name_or(c[1], report),
        _ => false,
    }
}

/// The parts of a loop in front of its body: `for (name = value; condition; assignment)`, with a
/// type behind the name if there is one.
pub open spec fn loop_head<'de>(c: Seq<Part<'de>>) -> bool {
    let semicolon = |found: Seq<char>| KindView::ExpSemicolonFound(found);
    &&& c.len() >= 2
    &&& is_token(c[0], TokenKind::For)
    &&& token_or(
        c[1],
        TokenKind::LeftParen,
        |found: Seq<char>| KindView::ExpLParenFound(found),
    )
    &&& c.len() > 2 ==> name_or(c[2], |found: Seq<char>| KindView::ExpIdentFound(found))
    &&& c.len() > 3 ==> index_type(c[3])
    &&& c.len() > 4 ==> token_or(
        c[4],
        TokenKind::Equal,
        |found: Seq<char>| KindView::IdxNotInitialised,
    ) && (kids(c[3]).len() == 0 ==> !starts(c[4], TokenKind::Colon))
    &&& c.len() > 5 ==> expr_part(c[5], 0)
    &&& c.len() > 6 ==> expr_stops(c[5], 0, spelled_of(c[6])) && token_or(
        c[6],
        TokenKind::Semicolon,
        semicolon,
    )
    &&& c.len() > 7 ==> expr_part(c[7], 0)
    &&& c.len() > 8 ==> expr_stops(c[7], 0, spelled_of(c[8])) && token_or(
        c[8],
        TokenKind::Semicolon,
        semicolon,
    )
    &&& c.len() > 9 ==> assignment_part(c[9], false)
    &&& c.len() > 10 ==> expr_stops(kids(c[9])[2], 0, spelled_of(c[10])) && token_or(
        c[10],
        TokenKind::RightParen,
        |found: Seq<char>| KindView::ExpRParenFound(found),
    )
}

/// A loop. There is no node for it.
pub open spec fn for_part<'de>(part: Part<'de>) -> bool
    decreases part, 0nat,
{
    let c = kids(part);
    &&& match part {
        Part::Plain(_) => c.len() == 12 && all_done(c),
        Part::Open(_) => is_cut(c),
        _ => false,
    }
    &&& c.len() <= 12
    &&& loop_head(c)
    &&& c.len() > 11 ==> block_part(c[11])
}

/// What can stand in an `impl` block: a function; or, if it failed, what there is of it and what
/// has been skipped up to the next `fn`.
pub open spec fn method_part<'de>(part: Part<'de>) -> bool
    decreases part, 1nat,
{
    ||| part == Part::<'de>::End(KindView::ExpRBraceFound("EOF"@))
    ||| fn_decl_part(part, true) && !(ending(part) is Failed)
    ||| part matches Part::Plain(c) && {
        &&& c.len() == 2
        &&& fn_decl_part(c[0], true)
        &&& ending(c[0]) is Failed
        &&& is_skipped(c[1], seq![TokenKind::Fn])
    }
}

/// Behind a function that failed stands a `fn`.
pub open spec fn methods_stop<'de>(c: Seq<Part<'de>>) -> bool {
    forall|i: int, j: int|
        3 <= i && i + 1 == j < c.len() && is_recovered(#[trigger] c[i]) ==> starts_in(
            #[trigger] c[j],
            seq![TokenKind::Fn],
        )
}

/// `impl name { functions }`
pub open spec fn impl_part<'de>(part: Part<'de>) -> bool
    decreases part, 0nat,
{
    let c = kids(part);
    let n = c.len() as int;
    let closed = n >= 4 && is_token(c[n - 1], TokenKind::RightBrace);
    &&& is_made(part, SyntaxKind::Impl, closed)
    &&& c.len() >= 2
    &&& is_token(c[0], TokenKind::Impl)
    &&& name_or(c[1], |found: Seq<char>| KindView::ExpImplStructTargetFound(found))
    &&& c.len() > 2 ==> token_or(
        c[2],
        TokenKind::LeftBrace,
        |found: Seq<char>| KindView::ExpLBraceFound(found),
    )
    &&& methods_stop(c)
    &&& forall|i: int|
        3 <= i < (if closed {
            n - 1
        } else {
            n
        }) ==> method_part(#[trigger] c[i])
}

/// The part starts with a keyword that only a certain statement starts with.
pub open spec fn has_keyword<'de>(part: Part<'de>) -> bool {
    ||| starts(part, TokenKind::Let)
    ||| starts(part, TokenKind::Fn)
    ||| starts(part, TokenKind::For)
    ||| starts(part, TokenKind::If)
    ||| starts(part, TokenKind::Impl)
    ||| starts(part, TokenKind::Struct)
}

/// A statement, read to its end or given up.
pub open spec fn attempt_part<'de>(part: Part<'de>) -> bool
    decreases part, 1nat,
{
    ||| declaration_part(part)
    ||| fn_decl_part(part, false)
    ||| for_part(part)
    ||| if_part(part)
    ||| impl_part(part)
    ||| structure_part(part)
    ||| assignment_part(part, true) && !has_keyword(part)
}

/// A statement; or, if it failed, what there is of it and what has been skipped up to the next
/// token that starts one of certain kinds.
pub open spec fn stmt_part<'de>(part: Part<'de>) -> bool
    decreases part, 2nat,
{
    ||| attempt_part(part) && !(ending(part) is Failed)
    ||| part matches Part::Plain(c) && {
        &&& c.len() == 2
        &&& attempt_part(c[0])
        &&& ending(c[0]) is Failed
        &&& is_skipped(c[1], stmt_starts())
    }
}

/// The parts of a whole text: statements, of which only the last can be without an end.
pub open spec fn text_parts<'de>(c: Seq<Part<'de>>) -> bool {
    &&& c.len() > 0 ==> all_done(c.drop_last())
    &&& stmts_stop(c, 0)
    &&& forall|i: int| 0 <= i < c.len() ==> stmt_part(#[trigger] c[i])
}

} // verus!
