//! What the parser makes of statements, blocks and whole texts.
use vstd::prelude::*;

use crate::error::Expected;
use crate::grammar::{
    assignment, block, conform, declaration, eat, expr, fn_decl, for_head, for_loop, ident, if_head,
    if_stmt, impl_block, methods, program, signature, statement_boundary, stmt, stmts, structure,
    Flow, Snapshot,
};
use crate::laws::accounts::{
    lemma_assignment, lemma_block, lemma_conform, lemma_declaration, lemma_fn_decl, lemma_for_head,
    lemma_for_loop, lemma_if_head, lemma_if_stmt, lemma_impl_block, lemma_methods, lemma_signature,
    lemma_stmts, lemma_structure, program_is_lawful, stmt_is_lawful,
};
use crate::laws::lawful::{lawful, lemma_ran_out};
use crate::laws::ledger::{lemma_follows, lemma_follows_recover};
use crate::laws::mistakes::{
    attempt_part, block_item, block_part, expr_part, expr_stops, fn_decl_part, for_part, if_part,
    impl_part, is_cut, is_name, is_recovered, is_skipped, is_stmt_kind, is_token, lacks_else,
    last_node, loop_head, method_part, methods_stop, name_or, starts, starts_in, stmt_part,
    stmt_starts, stmt_stops, stmts_stop, text_parts, token_or,
};
use crate::laws::parts::{
    all_done, ending, is_done, kids, lemma_all_done_push, lemma_spelled_add, lemma_spelled_one,
    lemma_yields_close, lemma_yields_first, lemma_yields_none, lemma_yields_open,
    lemma_yields_plain, missed, spelled, spelled_of, yields, Part,
};
use crate::syntax::SyntaxKind;
use crate::token::{Token, TokenKind};

use super::steps::{
    lemma_miss, lemma_name, lemma_part, lemma_recovered, lemma_starts, lemma_take, lemma_token,
};
use super::expressions::expr_is_told;
use super::statements::{
    assignment_is_told, declaration_is_told, for_head_is_told, signature_is_told, structure_is_told,
};

verus! {

/// What a statement makes before it is given up.
spec fn attempt<'de>(s: Snapshot<'de>) -> (Flow, Snapshot<'de>) {
    match s.rest[0].kind {
        TokenKind::Let => declaration(s),
        TokenKind::Fn => fn_decl(s),
        TokenKind::For => for_loop(s),
        TokenKind::If => if_stmt(s),
        TokenKind::Impl => impl_block(s),
        TokenKind::Struct => structure(s),
        _ => assignment(s, true),
    }
}

proof fn lemma_attempt<'de>(s: Snapshot<'de>)
    requires
        !s.at_end(),
    ensures
        stmt(s) == conform(attempt(s), statement_boundary()),
{
}

/// A statement that fails reports an error, and giving it up takes none back.
proof fn lemma_attempt_reports<'de>(s: Snapshot<'de>)
    requires
        !s.at_end(),
        attempt(s).0 is Failed,
    ensures
        attempt(s).1.errs.len() > s.errs.len(),
        attempt(s).1.recover(statement_boundary()).errs == attempt(s).1.errs,
{
    lemma_follows_recover(attempt(s).1, statement_boundary());
    match s.rest[0].kind {
        TokenKind::Let => lemma_declaration(s),
        TokenKind::Fn => lemma_fn_decl(s),
        TokenKind::For => lemma_for_loop(s),
        TokenKind::If => lemma_if_stmt(s),
        TokenKind::Impl => lemma_impl_block(s),
        TokenKind::Struct => lemma_structure(s),
        _ => lemma_assignment(s, true),
    }
}

/// A statement is read, or fails and is given up.
#[verifier::rlimit(40)]
proof fn attempt_is_told<'de>(s: Snapshot<'de>) -> (part: Part<'de>)
    requires
        !s.at_end(),
    ensures
        attempt(s).0 is Done ==> (last_node(part) matches Some(kind) && is_stmt_kind(kind)),
        attempt_part(part),
        ending(part) == attempt(s).0,
        yields(s, seq![part], attempt(s).1),
        attempt(s).0 is Done && lacks_else(part) ==> !attempt(s).1.next_is(TokenKind::Else),
        !is_recovered(part),
    decreases s.rest.len(), 3nat,
{
    let kind = s.rest[0].kind;
    if kind == TokenKind::Let {
        let part = declaration_is_told(s);
        assert(attempt_part(part));
        part
    } else if kind == TokenKind::Fn {
        let part = fn_decl_is_told(s);
        assert(attempt_part(part));
        part
    } else if kind == TokenKind::For {
        let part = for_is_told(s);
        assert(attempt_part(part));
        part
    } else if kind == TokenKind::If {
        let part = if_is_told(s);
        assert(attempt_part(part));
        part
    } else if kind == TokenKind::Impl {
        let part = impl_is_told(s);
        assert(attempt_part(part));
        part
    } else if kind == TokenKind::Struct {
        let part = structure_is_told(s);
        assert(attempt_part(part));
        part
    } else {
        let part = assignment_is_told(s, true);
        lemma_starts(s, part, assignment(s, true).1);
        assert(attempt_part(part));
        part
    }
}

/// A statement, or one that failed and what is skipped behind it.
pub proof fn stmt_is_told<'de>(s: Snapshot<'de>) -> (part: Part<'de>)
    requires
        !s.at_end(),
    ensures
        is_recovered(part) ==> is_skipped(kids(part)[1], stmt_starts()),
        stmt_part(part),
        ending(part) == stmt(s).0,
        yields(s, seq![part], stmt(s).1),
        stmt(s).0 is Done ==> stmt_stops(part, stmt(s).1.rest),
        stmt(s).0 is Done ==> (last_node(part) matches Some(kind) && if is_recovered(part) {
            kind == SyntaxKind::Error && stmt(s).1.errs.len() > s.errs.len()
        } else {
            is_stmt_kind(kind)
        }),
    decreases s.rest.len(), 4nat,
{
    let raw = attempt_is_told(s);
    lemma_attempt(s);
    if attempt(s).0 is Failed {
        lemma_attempt_reports(s);
        lemma_recovered(s, raw, attempt(s).1, statement_boundary())
    } else {
        raw
    }
}

/// The parts of a block so far.
#[verifier::opaque]
spec fn are_block_items<'de>(c: Seq<Part<'de>>) -> bool {
    &&& c.len() >= 1
    &&& is_token(c[0], TokenKind::LeftBrace)
    &&& stmts_stop(c, 1)
    &&& forall|i: int| 1 <= i < c.len() ==> block_item(i - 1, #[trigger] c[i])
}

proof fn lemma_are_block_items<'de>(c: Seq<Part<'de>>, part: Part<'de>)
    requires
        are_block_items(c),
        block_item(c.len() - 1, part),
        c.len() > 1 ==> stmt_stops(c[c.len() - 1], spelled_of(part)),
    ensures
        are_block_items(c.push(part)),
{
    reveal(are_block_items);
    assert(forall|i: int| 0 <= i < c.len() ==> c.push(part)[i] == c[i]);
}

proof fn lemma_block_cut<'de>(c: Seq<Part<'de>>)
    requires
        are_block_items(c),
        is_cut(c),
    ensures
        block_part(Part::Open(c)),
{
    reveal(are_block_items);
}

proof fn lemma_block_closed<'de>(c: Seq<Part<'de>>, tok: Token<'de>)
    requires
        are_block_items(c),
        all_done(c),
        tok.kind == TokenKind::RightBrace,
        c.len() > 1 ==> stmt_stops(c[c.len() - 1], seq![tok]),
    ensures
        block_part(Part::Node(SyntaxKind::Block, c.push(Part::Token(tok)))),
{
    reveal(are_block_items);
    let last = Part::Token(tok);
    lemma_all_done_push(c, last);
    assert(spelled_of(last) == seq![tok]);
    assert(forall|i: int| 0 <= i < c.len() ==> c.push(last)[i] == c[i]);
}

/// What follows a statement, by the part that is read behind it.
proof fn lemma_stmt_stops<'de>(
    part: Part<'de>,
    s: Snapshot<'de>,
    next: Part<'de>,
    after: Snapshot<'de>,
)
    requires
        stmt_stops(part, s.rest),
        yields(s, seq![next], after),
    ensures
        stmt_stops(part, spelled_of(next)),
{
    lemma_yields_first(s, next, after);
}

proof fn stmts_are_told<'de>(
    s0: Snapshot<'de>,
    c: Seq<Part<'de>>,
    s: Snapshot<'de>,
) -> (d: Seq<Part<'de>>)
    requires
        yields(s0, c, s),
        all_done(c),
        are_block_items(c),
        c.len() >= 1,
        c.len() == 1 ==> !s.at_end(),
        c.len() > 1 ==> stmt_stops(c[c.len() - 1], s.rest),
    ensures
        ({
            let (flow, after) = stmts(s);
            &&& yields(s0, d, after)
            &&& are_block_items(d)
            &&& d.len() >= 1
            &&& flow is Done ==> {
                &&& all_done(d)
                &&& after.next_is(TokenKind::RightBrace)
                &&& d.len() > 1 ==> stmt_stops(d[d.len() - 1], seq![after.rest[0]])
            }
            &&& !(flow is Done) ==> is_cut(d) && ending(d[d.len() - 1]) == flow
        }),
    decreases s.rest.len(), 5nat,
{
    if s.at_end() {
        lemma_miss(s0, c, s, Expected::RBrace);
        let end = missed::<'de>(Expected::RBrace);
        assert(block_item(c.len() - 1, end));
        lemma_are_block_items(c, end);
        c.push(end)
    } else if s.next_is(TokenKind::RightBrace) {
        c
    } else {
        stmt_is_lawful(s);
        let (flow, s1) = stmt(s);
        let next = stmt_is_told(s);
        lemma_part(s0, c, s, next, s1);
        lemma_starts(s, next, s1);
        assert(block_item(c.len() - 1, next));
        if c.len() > 1 {
            lemma_stmt_stops(c[c.len() - 1], s, next, s1);
        }
        lemma_are_block_items(c, next);
        if flow is Done {
            stmts_are_told(s0, c.push(next), s1)
        } else {
            c.push(next)
        }
    }
}

/// A block, or one without a `{` or an end.
pub proof fn block_is_told<'de>(s: Snapshot<'de>) -> (part: Part<'de>)
    ensures
        part is Open ==> !is_done(part),
        part is Open || (part matches Part::Node(kind, _) && kind == SyntaxKind::Block),
        block_part(part),
        ending(part) == block(s).0,
        yields(s, seq![part], block(s).1),
    decreases s.rest.len(), 0nat,
{
    let none = Seq::<Part<'de>>::empty();
    lemma_yields_none(s);
    let brace = lemma_token(s, none, s, TokenKind::LeftBrace, Expected::LParen);
    let c = none.push(brace);
    let (flow, s1) = eat(s, TokenKind::LeftBrace, Expected::LParen);
    if !(flow is Done) {
        Part::Open(c)
    } else {
        assert(are_block_items(c)) by {
            reveal(are_block_items);
        }
        if s1.at_end() {
            lemma_miss(s, c, s1, Expected::LBrace);
            let end = missed::<'de>(Expected::LBrace);
            assert(block_item(0, end));
            lemma_are_block_items(c, end);
            lemma_block_cut(c.push(end));
            Part::Open(c.push(end))
        } else {
            let (flow, s2) = stmts(s1);
            let d = stmts_are_told(s, c, s1);
            if flow is Done {
                lemma_take(s, d, s2);
                let e = d.push(Part::Token(s2.rest[0]));
                lemma_yields_close(s, e, s2.take(), SyntaxKind::Block);
                lemma_block_closed(d, s2.rest[0]);
                Part::Node(SyntaxKind::Block, e)
            } else {
                lemma_yields_open(s, d, s2);
                lemma_block_cut(d);
                Part::Open(d)
            }
        }
    }
}

/// A loop, or one that was given up.
pub proof fn for_is_told<'de>(s: Snapshot<'de>) -> (part: Part<'de>)
    requires
        s.next_is(TokenKind::For),
    ensures
        part is Open ==> !is_done(part),
        part is Plain ==> last_node(part) == Some(SyntaxKind::Block),
        part is Open || part is Plain,
        !is_recovered(part),
        for_part(part),
        ending(part) == for_loop(s).0,
        yields(s, seq![part], for_loop(s).1),
    decreases s.rest.len(), 2nat,
{
    lemma_for_head(s);
    let (flow, s1) = for_head(s);
    let c = for_head_is_told(s);
    if !(flow is Done) {
        lemma_yields_open(s, c, s1);
        Part::Open(c)
    } else {
        let body = block_is_told(s1);
        let (flow, s2) = block(s1);
        lemma_part(s, c, s1, body, s2);
        let d = c.push(body);
        lemma_loop_head(c, body);
        if flow is Done {
            lemma_yields_plain(s, d, s2);
            Part::Plain(d)
        } else {
            Part::Open(d)
        }
    }
}

proof fn lemma_loop_head<'de>(c: Seq<Part<'de>>, part: Part<'de>)
    requires
        c.len() == 11,
        loop_head(c),
    ensures
        loop_head(c.push(part)),
{
    assert(forall|i: int| 0 <= i < c.len() ==> c.push(part)[i] == c[i]);
}

/// A function, or one that was given up.
pub proof fn fn_decl_is_told<'de>(s: Snapshot<'de>) -> (part: Part<'de>)
    requires
        !s.at_end(),
    ensures
        part is Open ==> !is_done(part),
        part is Open || (part matches Part::Node(kind, _) && kind == SyntaxKind::FnDecl),
        s.next_is(TokenKind::Fn) ==> fn_decl_part(part, false),
        !s.next_is(TokenKind::RightBrace) ==> fn_decl_part(part, true),
        ending(part) == fn_decl(s).0,
        yields(s, seq![part], fn_decl(s).1),
    decreases s.rest.len(), 2nat,
{
    lemma_signature(s);
    let (flow, s1) = signature(s);
    let c = signature_is_told(s);
    if !(flow is Done) {
        lemma_yields_open(s, c, s1);
        Part::Open(c)
    } else {
        lemma_block(s1);
        let body = block_is_told(s1);
        let (flow, s2) = block(s1);
        lemma_part(s, c, s1, body, s2);
        lemma_starts(s1, body, s2);
        let d = c.push(body);
        assert(forall|i: int| 0 <= i < c.len() ==> d[i] == c[i]);
        assert(d[6] == body);
        if s1.next_is(TokenKind::LeftBrace) {
            lemma_block_starts(s1, body);
        }
        lemma_in_one(TokenKind::LeftBrace);
        if flow is Done {
            lemma_yields_close(s, d, s2, SyntaxKind::FnDecl);
            Part::Node(SyntaxKind::FnDecl, d)
        } else {
            Part::Open(d)
        }
    }
}

proof fn lemma_in_one(kind: TokenKind)
    ensures
        seq![kind].contains(kind),
{
    assert(seq![kind][0] == kind);
}

/// A block that has a `{` starts with it.
proof fn lemma_block_starts<'de>(s: Snapshot<'de>, part: Part<'de>)
    requires
        s.next_is(TokenKind::LeftBrace),
        yields(s, seq![part], block(s).1),
    ensures
        starts(part, TokenKind::LeftBrace),
{
    lemma_yields_first(s, part, block(s).1);
    let s1 = s.take();
    if !s1.at_end() {
        lemma_stmts(s1);
        lemma_lawful_shrinks(s1, stmts(s1));
    }
}

/// No production brings a token back.
proof fn lemma_lawful_shrinks<'de>(s: Snapshot<'de>, result: (Flow, Snapshot<'de>))
    requires
        lawful(s, result),
    ensures
        result.1.rest.len() <= s.rest.len(),
{
    if result.0 is Eof {
        lemma_ran_out(s, result.1);
    } else {
        lemma_follows(s, result.1);
    }
}

/// An `if`, or one that was given up.
#[verifier::rlimit(40)]
pub proof fn if_is_told<'de>(s: Snapshot<'de>) -> (part: Part<'de>)
    requires
        s.next_is(TokenKind::If),
    ensures
        part is Open ==> !is_done(part),
        part matches Part::Node(kind, _) ==> kind == SyntaxKind::If,
        part is Open || part is Node,
        if_part(part),
        ending(part) == if_stmt(s).0,
        yields(s, seq![part], if_stmt(s).1),
        if_stmt(s).0 is Done && lacks_else(part) ==> !if_stmt(s).1.next_is(TokenKind::Else),
        starts(part, TokenKind::If),
    decreases s.rest.len(), 1nat,
{
    lemma_if_head(s);
    let (flow, s1) = if_head(s);
    let c = if_head_is_told(s);
    if !(flow is Done) {
        lemma_yields_open(s, c, s1);
        lemma_if_starts(s, Part::Open(c), s1);
        Part::Open(c)
    } else {
        lemma_block(s1);
        let body = block_is_told(s1);
        let (flow, s2) = block(s1);
        lemma_part(s, c, s1, body, s2);
        let d = c.push(body);
        if !(flow is Done) {
            lemma_if_starts(s, Part::Open(d), s2);
            Part::Open(d)
        } else if !s2.next_is(TokenKind::Else) {
            lemma_yields_close(s, d, s2, SyntaxKind::If);
            let s3 = s2.close(s.out.len(), SyntaxKind::If);
            lemma_if_starts(s, Part::Node(SyntaxKind::If, d), s3);
            Part::Node(SyntaxKind::If, d)
        } else {
            lemma_take(s, d, s2);
            let e = d.push(Part::Token(s2.rest[0]));
            let s3 = s2.take();
            let other = if s3.next_is(TokenKind::If) {
                if_is_told(s3)
            } else {
                block_is_told(s3)
            };
            let (flow, s4) = if s3.next_is(TokenKind::If) {
                if_stmt(s3)
            } else {
                block(s3)
            };
            lemma_part(s, e, s3, other, s4);
            lemma_starts(s3, other, s4);
            let f = e.push(other);
            if !(flow is Done) {
                lemma_if_starts(s, Part::Open(f), s4);
                Part::Open(f)
            } else {
                lemma_yields_close(s, f, s4, SyntaxKind::If);
                let s5 = s4.close(s.out.len(), SyntaxKind::If);
                lemma_if_starts(s, Part::Node(SyntaxKind::If, f), s5);
                assert(f[6] == other);
                assert(!lacks_else(other) || s3.next_is(TokenKind::If));
                Part::Node(SyntaxKind::If, f)
            }
        }
    }
}

/// An `if` starts with its `if`.
proof fn lemma_if_starts<'de>(s: Snapshot<'de>, part: Part<'de>, after: Snapshot<'de>)
    requires
        s.next_is(TokenKind::If),
        yields(s, seq![part], after),
        kids(part).len() > 0,
        part is Node || part is Open,
        kids(part)[0] == Part::Token(s.rest[0]),
    ensures
        starts(part, TokenKind::If),
{
    let c = kids(part);
    assert(c =~= seq![c[0]] + c.skip(1));
    lemma_spelled_add(seq![c[0]], c.skip(1));
    lemma_spelled_one(c[0]);
    assert(spelled_of(part) == spelled(c));
}

/// An `if` in front of its branches.
proof fn if_head_is_told<'de>(s: Snapshot<'de>) -> (c: Seq<Part<'de>>)
    requires
        s.next_is(TokenKind::If),
    ensures
        ({
            let (flow, after) = if_head(s);
            &&& 2 <= c.len() <= 4
            &&& c[0] == Part::Token(s.rest[0])
            &&& token_or(
                c[1],
                TokenKind::LeftParen,
                |found: Seq<char>| Expected::LParen.kind_view(found),
            )
            &&& c.len() > 2 ==> expr_part(c[2], 0)
            &&& c.len() > 3 ==> expr_stops(c[2], 0, spelled_of(c[3])) && token_or(
                c[3],
                TokenKind::RightParen,
                |found: Seq<char>| Expected::RParen.kind_view(found),
            )
            &&& yields(s, c, after)
            &&& flow is Done ==> c.len() == 4 && all_done(c)
            &&& !(flow is Done) ==> is_cut(c) && ending(c[c.len() - 1]) == flow
        }),
{
    let none = Seq::<Part<'de>>::empty();
    lemma_yields_none(s);
    lemma_take(s, none, s);
    let c0 = none.push(Part::Token(s.rest[0]));
    let s0 = s.take();
    let paren = lemma_token(s, c0, s0, TokenKind::LeftParen, Expected::LParen);
    let c1 = c0.push(paren);
    let (flow, s1) = eat(s0, TokenKind::LeftParen, Expected::LParen);
    if !(flow is Done) {
        c1
    } else {
        let condition = expr_is_told(s1, 0);
        let (flow, s2) = expr(s1, 0);
        lemma_part(s, c1, s1, condition, s2);
        let c2 = c1.push(condition);
        if !(flow is Done) {
            c2
        } else {
            let end = lemma_token(s, c2, s2, TokenKind::RightParen, Expected::RParen);
            c2.push(end)
        }
    }
}

/// The parts of an `impl` block so far.
#[verifier::opaque]
spec fn are_methods<'de>(c: Seq<Part<'de>>) -> bool {
    &&& c.len() >= 3
    &&& is_token(c[0], TokenKind::Impl)
    &&& is_name(c[1])
    &&& is_token(c[2], TokenKind::LeftBrace)
    &&& methods_stop(c)
    &&& forall|i: int| 3 <= i < c.len() ==> method_part(#[trigger] c[i])
}

proof fn lemma_are_methods<'de>(c: Seq<Part<'de>>, part: Part<'de>)
    requires
        are_methods(c),
        method_part(part),
        c.len() > 3 && is_recovered(c[c.len() - 1]) ==> starts_in(part, seq![TokenKind::Fn]),
    ensures
        are_methods(c.push(part)),
{
    reveal(are_methods);
    assert(forall|i: int| 0 <= i < c.len() ==> c.push(part)[i] == c[i]);
}

proof fn lemma_methods_cut<'de>(c: Seq<Part<'de>>)
    requires
        are_methods(c),
        is_cut(c),
    ensures
        impl_part(Part::Open(c)),
{
    reveal(are_methods);
}

proof fn lemma_impl_open<'de>(c: Seq<Part<'de>>)
    requires
        2 <= c.len() <= 3,
        is_cut(c),
        is_token(c[0], TokenKind::Impl),
        name_or(c[1], |found: Seq<char>| Expected::ImplTarget.kind_view(found)),
        c.len() > 2 ==> token_or(
            c[2],
            TokenKind::LeftBrace,
            |found: Seq<char>| Expected::LBrace.kind_view(found),
        ),
    ensures
        impl_part(Part::Open(c)),
{
}

proof fn lemma_methods_closed<'de>(c: Seq<Part<'de>>, tok: Token<'de>)
    requires
        are_methods(c),
        all_done(c),
        tok.kind == TokenKind::RightBrace,
        c.len() > 3 ==> !is_recovered(c[c.len() - 1]),
    ensures
        impl_part(Part::Node(SyntaxKind::Impl, c.push(Part::Token(tok)))),
{
    reveal(are_methods);
    let last = Part::Token(tok);
    lemma_all_done_push(c, last);
    assert(forall|i: int| 0 <= i < c.len() ==> c.push(last)[i] == c[i]);
}

proof fn methods_are_told<'de>(
    s0: Snapshot<'de>,
    c: Seq<Part<'de>>,
    s: Snapshot<'de>,
) -> (d: Seq<Part<'de>>)
    requires
        yields(s0, c, s),
        all_done(c),
        are_methods(c),
        c.len() >= 3,
        c.len() > 3 && is_recovered(c[c.len() - 1]) ==> s.at_end() || s.next_is(TokenKind::Fn),
    ensures
        ({
            let (flow, after) = methods(s);
            &&& yields(s0, d, after)
            &&& are_methods(d)
            &&& d.len() >= 3
            &&& flow is Done ==> all_done(d) && (d.len() > 3 ==> !is_recovered(d[d.len() - 1]))
            &&& !(flow is Done) ==> is_cut(d) && ending(d[d.len() - 1]) == flow
        }),
    decreases s.rest.len(), 3nat,
{
    let set = seq![TokenKind::Fn];
    if s.at_end() {
        lemma_miss(s0, c, s, Expected::RBrace);
        let end = missed::<'de>(Expected::RBrace);
        assert(method_part(end));
        lemma_are_methods(c, end);
        c.push(end)
    } else if s.next_is(TokenKind::RightBrace) {
        c
    } else {
        lemma_fn_decl(s);
        lemma_conform(s, fn_decl(s), set);
        let (flow, s1) = conform(fn_decl(s), set);
        let raw = fn_decl_is_told(s);
        let next = if fn_decl(s).0 is Failed {
            lemma_recovered(s, raw, fn_decl(s).1, set)
        } else {
            raw
        };
        assert(method_part(next));
        lemma_part(s0, c, s, next, s1);
        lemma_starts(s, next, s1);
        lemma_in_one(TokenKind::Fn);
        lemma_are_methods(c, next);
        if flow is Done {
            methods_are_told(s0, c.push(next), s1)
        } else {
            c.push(next)
        }
    }
}

/// An `impl` block, or one that was given up.
pub proof fn impl_is_told<'de>(s: Snapshot<'de>) -> (part: Part<'de>)
    requires
        s.next_is(TokenKind::Impl),
    ensures
        part is Open ==> !is_done(part),
        part is Open || (part matches Part::Node(kind, _) && kind == SyntaxKind::Impl),
        impl_part(part),
        ending(part) == impl_block(s).0,
        yields(s, seq![part], impl_block(s).1),
    decreases s.rest.len(), 1nat,
{
    let none = Seq::<Part<'de>>::empty();
    lemma_yields_none(s);
    lemma_take(s, none, s);
    let c0 = none.push(Part::Token(s.rest[0]));
    let s0 = s.take();
    let name = lemma_name(s, c0, s0, Expected::ImplTarget);
    let c1 = c0.push(name);
    let (flow, s1) = ident(s0, Expected::ImplTarget);
    if !(flow is Done) {
        lemma_impl_open(c1);
        Part::Open(c1)
    } else {
        let brace = lemma_token(s, c1, s1, TokenKind::LeftBrace, Expected::LBrace);
        let c2 = c1.push(brace);
        let (flow, s2) = eat(s1, TokenKind::LeftBrace, Expected::LBrace);
        if !(flow is Done) {
            lemma_impl_open(c2);
            Part::Open(c2)
        } else {
            assert(are_methods(c2)) by {
                reveal(are_methods);
            }
            lemma_methods(s2);
            let (flow, s3) = methods(s2);
            let d = methods_are_told(s, c2, s2);
            if flow is Done {
                lemma_take(s, d, s3);
                let e = d.push(Part::Token(s3.rest[0]));
                lemma_yields_close(s, e, s3.take(), SyntaxKind::Impl);
                lemma_methods_closed(d, s3.rest[0]);
                Part::Node(SyntaxKind::Impl, e)
            } else {
                lemma_yields_open(s, d, s3);
                lemma_methods_cut(d);
                Part::Open(d)
            }
        }
    }
}

/// Statements so far.
#[verifier::opaque]
spec fn are_stmts<'de>(c: Seq<Part<'de>>) -> bool {
    &&& stmts_stop(c, 0)
    &&& forall|i: int| 0 <= i < c.len() ==> stmt_part(#[trigger] c[i])
}

proof fn lemma_are_stmts<'de>(c: Seq<Part<'de>>, part: Part<'de>)
    requires
        are_stmts(c),
        stmt_part(part),
        c.len() > 0 ==> stmt_stops(c[c.len() - 1], spelled_of(part)),
    ensures
        are_stmts(c.push(part)),
{
    reveal(are_stmts);
    assert(forall|i: int| 0 <= i < c.len() ==> c.push(part)[i] == c[i]);
}

proof fn text_is_told<'de>(
    s0: Snapshot<'de>,
    c: Seq<Part<'de>>,
    s: Snapshot<'de>,
) -> (d: Seq<Part<'de>>)
    requires
        yields(s0, c, s),
        all_done(c),
        are_stmts(c),
        c.len() > 0 ==> stmt_stops(c[c.len() - 1], s.rest),
    ensures
        ({
            let (flow, after) = program(s);
            &&& yields(s0, d, after)
            &&& are_stmts(d)
            &&& flow is Done ==> all_done(d)
            &&& !(flow is Done) ==> is_cut(d) && ending(d[d.len() - 1]) == flow
        }),
    decreases s.rest.len(),
{
    if s.at_end() {
        c
    } else {
        stmt_is_lawful(s);
        let (flow, s1) = stmt(s);
        let next = stmt_is_told(s);
        lemma_part(s0, c, s, next, s1);
        if c.len() > 0 {
            lemma_stmt_stops(c[c.len() - 1], s, next, s1);
        }
        lemma_are_stmts(c, next);
        if flow is Done {
            text_is_told(s0, c.push(next), s1)
        } else {
            c.push(next)
        }
    }
}

/// Whatever the text, a parse makes of it the parts that the language with its mistakes allows:
/// its trees and its errors are those of the parts, and it uses all tokens. It ends early exactly
/// if the last part has no end.
pub proof fn every_text_is_told<'de>(s: Snapshot<'de>) -> (c: Seq<Part<'de>>)
    ensures
        text_parts(c),
        yields(s, c, program(s).1),
        spelled(c) == s.rest,
        program(s).0 is Eof <==> c.len() > 0 && ending(c[c.len() - 1]) is Eof,
{
    let none = Seq::<Part<'de>>::empty();
    lemma_yields_none(s);
    assert(are_stmts(none)) by {
        reveal(are_stmts);
    }
    let c = text_is_told(s, none, s);
    program_is_lawful(s);
    reveal(are_stmts);
    reveal(yields);
    assert(s.rest =~= spelled(c));
    if program(s).0 is Done && c.len() > 0 {
        assert(is_done(c[c.len() - 1]));
    }
    c
}

} // verus!
