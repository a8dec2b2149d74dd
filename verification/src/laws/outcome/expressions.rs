//! What the parser makes of expressions.
use vstd::prelude::*;

use crate::ast::OpKind;
use crate::error::Expected;
use crate::grammar::{argument_list, arguments, binding_power, conform, expr, operators, Snapshot};
use crate::laws::accounts::{lemma_argument_list, lemma_arguments, lemma_conform, lemma_expr};
use crate::laws::ledger::{lemma_follows, lemma_follows_recover};
use crate::laws::mistakes::{
    argument_item, argument_part, argument_stops, arguments_part, arguments_stop, ends_in_name,
    expr_part, expr_stops, is_cut, is_recovered, is_token, separator_part, starts,
};
use crate::laws::parts::{
    all_done, ending, is_done, lemma_all_done_push, lemma_yields_close, lemma_yields_first,
    lemma_yields_none, lemma_yields_open, lemma_yields_plain, lemma_yields_recover,
    lemma_yields_reject, lemma_yields_take, lost, missed, spelled_of, yields, Part,
};
use crate::laws::precedence::{lowest_rank, next_binds, operators_are_ranked};
use crate::syntax::SyntaxKind;
use crate::token::{Token, TokenKind};

use super::steps::{
    lemma_miss, lemma_name, lemma_part, lemma_recovered, lemma_reject, lemma_starts, lemma_take,
};

verus! {

/// An expression: literals, names, calls and operations; or one that was given up.
pub proof fn expr_is_told<'de>(s: Snapshot<'de>, min_bp: u8) -> (part: Part<'de>)
    ensures
        expr_part(part, lowest_rank(min_bp)),
        ending(part) == expr(s, min_bp).0,
        yields(s, seq![part], expr(s, min_bp).1),
        is_done(part) ==> expr_stops(part, lowest_rank(min_bp), expr(s, min_bp).1.rest),
    decreases s.rest.len(), 1nat,
{
    let from = s.out.len();
    let none = Seq::<Part<'de>>::empty();
    lemma_yields_none(s);
    if s.at_end() {
        lemma_miss(s, none, s, Expected::Expr);
        assert(none.push(missed(Expected::Expr)) =~= seq![missed(Expected::Expr)]);
        missed(Expected::Expr)
    } else if s.next_is(TokenKind::Number) || s.next_is(TokenKind::Float) {
        lemma_take(s, none, s);
        let c = none.push(Part::Token(s.rest[0]));
        let s1 = s.take().close(from, SyntaxKind::AtomExpr);
        lemma_yields_close(s, c, s.take(), SyntaxKind::AtomExpr);
        operators_are_told(s, s1, Part::Node(SyntaxKind::AtomExpr, c), min_bp)
    } else if s.next_is(TokenKind::Ident) {
        let s1 = s.take_ident();
        let name = lemma_name(s, none, s, Expected::Ident);
        let c = none.push(name);
        if s1.at_end() {
            lemma_miss(s, c, s1, Expected::Semicolon);
            Part::Open(c.push(missed(Expected::Semicolon)))
        } else if s1.next_is(TokenKind::LeftParen) {
            lemma_arguments(s1);
            let (flow, s2) = arguments(s1);
            let list = arguments_are_told(s1);
            lemma_part(s, c, s1, list, s2);
            let d = c.push(list);
            if flow is Done {
                lemma_yields_close(s, d, s2, SyntaxKind::FnApp);
                let s3 = s2.close(from, SyntaxKind::FnApp);
                operators_are_told(s, s3, Part::Node(SyntaxKind::FnApp, d), min_bp)
            } else {
                Part::Open(d)
            }
        } else {
            let s2 = s1.close(from, SyntaxKind::AtomExpr);
            lemma_yields_close(s, c, s1, SyntaxKind::AtomExpr);
            operators_are_told(s, s2, Part::Node(SyntaxKind::AtomExpr, c), min_bp)
        }
    } else {
        lemma_reject(s, none, s, Expected::Operand);
        let part = lost(s.rest[0], Expected::Operand);
        assert(none.push(part) =~= seq![part]);
        part
    }
}

/// `left` is the left operand. If an operator is next, its left operand can be `left`.
proof fn operators_are_told<'de>(
    s0: Snapshot<'de>,
    s: Snapshot<'de>,
    left: Part<'de>,
    min_bp: u8,
) -> (part: Part<'de>)
    requires
        yields(s0, seq![left], s),
        s.ahead_of(s0),
        is_done(left),
        expr_part(left, lowest_rank(min_bp)),
        !s.at_end() ==> (OpKind::of_token(s.rest[0].kind) matches Some(op) ==> expr_part(
            left,
            lowest_rank(binding_power(op).0),
        )),
        ends_in_name(left) ==> !s.at_end() && !s.next_is(TokenKind::LeftParen),
    ensures
        expr_part(part, lowest_rank(min_bp)),
        ending(part) == operators(s, s0.out.len(), min_bp).0,
        yields(s0, seq![part], operators(s, s0.out.len(), min_bp).1),
        is_done(part) ==> expr_stops(
            part,
            lowest_rank(min_bp),
            operators(s, s0.out.len(), min_bp).1.rest,
        ),
    decreases s.rest.len(), 0nat,
{
    if !s.at_end() {
        operators_are_ranked(s.rest[0].kind);
    }
    if next_binds(s, min_bp) {
        let from = s0.out.len();
        let op = OpKind::of_token(s.rest[0].kind)->0;
        let (l, r) = binding_power(op);
        let s1 = s.take();
        lemma_expr(s1, r);
        let (flow, s2) = expr(s1, r);
        let right = expr_is_told(s1, r);
        let tok = Part::Token(s.rest[0]);
        let one = seq![left];
        assert(all_done(one));
        lemma_take(s0, one, s);
        let two = one.push(tok);
        lemma_part(s0, two, s1, right, s2);
        let c = two.push(right);
        assert(c[0] == left && c[1] == tok && c[2] == right);
        assert(expr_part(c[0], lowest_rank(l)));
        assert(expr_part(c[2], lowest_rank(r)));
        if flow is Done {
            let s3 = s2.close(from, SyntaxKind::BinExpr);
            let next = Part::Node(SyntaxKind::BinExpr, c);
            lemma_yields_close(s0, c, s2, SyntaxKind::BinExpr);
            assert(expr_part(next, lowest_rank(l)));
            assert(expr_part(next, lowest_rank(min_bp)));
            assert(ends_in_name(next) == ends_in_name(right));
            if !s3.at_end() {
                operators_are_ranked(s3.rest[0].kind);
            }
            operators_are_told(s0, s3, next, min_bp)
        } else {
            Part::Open(c)
        }
    } else {
        left
    }
}

/// A list of arguments; or one that was given up.
pub proof fn arguments_are_told<'de>(s: Snapshot<'de>) -> (part: Part<'de>)
    requires
        s.next_is(TokenKind::LeftParen),
    ensures
        arguments_part(part),
        ending(part) == arguments(s).0,
        yields(s, seq![part], arguments(s).1),
    decreases s.rest.len(), 0nat,
{
    let none = Seq::<Part<'de>>::empty();
    lemma_yields_none(s);
    lemma_take(s, none, s);
    let s1 = s.take();
    let c = none.push(Part::Token(s.rest[0]));
    lemma_first_argument(c);
    if s1.at_end() {
        lemma_miss(s, c, s1, Expected::Expr);
        let end = missed::<'de>(Expected::Expr);
        assert(expr_part(end, 0));
        lemma_are_arguments(c, end);
        lemma_arguments_cut(c.push(end));
        Part::Open(c.push(end))
    } else if s1.next_is(TokenKind::RightParen) {
        lemma_take(s, c, s1);
        let d = c.push(Part::Token(s1.rest[0]));
        lemma_yields_close(s, d, s1.take(), SyntaxKind::ParamList);
        lemma_arguments_closed(c, s1.rest[0]);
        Part::Node(SyntaxKind::ParamList, d)
    } else {
        lemma_argument_list(s1);
        let (flow, s2) = argument_list(s1);
        let d = argument_list_is_told(s, c, s1);
        if flow is Done {
            lemma_take(s, d, s2);
            lemma_yields_close(
                s,
                d.push(Part::Token(s2.rest[0])),
                s2.take(),
                SyntaxKind::ParamList,
            );
            lemma_arguments_closed(d, s2.rest[0]);
            Part::Node(SyntaxKind::ParamList, d.push(Part::Token(s2.rest[0])))
        } else {
            lemma_yields_open(s, d, s2);
            lemma_arguments_cut(d);
            Part::Open(d)
        }
    }
}

#[verifier::opaque]
spec fn are_arguments<'de>(c: Seq<Part<'de>>) -> bool {
    &&& c.len() > 0
    &&& is_token(c[0], TokenKind::LeftParen)
    &&& arguments_stop(c)
    &&& forall|i: int| 1 <= i < c.len() ==> argument_item(i, #[trigger] c[i])
}

proof fn lemma_first_argument<'de>(c: Seq<Part<'de>>)
    requires
        c.len() == 1,
        is_token(c[0], TokenKind::LeftParen),
    ensures
        are_arguments(c),
{
    reveal(are_arguments);
}

proof fn lemma_are_arguments<'de>(c: Seq<Part<'de>>, part: Part<'de>)
    requires
        are_arguments(c),
        argument_item(c.len() as int, part),
        c.len() % 2 == 0 ==> argument_stops(c[c.len() - 1], spelled_of(part)),
    ensures
        are_arguments(c.push(part)),
{
    reveal(are_arguments);
    assert(forall|i: int| 0 <= i < c.len() ==> c.push(part)[i] == c[i]);
}

proof fn lemma_arguments_cut<'de>(c: Seq<Part<'de>>)
    requires
        are_arguments(c),
        c.len() >= 2,
        is_cut(c),
    ensures
        arguments_part(Part::Open(c)),
{
    reveal(are_arguments);
}

proof fn lemma_arguments_closed<'de>(c: Seq<Part<'de>>, tok: Token<'de>)
    requires
        are_arguments(c),
        all_done(c),
        c.len() > 0,
        c.len() == 1 || (c.len() % 2 == 0 && argument_stops(c[c.len() - 1], seq![tok])),
        tok.kind == TokenKind::RightParen,
    ensures
        arguments_part(Part::Node(SyntaxKind::ParamList, c.push(Part::Token(tok)))),
{
    reveal(are_arguments);
    let last = Part::Token(tok);
    let d = c.push(last);
    lemma_all_done_push(c, last);
    assert(spelled_of(last) == seq![tok]);
    assert(forall|i: int| 0 <= i < c.len() ==> d[i] == c[i]);
}

proof fn argument_list_is_told<'de>(
    s0: Snapshot<'de>,
    c: Seq<Part<'de>>,
    s: Snapshot<'de>,
) -> (d: Seq<Part<'de>>)
    requires
        yields(s0, c, s),
        all_done(c),
        are_arguments(c),
        c.len() % 2 == 1,
        c.len() == 1 ==> !s.next_is(TokenKind::RightParen),
    ensures
        yields(s0, d, argument_list(s).1),
        are_arguments(d),
        d.len() >= 2,
        argument_list(s).0 is Done ==> {
            &&& all_done(d)
            &&& d.len() % 2 == 0
            &&& argument_list(s).1.next_is(TokenKind::RightParen)
            &&& argument_stops(d[d.len() - 1], seq![argument_list(s).1.rest[0]])
        },
        !(argument_list(s).0 is Done) ==> is_cut(d) && ending(d[d.len() - 1]) == argument_list(
            s,
        ).0,
    decreases s.rest.len(), 3nat,
{
    let set = seq![TokenKind::Semicolon];
    lemma_expr(s, 0);
    lemma_conform(s, expr(s, 0), set);
    let (flow, s1) = conform(expr(s, 0), set);
    let arg = argument_is_told(s);
    lemma_part(s0, c, s, arg, s1);
    let c1 = c.push(arg);
    lemma_are_arguments(c, arg);
    if !(flow is Done) {
        c1
    } else if s1.next_is(TokenKind::RightParen) {
        assert(argument_stops(arg, seq![s1.rest[0]]));
        c1
    } else {
        let (sep, s2) = separator_is_told(s1);
        lemma_follows_recover(s1, set);
        lemma_follows(s1, s1.recover(set));
        lemma_part(s0, c1, s1, sep, s2);
        lemma_stops(arg, s1, sep, s2);
        lemma_are_arguments(c1, sep);
        if is_done(sep) {
            argument_list_is_told(s0, c1.push(sep), s2)
        } else {
            c1.push(sep)
        }
    }
}

/// An argument, or one that failed and what is skipped behind it.
proof fn argument_is_told<'de>(s: Snapshot<'de>) -> (part: Part<'de>)
    ensures
        ({
            let (flow, after) = conform(expr(s, 0), seq![TokenKind::Semicolon]);
            &&& argument_part(part)
            &&& ending(part) == flow
            &&& yields(s, seq![part], after)
            &&& flow is Done ==> argument_stops(part, after.rest)
            &&& !s.next_is(TokenKind::RightParen) ==> !starts(part, TokenKind::RightParen)
        }),
    decreases s.rest.len(), 2nat,
{
    let set = seq![TokenKind::Semicolon];
    let raw = expr_is_told(s, 0);
    let after = conform(expr(s, 0), set).1;
    if expr(s, 0).0 is Failed {
        let part = lemma_recovered(s, raw, expr(s, 0).1, set);
        lemma_starts(s, part, after);
        if !after.at_end() {
            lemma_semicolon(after);
        }
        part
    } else {
        lemma_starts(s, raw, after);
        assert(!is_recovered(raw));
        raw
    }
}

proof fn lemma_stops<'de>(arg: Part<'de>, s: Snapshot<'de>, sep: Part<'de>, after: Snapshot<'de>)
    requires
        argument_stops(arg, s.rest),
        yields(s, seq![sep], after),
        !s.at_end() ==> spelled_of(sep).len() > 0,
    ensures
        argument_stops(arg, spelled_of(sep)),
{
    lemma_yields_first(s, sep, after);
}

/// What stands behind an argument that is not the last one; and the state behind it.
proof fn separator_is_told<'de>(s: Snapshot<'de>) -> (told: (Part<'de>, Snapshot<'de>))
    requires
        !s.next_is(TokenKind::RightParen),
    ensures
        ({
            let (part, after) = told;
            let skipped = s.recover(seq![TokenKind::Semicolon]);
            &&& separator_part(part)
            &&& yields(s, seq![part], after)
            &&& !s.at_end() ==> spelled_of(part).len() > 0
            &&& s.at_end() ==> ending(part) is Eof && after == s.miss(Expected::CommaOrRParen)
            &&& s.next_is(TokenKind::Comma) ==> is_done(part) && after == s.take()
            &&& !s.at_end() && !s.next_is(TokenKind::Comma) ==> if skipped.at_end() {
                ending(part) is Eof && after == skipped.miss(Expected::CommaOrRParen)
            } else {
                is_done(part) && after == skipped.reject(Expected::CommaOrRParen)
            }
        }),
{
    let set = seq![TokenKind::Semicolon];
    let none = Seq::<Part<'de>>::empty();
    lemma_yields_none(s);
    if s.at_end() {
        lemma_miss(s, none, s, Expected::CommaOrRParen);
        let part = missed(Expected::CommaOrRParen);
        assert(none.push(part) =~= seq![part]);
        (part, s.miss(Expected::CommaOrRParen))
    } else if s.next_is(TokenKind::Comma) {
        lemma_yields_take(s, none, s);
        (Part::Token(s.rest[0]), s.take())
    } else {
        let s2 = s.recover(set);
        lemma_follows_recover(s, set);
        let skipped = lemma_yields_recover(s, set);
        let node = Part::Node(SyntaxKind::Error, skipped);
        let one = seq![node];
        assert(all_done(one));
        let (two, part, s3) = if s2.at_end() {
            lemma_miss(s, one, s2, Expected::CommaOrRParen);
            let two = one.push(missed(Expected::CommaOrRParen));
            (two, Part::Open(two), s2.miss(Expected::CommaOrRParen))
        } else {
            lemma_semicolon(s2);
            lemma_yields_reject(s, one, s2, Expected::CommaOrRParen);
            let two = one.push(lost(s2.rest[0], Expected::CommaOrRParen));
            lemma_yields_plain(s, two, s2.reject(Expected::CommaOrRParen));
            (two, Part::Plain(two), s2.reject(Expected::CommaOrRParen))
        };
        assert(two[0] == node);
        lemma_yields_first(s, part, s3);
        lemma_follows(s, s2);
        lemma_starts(s, part, s3);
        (part, s3)
    }
}

/// The only token in a set of one.
proof fn lemma_semicolon<'de>(s: Snapshot<'de>)
    requires
        s.next_in(seq![TokenKind::Semicolon]),
    ensures
        s.next_is(TokenKind::Semicolon),
{
}

} // verus!
