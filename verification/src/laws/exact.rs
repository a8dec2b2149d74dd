//! The parser reads nothing but what is in the language, or reports an error.
use vstd::prelude::*;

use crate::ast::OpKind;
use crate::error::Expected;
use crate::grammar::{
    argument_list, arguments, assignment, binding_power, block, conform, consume_err, declaration,
    expr, fields, fn_decl, for_head, for_index, for_loop, if_head, if_stmt, impl_block, methods,
    operators, param, parameters, program, signature, signature_boundary, signature_end,
    statement_boundary, stmt, stmts, structure, Flow, Snapshot,
};
use crate::syntax::SyntaxKind;
use crate::token::{Token, TokenKind};

use super::accounts::{
    lemma_argument_list, lemma_arguments, lemma_assignment, lemma_block, lemma_conform,
    lemma_consume_err, lemma_declaration, lemma_expr, lemma_fields, lemma_fn_decl, lemma_for_head,
    lemma_for_index, lemma_for_loop, lemma_if_head, lemma_if_stmt, lemma_impl_block, lemma_methods,
    lemma_param, lemma_parameters, lemma_signature, lemma_signature_end, lemma_stmts,
    lemma_structure, program_is_lawful, stmt_is_lawful,
};
use super::language::{
    arity, for_len, is_arguments, is_assignment, is_block, is_declaration, is_expr, is_fn_decl,
    is_for, is_if, is_impl, is_name, is_param, is_program, is_signature, is_stmt, is_stmts,
    is_structure, is_token, read, text, Source,
};
use super::lawful::{lawful, lemma_ran_out};
use super::ledger::{lemma_follows, lemma_follows_recover};
use super::precedence::{expr_is_grouped, lowest_rank, next_binds, operators_are_ranked};
use super::reading::{
    lemma_reads_add, lemma_reads_close, lemma_reads_none, lemma_reads_push, lemma_reads_take,
    lemma_reads_take_ident, reads,
};

verus! {

/// The production is done and has added no error.
spec fn quiet<'de>(s: Snapshot<'de>, result: (Flow, Snapshot<'de>)) -> bool {
    result.0 is Done && result.1.errs.len() == s.errs.len()
}

/// No production takes an error back.
proof fn lemma_grows<'de>(s: Snapshot<'de>, result: (Flow, Snapshot<'de>))
    requires
        lawful(s, result),
    ensures
        result.1.errs.len() >= s.errs.len(),
{
    if result.0 is Eof {
        lemma_ran_out(s, result.1);
    } else {
        lemma_follows(s, result.1);
    }
}

/// Where a production has failed an error is left.
proof fn lemma_conform_reports<'de>(
    s: Snapshot<'de>,
    result: (Flow, Snapshot<'de>),
    set: Seq<TokenKind>,
)
    requires
        lawful(s, result),
    ensures
        conform(result, set) == result || conform(result, set).1.errs.len() > s.errs.len(),
{
    lemma_follows_recover(result.1, set);
}

proof fn lemma_expr_exact<'de>(s: Snapshot<'de>, min_bp: u8) -> (tree: Source<'de>)
    requires
        quiet(s, expr(s, min_bp)),
    ensures
        is_expr(tree, lowest_rank(min_bp)),
        reads(s, seq![tree], expr(s, min_bp).1),
    decreases s.rest.len(), 1nat,
{
    let from = s.out.len();
    let none = Seq::<Source<'de>>::empty();
    lemma_reads_none(s);
    if s.next_is(TokenKind::Number) || s.next_is(TokenKind::Float) {
        lemma_reads_take(s, none, s);
        let c = none.push(Source::Token(s.rest[0]));
        lemma_reads_close(s, c, s.take(), SyntaxKind::AtomExpr);
        let tree = Source::Node(SyntaxKind::AtomExpr, c);
        lemma_operators_exact(s, s.take().close(from, SyntaxKind::AtomExpr), tree, min_bp)
    } else {
        let s1 = s.take_ident();
        lemma_reads_take_ident(s, none, s);
        let c = none.push(Source::Name(s.rest[0]));
        if s1.next_is(TokenKind::LeftParen) {
            lemma_arguments(s1);
            let s2 = arguments(s1).1;
            lemma_grows(s1, arguments(s1));
            lemma_operators_grow(s2.close(from, SyntaxKind::FnApp), from, min_bp);
            let list = lemma_arguments_exact(s1);
            lemma_reads_push(s, c, s1, list, s2);
            lemma_reads_close(s, c.push(list), s2, SyntaxKind::FnApp);
            let tree = Source::Node(SyntaxKind::FnApp, c.push(list));
            lemma_operators_exact(s, s2.close(from, SyntaxKind::FnApp), tree, min_bp)
        } else {
            lemma_reads_close(s, c, s1, SyntaxKind::AtomExpr);
            let tree = Source::Node(SyntaxKind::AtomExpr, c);
            lemma_operators_exact(s, s1.close(from, SyntaxKind::AtomExpr), tree, min_bp)
        }
    }
}

/// The operators of an expression take no error back.
proof fn lemma_operators_grow<'de>(s: Snapshot<'de>, from: nat, min_bp: u8)
    ensures
        operators(s, from, min_bp).1.errs.len() >= s.errs.len(),
    decreases s.rest.len(),
{
    if next_binds(s, min_bp) {
        let op = OpKind::of_token(s.rest[0].kind)->0;
        let right = binding_power(op).1;
        lemma_expr(s.take(), right);
        lemma_grows(s.take(), expr(s.take(), right));
        let (flow, s1) = expr(s.take(), right);
        if flow is Done {
            lemma_operators_grow(s1.close(from, SyntaxKind::BinExpr), from, min_bp);
        }
    }
}

/// `tree` is the left operand. If an operator is next, its left operand can be `tree`.
proof fn lemma_operators_exact<'de>(
    s0: Snapshot<'de>,
    s: Snapshot<'de>,
    tree: Source<'de>,
    min_bp: u8,
) -> (whole: Source<'de>)
    requires
        reads(s0, seq![tree], s),
        s.ahead_of(s0),
        s.errs.len() == s0.errs.len(),
        is_expr(tree, lowest_rank(min_bp)),
        !s.at_end() ==> (OpKind::of_token(s.rest[0].kind) matches Some(op) ==> is_expr(
            tree,
            lowest_rank(binding_power(op).0),
        )),
        quiet(s0, operators(s, s0.out.len(), min_bp)),
    ensures
        is_expr(whole, lowest_rank(min_bp)),
        reads(s0, seq![whole], operators(s, s0.out.len(), min_bp).1),
    decreases s.rest.len(), 0nat,
{
    if next_binds(s, min_bp) {
        let from = s0.out.len();
        let op = OpKind::of_token(s.rest[0].kind)->0;
        let (left, right) = binding_power(op);
        let s1 = s.take();
        lemma_expr(s1, right);
        let s2 = expr(s1, right).1;
        lemma_grows(s1, expr(s1, right));
        expr_is_grouped(s1, right);
        let s3 = s2.close(from, SyntaxKind::BinExpr);
        lemma_operators_grow(s3, from, min_bp);
        let operand = lemma_expr_exact(s1, right);
        let tok = Source::Token(s.rest[0]);
        let c = seq![tree].push(tok).push(operand);
        lemma_reads_take(s0, seq![tree], s);
        lemma_reads_push(s0, seq![tree].push(tok), s1, operand, s2);
        lemma_reads_close(s0, c, s2, SyntaxKind::BinExpr);
        let next = Source::Node(SyntaxKind::BinExpr, c);
        operators_are_ranked(s.rest[0].kind);
        assert(is_expr(c[0], lowest_rank(left)));
        assert(is_expr(c[2], lowest_rank(right)));
        assert(is_expr(next, lowest_rank(left)));
        if !s3.at_end() {
            operators_are_ranked(s3.rest[0].kind);
        }
        lemma_operators_exact(s0, s3, next, min_bp)
    } else {
        tree
    }
}

proof fn lemma_arguments_exact<'de>(s: Snapshot<'de>) -> (tree: Source<'de>)
    requires
        s.next_is(TokenKind::LeftParen),
        quiet(s, arguments(s)),
    ensures
        is_arguments(tree),
        reads(s, seq![tree], arguments(s).1),
    decreases s.rest.len(), 0nat,
{
    let none = Seq::<Source<'de>>::empty();
    let s1 = s.take();
    let c1 = none.push(Source::Token(s.rest[0]));
    lemma_reads_none(s);
    lemma_reads_take(s, none, s);
    if s1.next_is(TokenKind::RightParen) {
        lemma_reads_take(s, c1, s1);
        let c2 = c1.push(Source::Token(s1.rest[0]));
        lemma_reads_close(s, c2, s1.take(), SyntaxKind::ParamList);
        Source::Node(SyntaxKind::ParamList, c2)
    } else {
        lemma_argument_list(s1);
        let s2 = argument_list(s1).1;
        let list = lemma_argument_list_exact(s1);
        let c2 = c1 + list;
        let c3 = c2.push(Source::Token(s2.rest[0]));
        lemma_reads_add(s, c1, s1, list, s2);
        lemma_reads_take(s, c2, s2);
        lemma_reads_close(s, c3, s2.take(), SyntaxKind::ParamList);
        assert forall|i: int| 0 < i < c3.len() - 1 implies if i % 2 == 1 {
            is_expr(#[trigger] c3[i], 0)
        } else {
            is_token(c3[i], TokenKind::Comma)
        } by {
            assert(c3[i] == list[i - 1]);
        }
        Source::Node(SyntaxKind::ParamList, c3)
    }
}

/// The arguments with the commas between them.
proof fn lemma_argument_list_exact<'de>(s: Snapshot<'de>) -> (list: Seq<Source<'de>>)
    requires
        quiet(s, argument_list(s)),
    ensures
        list.len() % 2 == 1,
        forall|i: int|
            0 <= i < list.len() ==> if i % 2 == 0 {
                is_expr(#[trigger] list[i], 0)
            } else {
                is_token(list[i], TokenKind::Comma)
            },
        reads(s, list, argument_list(s).1),
    decreases s.rest.len(), 2nat,
{
    let set = seq![TokenKind::Semicolon];
    lemma_expr(s, 0);
    lemma_conform(s, expr(s, 0), set);
    let s1 = conform(expr(s, 0), set).1;
    lemma_grows(s, conform(expr(s, 0), set));
    lemma_conform_reports(s, expr(s, 0), set);
    if s1.next_is(TokenKind::RightParen) {
        let only = lemma_expr_exact(s, 0);
        seq![only]
    } else if s1.next_is(TokenKind::Comma) {
        let s2 = s1.take();
        lemma_argument_list(s2);
        lemma_grows(s2, argument_list(s2));
        let first = lemma_expr_exact(s, 0);
        let more = lemma_argument_list_exact(s2);
        let front = seq![first].push(Source::Token(s1.rest[0]));
        lemma_reads_take(s, seq![first], s1);
        lemma_reads_add(s, front, s2, more, argument_list(s).1);
        let list = front + more;
        assert forall|i: int| 0 <= i < list.len() implies if i % 2 == 0 {
            is_expr(#[trigger] list[i], 0)
        } else {
            is_token(list[i], TokenKind::Comma)
        } by {
            if i >= 2 {
                assert(list[i] == more[i - 2]);
            }
        }
        list
    } else {
        let s2 = s1.recover(set);
        lemma_follows_recover(s1, set);
        let s3 = s2.reject(Expected::CommaOrRParen);
        lemma_argument_list(s3);
        lemma_grows(s3, argument_list(s3));
        Seq::empty()
    }
}

proof fn lemma_assignment_exact<'de>(s: Snapshot<'de>, semi: bool) -> (tree: Source<'de>)
    requires
        quiet(s, assignment(s, semi)),
    ensures
        is_assignment(tree, semi),
        reads(s, seq![tree], assignment(s, semi).1),
{
    let none = Seq::<Source<'de>>::empty();
    lemma_reads_none(s);
    lemma_reads_take_ident(s, none, s);
    let c1 = none.push(Source::Name(s.rest[0]));
    let s1 = s.take_ident();
    lemma_reads_take(s, c1, s1);
    let c2 = c1.push(Source::Token(s1.rest[0]));
    let s2 = s1.take();
    let value = lemma_expr_exact(s2, 0);
    let c3 = c2.push(value);
    let s3 = expr(s2, 0).1;
    lemma_reads_push(s, c2, s2, value, s3);
    if semi {
        lemma_reads_take(s, c3, s3);
        let c4 = c3.push(Source::Token(s3.rest[0]));
        lemma_reads_close(s, c4, s3.take(), SyntaxKind::Assignment);
        Source::Node(SyntaxKind::Assignment, c4)
    } else {
        lemma_reads_close(s, c3, s3, SyntaxKind::Assignment);
        Source::Node(SyntaxKind::Assignment, c3)
    }
}

proof fn lemma_declaration_exact<'de>(s: Snapshot<'de>) -> (tree: Source<'de>)
    requires
        s.next_is(TokenKind::Let),
        quiet(s, declaration(s)),
    ensures
        is_declaration(tree),
        reads(s, seq![tree], declaration(s).1),
{
    let none = Seq::<Source<'de>>::empty();
    lemma_reads_none(s);
    lemma_reads_take(s, none, s);
    let c0 = none.push(Source::Token(s.rest[0]));
    let s0 = s.take();
    lemma_reads_take_ident(s, c0, s0);
    let c1 = c0.push(Source::Name(s0.rest[0]));
    let s1 = s0.take_ident();
    lemma_reads_take(s, c1, s1);
    let c2 = c1.push(Source::Token(s1.rest[0]));
    let s2 = s1.take();
    if s1.next_is(TokenKind::Semicolon) {
        lemma_reads_close(s, c2, s2, SyntaxKind::Declaration);
        Source::Node(SyntaxKind::Declaration, c2)
    } else {
        let value = lemma_expr_exact(s2, 0);
        let c3 = c2.push(value);
        let s3 = expr(s2, 0).1;
        lemma_reads_push(s, c2, s2, value, s3);
        lemma_reads_take(s, c3, s3);
        let c4 = c3.push(Source::Token(s3.rest[0]));
        lemma_reads_close(s, c4, s3.take(), SyntaxKind::Declaration);
        Source::Node(SyntaxKind::Declaration, c4)
    }
}

proof fn lemma_param_exact<'de>(s: Snapshot<'de>) -> (tree: Source<'de>)
    requires
        quiet(s, param(s)),
    ensures
        is_param(tree),
        reads(s, seq![tree], param(s).1),
{
    let none = Seq::<Source<'de>>::empty();
    lemma_reads_none(s);
    lemma_reads_take_ident(s, none, s);
    let c0 = none.push(Source::Name(s.rest[0]));
    let s0 = s.take_ident();
    lemma_reads_take(s, c0, s0);
    let c1 = c0.push(Source::Token(s0.rest[0]));
    let s1 = s0.take();
    lemma_reads_take_ident(s, c1, s1);
    let c2 = c1.push(Source::Name(s1.rest[0]));
    let s2 = s1.take_ident();
    if s2.next_is(TokenKind::Comma) {
        lemma_reads_take(s, c2, s2);
        let c3 = c2.push(Source::Token(s2.rest[0]));
        lemma_reads_close(s, c3, s2.take(), SyntaxKind::Param);
        Source::Node(SyntaxKind::Param, c3)
    } else {
        lemma_reads_close(s, c2, s2, SyntaxKind::Param);
        Source::Node(SyntaxKind::Param, c2)
    }
}

proof fn lemma_fields_exact<'de>(s: Snapshot<'de>) -> (list: Seq<Source<'de>>)
    requires
        quiet(s, fields(s)),
    ensures
        forall|i: int| 0 <= i < list.len() ==> is_param(#[trigger] list[i]),
        reads(s, list, fields(s).1),
    decreases s.rest.len(),
{
    if s.next_is(TokenKind::RightBrace) {
        lemma_reads_none(s);
        Seq::empty()
    } else if s.next_is(TokenKind::Ident) {
        let s1 = param(s).1;
        lemma_param(s);
        lemma_grows(s, param(s));
        lemma_fields(s1);
        lemma_grows(s1, fields(s1));
        let first = lemma_param_exact(s);
        let more = lemma_fields_exact(s1);
        let list = seq![first] + more;
        lemma_reads_add(s, seq![first], s1, more, fields(s).1);
        assert forall|i: int| 0 <= i < list.len() implies is_param(#[trigger] list[i]) by {
            if i > 0 {
                assert(list[i] == more[i - 1]);
            }
        }
        list
    } else {
        let s1 = consume_err(s, Expected::Param).1;
        lemma_consume_err(s, Expected::Param);
        lemma_fields(s1);
        lemma_grows(s1, fields(s1));
        Seq::empty()
    }
}

proof fn lemma_structure_exact<'de>(s: Snapshot<'de>) -> (tree: Source<'de>)
    requires
        s.next_is(TokenKind::Struct),
        quiet(s, structure(s)),
    ensures
        is_structure(tree),
        reads(s, seq![tree], structure(s).1),
{
    let none = Seq::<Source<'de>>::empty();
    lemma_reads_none(s);
    lemma_reads_take(s, none, s);
    let c0 = none.push(Source::Token(s.rest[0]));
    let s0 = s.take();
    lemma_reads_take_ident(s, c0, s0);
    let c1 = c0.push(Source::Name(s0.rest[0]));
    let s1 = s0.take_ident();
    lemma_reads_take(s, c1, s1);
    let c2 = c1.push(Source::Token(s1.rest[0]));
    let s2 = s1.take();
    lemma_fields(s2);
    let list = lemma_fields_exact(s2);
    let s3 = fields(s2).1;
    let c3 = c2 + list;
    lemma_reads_add(s, c2, s2, list, s3);
    lemma_reads_take(s, c3, s3);
    let c4 = c3.push(Source::Token(s3.rest[0]));
    lemma_reads_close(s, c4, s3.take(), SyntaxKind::Struct);
    assert forall|i: int| 3 <= i < c4.len() - 1 implies is_param(#[trigger] c4[i]) by {
        assert(c4[i] == list[i - 3]);
    }
    Source::Node(SyntaxKind::Struct, c4)
}

proof fn lemma_parameters_exact<'de>(s: Snapshot<'de>) -> (list: Seq<Source<'de>>)
    requires
        quiet(s, parameters(s)),
    ensures
        forall|i: int| 0 <= i < list.len() ==> is_param(#[trigger] list[i]),
        s.next_is(TokenKind::RightParen) ==> list.len() == 0,
        parameters(s).1.next_is(TokenKind::RightParen),
        reads(s, list, parameters(s).1),
    decreases s.rest.len(),
{
    if s.next_is(TokenKind::RightParen) {
        lemma_reads_none(s);
        Seq::empty()
    } else if s.next_is(TokenKind::Ident) {
        let s1 = param(s).1;
        lemma_param(s);
        lemma_grows(s, param(s));
        lemma_parameters(s1);
        lemma_grows(s1, parameters(s1));
        let first = lemma_param_exact(s);
        let more = lemma_parameters_exact(s1);
        let list = seq![first] + more;
        lemma_reads_add(s, seq![first], s1, more, parameters(s).1);
        assert forall|i: int| 0 <= i < list.len() implies is_param(#[trigger] list[i]) by {
            if i > 0 {
                assert(list[i] == more[i - 1]);
            }
        }
        list
    } else {
        lemma_follows_recover(s.reject(Expected::Param), signature_boundary());
        Seq::empty()
    }
}

/// The parts of a function in front of its body.
proof fn lemma_signature_exact<'de>(s: Snapshot<'de>) -> (c: Seq<Source<'de>>)
    requires
        quiet(s, signature(s)),
    ensures
        c.len() > 0,
        c[0] == Source::Token(s.rest[0]),
        forall|body: Source<'de>| !(body is Token) ==> is_signature(#[trigger] c.push(body)),
        reads(s, c, signature(s).1),
{
    let none = Seq::<Source<'de>>::empty();
    lemma_reads_none(s);
    lemma_reads_take(s, none, s);
    let c0 = none.push(Source::Token(s.rest[0]));
    let s0 = s.take();
    lemma_reads_take_ident(s, c0, s0);
    let c1 = c0.push(Source::Name(s0.rest[0]));
    let s1 = s0.take_ident();
    lemma_reads_take(s, c1, s1);
    let c2 = c1.push(Source::Token(s1.rest[0]));
    let s2 = s1.take();
    lemma_parameters(s2);
    lemma_grows(s2, parameters(s2));
    let s3 = parameters(s2).1;
    lemma_signature_end(s3);
    lemma_grows(s3, signature_end(s3));
    let list = lemma_parameters_exact(s2);
    let n = list.len() as int;
    let c3 = c2 + list;
    lemma_reads_add(s, c2, s2, list, s3);
    lemma_reads_take(s, c3, s3);
    let c4 = c3.push(Source::Token(s3.rest[0]));
    let s4 = s3.take();
    assert(forall|i: int| 3 <= i < n + 3 ==> c4[i] == list[i - 3]);
    if s4.next_is(TokenKind::Arrow) {
        lemma_reads_take(s, c4, s4);
        let c5 = c4.push(Source::Token(s4.rest[0]));
        let s5 = s4.take();
        lemma_reads_take_ident(s, c5, s5);
        let c6 = c5.push(Source::Name(s5.rest[0]));
        assert forall|body: Source<'de>| !(body is Token) implies is_signature(
            #[trigger] c6.push(body),
        ) by {
            let c = c6.push(body);
            assert(arity(c) == n);
            assert forall|i: int| 3 <= i < n + 3 implies is_param(#[trigger] c[i]) by {
                assert(c[i] == list[i - 3]);
            }
        }
        c6
    } else {
        if !s4.next_is(TokenKind::LeftBrace) {
            lemma_follows_recover(
                s4.reject(Expected::LBraceOrArrow),
                seq![TokenKind::LeftBrace],
            );
        }
        assert forall|body: Source<'de>| !(body is Token) implies is_signature(
            #[trigger] c4.push(body),
        ) by {
            let c = c4.push(body);
            if n > 0 {
                assert(c[n + 2] == list[n - 1]);
            }
            assert(arity(c) == n);
            assert forall|i: int| 3 <= i < n + 3 implies is_param(#[trigger] c[i]) by {
                assert(c[i] == list[i - 3]);
            }
        }
        c4
    }
}

/// The index of a loop: its parts, and whether there is a type among them.
proof fn lemma_for_index_exact<'de>(s: Snapshot<'de>) -> (index: (Seq<Source<'de>>, bool))
    requires
        quiet(s, for_index(s)),
    ensures
        ({
            let (c, typed) = index;
            let eq = if typed {
                3int
            } else {
                1int
            };
            &&& c.len() == eq + 3
            &&& is_name(c[0])
            &&& typed ==> is_token(c[1], TokenKind::Colon) && is_name(c[2])
            &&& is_token(c[eq], TokenKind::Equal)
            &&& is_expr(c[eq + 1], 0)
            &&& is_token(c[eq + 2], TokenKind::Semicolon)
        }),
        reads(s, index.0, for_index(s).1),
{
    let none = Seq::<Source<'de>>::empty();
    lemma_reads_none(s);
    lemma_reads_take_ident(s, none, s);
    let c1 = none.push(Source::Name(s.rest[0]));
    let s1 = s.take_ident();
    let typed = s1.next_is(TokenKind::Colon);
    let (c2, s2) = if typed {
        let c = c1.push(Source::Token(s1.rest[0]));
        lemma_reads_take(s, c1, s1);
        lemma_reads_take_ident(s, c, s1.take());
        (c.push(Source::Name(s1.take().rest[0])), s1.take().take_ident())
    } else {
        (c1, s1)
    };
    lemma_reads_take(s, c2, s2);
    let c3 = c2.push(Source::Token(s2.rest[0]));
    let s3 = s2.take();
    let value = lemma_expr_exact(s3, 0);
    let s4 = expr(s3, 0).1;
    lemma_reads_push(s, c3, s3, value, s4);
    let c4 = c3.push(value);
    lemma_reads_take(s, c4, s4);
    (c4.push(Source::Token(s4.rest[0])), typed)
}

/// The parts of a loop in front of its body, and whether there is a type among them.
proof fn lemma_for_head_exact<'de>(s: Snapshot<'de>) -> (head: (Seq<Source<'de>>, bool))
    requires
        s.next_is(TokenKind::For),
        quiet(s, for_head(s)),
    ensures
        head.0.len() == for_len(head.1) - 1,
        forall|body: Source<'de>|
            is_block(body) ==> is_for(#[trigger] head.0.push(body), 0, head.1),
        reads(s, head.0, for_head(s).1),
{
    let none = Seq::<Source<'de>>::empty();
    lemma_reads_none(s);
    lemma_reads_take(s, none, s);
    let c0 = none.push(Source::Token(s.rest[0]));
    let s0 = s.take();
    lemma_reads_take(s, c0, s0);
    let c1 = c0.push(Source::Token(s0.rest[0]));
    let s1 = s0.take();
    lemma_for_index(s1);
    lemma_grows(s1, for_index(s1));
    let s2 = for_index(s1).1;
    lemma_expr(s2, 0);
    lemma_grows(s2, expr(s2, 0));
    let s3 = expr(s2, 0).1;
    let s4 = s3.take();
    lemma_assignment(s4, false);
    lemma_grows(s4, assignment(s4, false));
    let s5 = assignment(s4, false).1;
    let (index, typed) = lemma_for_index_exact(s1);
    let c2 = c1 + index;
    lemma_reads_add(s, c1, s1, index, s2);
    let condition = lemma_expr_exact(s2, 0);
    let c3 = c2.push(condition);
    lemma_reads_push(s, c2, s2, condition, s3);
    lemma_reads_take(s, c3, s3);
    let c4 = c3.push(Source::Token(s3.rest[0]));
    let step = lemma_assignment_exact(s4, false);
    let c5 = c4.push(step);
    lemma_reads_push(s, c4, s4, step, s5);
    lemma_reads_take(s, c5, s5);
    let c6 = c5.push(Source::Token(s5.rest[0]));
    assert forall|body: Source<'de>| is_block(body) implies is_for(
        #[trigger] c6.push(body),
        0,
        typed,
    ) by {
        let c = c6.push(body);
        let n = index.len() as int;
        assert(forall|i: int| 0 <= i < n ==> c[i + 2] == #[trigger] index[i]);
    }
    (c6, typed)
}

/// The parts of an `if` in front of its branches.
proof fn lemma_if_head_exact<'de>(s: Snapshot<'de>) -> (c: Seq<Source<'de>>)
    requires
        s.next_is(TokenKind::If),
        quiet(s, if_head(s)),
    ensures
        c.len() == 4,
        is_token(c[0], TokenKind::If),
        is_token(c[1], TokenKind::LeftParen),
        is_expr(c[2], 0),
        is_token(c[3], TokenKind::RightParen),
        reads(s, c, if_head(s).1),
{
    let none = Seq::<Source<'de>>::empty();
    lemma_reads_none(s);
    lemma_reads_take(s, none, s);
    let c0 = none.push(Source::Token(s.rest[0]));
    let s0 = s.take();
    lemma_reads_take(s, c0, s0);
    let c1 = c0.push(Source::Token(s0.rest[0]));
    let s1 = s0.take();
    let condition = lemma_expr_exact(s1, 0);
    let s2 = expr(s1, 0).1;
    let c2 = c1.push(condition);
    lemma_reads_push(s, c1, s1, condition, s2);
    lemma_reads_take(s, c2, s2);
    c2.push(Source::Token(s2.rest[0]))
}

/// Whether statements stand somewhere depends on nothing but what stands there.
proof fn lemma_stmts_moved<'de>(
    c: Seq<Source<'de>>,
    i: int,
    end: int,
    d: Seq<Source<'de>>,
    j: int,
)
    requires
        0 <= i <= end <= c.len(),
        0 <= j,
        j + end - i <= d.len(),
        c.subrange(i, end) == d.subrange(j, j + end - i),
        is_stmts(c, i, end),
    ensures
        is_stmts(d, j, j + end - i),
    decreases end - i,
{
    if i < end {
        let there = j + end - i;
        assert forall|k: int| i <= k < end implies #[trigger] c[k] == d[k - i + j] by {
            assert(c.subrange(i, end)[k - i] == d.subrange(j, there)[k - i]);
        }
        let step = if is_stmt(c[i]) && is_stmts(c, i + 1, end) {
            1
        } else {
            let typed = !(i + for_len(false) <= end && is_for(c, i, false) && is_stmts(
                c,
                i + for_len(false),
                end,
            ));
            assert(is_for(c, i, typed));
            assert(is_for(d, j, typed));
            for_len(typed)
        };
        assert(c.subrange(i + step, end) =~= d.subrange(j + step, there));
        lemma_stmts_moved(c, i + step, end, d, j + step);
    }
}

/// The statement: one tree, or the parts of a loop.
proof fn lemma_stmt_exact<'de>(s: Snapshot<'de>) -> (parts: Seq<Source<'de>>)
    requires
        quiet(s, stmt(s)),
    ensures
        is_stmts(parts, 0, parts.len() as int),
        reads(s, parts, stmt(s).1),
    decreases s.rest.len(), 3nat,
{
    let tree = match s.rest[0].kind {
        TokenKind::Let => {
            lemma_declaration(s);
            lemma_conform_reports(s, declaration(s), statement_boundary());
            lemma_declaration_exact(s)
        },
        TokenKind::Fn => {
            lemma_fn_decl(s);
            lemma_conform_reports(s, fn_decl(s), statement_boundary());
            lemma_fn_decl_exact(s)
        },
        TokenKind::If => {
            lemma_if_stmt(s);
            lemma_conform_reports(s, if_stmt(s), statement_boundary());
            lemma_if_exact(s)
        },
        TokenKind::Impl => {
            lemma_impl_block(s);
            lemma_conform_reports(s, impl_block(s), statement_boundary());
            lemma_impl_exact(s)
        },
        TokenKind::Struct => {
            lemma_structure(s);
            lemma_conform_reports(s, structure(s), statement_boundary());
            lemma_structure_exact(s)
        },
        TokenKind::For => Source::Token(s.rest[0]),
        _ => {
            lemma_assignment(s, true);
            lemma_conform_reports(s, assignment(s, true), statement_boundary());
            lemma_assignment_exact(s, true)
        },
    };
    if s.next_is(TokenKind::For) {
        lemma_for_loop(s);
        lemma_conform_reports(s, for_loop(s), statement_boundary());
        lemma_for_head(s);
        lemma_grows(s, for_head(s));
        let s1 = for_head(s).1;
        lemma_block(s1);
        lemma_grows(s1, block(s1));
        let (head, typed) = lemma_for_head_exact(s);
        let body = lemma_block_exact(s1);
        let parts = head.push(body);
        lemma_reads_push(s, head, s1, body, block(s1).1);
        assert(is_for(parts, 0, typed));
        assert(is_stmts(parts, for_len(typed), parts.len() as int));
        assert(is_stmts(parts, 0, parts.len() as int));
        parts
    } else {
        let parts = seq![tree];
        assert(is_stmt(parts[0]));
        assert(is_stmts(parts, 1, 1));
        parts
    }
}

/// Statements behind statements.
proof fn lemma_stmts_add<'de>(a: Seq<Source<'de>>, i: int, b: Seq<Source<'de>>)
    requires
        0 <= i <= a.len(),
        is_stmts(a, i, a.len() as int),
        is_stmts(b, 0, b.len() as int),
    ensures
        is_stmts(a + b, i, (a + b).len() as int),
    decreases a.len() - i,
{
    let c = a + b;
    let end = c.len() as int;
    if i == a.len() {
        assert(b.subrange(0, b.len() as int) =~= c.subrange(i, end));
        lemma_stmts_moved(b, 0, b.len() as int, c, i);
    } else if is_stmt(a[i]) && is_stmts(a, i + 1, a.len() as int) {
        lemma_stmts_add(a, i + 1, b);
        assert(is_stmt(c[i]));
    } else {
        let typed = !(i + for_len(false) <= a.len() && is_for(a, i, false) && is_stmts(
            a,
            i + for_len(false),
            a.len() as int,
        ));
        assert(is_for(a, i, typed));
        assert(forall|k: int| 0 <= k < a.len() ==> c[k] == a[k]);
        assert(is_for(c, i, typed));
        lemma_stmts_add(a, i + for_len(typed), b);
    }
}

proof fn lemma_stmts_exact<'de>(s: Snapshot<'de>) -> (list: Seq<Source<'de>>)
    requires
        quiet(s, stmts(s)),
    ensures
        is_stmts(list, 0, list.len() as int),
        reads(s, list, stmts(s).1),
    decreases s.rest.len(), 4nat,
{
    if s.next_is(TokenKind::RightBrace) {
        lemma_reads_none(s);
        Seq::empty()
    } else {
        stmt_is_lawful(s);
        lemma_grows(s, stmt(s));
        let s1 = stmt(s).1;
        lemma_stmts(s1);
        lemma_grows(s1, stmts(s1));
        let first = lemma_stmt_exact(s);
        let more = lemma_stmts_exact(s1);
        lemma_reads_add(s, first, s1, more, stmts(s).1);
        lemma_stmts_add(first, 0, more);
        first + more
    }
}

proof fn lemma_block_exact<'de>(s: Snapshot<'de>) -> (tree: Source<'de>)
    requires
        quiet(s, block(s)),
    ensures
        is_block(tree),
        reads(s, seq![tree], block(s).1),
    decreases s.rest.len(), 0nat,
{
    let none = Seq::<Source<'de>>::empty();
    lemma_reads_none(s);
    lemma_reads_take(s, none, s);
    let c0 = none.push(Source::Token(s.rest[0]));
    let s1 = s.take();
    lemma_stmts(s1);
    let list = lemma_stmts_exact(s1);
    let s2 = stmts(s1).1;
    let c1 = c0 + list;
    lemma_reads_add(s, c0, s1, list, s2);
    lemma_reads_take(s, c1, s2);
    let c2 = c1.push(Source::Token(s2.rest[0]));
    lemma_reads_close(s, c2, s2.take(), SyntaxKind::Block);
    let n = list.len() as int;
    assert(list.subrange(0, n) =~= c2.subrange(1, n + 1));
    lemma_stmts_moved(list, 0, n, c2, 1);
    Source::Node(SyntaxKind::Block, c2)
}

proof fn lemma_fn_decl_exact<'de>(s: Snapshot<'de>) -> (tree: Source<'de>)
    requires
        quiet(s, fn_decl(s)),
    ensures
        s.next_is(TokenKind::Fn) ==> is_fn_decl(tree, false),
        !s.next_is(TokenKind::RightBrace) ==> is_fn_decl(tree, true),
        reads(s, seq![tree], fn_decl(s).1),
    decreases s.rest.len(), 2nat,
{
    lemma_signature(s);
    lemma_grows(s, signature(s));
    let s1 = signature(s).1;
    lemma_block(s1);
    lemma_grows(s1, block(s1));
    let head = lemma_signature_exact(s);
    let body = lemma_block_exact(s1);
    let c = head.push(body);
    lemma_reads_push(s, head, s1, body, block(s1).1);
    lemma_reads_close(s, c, block(s1).1, SyntaxKind::FnDecl);
    assert(is_signature(c));
    assert(c[0] == head[0]);
    assert(is_block(c[c.len() - 1]));
    Source::Node(SyntaxKind::FnDecl, c)
}

proof fn lemma_if_exact<'de>(s: Snapshot<'de>) -> (tree: Source<'de>)
    requires
        s.next_is(TokenKind::If),
        quiet(s, if_stmt(s)),
    ensures
        is_if(tree),
        reads(s, seq![tree], if_stmt(s).1),
    decreases s.rest.len(), 1nat,
{
    lemma_if_head(s);
    lemma_grows(s, if_head(s));
    let s1 = if_head(s).1;
    lemma_block(s1);
    lemma_grows(s1, block(s1));
    let s2 = block(s1).1;
    let s3 = s2.take();
    if s2.next_is(TokenKind::Else) {
        if s3.next_is(TokenKind::If) {
            lemma_if_stmt(s3);
            lemma_grows(s3, if_stmt(s3));
        } else {
            lemma_block(s3);
            lemma_grows(s3, block(s3));
        }
    }
    let head = lemma_if_head_exact(s);
    let branch = lemma_block_exact(s1);
    let c1 = head.push(branch);
    lemma_reads_push(s, head, s1, branch, s2);
    if s2.next_is(TokenKind::Else) {
        lemma_reads_take(s, c1, s2);
        let c2 = c1.push(Source::Token(s2.rest[0]));
        let other = if s3.next_is(TokenKind::If) {
            lemma_if_exact(s3)
        } else {
            lemma_block_exact(s3)
        };
        let s4 = if s3.next_is(TokenKind::If) {
            if_stmt(s3).1
        } else {
            block(s3).1
        };
        let c3 = c2.push(other);
        lemma_reads_push(s, c2, s3, other, s4);
        lemma_reads_close(s, c3, s4, SyntaxKind::If);
        assert(is_block(c3[4]));
        assert(is_if(c3[6]) || is_block(c3[6]));
        Source::Node(SyntaxKind::If, c3)
    } else {
        lemma_reads_close(s, c1, s2, SyntaxKind::If);
        assert(is_block(c1[4]));
        Source::Node(SyntaxKind::If, c1)
    }
}

proof fn lemma_methods_exact<'de>(s: Snapshot<'de>) -> (list: Seq<Source<'de>>)
    requires
        quiet(s, methods(s)),
    ensures
        forall|i: int| 0 <= i < list.len() ==> is_fn_decl(#[trigger] list[i], true),
        reads(s, list, methods(s).1),
    decreases s.rest.len(), 3nat,
{
    if s.next_is(TokenKind::RightBrace) {
        lemma_reads_none(s);
        Seq::empty()
    } else {
        let set = seq![TokenKind::Fn];
        lemma_fn_decl(s);
        lemma_conform(s, fn_decl(s), set);
        lemma_grows(s, conform(fn_decl(s), set));
        lemma_conform_reports(s, fn_decl(s), set);
        let s1 = conform(fn_decl(s), set).1;
        lemma_methods(s1);
        lemma_grows(s1, methods(s1));
        let first = lemma_fn_decl_exact(s);
        let more = lemma_methods_exact(s1);
        let list = seq![first] + more;
        lemma_reads_add(s, seq![first], s1, more, methods(s).1);
        assert forall|i: int| 0 <= i < list.len() implies is_fn_decl(#[trigger] list[i], true) by {
            if i > 0 {
                assert(list[i] == more[i - 1]);
            }
        }
        list
    }
}

proof fn lemma_impl_exact<'de>(s: Snapshot<'de>) -> (tree: Source<'de>)
    requires
        s.next_is(TokenKind::Impl),
        quiet(s, impl_block(s)),
    ensures
        is_impl(tree),
        reads(s, seq![tree], impl_block(s).1),
    decreases s.rest.len(), 1nat,
{
    let none = Seq::<Source<'de>>::empty();
    lemma_reads_none(s);
    lemma_reads_take(s, none, s);
    let c0 = none.push(Source::Token(s.rest[0]));
    let s0 = s.take();
    lemma_reads_take_ident(s, c0, s0);
    let c1 = c0.push(Source::Name(s0.rest[0]));
    let s1 = s0.take_ident();
    lemma_reads_take(s, c1, s1);
    let c2 = c1.push(Source::Token(s1.rest[0]));
    let s2 = s1.take();
    lemma_methods(s2);
    let list = lemma_methods_exact(s2);
    let s3 = methods(s2).1;
    let c3 = c2 + list;
    lemma_reads_add(s, c2, s2, list, s3);
    lemma_reads_take(s, c3, s3);
    let c4 = c3.push(Source::Token(s3.rest[0]));
    lemma_reads_close(s, c4, s3.take(), SyntaxKind::Impl);
    assert forall|i: int| 3 <= i < c4.len() - 1 implies is_fn_decl(#[trigger] c4[i], true) by {
        assert(c4[i] == list[i - 3]);
    }
    Source::Node(SyntaxKind::Impl, c4)
}

proof fn lemma_program_exact<'de>(s: Snapshot<'de>) -> (list: Seq<Source<'de>>)
    requires
        quiet(s, program(s)),
    ensures
        is_program(list),
        reads(s, list, program(s).1),
    decreases s.rest.len(),
{
    if s.at_end() {
        lemma_reads_none(s);
        Seq::empty()
    } else {
        stmt_is_lawful(s);
        lemma_grows(s, stmt(s));
        let s1 = stmt(s).1;
        program_is_lawful(s1);
        lemma_grows(s1, program(s1));
        let first = lemma_stmt_exact(s);
        let more = lemma_program_exact(s1);
        lemma_reads_add(s, first, s1, more, program(s).1);
        lemma_stmts_add(first, 0, more);
        first + more
    }
}

/// A parse that adds no error has read a program.
pub proof fn only_programs_are_read<'de>(s: Snapshot<'de>)
    requires
        program(s).1.errs == s.errs,
    ensures
        exists|forest: Seq<Source<'de>>| #[trigger]
            is_program(forest) && s.rest == text(forest) && program(s) == (
                Flow::Done,
                read(s, forest, Seq::empty()),
            ),
{
    program_is_lawful(s);
    if program(s).0 is Eof {
        lemma_ran_out(s, program(s).1);
    }
    let forest = lemma_program_exact(s);
    reveal(reads);
    assert(program(s).1.rest =~= Seq::empty());
    assert(s.rest =~= text(forest));
    assert(is_program(forest));
}

} // verus!
