//! Each production keeps to the rules.
use vstd::prelude::*;

use crate::ast::OpKind;
use crate::error::Expected;
use crate::grammar::{
    argument_list, arguments, assignment, binding_power, block, conform, consume_err, declaration,
    eat, expr, fields, fn_decl, for_head, for_index, for_loop, ident, if_head, if_stmt, impl_block,
    methods, operators, param, parameters, program, signature, signature_end, statement_boundary,
    stmt, stmts, structure, Flow, Snapshot,
};
use crate::syntax::SyntaxKind;
use crate::token::TokenKind;

use super::lawful::{lawful, moves};
use super::ledger::{follows, tidy};

verus! {

broadcast use {super::ledger::group_ledger, super::lawful::group_lawful};

pub(super) proof fn lemma_ident<'de>(s: Snapshot<'de>, expected: Expected)
    requires
        expected != Expected::Nothing,
    ensures
        lawful(s, ident(s, expected)),
        moves(s, ident(s, expected)),
{
}

pub(super) proof fn lemma_eat<'de>(s: Snapshot<'de>, kind: TokenKind, expected: Expected)
    requires
        expected != Expected::Nothing,
    ensures
        lawful(s, eat(s, kind, expected)),
        moves(s, eat(s, kind, expected)),
{
}

pub(super) proof fn lemma_consume_err<'de>(s: Snapshot<'de>, expected: Expected)
    requires
        expected != Expected::Nothing,
    ensures
        lawful(s, consume_err(s, expected)),
        moves(s, consume_err(s, expected)),
        !(consume_err(s, expected).0 is Failed),
        consume_err(s, expected).1.errs.len() > s.errs.len(),
{
    if s.rest.len() > 1 {
        let s1 = s.reject(expected);
        assert(follows(s1, s1.take()));
        assert(follows(s, s1.take().close(s1.out.len(), SyntaxKind::Error)));
    }
}

pub(super) proof fn lemma_conform<'de>(
    s: Snapshot<'de>,
    result: (Flow, Snapshot<'de>),
    set: Seq<TokenKind>,
)
    requires
        lawful(s, result),
        moves(s, result),
    ensures
        lawful(s, conform(result, set)),
        moves(s, conform(result, set)),
        !(conform(result, set).0 is Failed),
{
    if result.0 is Failed {
        assert(follows(result.1, result.1.recover(set)));
    }
}

pub(super) proof fn lemma_expr<'de>(s: Snapshot<'de>, min_bp: u8)
    ensures
        lawful(s, expr(s, min_bp)),
        moves(s, expr(s, min_bp)),
        expr(s, min_bp).0 is Done ==> expr(s, min_bp).1.out.len() == s.out.len() + 1,
    decreases s.rest.len(), 1nat,
{
    let from = s.out.len();
    if s.at_end() {
    } else if s.next_is(TokenKind::Number) || s.next_is(TokenKind::Float) {
        assert(follows(s, s.take()));
        lemma_operators(s, s.take().close(from, SyntaxKind::AtomExpr), min_bp);
    } else if s.next_is(TokenKind::Ident) {
        let s1 = s.take_ident();
        assert(follows(s, s1));
        if s1.at_end() {
        } else if s1.next_is(TokenKind::LeftParen) {
            lemma_arguments(s1);
            let (flow, s2) = arguments(s1);
            if flow is Done {
                lemma_operators(s, s2.close(from, SyntaxKind::FnApp), min_bp);
            }
        } else {
            lemma_operators(s, s1.close(from, SyntaxKind::AtomExpr), min_bp);
        }
    }
}

pub(super) proof fn lemma_operators<'de>(s0: Snapshot<'de>, s: Snapshot<'de>, min_bp: u8)
    requires
        follows(s0, s),
        tidy(s0, s),
        s.ahead_of(s0),
        s.out.len() == s0.out.len() + 1,
    ensures
        lawful(s0, operators(s, s0.out.len(), min_bp)),
        moves(s0, operators(s, s0.out.len(), min_bp)),
        ({
            let (flow, s1) = operators(s, s0.out.len(), min_bp);
            flow is Done ==> s1.out.len() == s0.out.len() + 1
        }),
    decreases s.rest.len(), 0nat,
{
    let from = s0.out.len();
    if !s.at_end() {
        if let Some(op) = OpKind::of_token(s.rest[0].kind) {
            let (left, right) = binding_power(op);
            if left >= min_bp {
                assert(follows(s, s.take()));
                lemma_expr(s.take(), right);
                let (flow, s1) = expr(s.take(), right);
                if flow is Done {
                    lemma_operators(s0, s1.close(from, SyntaxKind::BinExpr), min_bp);
                }
            }
        }
    }
}

pub(super) proof fn lemma_arguments<'de>(s: Snapshot<'de>)
    requires
        !s.at_end(),
    ensures
        lawful(s, arguments(s)),
        moves(s, arguments(s)),
    decreases s.rest.len(), 0nat,
{
    let from = s.out.len();
    if !s.at_end() {
        let s1 = s.take();
        assert(follows(s, s1));
        if s1.at_end() {
        } else if s1.next_is(TokenKind::RightParen) {
            assert(follows(s1, s1.take()));
            assert(follows(s, s1.take().close(from, SyntaxKind::ParamList)));
        } else {
            lemma_argument_list(s1);
            let (flow, s2) = argument_list(s1);
            if flow is Done {
                assert(follows(s2, s2.take()));
                assert(follows(s, s2.take().close(from, SyntaxKind::ParamList)));
            }
        }
    }
}

pub(super) proof fn lemma_argument_list<'de>(s: Snapshot<'de>)
    ensures
        lawful(s, argument_list(s)),
        moves(s, argument_list(s)),
        argument_list(s).0 is Done ==> argument_list(s).1.next_is(TokenKind::RightParen),
    decreases s.rest.len(), 2nat,
{
    let set = seq![TokenKind::Semicolon];
    lemma_expr(s, 0);
    lemma_conform(s, expr(s, 0), set);
    let (flow, s1) = conform(expr(s, 0), set);
    if flow is Done && !s1.at_end() && !s1.next_is(TokenKind::RightParen) {
        if s1.next_is(TokenKind::Comma) {
            assert(follows(s1, s1.take()));
            lemma_argument_list(s1.take());
        } else {
            let s2 = s1.recover(set);
            assert(follows(s1, s2));
            if !s2.at_end() {
                let s3 = s2.reject(Expected::CommaOrRParen);
                assert(follows(s2, s3));
                lemma_argument_list(s3);
            }
        }
    }
}

pub(super) proof fn lemma_assignment<'de>(s: Snapshot<'de>, semi: bool)
    ensures
        lawful(s, assignment(s, semi)),
        moves(s, assignment(s, semi)),
{
    lemma_ident(s, Expected::Ident);
    let (flow, s1) = ident(s, Expected::Ident);
    if flow is Done {
        lemma_eat(s1, TokenKind::Equal, Expected::Equal);
        let (flow, s2) = eat(s1, TokenKind::Equal, Expected::Equal);
        if flow is Done {
            lemma_expr(s2, 0);
            let (flow, s3) = expr(s2, 0);
            if flow is Done {
                assert(follows(s, s3));
                lemma_eat(s3, TokenKind::Semicolon, Expected::Semicolon);
            }
        }
    }
}

pub(super) proof fn lemma_declaration<'de>(s: Snapshot<'de>)
    requires
        !s.at_end(),
    ensures
        lawful(s, declaration(s)),
        moves(s, declaration(s)),
{
    if !s.at_end() {
        assert(follows(s, s.take()));
        lemma_ident(s.take(), Expected::Ident);
        let (flow, s1) = ident(s.take(), Expected::Ident);
        if flow is Done && !s1.at_end() {
            assert(follows(s, s1));
            assert(follows(s1, s1.take()));
            if s1.next_is(TokenKind::Colon) {
                lemma_ident(s1.take(), Expected::Ty);
            } else if s1.next_is(TokenKind::Semicolon) {
            } else if s1.next_is(TokenKind::Equal) {
                lemma_expr(s1.take(), 0);
                let (flow, s2) = expr(s1.take(), 0);
                if flow is Done {
                    lemma_eat(s2, TokenKind::Semicolon, Expected::Semicolon);
                }
            }
        }
    }
}

pub(super) proof fn lemma_param<'de>(s: Snapshot<'de>)
    requires
        s.next_is(TokenKind::Ident),
    ensures
        lawful(s, param(s)),
        moves(s, param(s)),
        !(param(s).0 is Failed),
{
    if s.next_is(TokenKind::Ident) {
        let s0 = s.take_ident();
        assert(follows(s, s0));
        lemma_eat(s0, TokenKind::Colon, Expected::TyAnnotation);
        let (flow, s1) = eat(s0, TokenKind::Colon, Expected::TyAnnotation);
        if !(flow is Eof) {
            lemma_ident(s1, Expected::Ty);
            let (flow, s2) = ident(s1, Expected::Ty);
            if !(flow is Eof) && s2.next_is(TokenKind::Comma) {
                assert(follows(s2, s2.take()));
            }
        }
    }
}

pub(super) proof fn lemma_fields<'de>(s: Snapshot<'de>)
    ensures
        lawful(s, fields(s)),
        !(fields(s).0 is Failed),
        fields(s).0 is Done ==> fields(s).1.next_is(TokenKind::RightBrace),
    decreases s.rest.len(),
{
    if !s.at_end() && !s.next_is(TokenKind::RightBrace) {
        let (flow, s1) = if s.next_is(TokenKind::Ident) {
            lemma_param(s);
            param(s)
        } else {
            lemma_consume_err(s, Expected::Param);
            consume_err(s, Expected::Param)
        };
        if flow is Done {
            lemma_fields(s1);
        }
    }
}

pub(super) proof fn lemma_structure<'de>(s: Snapshot<'de>)
    requires
        !s.at_end(),
    ensures
        lawful(s, structure(s)),
        moves(s, structure(s)),
{
    if !s.at_end() {
        assert(follows(s, s.take()));
        lemma_ident(s.take(), Expected::Ident);
        let (flow, s1) = ident(s.take(), Expected::Ident);
        if flow is Done {
            lemma_eat(s1, TokenKind::LeftBrace, Expected::LBrace);
            let (flow, s2) = eat(s1, TokenKind::LeftBrace, Expected::LBrace);
            if flow is Done && !s2.at_end() {
                assert(follows(s, s2));
                lemma_fields(s2);
                let (flow, s3) = fields(s2);
                if flow is Done {
                    assert(follows(s3, s3.take()));
                    assert(follows(s, s3.take()));
                }
            }
        }
    }
}

pub(super) proof fn lemma_parameters<'de>(s: Snapshot<'de>)
    ensures
        lawful(s, parameters(s)),
        !(parameters(s).0 is Failed),
    decreases s.rest.len(),
{
    if !s.at_end() && !s.next_is(TokenKind::RightParen) {
        if s.next_is(TokenKind::Ident) {
            lemma_param(s);
            let (flow, s1) = param(s);
            if flow is Done {
                lemma_parameters(s1);
            }
        } else {
            assert(follows(s, s.reject(Expected::Param)));
        }
    }
}

pub(super) proof fn lemma_signature_end<'de>(s: Snapshot<'de>)
    ensures
        lawful(s, signature_end(s)),
        moves(s, signature_end(s)),
{
    if !s.at_end() {
        let s1 = s.take();
        assert(follows(s, s1));
        if s1.next_is(TokenKind::Arrow) {
            assert(follows(s1, s1.take()));
            lemma_ident(s1.take(), Expected::Ident);
        } else if !s1.at_end() && !s1.next_is(TokenKind::LeftBrace) {
            assert(follows(s1, s1.reject(Expected::LBraceOrArrow)));
        }
    }
}

pub(super) proof fn lemma_signature<'de>(s: Snapshot<'de>)
    requires
        !s.at_end(),
    ensures
        lawful(s, signature(s)),
        moves(s, signature(s)),
{
    if !s.at_end() {
        assert(follows(s, s.take()));
        lemma_ident(s.take(), Expected::Ident);
        let (flow, s1) = ident(s.take(), Expected::Ident);
        if flow is Done {
            lemma_eat(s1, TokenKind::LeftParen, Expected::LParen);
            let (flow, s2) = eat(s1, TokenKind::LeftParen, Expected::LParen);
            if flow is Done {
                lemma_parameters(s2);
                let (flow, s3) = parameters(s2);
                if flow is Done {
                    lemma_signature_end(s3);
                }
            }
        }
    }
}

pub(super) proof fn lemma_if_head<'de>(s: Snapshot<'de>)
    requires
        !s.at_end(),
    ensures
        lawful(s, if_head(s)),
        moves(s, if_head(s)),
{
    if !s.at_end() {
        assert(follows(s, s.take()));
        lemma_eat(s.take(), TokenKind::LeftParen, Expected::LParen);
        let (flow, s1) = eat(s.take(), TokenKind::LeftParen, Expected::LParen);
        if flow is Done {
            lemma_expr(s1, 0);
            let (flow, s2) = expr(s1, 0);
            if flow is Done {
                lemma_eat(s2, TokenKind::RightParen, Expected::RParen);
            }
        }
    }
}

pub(super) proof fn lemma_for_index<'de>(s: Snapshot<'de>)
    ensures
        lawful(s, for_index(s)),
        moves(s, for_index(s)),
{
    lemma_ident(s, Expected::Ident);
    let (flow, s1) = ident(s, Expected::Ident);
    if flow is Done {
        let (flow, s2) = if s1.next_is(TokenKind::Colon) {
            assert(follows(s1, s1.take()));
            lemma_ident(s1.take(), Expected::Ty);
            ident(s1.take(), Expected::Ty)
        } else {
            (Flow::Done, s1)
        };
        if flow is Done {
            assert(follows(s, s2));
            lemma_eat(s2, TokenKind::Equal, Expected::InitialisedIdx);
            let (flow, s3) = eat(s2, TokenKind::Equal, Expected::InitialisedIdx);
            if flow is Done {
                assert(follows(s, s3));
                lemma_expr(s3, 0);
                let (flow, s4) = expr(s3, 0);
                if flow is Done {
                    lemma_eat(s4, TokenKind::Semicolon, Expected::Semicolon);
                }
            }
        }
    }
}

pub(super) proof fn lemma_for_head<'de>(s: Snapshot<'de>)
    requires
        !s.at_end(),
    ensures
        lawful(s, for_head(s)),
        moves(s, for_head(s)),
{
    if !s.at_end() {
        assert(follows(s, s.take()));
        lemma_eat(s.take(), TokenKind::LeftParen, Expected::LParen);
        let (flow, s1) = eat(s.take(), TokenKind::LeftParen, Expected::LParen);
        if flow is Done {
            assert(follows(s, s1));
            lemma_for_index(s1);
            let (flow, s2) = for_index(s1);
            if flow is Done {
                assert(follows(s, s2));
                lemma_expr(s2, 0);
                let (flow, s3) = expr(s2, 0);
                if flow is Done {
                    lemma_eat(s3, TokenKind::Semicolon, Expected::Semicolon);
                    let (flow, s4) = eat(s3, TokenKind::Semicolon, Expected::Semicolon);
                    if flow is Done {
                        assert(follows(s, s4));
                        lemma_assignment(s4, false);
                        let (flow, s5) = assignment(s4, false);
                        if flow is Done {
                            lemma_eat(s5, TokenKind::RightParen, Expected::RParen);
                        }
                    }
                }
            }
        }
    }
}

/// Every statement keeps to the rules, and uses at least one token if it is done.
pub proof fn stmt_is_lawful<'de>(s: Snapshot<'de>)
    ensures
        lawful(s, stmt(s)),
        moves(s, stmt(s)),
        !(stmt(s).0 is Failed),
    decreases s.rest.len(), 3nat,
{
    if !s.at_end() {
        let result = match s.rest[0].kind {
            TokenKind::Let => {
                lemma_declaration(s);
                declaration(s)
            },
            TokenKind::Fn => {
                lemma_fn_decl(s);
                fn_decl(s)
            },
            TokenKind::For => {
                lemma_for_loop(s);
                for_loop(s)
            },
            TokenKind::If => {
                lemma_if_stmt(s);
                if_stmt(s)
            },
            TokenKind::Impl => {
                lemma_impl_block(s);
                impl_block(s)
            },
            TokenKind::Struct => {
                lemma_structure(s);
                structure(s)
            },
            _ => {
                lemma_assignment(s, true);
                assignment(s, true)
            },
        };
        lemma_conform(s, result, statement_boundary());
    }
}

pub(super) proof fn lemma_stmts<'de>(s: Snapshot<'de>)
    ensures
        lawful(s, stmts(s)),
        !(stmts(s).0 is Failed),
        stmts(s).0 is Done ==> stmts(s).1.next_is(TokenKind::RightBrace),
    decreases s.rest.len(), 4nat,
{
    if !s.at_end() && !s.next_is(TokenKind::RightBrace) {
        stmt_is_lawful(s);
        let (flow, s1) = stmt(s);
        if flow is Done {
            lemma_stmts(s1);
        }
    }
}

pub(super) proof fn lemma_block<'de>(s: Snapshot<'de>)
    ensures
        lawful(s, block(s)),
        moves(s, block(s)),
    decreases s.rest.len(), 0nat,
{
    lemma_eat(s, TokenKind::LeftBrace, Expected::LParen);
    let (flow, s1) = eat(s, TokenKind::LeftBrace, Expected::LParen);
    if flow is Done && !s1.at_end() {
        lemma_stmts(s1);
        let (flow, s2) = stmts(s1);
        if flow is Done {
            assert(follows(s2, s2.take()));
            assert(follows(s, s2.take()));
        }
    }
}

pub(super) proof fn lemma_fn_decl<'de>(s: Snapshot<'de>)
    requires
        !s.at_end(),
    ensures
        lawful(s, fn_decl(s)),
        moves(s, fn_decl(s)),
    decreases s.rest.len(), 2nat,
{
    lemma_signature(s);
    let (flow, s1) = signature(s);
    if flow is Done {
        lemma_block(s1);
        let (flow, s2) = block(s1);
        if flow is Done {
            assert(follows(s, s2));
        }
    }
}

pub(super) proof fn lemma_if_stmt<'de>(s: Snapshot<'de>)
    requires
        !s.at_end(),
    ensures
        lawful(s, if_stmt(s)),
        moves(s, if_stmt(s)),
    decreases s.rest.len(), 1nat,
{
    lemma_if_head(s);
    let (flow, s1) = if_head(s);
    if flow is Done {
        lemma_block(s1);
        let (flow, s2) = block(s1);
        if flow is Done {
            assert(follows(s, s2));
            if s2.next_is(TokenKind::Else) {
                let s3 = s2.take();
                assert(follows(s2, s3));
                if s3.next_is(TokenKind::If) {
                    lemma_if_stmt(s3);
                } else {
                    lemma_block(s3);
                }
            }
        }
    }
}

pub(super) proof fn lemma_for_loop<'de>(s: Snapshot<'de>)
    requires
        !s.at_end(),
    ensures
        lawful(s, for_loop(s)),
        moves(s, for_loop(s)),
    decreases s.rest.len(), 1nat,
{
    lemma_for_head(s);
    let (flow, s1) = for_head(s);
    if flow is Done {
        lemma_block(s1);
    }
}

pub(super) proof fn lemma_methods<'de>(s: Snapshot<'de>)
    ensures
        lawful(s, methods(s)),
        !(methods(s).0 is Failed),
        methods(s).0 is Done ==> methods(s).1.next_is(TokenKind::RightBrace),
    decreases s.rest.len(), 3nat,
{
    if !s.at_end() && !s.next_is(TokenKind::RightBrace) {
        let set = seq![TokenKind::Fn];
        lemma_fn_decl(s);
        lemma_conform(s, fn_decl(s), set);
        let (flow, s1) = conform(fn_decl(s), set);
        if flow is Done {
            lemma_methods(s1);
        }
    }
}

pub(super) proof fn lemma_impl_block<'de>(s: Snapshot<'de>)
    requires
        !s.at_end(),
    ensures
        lawful(s, impl_block(s)),
        moves(s, impl_block(s)),
    decreases s.rest.len(), 1nat,
{
    if !s.at_end() {
        assert(follows(s, s.take()));
        lemma_ident(s.take(), Expected::ImplTarget);
        let (flow, s1) = ident(s.take(), Expected::ImplTarget);
        if flow is Done {
            lemma_eat(s1, TokenKind::LeftBrace, Expected::LBrace);
            let (flow, s2) = eat(s1, TokenKind::LeftBrace, Expected::LBrace);
            if flow is Done {
                assert(follows(s, s2));
                lemma_methods(s2);
                let (flow, s3) = methods(s2);
                if flow is Done {
                    assert(follows(s3, s3.take()));
                    assert(follows(s, s3.take()));
                }
            }
        }
    }
}

/// A whole parse keeps to the rules, and uses all tokens.
pub proof fn program_is_lawful<'de>(s: Snapshot<'de>)
    ensures
        lawful(s, program(s)),
        !(program(s).0 is Failed),
        program(s).1.at_end(),
    decreases s.rest.len(),
{
    if !s.at_end() {
        stmt_is_lawful(s);
        let (flow, s1) = stmt(s);
        if flow is Done {
            program_is_lawful(s1);
        }
    }
}

} // verus!
