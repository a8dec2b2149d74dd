//! What a parse reports depends on the tokens that are to come, and on nothing before them.
use vstd::prelude::*;

use crate::ast::OpKind;
use crate::error::Expected;
use crate::grammar::{
    argument_list, arguments, assignment, binding_power, block, conform, consume_err, declaration,
    eat, expr, fields, fn_decl, for_head, for_index, for_loop, ident, if_head, if_stmt, impl_block,
    methods, operators, param, parameters, program, signature, signature_end, stmt, stmts,
    structure, Snapshot,
};
use crate::syntax::SyntaxKind;
use crate::token::TokenKind;

use super::accounts::{lemma_argument_list, lemma_fields, lemma_methods, lemma_stmts};
use super::alike::{alike, end_alike};

verus! {

broadcast use super::alike::group_alike;

proof fn lemma_expr_alike<'de>(s: Snapshot<'de>, t: Snapshot<'de>, min_bp: u8)
    requires
        alike(s, t),
    ensures
        end_alike(expr(s, min_bp), expr(t, min_bp)),
    decreases s.rest.len(), 1nat,
{
    let (m, n) = (s.out.len(), t.out.len());
    if s.at_end() {
    } else if s.next_is(TokenKind::Number) || s.next_is(TokenKind::Float) {
        let s1 = s.take().close(m, SyntaxKind::AtomExpr);
        let t1 = t.take().close(n, SyntaxKind::AtomExpr);
        lemma_operators_alike(s1, t1, m, n, min_bp);
    } else if s.next_is(TokenKind::Ident) {
        let (s1, t1) = (s.take_ident(), t.take_ident());
        if s1.at_end() {
        } else if s1.next_is(TokenKind::LeftParen) {
            lemma_arguments_alike(s1, t1);
            let (flow, s2) = arguments(s1);
            let t2 = arguments(t1).1;
            if flow is Done && s2.ahead_of(s) {
                let s3 = s2.close(m, SyntaxKind::FnApp);
                let t3 = t2.close(n, SyntaxKind::FnApp);
                lemma_operators_alike(s3, t3, m, n, min_bp);
            }
        } else {
            let s2 = s1.close(m, SyntaxKind::AtomExpr);
            let t2 = t1.close(n, SyntaxKind::AtomExpr);
            lemma_operators_alike(s2, t2, m, n, min_bp);
        }
    }
}

proof fn lemma_operators_alike<'de>(
    s: Snapshot<'de>,
    t: Snapshot<'de>,
    m: nat,
    n: nat,
    min_bp: u8,
)
    requires
        alike(s, t),
    ensures
        end_alike(operators(s, m, min_bp), operators(t, n, min_bp)),
    decreases s.rest.len(), 0nat,
{
    if !s.at_end() {
        if let Some(op) = OpKind::of_token(s.rest[0].kind) {
            let (left, right) = binding_power(op);
            if left >= min_bp {
                let (s0, t0) = (s.take(), t.take());
                lemma_expr_alike(s0, t0, right);
                let (flow, s1) = expr(s0, right);
                let t1 = expr(t0, right).1;
                if flow is Done && s1.ahead_of(s) {
                    let s2 = s1.close(m, SyntaxKind::BinExpr);
                    let t2 = t1.close(n, SyntaxKind::BinExpr);
                    lemma_operators_alike(s2, t2, m, n, min_bp);
                }
            }
        }
    }
}

proof fn lemma_arguments_alike<'de>(s: Snapshot<'de>, t: Snapshot<'de>)
    requires
        alike(s, t),
    ensures
        end_alike(arguments(s), arguments(t)),
    decreases s.rest.len(), 0nat,
{
    if !s.at_end() {
        let (s1, t1) = (s.take(), t.take());
        if !s1.at_end() && !s1.next_is(TokenKind::RightParen) {
            lemma_argument_list_alike(s1, t1);
            let (s2, t2) = (argument_list(s1).1, argument_list(t1).1);
            lemma_argument_list(s1);
            assert(argument_list(s1).0 is Done ==> alike(s2.take(), t2.take()));
        }
    }
}

proof fn lemma_argument_list_alike<'de>(s: Snapshot<'de>, t: Snapshot<'de>)
    requires
        alike(s, t),
    ensures
        end_alike(argument_list(s), argument_list(t)),
    decreases s.rest.len(), 2nat,
{
    let set = seq![TokenKind::Semicolon];
    lemma_expr_alike(s, t, 0);
    let (flow, s1) = conform(expr(s, 0), set);
    let t1 = conform(expr(t, 0), set).1;
    assert(alike(s1, t1));
    if flow is Done && !s1.at_end() && !s1.next_is(TokenKind::RightParen) {
        if s1.next_is(TokenKind::Comma) {
            if s1.take().ahead_of(s) {
                lemma_argument_list_alike(s1.take(), t1.take());
            }
        } else {
            let (s2, t2) = (s1.recover(set), t1.recover(set));
            let s3 = s2.reject(Expected::CommaOrRParen);
            let t3 = t2.reject(Expected::CommaOrRParen);
            if !s2.at_end() && s3.ahead_of(s) {
                lemma_argument_list_alike(s3, t3);
            }
        }
    }
}

proof fn lemma_assignment_alike<'de>(s: Snapshot<'de>, t: Snapshot<'de>, semi: bool)
    requires
        alike(s, t),
    ensures
        end_alike(assignment(s, semi), assignment(t, semi)),
{
    let (s1, t1) = (ident(s, Expected::Ident).1, ident(t, Expected::Ident).1);
    assert(alike(s1, t1));
    let s2 = eat(s1, TokenKind::Equal, Expected::Equal).1;
    let t2 = eat(t1, TokenKind::Equal, Expected::Equal).1;
    assert(alike(s2, t2));
    lemma_expr_alike(s2, t2, 0);
}

proof fn lemma_declaration_alike<'de>(s: Snapshot<'de>, t: Snapshot<'de>)
    requires
        alike(s, t),
    ensures
        end_alike(declaration(s), declaration(t)),
{
    if !s.at_end() {
        let s1 = ident(s.take(), Expected::Ident).1;
        let t1 = ident(t.take(), Expected::Ident).1;
        assert(alike(s1, t1));
        if !s1.at_end() {
            lemma_expr_alike(s1.take(), t1.take(), 0);
        }
    }
}

proof fn lemma_param_alike<'de>(s: Snapshot<'de>, t: Snapshot<'de>)
    requires
        alike(s, t),
    ensures
        end_alike(param(s), param(t)),
{
    let (s0, t0) = (ident(s, Expected::Nothing).1, ident(t, Expected::Nothing).1);
    assert(alike(s0, t0));
    let s1 = eat(s0, TokenKind::Colon, Expected::TyAnnotation).1;
    let t1 = eat(t0, TokenKind::Colon, Expected::TyAnnotation).1;
    assert(alike(s1, t1));
    assert(alike(ident(s1, Expected::Ty).1, ident(t1, Expected::Ty).1));
}

proof fn lemma_fields_alike<'de>(s: Snapshot<'de>, t: Snapshot<'de>)
    requires
        alike(s, t),
    ensures
        end_alike(fields(s), fields(t)),
    decreases s.rest.len(),
{
    if !s.at_end() && !s.next_is(TokenKind::RightBrace) {
        let (flow, s1) = if s.next_is(TokenKind::Ident) {
            lemma_param_alike(s, t);
            param(s)
        } else {
            consume_err(s, Expected::Param)
        };
        let t1 = if s.next_is(TokenKind::Ident) {
            param(t).1
        } else {
            consume_err(t, Expected::Param).1
        };
        assert(alike(s1, t1));
        if flow is Done {
            lemma_fields_alike(s1, t1);
        }
    }
}

proof fn lemma_structure_alike<'de>(s: Snapshot<'de>, t: Snapshot<'de>)
    requires
        alike(s, t),
    ensures
        end_alike(structure(s), structure(t)),
{
    if !s.at_end() {
        let s1 = ident(s.take(), Expected::Ident).1;
        let t1 = ident(t.take(), Expected::Ident).1;
        assert(alike(s1, t1));
        let s2 = eat(s1, TokenKind::LeftBrace, Expected::LBrace).1;
        let t2 = eat(t1, TokenKind::LeftBrace, Expected::LBrace).1;
        assert(alike(s2, t2));
        lemma_fields_alike(s2, t2);
        lemma_fields(s2);
    }
}

proof fn lemma_parameters_alike<'de>(s: Snapshot<'de>, t: Snapshot<'de>)
    requires
        alike(s, t),
    ensures
        end_alike(parameters(s), parameters(t)),
    decreases s.rest.len(),
{
    if s.next_is(TokenKind::Ident) {
        lemma_param_alike(s, t);
        if param(s).0 is Done {
            lemma_parameters_alike(param(s).1, param(t).1);
        }
    }
}

proof fn lemma_signature_alike<'de>(s: Snapshot<'de>, t: Snapshot<'de>)
    requires
        alike(s, t),
    ensures
        end_alike(signature(s), signature(t)),
{
    if !s.at_end() {
        let s1 = ident(s.take(), Expected::Ident).1;
        let t1 = ident(t.take(), Expected::Ident).1;
        assert(alike(s1, t1));
        let s2 = eat(s1, TokenKind::LeftParen, Expected::LParen).1;
        let t2 = eat(t1, TokenKind::LeftParen, Expected::LParen).1;
        assert(alike(s2, t2));
        lemma_parameters_alike(s2, t2);
        let (s3, t3) = (parameters(s2).1, parameters(t2).1);
        assert(end_alike(signature_end(s3), signature_end(t3)));
    }
}

proof fn lemma_if_head_alike<'de>(s: Snapshot<'de>, t: Snapshot<'de>)
    requires
        alike(s, t),
    ensures
        end_alike(if_head(s), if_head(t)),
{
    if !s.at_end() {
        let s1 = eat(s.take(), TokenKind::LeftParen, Expected::LParen).1;
        let t1 = eat(t.take(), TokenKind::LeftParen, Expected::LParen).1;
        assert(alike(s1, t1));
        lemma_expr_alike(s1, t1, 0);
    }
}

proof fn lemma_for_index_alike<'de>(s: Snapshot<'de>, t: Snapshot<'de>)
    requires
        alike(s, t),
    ensures
        end_alike(for_index(s), for_index(t)),
{
    let (s1, t1) = (ident(s, Expected::Ident).1, ident(t, Expected::Ident).1);
    assert(alike(s1, t1));
    let (s2, t2) = if s1.next_is(TokenKind::Colon) {
        (ident(s1.take(), Expected::Ty).1, ident(t1.take(), Expected::Ty).1)
    } else {
        (s1, t1)
    };
    assert(alike(s2, t2));
    let s3 = eat(s2, TokenKind::Equal, Expected::InitialisedIdx).1;
    let t3 = eat(t2, TokenKind::Equal, Expected::InitialisedIdx).1;
    assert(alike(s3, t3));
    lemma_expr_alike(s3, t3, 0);
}

proof fn lemma_for_head_alike<'de>(s: Snapshot<'de>, t: Snapshot<'de>)
    requires
        alike(s, t),
    ensures
        end_alike(for_head(s), for_head(t)),
{
    if !s.at_end() {
        let s1 = eat(s.take(), TokenKind::LeftParen, Expected::LParen).1;
        let t1 = eat(t.take(), TokenKind::LeftParen, Expected::LParen).1;
        assert(alike(s1, t1));
        lemma_for_index_alike(s1, t1);
        let (s2, t2) = (for_index(s1).1, for_index(t1).1);
        lemma_expr_alike(s2, t2, 0);
        let (s3, t3) = (expr(s2, 0).1, expr(t2, 0).1);
        let s4 = eat(s3, TokenKind::Semicolon, Expected::Semicolon).1;
        let t4 = eat(t3, TokenKind::Semicolon, Expected::Semicolon).1;
        assert(alike(s4, t4));
        lemma_assignment_alike(s4, t4, false);
    }
}

proof fn lemma_stmt_alike<'de>(s: Snapshot<'de>, t: Snapshot<'de>)
    requires
        alike(s, t),
    ensures
        end_alike(stmt(s), stmt(t)),
    decreases s.rest.len(), 3nat,
{
    if !s.at_end() {
        match s.rest[0].kind {
            TokenKind::Let => {
                lemma_declaration_alike(s, t);
            },
            TokenKind::Fn => {
                lemma_fn_decl_alike(s, t);
            },
            TokenKind::For => {
                lemma_for_head_alike(s, t);
                let (flow, s1) = for_head(s);
                if flow is Done && s1.ahead_of(s) {
                    lemma_block_alike(s1, for_head(t).1);
                }
                assert(end_alike(for_loop(s), for_loop(t)));
            },
            TokenKind::If => {
                lemma_if_alike(s, t);
            },
            TokenKind::Impl => {
                lemma_impl_alike(s, t);
            },
            TokenKind::Struct => {
                lemma_structure_alike(s, t);
            },
            _ => {
                lemma_assignment_alike(s, t, true);
            },
        }
    }
}

proof fn lemma_stmts_alike<'de>(s: Snapshot<'de>, t: Snapshot<'de>)
    requires
        alike(s, t),
    ensures
        end_alike(stmts(s), stmts(t)),
    decreases s.rest.len(), 4nat,
{
    if !s.at_end() && !s.next_is(TokenKind::RightBrace) {
        lemma_stmt_alike(s, t);
        let (flow, s1) = stmt(s);
        if flow is Done && s1.ahead_of(s) {
            lemma_stmts_alike(s1, stmt(t).1);
        }
    }
}

proof fn lemma_block_alike<'de>(s: Snapshot<'de>, t: Snapshot<'de>)
    requires
        alike(s, t),
    ensures
        end_alike(block(s), block(t)),
    decreases s.rest.len(), 0nat,
{
    let (flow, s1) = eat(s, TokenKind::LeftBrace, Expected::LParen);
    let t1 = eat(t, TokenKind::LeftBrace, Expected::LParen).1;
    assert(alike(s1, t1));
    if flow is Done && !s1.at_end() {
        lemma_stmts_alike(s1, t1);
        lemma_stmts(s1);
    }
}

proof fn lemma_fn_decl_alike<'de>(s: Snapshot<'de>, t: Snapshot<'de>)
    requires
        alike(s, t),
    ensures
        end_alike(fn_decl(s), fn_decl(t)),
    decreases s.rest.len(), 2nat,
{
    lemma_signature_alike(s, t);
    let (flow, s1) = signature(s);
    if flow is Done && s1.ahead_of(s) {
        lemma_block_alike(s1, signature(t).1);
    }
}

proof fn lemma_if_alike<'de>(s: Snapshot<'de>, t: Snapshot<'de>)
    requires
        alike(s, t),
    ensures
        end_alike(if_stmt(s), if_stmt(t)),
    decreases s.rest.len(), 1nat,
{
    lemma_if_head_alike(s, t);
    let (flow, s1) = if_head(s);
    let t1 = if_head(t).1;
    if flow is Done && s1.ahead_of(s) {
        lemma_block_alike(s1, t1);
        let (flow, s2) = block(s1);
        let t2 = block(t1).1;
        if flow is Done && s2.next_is(TokenKind::Else) && s2.ahead_of(s) {
            let (s3, t3) = (s2.take(), t2.take());
            if s3.next_is(TokenKind::If) {
                lemma_if_alike(s3, t3);
            } else {
                lemma_block_alike(s3, t3);
            }
        }
    }
}

proof fn lemma_methods_alike<'de>(s: Snapshot<'de>, t: Snapshot<'de>)
    requires
        alike(s, t),
    ensures
        end_alike(methods(s), methods(t)),
    decreases s.rest.len(), 3nat,
{
    if !s.at_end() && !s.next_is(TokenKind::RightBrace) {
        let set = seq![TokenKind::Fn];
        lemma_fn_decl_alike(s, t);
        let (flow, s1) = conform(fn_decl(s), set);
        let t1 = conform(fn_decl(t), set).1;
        assert(alike(s1, t1));
        if flow is Done && s1.ahead_of(s) {
            lemma_methods_alike(s1, t1);
        }
    }
}

proof fn lemma_impl_alike<'de>(s: Snapshot<'de>, t: Snapshot<'de>)
    requires
        alike(s, t),
    ensures
        end_alike(impl_block(s), impl_block(t)),
    decreases s.rest.len(), 1nat,
{
    if !s.at_end() {
        let (flow, s1) = ident(s.take(), Expected::ImplTarget);
        let t1 = ident(t.take(), Expected::ImplTarget).1;
        assert(alike(s1, t1));
        let (next, s2) = eat(s1, TokenKind::LeftBrace, Expected::LBrace);
        let t2 = eat(t1, TokenKind::LeftBrace, Expected::LBrace).1;
        assert(alike(s2, t2));
        if flow is Done && next is Done {
            lemma_methods_alike(s2, t2);
            lemma_methods(s2);
        }
    }
}

/// What is parsed, and what kinds of errors are reported, depends on the kinds and the texts of
/// the tokens that are to come. It does not depend on the trees, the names or the places of
/// what came before.
pub proof fn programs_end_alike<'de>(s: Snapshot<'de>, t: Snapshot<'de>)
    requires
        alike(s, t),
    ensures
        end_alike(program(s), program(t)),
    decreases s.rest.len(),
{
    if !s.at_end() {
        lemma_stmt_alike(s, t);
        let (flow, s1) = stmt(s);
        if flow is Done && s1.ahead_of(s) {
            programs_end_alike(s1, stmt(t).1);
        }
    }
}

} // verus!
