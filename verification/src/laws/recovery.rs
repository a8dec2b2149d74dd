//! Where failed productions are given up, and which productions fail.
use vstd::prelude::*;

use crate::error::{Expected, KindView};
use crate::grammar::{
    assignment, block, conform, expr, fn_decl, signature, signature_end, statement_boundary, stmt,
    Flow, Snapshot,
};
use crate::red_node::Green;
use crate::syntax::SyntaxKind;
use crate::token::TokenKind;

use super::accounts::{lemma_block, lemma_signature};
use super::ledger::lemma_follows;
use super::mistakes::{is_recovered, is_skipped, stmt_starts};
use super::outcome::nesting::stmt_is_told;
use super::parts::{lemma_trees_one, none_of, trees, trees_of, yields, Part};
use super::precedence::expr_is_grouped;

verus! {

/// Skipping ends at the first token of the set, or at the end of the input. What is skipped
/// becomes leaves, one for each token, and nothing is reported.
proof fn lemma_skip_to<'de>(s: Snapshot<'de>, set: Seq<TokenKind>) -> (n: int)
    ensures
        ({
            let after = s.skip_to(set);
            &&& 0 <= n <= s.rest.len()
            &&& after.rest == s.rest.skip(n)
            &&& n < s.rest.len() ==> set.contains(s.rest[n].kind)
            &&& forall|i: int| 0 <= i < n ==> !set.contains((#[trigger] s.rest[i]).kind)
            &&& after.out.len() == s.out.len() + n
            &&& after.out.take(s.out.len() as int) == s.out
            &&& forall|i: int|
                0 <= i < n ==> #[trigger] after.out[s.out.len() + i] == Green::Token(s.rest[i])
            &&& after.errs == s.errs
        }),
    decreases s.rest.len(),
{
    if s.at_end() || s.next_in(set) {
        assert(s.rest.skip(0) =~= s.rest);
        assert(s.out.take(s.out.len() as int) =~= s.out);
        0
    } else {
        let t = s.take();
        let m = lemma_skip_to(t, set);
        let after = s.skip_to(set);
        assert(after.rest =~= s.rest.skip(m + 1));
        assert(after.out.take(s.out.len() as int) =~= after.out.take(t.out.len() as int).take(
            s.out.len() as int,
        ));
        assert(t.out.take(s.out.len() as int) =~= s.out);
        assert forall|i: int| 0 <= i < m + 1 implies #[trigger] after.out[s.out.len() + i]
            == Green::Token(s.rest[i]) by {
            if i == 0 {
                assert(after.out.take(t.out.len() as int)[s.out.len() as int] == t.out.last());
            } else {
                assert(after.out[t.out.len() + (i - 1)] == Green::Token(t.rest[i - 1]));
            }
        }
        assert forall|i: int| 0 <= i < m + 1 implies !set.contains(
            (#[trigger] s.rest[i]).kind,
        ) by {
            if i > 0 {
                assert(s.rest[i] == t.rest[i - 1]);
            }
        }
        if m + 1 < s.rest.len() {
            assert(s.rest[m + 1] == t.rest[m]);
        }
        m + 1
    }
}

/// The same of a recovery: what is skipped is under one error node.
proof fn lemma_recover<'de>(s: Snapshot<'de>, set: Seq<TokenKind>) -> (n: int)
    ensures
        ({
            let after = s.recover(set);
            &&& 0 <= n <= s.rest.len()
            &&& after.rest == s.rest.skip(n)
            &&& n < s.rest.len() ==> set.contains(s.rest[n].kind)
            &&& forall|i: int| 0 <= i < n ==> !set.contains((#[trigger] s.rest[i]).kind)
            &&& after.out == s.out.push(
                Green::Node(
                    SyntaxKind::Error,
                    Seq::new(n as nat, |i: int| Green::Token(s.rest[i])),
                ),
            )
            &&& after.errs == s.errs
        }),
{
    let n = lemma_skip_to(s, set);
    let mid = s.skip_to(set);
    assert(mid.out.skip(s.out.len() as int) =~= Seq::new(
        n as nat,
        |i: int| Green::Token(s.rest[i]),
    )) by {
        assert forall|i: int| 0 <= i < n implies mid.out.skip(s.out.len() as int)[i]
            == Green::Token(s.rest[i]) by {
            assert(mid.out[s.out.len() + i] == Green::Token(s.rest[i]));
        }
    }
    n
}

/// A token that a failed statement is given up at: it starts another one.
pub open spec fn starts_another(kind: TokenKind) -> bool {
    ||| kind == TokenKind::Let
    ||| kind == TokenKind::Fn
    ||| kind == TokenKind::If
    ||| kind == TokenKind::Impl
    ||| kind == TokenKind::Struct
}

proof fn lemma_statement_boundary(kind: TokenKind)
    ensures
        statement_boundary().contains(kind) <==> starts_another(kind),
{
    let set = statement_boundary();
    assert(set[0] == TokenKind::Let);
    assert(set[1] == TokenKind::Fn);
    assert(set[2] == TokenKind::If);
    assert(set[3] == TokenKind::Impl);
    assert(set[4] == TokenKind::Struct);
}

/// A failed statement is given up at the next `let`, `fn`, `if`, `impl` or `struct`, or at the
/// end of the input. Up to there every token is under one error node, and nothing is reported.
pub proof fn failed_statements_stop_at_the_next_one<'de>(failed: Snapshot<'de>) -> (n: int)
    ensures
        ({
            let (flow, after) = conform((Flow::Failed, failed), statement_boundary());
            &&& flow is Done
            &&& 0 <= n <= failed.rest.len()
            &&& after.rest == failed.rest.skip(n)
            &&& n < failed.rest.len() ==> starts_another(failed.rest[n].kind)
            &&& forall|i: int| 0 <= i < n ==> !starts_another((#[trigger] failed.rest[i]).kind)
            &&& after.out == failed.out.push(
                Green::Node(
                    SyntaxKind::Error,
                    Seq::new(n as nat, |i: int| Green::Token(failed.rest[i])),
                ),
            )
            &&& after.errs == failed.errs
        }),
{
    let n = lemma_recover(failed, statement_boundary());
    assert forall|i: int| 0 <= i < n implies !starts_another(
        (#[trigger] failed.rest[i]).kind,
    ) by {
        lemma_statement_boundary(failed.rest[i].kind);
    }
    if n < failed.rest.len() {
        lemma_statement_boundary(failed.rest[n].kind);
    }
    n
}

/// The trees of tokens are leaves that hold them.
proof fn lemma_token_trees<'de>(c: Seq<Part<'de>>, set: Seq<TokenKind>, names: Seq<Seq<char>>)
    requires
        none_of(c, set),
    ensures
        trees(c, names).0.len() == c.len(),
        forall|i: int|
            0 <= i < c.len() ==> #[trigger] trees(c, names).0[i] == Green::Token(
                c[i]->Token_0,
            ) && !set.contains(c[i]->Token_0.kind),
    decreases c.len(),
{
    if c.len() > 0 {
        let init = c.drop_last();
        assert(forall|i: int| 0 <= i < init.len() ==> init[i] == c[i]);
        lemma_token_trees(init, set, names);
        let last = c[c.len() - 1];
        assert(last is Token);
        assert(c.last() == last);
        let between = trees(init, names).1;
        assert(trees_of(last, between).0 == seq![Green::<'de>::Token(last->Token_0)]);
        assert(trees(c, names).0 == trees(init, names).0 + seq![Green::Token(last->Token_0)]);
        assert forall|i: int| 0 <= i < c.len() implies #[trigger] trees(c, names).0[i]
            == Green::Token(c[i]->Token_0) && !set.contains(c[i]->Token_0.kind) by {
            if i < init.len() {
                assert(trees(init, names).0[i] == Green::Token(init[i]->Token_0));
            } else {
                assert(c[i] is Token);
            }
        }
    }
}

/// A statement that is done has left a node for itself, or an error node. In the second case
/// the error node holds tokens none of which starts another statement, and what follows is such
/// a token or the end of the input. Every statement that fails is of the second kind.
pub proof fn statements_end_at_a_boundary<'de>(s: Snapshot<'de>)
    requires
        stmt(s).0 is Done,
    ensures
        ({
            let after = stmt(s).1;
            &&& after.out.len() > s.out.len()
            &&& after.out.last() matches Green::Node(kind, c) && {
                ||| kind == SyntaxKind::Declaration
                ||| kind == SyntaxKind::Assignment
                ||| kind == SyntaxKind::Struct
                ||| kind == SyntaxKind::FnDecl
                ||| kind == SyntaxKind::If
                ||| kind == SyntaxKind::Impl
                ||| kind == SyntaxKind::Block
                ||| kind == SyntaxKind::Error && {
                    &&& after.errs.len() > s.errs.len()
                    &&& after.at_end() || starts_another(after.rest[0].kind)
                    &&& forall|i: int|
                        0 <= i < c.len() ==> ((#[trigger] c[i]) matches Green::Token(tok)
                            && !starts_another(tok.kind))
                }
            }
        }),
{
    let part = stmt_is_told(s);
    let after = stmt(s).1;
    reveal(yields);
    lemma_trees_one(part, s.names);
    assert(after.out == s.out + trees_of(part, s.names).0);
    if is_recovered(part) {
        let c = part->Plain_0;
        let (first, names) = trees(c.drop_last(), s.names);
        let skipped = c[1]->Node_1;
        assert(c.last() == c[1]);
        assert(trees_of(part, s.names).0 == first + trees_of(c[1], names).0);
        assert(after.out.last() == Green::Node(SyntaxKind::Error, trees(skipped, names).0));
        assert(is_skipped(c[1], stmt_starts()));
        lemma_token_trees(skipped, stmt_starts(), names);
        assert forall|i: int| 0 <= i < skipped.len() implies ((
        #[trigger] trees(skipped, names).0[i]) matches Green::Token(tok) && !starts_another(
            tok.kind,
        )) by {
            lemma_statement_boundary(skipped[i]->Token_0.kind);
        }
        if !after.at_end() {
            lemma_statement_boundary(after.rest[0].kind);
        }
    } else {
        match part {
            Part::Node(kind, c) => {
                assert(after.out.last() == trees_of(part, s.names).0[0]);
            },
            Part::Plain(c) => {
                let (first, names) = trees(c.drop_last(), s.names);
                assert(trees_of(part, s.names).0 == first + trees_of(c.last(), names).0);
                assert(after.out.last() == trees_of(c.last(), names).0[0]);
            },
            _ => {},
        }
    }
}

/// Where neither `->` nor `{` stands behind the token that ends a list of parameters, one error
/// is reported, and the signature ends at the first `{` behind it, or at the end of the input.
/// Everything up to there is under one error node.
pub proof fn bad_results_are_skipped<'de>(s: Snapshot<'de>) -> (n: int)
    requires
        s.rest.len() >= 2,
        s.rest[1].kind != TokenKind::Arrow,
        s.rest[1].kind != TokenKind::LeftBrace,
    ensures
        ({
            let (flow, after) = signature_end(s);
            &&& flow is Done
            &&& 2 <= n <= s.rest.len()
            &&& after.rest == s.rest.skip(n)
            &&& n < s.rest.len() ==> s.rest[n].kind == TokenKind::LeftBrace
            &&& forall|i: int|
                2 <= i < n ==> (#[trigger] s.rest[i]).kind != TokenKind::LeftBrace
            &&& after.errs.drop_last() == s.errs
            &&& after.errs.last().kind == KindView::ExpFound(
                seq![TokenKind::LeftBrace, TokenKind::Arrow],
                s.rest[1].lexeme@,
            )
            &&& after.out.len() == s.out.len() + 2
            &&& after.out.last() matches Green::Node(kind, c) && kind == SyntaxKind::Error
                && c.len() == n - 2
        }),
{
    let set = seq![TokenKind::LeftBrace];
    let s1 = s.take();
    let s2 = s1.reject(Expected::LBraceOrArrow);
    let m = lemma_recover(s2, set);
    let after = signature_end(s).1;
    assert(after == s2.recover(set));
    assert(s2.rest =~= s.rest.skip(2));
    assert(after.rest =~= s.rest.skip(m + 2));
    assert(set[0] == TokenKind::LeftBrace);
    assert forall|i: int| 2 <= i < m + 2 implies (#[trigger] s.rest[i]).kind
        != TokenKind::LeftBrace by {
        assert(s.rest[i] == s2.rest[i - 2]);
        assert(!set.contains(s2.rest[i - 2].kind));
    }
    if m + 2 < s.rest.len() {
        assert(s.rest[m + 2] == s2.rest[m]);
    }
    assert(after.errs.drop_last() =~= s.errs);
    m + 2
}

/// A function whose signature and whose body are read ends in a node, whatever was reported on
/// the way.
pub proof fn functions_end_in_a_node<'de>(s: Snapshot<'de>)
    requires
        !s.at_end(),
        signature(s).0 is Done,
        block(signature(s).1).0 is Done,
    ensures
        ({
            let (flow, after) = fn_decl(s);
            &&& flow is Done
            &&& after.rest == block(signature(s).1).1.rest
            &&& after.errs == block(signature(s).1).1.errs
            &&& after.out.len() == s.out.len() + 1
            &&& after.out.last() matches Green::Node(kind, _) && kind == SyntaxKind::FnDecl
        }),
{
    let s1 = signature(s).1;
    lemma_signature(s);
    lemma_follows(s, s1);
    lemma_block(s1);
    lemma_follows(s1, block(s1).1);
}

/// An assignment is done only if it is whole: it then has added one node, over a name, a `=`, an
/// expression and, if it was to have one, a `;`.
pub proof fn assignments_are_whole<'de>(s: Snapshot<'de>, semi: bool)
    requires
        assignment(s, semi).0 is Done,
    ensures
        ({
            let after = assignment(s, semi).1;
            &&& after.out.len() == s.out.len() + 1
            &&& after.out.drop_last() == s.out
            &&& after.out.last() matches Green::Node(kind, c) && {
                &&& kind == SyntaxKind::Assignment
                &&& c.len() == if semi {
                    4int
                } else {
                    3int
                }
                &&& c[0] is Ident
                &&& c[1] matches Green::Token(tok) && tok.kind == TokenKind::Equal
                &&& c[2] matches Green::Node(operand, _) && (operand == SyntaxKind::AtomExpr
                    || operand == SyntaxKind::FnApp || operand == SyntaxKind::BinExpr)
                &&& semi ==> (c[3] matches Green::Token(tok) && tok.kind == TokenKind::Semicolon)
            }
        }),
{
    let s1 = s.take_ident();
    let s2 = s1.take();
    let s3 = expr(s2, 0).1;
    expr_is_grouped(s2, 0);
    let n = s.out.len() as int;
    assert(s3.out.drop_last() == s2.out);
    assert(s3.out.take(n) =~= s.out) by {
        assert(s3.out.drop_last().take(n) =~= s.out);
    }
    assert(s3.out[n] == s3.out.drop_last()[n]);
    assert(s3.out[n + 1] == s3.out.drop_last()[n + 1]);
    let s4 = if semi {
        s3.take()
    } else {
        s3
    };
    assert(s4.out.take(n) =~= s.out);
    assert(assignment(s, semi).1.out.drop_last() =~= s.out);
}

/// An assignment whose value is read and which lacks its `;` fails: the token in its place is
/// reported and gone, and there is no node.
pub proof fn assignments_fail_without_a_semicolon<'de>(s: Snapshot<'de>)
    requires
        s.rest.len() >= 2,
        s.rest[0].kind == TokenKind::Ident,
        s.rest[1].kind == TokenKind::Equal,
        expr(s.take_ident().take(), 0).0 is Done,
        !expr(s.take_ident().take(), 0).1.next_is(TokenKind::Semicolon),
    ensures
        ({
            let value = expr(s.take_ident().take(), 0).1;
            let (flow, after) = assignment(s, true);
            &&& flow == if value.at_end() {
                Flow::Eof
            } else {
                Flow::Failed
            }
            &&& after.out == value.out
            &&& after.errs.drop_last() == value.errs
            &&& after.errs.last().kind == KindView::ExpSemicolonFound(
                if value.at_end() {
                    "EOF"@
                } else {
                    value.rest[0].lexeme@
                },
            )
        }),
{
    let value = expr(s.take_ident().take(), 0).1;
    assert(assignment(s, true).1.errs.drop_last() =~= value.errs);
}

/// Where a statement should stand and nothing does, the end is reported: a `fn` or a `let` was
/// expected. Nothing else changes.
pub proof fn statements_need_a_token<'de>(s: Snapshot<'de>)
    requires
        s.at_end(),
    ensures
        ({
            let (flow, after) = stmt(s);
            &&& flow is Eof
            &&& after.out == s.out && after.names == s.names && after.at_end()
            &&& after.errs.drop_last() == s.errs
            &&& after.errs.last().kind == KindView::ExpFound(
                seq![TokenKind::Fn, TokenKind::Let],
                "EOF"@,
            )
        }),
{
    assert(stmt(s).1.errs.drop_last() =~= s.errs);
}

} // verus!
