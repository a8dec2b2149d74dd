//! How operators group their operands.
use vstd::prelude::*;

use crate::ast::OpKind;
use crate::grammar::{arguments, binding_power, expr, operators, Snapshot};
use crate::red_node::Green;
use crate::syntax::SyntaxKind;
use crate::token::TokenKind;

use super::accounts::{lemma_arguments, lemma_expr};
use super::language::rank;
use super::ledger::follows;

verus! {

/// A token is an operator exactly if it is one of `==`, `||`, `&&`, `>`, `>=`, `<`, `<=`, `+`, `-`,
/// `*` and `/`, and no two of these are the same operator. In this order their binding powers
/// rise, but for the comparisons, for `+` and `-`, and for `*` and `/`, which have the same; and
/// to its left each binds less tightly than to its right, but more tightly than any operator of
/// a lower rank does to its right.
pub proof fn operators_are_ranked(kind: TokenKind)
    ensures
        OpKind::of_token(kind) is Some <==> rank(kind) is Some,
        rank(kind) matches Some(r) ==> ({
            let (left, right) = binding_power(OpKind::of_token(kind)->0);
            left == 2 * r + 1 && right == 2 * r + 2
        }),
        OpKind::of_token(kind) == Some(OpKind::Equal) <==> kind == TokenKind::EqualEqual,
        OpKind::of_token(kind) == Some(OpKind::Or) <==> kind == TokenKind::Or,
        OpKind::of_token(kind) == Some(OpKind::And) <==> kind == TokenKind::And,
        OpKind::of_token(kind) == Some(OpKind::Greater) <==> kind == TokenKind::Greater,
        OpKind::of_token(kind) == Some(OpKind::GreaterEqual) <==> kind == TokenKind::GreaterEqual,
        OpKind::of_token(kind) == Some(OpKind::Less) <==> kind == TokenKind::Less,
        OpKind::of_token(kind) == Some(OpKind::LessEqual) <==> kind == TokenKind::LessEqual,
        OpKind::of_token(kind) == Some(OpKind::Add) <==> kind == TokenKind::Plus,
        OpKind::of_token(kind) == Some(OpKind::Sub) <==> kind == TokenKind::Minus,
        OpKind::of_token(kind) == Some(OpKind::Mult) <==> kind == TokenKind::Star,
        OpKind::of_token(kind) == Some(OpKind::Div) <==> kind == TokenKind::Slash,
{
}

/// The lowest rank whose operators bind at least as tightly as `min_bp`.
pub open spec fn lowest_rank(min_bp: u8) -> nat {
    (min_bp / 2) as nat
}

/// The operator that a leaf holds, if it holds one.
pub open spec fn operator_of<'de>(leaf: Green<'de>) -> Option<OpKind> {
    match leaf {
        Green::Token(tok) => OpKind::of_token(tok.kind),
        _ => None,
    }
}

/// The tree is an operand, or an operation whose left binding power is at least `min_bp`. In
/// an operation, the operators on the left bind at least as tightly as its own, and those on
/// the right bind more tightly.
pub open spec fn grouped<'de>(tree: Green<'de>, min_bp: u8) -> bool
    decreases tree,
{
    match tree {
        Green::Node(SyntaxKind::BinExpr, parts) => {
            &&& parts.len() == 3
            &&& operator_of(parts[1]) matches Some(op) && {
                &&& binding_power(op).0 >= min_bp
                &&& grouped(parts[0], binding_power(op).0)
                &&& grouped(parts[2], binding_power(op).1)
            }
        },
        Green::Node(SyntaxKind::AtomExpr, _) => true,
        Green::Node(SyntaxKind::FnApp, _) => true,
        _ => false,
    }
}

/// The next token is an operator whose left binding power is at least `min_bp`.
pub open spec fn next_binds<'de>(s: Snapshot<'de>, min_bp: u8) -> bool {
    !s.at_end() && (OpKind::of_token(s.rest[0].kind) matches Some(op) && binding_power(op).0
        >= min_bp)
}

/// The next token is no operator that the right operand of `tree` should have taken.
spec fn is_settled<'de>(tree: Green<'de>, s: Snapshot<'de>) -> bool {
    match tree {
        Green::Node(SyntaxKind::BinExpr, parts) => operator_of(parts[1]) matches Some(op)
            && !next_binds(s, binding_power(op).1),
        _ => true,
    }
}

/// An expression that is done is one tree, in which every operator has the operands that its
/// binding powers give it; and it stops only where no operator follows that binds as tightly
/// as it was asked to.
pub proof fn expr_is_grouped<'de>(s: Snapshot<'de>, min_bp: u8)
    requires
        expr(s, min_bp).0 is Done,
    ensures
        ({
            let after = expr(s, min_bp).1;
            &&& after.out.len() == s.out.len() + 1
            &&& after.out.drop_last() == s.out
            &&& grouped(after.out.last(), min_bp)
            &&& !next_binds(after, min_bp)
        }),
    decreases s.rest.len(), 1nat,
{
    let from = s.out.len();
    lemma_expr(s, min_bp);
    reveal(follows);
    assert(expr(s, min_bp).1.out.drop_last() =~= s.out);
    if s.next_is(TokenKind::Number) || s.next_is(TokenKind::Float) {
        let s1 = s.take().close(from, SyntaxKind::AtomExpr);
        operators_are_grouped(s1, from, min_bp);
    } else {
        let s1 = s.take_ident();
        if s1.next_is(TokenKind::LeftParen) {
            lemma_arguments(s1);
            let s2 = arguments(s1).1.close(from, SyntaxKind::FnApp);
            operators_are_grouped(s2, from, min_bp);
        } else {
            operators_are_grouped(s1.close(from, SyntaxKind::AtomExpr), from, min_bp);
        }
    }
}

proof fn operators_are_grouped<'de>(s: Snapshot<'de>, from: nat, min_bp: u8)
    requires
        operators(s, from, min_bp).0 is Done,
        s.out.len() == from + 1,
        grouped(s.out.last(), min_bp),
        is_settled(s.out.last(), s),
    ensures
        ({
            let after = operators(s, from, min_bp).1;
            &&& after.out.len() == from + 1
            &&& grouped(after.out.last(), min_bp)
            &&& !next_binds(after, min_bp)
        }),
    decreases s.rest.len(), 0nat,
{
    if next_binds(s, min_bp) {
        let op = OpKind::of_token(s.rest[0].kind)->0;
        let (left, right) = binding_power(op);
        let lhs = s.out.last();
        let s1 = s.take();
        lemma_expr(s1, right);
        expr_is_grouped(s1, right);
        let s2 = expr(s1, right).1;
        let rhs = s2.out.last();
        let parts = s2.out.skip(from as int);
        assert(s2.out[from as int] == s2.out.drop_last()[from as int]);
        assert(s2.out[from as int + 1] == s2.out.drop_last()[from as int + 1]);
        assert(parts =~= seq![lhs, Green::Token(s.rest[0]), rhs]);
        let s3 = s2.close(from, SyntaxKind::BinExpr);
        assert(grouped(lhs, left));
        assert(s3.out.last() == Green::Node(SyntaxKind::BinExpr, parts));
        assert(grouped(s3.out.last(), min_bp));
        operators_are_grouped(s3, from, min_bp);
    }
}

/// The operands and the operators of an expression, in order.
pub open spec fn spine<'de>(tree: Green<'de>) -> Seq<Green<'de>>
    decreases tree,
{
    match tree {
        Green::Node(SyntaxKind::BinExpr, parts) => if parts.len() == 3 {
            spine(parts[0]) + seq![parts[1]] + spine(parts[2])
        } else {
            seq![tree]
        },
        _ => seq![tree],
    }
}

/// Every operator in the spine of a grouped tree binds at least as tightly as the tree does.
proof fn lemma_spine_binds<'de>(tree: Green<'de>, min_bp: u8, i: int)
    requires
        grouped(tree, min_bp),
        0 <= i < spine(tree).len(),
    ensures
        operator_of(spine(tree)[i]) matches Some(op) ==> binding_power(op).0 >= min_bp,
    decreases tree,
{
    if let Green::Node(SyntaxKind::BinExpr, parts) = tree {
        let op = operator_of(parts[1])->0;
        let left = spine(parts[0]);
        if i < left.len() {
            lemma_spine_binds(parts[0], binding_power(op).0, i);
        } else if i > left.len() {
            lemma_spine_binds(parts[2], binding_power(op).1, i - left.len() - 1);
        }
    }
}

/// The binding powers leave one way to group given operands and operators: two grouped trees
/// over the same ones are the same tree.
pub proof fn grouping_is_unique<'de>(a: Green<'de>, b: Green<'de>, min_a: u8, min_b: u8)
    requires
        grouped(a, min_a),
        grouped(b, min_b),
        spine(a) == spine(b),
    ensures
        a == b,
    decreases a,
{
    let all = spine(a);
    if let Green::Node(SyntaxKind::BinExpr, pa) = a {
        if let Green::Node(SyntaxKind::BinExpr, pb) = b {
            let i = spine(pa[0]).len() as int;
            let j = spine(pb[0]).len() as int;
            let op_a = operator_of(pa[1])->0;
            let op_b = operator_of(pb[1])->0;
            assert(all == spine(pa[0]) + seq![pa[1]] + spine(pa[2]));
            assert(spine(b) == spine(pb[0]) + seq![pb[1]] + spine(pb[2]));
            assert(all[i] == pa[1]);
            assert(all[j] == pb[1]);
            if i < j {
                assert(all[j] == spine(pa[2])[j - i - 1]);
                lemma_spine_binds(pa[2], binding_power(op_a).1, j - i - 1);
                assert(all[i] == spine(pb[0])[i]);
                lemma_spine_binds(pb[0], binding_power(op_b).0, i);
                assert(false);
            }
            if j < i {
                assert(all[i] == spine(pb[2])[i - j - 1]);
                lemma_spine_binds(pb[2], binding_power(op_b).1, i - j - 1);
                assert(all[j] == spine(pa[0])[j]);
                lemma_spine_binds(pa[0], binding_power(op_a).0, j);
                assert(false);
            }
            assert(spine(pa[0]) =~= all.take(i));
            assert(spine(pb[0]) =~= all.take(i));
            assert(spine(pa[2]) =~= all.skip(i + 1));
            assert(spine(pb[2]) =~= all.skip(i + 1));
            grouping_is_unique(pa[0], pb[0], binding_power(op_a).0, binding_power(op_b).0);
            grouping_is_unique(pa[2], pb[2], binding_power(op_a).1, binding_power(op_b).1);
            assert(pa =~= pb);
        } else {
            lemma_spine_len(pa[0]);
            lemma_spine_len(pa[2]);
            assert(all.len() == 1);
        }
    } else {
        if let Green::Node(SyntaxKind::BinExpr, pb) = b {
            lemma_spine_len(pb[0]);
            lemma_spine_len(pb[2]);
            assert(all.len() == 1);
        } else {
            assert(spine(a)[0] == a);
            assert(spine(b)[0] == b);
        }
    }
}

proof fn lemma_spine_len<'de>(tree: Green<'de>)
    ensures
        spine(tree).len() > 0,
{
}

} // verus!
