//! The parser reads what is in the language.
use vstd::prelude::*;

use crate::ast::OpKind;
use crate::grammar::{
    argument_list, arguments, assignment, binding_power, block, conform, declaration, expr, fields,
    fn_decl, for_head, for_index, for_loop, if_head, if_stmt, impl_block, methods, operators, param,
    parameters, program, signature, stmt, stmts, structure, Flow, Snapshot,
};
use crate::syntax::SyntaxKind;
use crate::token::{Token, TokenKind};

use super::language::{
    arity, for_len, is_arguments, is_assignment, is_block, is_declaration, is_expr, is_fn_decl,
    is_for, is_if, is_impl, is_param, is_program, is_signature, is_stmt, is_stmts, is_structure,
    is_token, read, text, text_of, Source,
};
use super::precedence::{lowest_rank, operators_are_ranked};
use super::reading::{
    at, behind, lemma_at_end, lemma_at_next, lemma_at_shrinks, lemma_at_start, lemma_next_name,
    lemma_next_token, lemma_read_node, lemma_text_one,
};

verus! {

/// The first of the tokens is an operator whose left binding power is at least `min_bp`.
spec fn binds<'de>(toks: Seq<Token<'de>>, min_bp: u8) -> bool {
    toks.len() > 0 && (OpKind::of_token(toks[0].kind) matches Some(op) && binding_power(op).0
        >= min_bp)
}

/// `rest` does not go on with an operator that belongs to the right operand of `tree`.
spec fn ends_before<'de>(tree: Source<'de>, rest: Seq<Token<'de>>) -> bool {
    match tree {
        Source::Node(SyntaxKind::BinExpr, c) => c[1] matches Source::Token(tok)
            && OpKind::of_token(tok.kind) matches Some(op) && !binds(rest, binding_power(op).1),
        _ => true,
    }
}

/// Parsing an expression from its text comes to where it is the left operand.
proof fn lemma_expr_read<'de>(
    s: Snapshot<'de>,
    tree: Source<'de>,
    min_bp: u8,
    rest: Seq<Token<'de>>,
)
    requires
        s.rest == text_of(tree) + rest,
        is_expr(tree, lowest_rank(min_bp)),
        rest.len() > 0,
        rest[0].kind != TokenKind::LeftParen,
        ends_before(tree, rest),
    ensures
        expr(s, min_bp) == operators(read(s, seq![tree], rest), s.out.len(), min_bp),
        text_of(tree).len() > 0,
    decreases tree, 0int,
{
    let from = s.out.len();
    if let Source::Node(kind, c) = tree {
        let n = c.len() as int;
        lemma_at_start(s, c, rest);
        lemma_at_end(s, c, rest);
        lemma_read_node(s, kind, c, rest);
        match kind {
            SyntaxKind::AtomExpr => {
                if c[0] is Token {
                    lemma_next_token(s, c, 0, rest);
                } else {
                    lemma_next_name(s, c, 0, rest);
                }
            },
            SyntaxKind::FnApp => {
                lemma_next_name(s, c, 0, rest);
                lemma_at_next(s, c, 1, rest);
                let s1 = at(s, c, 1, rest);
                lemma_arguments_read(s1, c[1], behind(c, 1, rest));
            },
            _ => {
                let tok = c[1]->Token_0;
                operators_are_ranked(tok.kind);
                let op = OpKind::of_token(tok.kind)->0;
                let (left, right) = binding_power(op);
                lemma_at_next(s, c, 0, rest);
                lemma_next_token(s, c, 1, rest);
                lemma_at_next(s, c, 2, rest);
                let s1 = at(s, c, 1, rest);
                let s2 = at(s, c, 2, rest);
                let s3 = at(s, c, 3, rest);
                // The left operand, with the operator behind it.
                lemma_weaken(c[0], left, min_bp);
                lemma_ends_before_weaker(c[0], left, s1.rest);
                lemma_expr_read(s, c[0], min_bp, s1.rest);
                assert(s1 == read(s, seq![c[0]], s1.rest));
                // The right operand, with what follows the whole behind it.
                assert(s3.rest == rest);
                lemma_ends_before_tighter(c[2], right, rest);
                lemma_expr_read(s2, c[2], right, rest);
                assert(expr(s2, right) == operators(s3, s2.out.len(), right));
                assert(operators(s3, s2.out.len(), right) == (Flow::Done, s3));
                assert(operators(s1, from, min_bp) == operators(
                    s3.close(from, SyntaxKind::BinExpr),
                    from,
                    min_bp,
                ));
            },
        }
    }
}

proof fn lemma_weaken<'de>(tree: Source<'de>, tight: u8, loose: u8)
    requires
        is_expr(tree, lowest_rank(tight)),
        loose <= tight,
    ensures
        is_expr(tree, lowest_rank(loose)),
{
}

/// An operator that binds no more tightly than `bp` does not belong to the right operand of an
/// expression whose operators bind at least as tightly.
proof fn lemma_ends_before_weaker<'de>(tree: Source<'de>, bp: u8, rest: Seq<Token<'de>>)
    requires
        is_expr(tree, lowest_rank(bp)),
        rest.len() > 0,
        OpKind::of_token(rest[0].kind) matches Some(op) ==> binding_power(op).0 <= bp,
    ensures
        ends_before(tree, rest),
{
    if let Source::Node(SyntaxKind::BinExpr, c) = tree {
        operators_are_ranked(c[1]->Token_0.kind);
    }
}

proof fn lemma_ends_before_tighter<'de>(tree: Source<'de>, bp: u8, rest: Seq<Token<'de>>)
    requires
        is_expr(tree, lowest_rank(bp)),
        !binds(rest, bp),
    ensures
        ends_before(tree, rest),
{
    if let Source::Node(SyntaxKind::BinExpr, c) = tree {
        operators_are_ranked(c[1]->Token_0.kind);
    }
}

/// An expression with something behind it that ends it is read whole.
proof fn lemma_whole_expr_read<'de>(s: Snapshot<'de>, tree: Source<'de>, rest: Seq<Token<'de>>)
    requires
        s.rest == text_of(tree) + rest,
        is_expr(tree, 0),
        rest.len() > 0,
        rest[0].kind != TokenKind::LeftParen,
        OpKind::of_token(rest[0].kind) is None,
    ensures
        expr(s, 0) == (Flow::Done, read(s, seq![tree], rest)),
        text_of(tree).len() > 0,
    decreases tree, 1int,
{
    lemma_ends_before_tighter(tree, 0, rest);
    lemma_expr_read(s, tree, 0, rest);
}

proof fn lemma_arguments_read<'de>(s: Snapshot<'de>, tree: Source<'de>, rest: Seq<Token<'de>>)
    requires
        s.rest == text_of(tree) + rest,
        is_arguments(tree),
    ensures
        arguments(s) == (Flow::Done, read(s, seq![tree], rest)),
        s.next_is(TokenKind::LeftParen),
        rest.len() < s.rest.len(),
    decreases tree, tree->Node_1.len() + 3,
{
    if let Source::Node(kind, c) = tree {
        let n = c.len() as int;
        lemma_at_start(s, c, rest);
        lemma_at_end(s, c, rest);
        lemma_read_node(s, kind, c, rest);
        lemma_next_token(s, c, 0, rest);
        lemma_next_token(s, c, n - 1, rest);
        lemma_at_shrinks(s, c, 1, n, rest);
        if n > 2 {
            lemma_argument_list_read(s, tree, 1, rest);
            lemma_at_next(s, c, 1, rest);
            lemma_first_of_expr(at(s, c, 1, rest), c[1], behind(c, 1, rest));
        }
    }
}

proof fn lemma_argument_list_read<'de>(
    s: Snapshot<'de>,
    tree: Source<'de>,
    i: int,
    rest: Seq<Token<'de>>,
)
    requires
        is_arguments(tree),
        0 < i < tree->Node_1.len() - 1,
        i % 2 == 1,
    ensures
        ({
            let c = tree->Node_1;
            argument_list(at(s, c, i, rest)) == (Flow::Done, at(s, c, c.len() - 1, rest))
        }),
    decreases tree, 2 + tree->Node_1.len() - i,
{
    let c = tree->Node_1;
    let here = at(s, c, i, rest);
    lemma_at_next(s, c, i, rest);
    lemma_next_token(s, c, i + 1, rest);
    assert(c[i + 1] is Token);
    lemma_whole_expr_read(here, c[i], behind(c, i, rest));
    let s1 = at(s, c, i + 1, rest);
    assert(conform(expr(here, 0), seq![TokenKind::Semicolon]) == (Flow::Done, s1));
    if i + 1 < c.len() - 1 {
        lemma_argument_list_read(s, tree, i + 2, rest);
    }
}

/// An expression does not start with what ends a list of arguments.
proof fn lemma_first_of_expr<'de>(s: Snapshot<'de>, tree: Source<'de>, rest: Seq<Token<'de>>)
    requires
        s.rest == text_of(tree) + rest,
        is_expr(tree, 0),
    ensures
        !s.at_end(),
        !s.next_is(TokenKind::RightParen),
{
    lemma_first_token(tree, 0);
}

proof fn lemma_first_token<'de>(tree: Source<'de>, min_bp: u8)
    requires
        is_expr(tree, lowest_rank(min_bp)),
    ensures
        text_of(tree).len() > 0,
        text_of(tree)[0].kind != TokenKind::RightParen,
    decreases tree,
{
    if let Source::Node(kind, c) = tree {
        lemma_first_of_text(c);
        if kind == SyntaxKind::BinExpr {
            operators_are_ranked(c[1]->Token_0.kind);
            let op = OpKind::of_token(c[1]->Token_0.kind)->0;
            lemma_first_token(c[0], binding_power(op).0);
        }
    }
}

/// The text of a list of trees starts with that of the first, if that is not empty.
proof fn lemma_first_of_text<'de>(c: Seq<Source<'de>>)
    requires
        c.len() > 0,
    ensures
        text(c) == text_of(c[0]) + text(c.skip(1)),
{
    let head = seq![c[0]];
    assert(c =~= head + c.skip(1));
    super::reading::lemma_text_add(head, c.skip(1));
    lemma_text_one(c[0]);
}

proof fn lemma_assignment_read<'de>(
    s: Snapshot<'de>,
    tree: Source<'de>,
    semi: bool,
    rest: Seq<Token<'de>>,
)
    requires
        s.rest == text_of(tree) + rest,
        is_assignment(tree, semi),
        !semi ==> rest.len() > 0 && rest[0].kind == TokenKind::RightParen,
    ensures
        assignment(s, semi) == (Flow::Done, read(s, seq![tree], rest)),
        rest.len() < s.rest.len(),
{
    let c = tree->Node_1;
    lemma_at_start(s, c, rest);
    lemma_at_end(s, c, rest);
    lemma_read_node(s, SyntaxKind::Assignment, c, rest);
    lemma_next_name(s, c, 0, rest);
    lemma_next_token(s, c, 1, rest);
    lemma_at_next(s, c, 2, rest);
    if semi {
        lemma_next_token(s, c, 3, rest);
    }
    lemma_whole_expr_read(at(s, c, 2, rest), c[2], behind(c, 2, rest));
}

proof fn lemma_declaration_read<'de>(s: Snapshot<'de>, tree: Source<'de>, rest: Seq<Token<'de>>)
    requires
        s.rest == text_of(tree) + rest,
        is_declaration(tree),
    ensures
        declaration(s) == (Flow::Done, read(s, seq![tree], rest)),
        rest.len() < s.rest.len(),
{
    let c = tree->Node_1;
    lemma_at_start(s, c, rest);
    lemma_at_end(s, c, rest);
    lemma_read_node(s, SyntaxKind::Declaration, c, rest);
    lemma_next_token(s, c, 0, rest);
    lemma_next_name(s, c, 1, rest);
    lemma_next_token(s, c, 2, rest);
    if c.len() == 5 {
        lemma_at_next(s, c, 3, rest);
        lemma_next_token(s, c, 4, rest);
        lemma_whole_expr_read(at(s, c, 3, rest), c[3], behind(c, 3, rest));
    }
}

proof fn lemma_param_read<'de>(
    s: Snapshot<'de>,
    tree: Source<'de>,
    rest: Seq<Token<'de>>,
)
    requires
        s.rest == text_of(tree) + rest,
        is_param(tree),
        rest.len() > 0,
        rest[0].kind != TokenKind::Comma,
    ensures
        s.next_is(TokenKind::Ident),
        param(s) == (Flow::Done, read(s, seq![tree], rest)),
        rest.len() < s.rest.len(),
{
    let c = tree->Node_1;
    lemma_at_start(s, c, rest);
    lemma_at_end(s, c, rest);
    lemma_read_node(s, SyntaxKind::Param, c, rest);
    lemma_next_name(s, c, 0, rest);
    lemma_next_token(s, c, 1, rest);
    lemma_next_name(s, c, 2, rest);
    if c.len() == 4 {
        lemma_next_token(s, c, 3, rest);
    }
}

/// A parameter, or the bracket behind the last one, starts with no comma.
proof fn lemma_param_next<'de>(
    s: Snapshot<'de>,
    c: Seq<Source<'de>>,
    i: int,
    rest: Seq<Token<'de>>,
)
    requires
        0 <= i < c.len(),
        is_param(c[i]) || is_token(c[i], TokenKind::RightBrace) || is_token(
            c[i],
            TokenKind::RightParen,
        ),
    ensures
        !at(s, c, i, rest).at_end(),
        !at(s, c, i, rest).next_is(TokenKind::Comma),
{
    lemma_at_next(s, c, i, rest);
    if is_param(c[i]) {
        lemma_first_of_text(c[i]->Node_1);
    } else {
        lemma_next_token(s, c, i, rest);
    }
}

proof fn lemma_fields_read<'de>(
    s: Snapshot<'de>,
    c: Seq<Source<'de>>,
    i: int,
    rest: Seq<Token<'de>>,
)
    requires
        0 <= i < c.len(),
        forall|j: int| i <= j < c.len() - 1 ==> is_param(#[trigger] c[j]),
        is_token(c[c.len() - 1], TokenKind::RightBrace),
    ensures
        fields(at(s, c, i, rest)) == (Flow::Done, at(s, c, c.len() - 1, rest)),
        !at(s, c, i, rest).at_end(),
    decreases c.len() - i,
{
    if i == c.len() - 1 {
        lemma_next_token(s, c, i, rest);
    } else {
        lemma_at_next(s, c, i, rest);
        lemma_param_next(s, c, i + 1, rest);
        lemma_param_read(at(s, c, i, rest), c[i], behind(c, i, rest));
        lemma_fields_read(s, c, i + 1, rest);
    }
}

proof fn lemma_structure_read<'de>(s: Snapshot<'de>, tree: Source<'de>, rest: Seq<Token<'de>>)
    requires
        s.rest == text_of(tree) + rest,
        is_structure(tree),
    ensures
        structure(s) == (Flow::Done, read(s, seq![tree], rest)),
        rest.len() < s.rest.len(),
{
    let c = tree->Node_1;
    lemma_at_start(s, c, rest);
    lemma_at_end(s, c, rest);
    lemma_read_node(s, SyntaxKind::Struct, c, rest);
    lemma_next_token(s, c, 0, rest);
    lemma_next_name(s, c, 1, rest);
    lemma_next_token(s, c, 2, rest);
    lemma_fields_read(s, c, 3, rest);
    lemma_at_shrinks(s, c, 3, c.len() - 1, rest);
    lemma_next_token(s, c, c.len() - 1, rest);
}

proof fn lemma_parameters_read<'de>(
    s: Snapshot<'de>,
    c: Seq<Source<'de>>,
    i: int,
    rest: Seq<Token<'de>>,
)
    requires
        is_signature(c),
        3 <= i <= arity(c) + 3,
    ensures
        parameters(at(s, c, i, rest)) == (Flow::Done, at(s, c, arity(c) + 3, rest)),
    decreases c.len() - i,
{
    let close = arity(c) + 3;
    lemma_next_token(s, c, close, rest);
    if i < close {
        lemma_at_next(s, c, i, rest);
        lemma_param_next(s, c, i + 1, rest);
        lemma_param_read(at(s, c, i, rest), c[i], behind(c, i, rest));
        lemma_parameters_read(s, c, i + 1, rest);
    }
}

proof fn lemma_signature_read<'de>(s: Snapshot<'de>, c: Seq<Source<'de>>, rest: Seq<Token<'de>>)
    requires
        s.rest == text(c) + rest,
        is_signature(c),
        c[0] is Token,
        is_block(c[c.len() - 1]),
    ensures
        signature(s) == (Flow::Done, at(s, c, c.len() - 1, rest)),
        at(s, c, c.len() - 1, rest).ahead_of(s),
{
    let close = arity(c) + 3;
    let last = c.len() - 1;
    lemma_at_start(s, c, rest);
    lemma_next_token(s, c, 0, rest);
    lemma_next_name(s, c, 1, rest);
    lemma_next_token(s, c, 2, rest);
    lemma_parameters_read(s, c, 3, rest);
    lemma_at_shrinks(s, c, 3, close, rest);
    lemma_next_token(s, c, close, rest);
    if c.len() == arity(c) + 7 {
        lemma_next_token(s, c, close + 1, rest);
        lemma_next_name(s, c, close + 2, rest);
    } else {
        let body = c[last]->Node_1;
        lemma_at_next(s, c, last, rest);
        lemma_first_of_text(body);
        assert(at(s, c, last, rest).next_is(TokenKind::LeftBrace));
    }
}

/// The kinds of the tokens that statements start with.
spec fn starts_stmt(kind: TokenKind) -> bool {
    match kind {
        TokenKind::Let
        | TokenKind::Fn
        | TokenKind::If
        | TokenKind::Impl
        | TokenKind::Struct
        | TokenKind::For
        | TokenKind::Ident => true,
        _ => false,
    }
}

proof fn lemma_stmt_first<'de>(tree: Source<'de>)
    requires
        is_stmt(tree),
    ensures
        text_of(tree).len() > 0,
        starts_stmt(text_of(tree)[0].kind),
{
    lemma_first_of_text(tree->Node_1);
}

/// Where statements stand, either there is none, or a token stands that starts one.
proof fn lemma_stmts_first<'de>(
    s: Snapshot<'de>,
    c: Seq<Source<'de>>,
    i: int,
    end: int,
    rest: Seq<Token<'de>>,
)
    requires
        0 <= i < end <= c.len(),
        is_stmts(c, i, end),
    ensures
        !at(s, c, i, rest).at_end(),
        starts_stmt(at(s, c, i, rest).rest[0].kind),
{
    lemma_at_next(s, c, i, rest);
    if is_stmt(c[i]) {
        lemma_stmt_first(c[i]);
    } else {
        assert(is_for(c, i, false) || is_for(c, i, true));
        lemma_next_token(s, c, i, rest);
    }
}

/// A statement is read whole, if it is not an `if` with an `else` behind it.
proof fn lemma_stmt_read<'de>(s: Snapshot<'de>, tree: Source<'de>, rest: Seq<Token<'de>>)
    requires
        s.rest == text_of(tree) + rest,
        is_stmt(tree),
        rest.len() > 0 ==> rest[0].kind != TokenKind::Else,
    ensures
        stmt(s) == (Flow::Done, read(s, seq![tree], rest)),
        rest.len() < s.rest.len(),
        !s.next_is(TokenKind::RightBrace),
    decreases tree, 3int, 0int,
{
    lemma_first_of_text(tree->Node_1);
    if is_declaration(tree) {
        lemma_declaration_read(s, tree, rest);
    } else if is_assignment(tree, true) {
        lemma_assignment_read(s, tree, true, rest);
    } else if is_structure(tree) {
        lemma_structure_read(s, tree, rest);
    } else if is_fn_decl(tree, false) {
        lemma_fn_decl_read(s, tree, false, rest);
    } else if is_if(tree) {
        lemma_if_read(s, tree, rest);
    } else {
        lemma_impl_read(s, tree, rest);
    }
}

proof fn lemma_for_read<'de>(
    s: Snapshot<'de>,
    c: Seq<Source<'de>>,
    i: int,
    typed: bool,
    rest: Seq<Token<'de>>,
)
    requires
        0 <= i,
        i + for_len(typed) <= c.len(),
        is_for(c, i, typed),
    ensures
        ({
            let here = at(s, c, i, rest);
            let after = at(s, c, i + for_len(typed), rest);
            &&& stmt(here) == (Flow::Done, after)
            &&& after.ahead_of(here)
            &&& !here.next_is(TokenKind::RightBrace)
        }),
    decreases c, 0int, 0int,
{
    let here = at(s, c, i, rest);
    let body = i + for_len(typed) - 1;
    let s1 = at(s, c, body, rest);
    lemma_next_token(s, c, i, rest);
    lemma_for_head_read(s, c, i, typed, rest);
    lemma_at_next(s, c, body, rest);
    lemma_at_shrinks(s, c, i + 1, body, rest);
    lemma_block_read(s1, c[body], behind(c, body, rest));
    assert(for_loop(here) == block(s1));
}

proof fn lemma_for_head_read<'de>(
    s: Snapshot<'de>,
    c: Seq<Source<'de>>,
    i: int,
    typed: bool,
    rest: Seq<Token<'de>>,
)
    requires
        0 <= i,
        i + for_len(typed) <= c.len(),
        is_for(c, i, typed),
    ensures
        for_head(at(s, c, i, rest)) == (Flow::Done, at(s, c, i + for_len(typed) - 1, rest)),
{
    let condition = i + for_len(typed) - 5;
    let step = condition + 2;
    lemma_next_token(s, c, i, rest);
    lemma_next_token(s, c, i + 1, rest);
    lemma_for_index_read(s, c, i + 2, typed, rest);
    lemma_at_next(s, c, condition, rest);
    lemma_next_token(s, c, condition + 1, rest);
    lemma_whole_expr_read(
        at(s, c, condition, rest),
        c[condition],
        behind(c, condition, rest),
    );
    lemma_at_next(s, c, step, rest);
    lemma_next_token(s, c, step + 1, rest);
    lemma_assignment_read(at(s, c, step, rest), c[step], false, behind(c, step, rest));
}

proof fn lemma_for_index_read<'de>(
    s: Snapshot<'de>,
    c: Seq<Source<'de>>,
    i: int,
    typed: bool,
    rest: Seq<Token<'de>>,
)
    requires
        2 <= i,
        i - 2 + for_len(typed) <= c.len(),
        is_for(c, i - 2, typed),
    ensures
        for_index(at(s, c, i, rest)) == (
            Flow::Done,
            at(
                s,
                c,
                if typed {
                    i + 6
                } else {
                    i + 4
                },
                rest,
            ),
        ),
{
    let eq = if typed {
        i + 3
    } else {
        i + 1
    };
    lemma_next_name(s, c, i, rest);
    if typed {
        lemma_next_token(s, c, i + 1, rest);
        lemma_next_name(s, c, i + 2, rest);
    }
    lemma_next_token(s, c, eq, rest);
    lemma_at_next(s, c, eq + 1, rest);
    lemma_next_token(s, c, eq + 2, rest);
    lemma_whole_expr_read(at(s, c, eq + 1, rest), c[eq + 1], behind(c, eq + 1, rest));
}

proof fn lemma_stmts_read<'de>(
    s: Snapshot<'de>,
    c: Seq<Source<'de>>,
    i: int,
    rest: Seq<Token<'de>>,
)
    requires
        0 <= i < c.len(),
        is_stmts(c, i, c.len() - 1),
        is_token(c[c.len() - 1], TokenKind::RightBrace),
    ensures
        stmts(at(s, c, i, rest)) == (Flow::Done, at(s, c, c.len() - 1, rest)),
        !at(s, c, i, rest).at_end(),
    decreases c, 1int, c.len() - i,
{
    let end = c.len() - 1;
    let here = at(s, c, i, rest);
    lemma_next_token(s, c, end, rest);
    if i < end {
        lemma_stmts_first(s, c, i, end, rest);
        let next = if is_stmt(c[i]) && is_stmts(c, i + 1, end) {
            if i + 1 < end {
                lemma_stmts_first(s, c, i + 1, end, rest);
            }
            lemma_at_next(s, c, i, rest);
            lemma_stmt_read(here, c[i], behind(c, i, rest));
            i + 1
        } else {
            let typed = !(i + for_len(false) <= end && is_for(c, i, false) && is_stmts(
                c,
                i + for_len(false),
                end,
            ));
            lemma_for_read(s, c, i, typed, rest);
            i + for_len(typed)
        };
        lemma_stmts_read(s, c, next, rest);
    }
}

proof fn lemma_block_read<'de>(s: Snapshot<'de>, tree: Source<'de>, rest: Seq<Token<'de>>)
    requires
        s.rest == text_of(tree) + rest,
        is_block(tree),
    ensures
        block(s) == (Flow::Done, read(s, seq![tree], rest)),
        rest.len() < s.rest.len(),
        s.next_is(TokenKind::LeftBrace),
    decreases tree, 0int, 0int,
{
    let c = tree->Node_1;
    lemma_at_start(s, c, rest);
    lemma_at_end(s, c, rest);
    lemma_read_node(s, SyntaxKind::Block, c, rest);
    lemma_next_token(s, c, 0, rest);
    lemma_stmts_read(s, c, 1, rest);
    lemma_at_shrinks(s, c, 1, c.len() - 1, rest);
    lemma_next_token(s, c, c.len() - 1, rest);
}

proof fn lemma_fn_decl_read<'de>(
    s: Snapshot<'de>,
    tree: Source<'de>,
    inside_impl: bool,
    rest: Seq<Token<'de>>,
)
    requires
        s.rest == text_of(tree) + rest,
        is_fn_decl(tree, inside_impl),
    ensures
        fn_decl(s) == (Flow::Done, read(s, seq![tree], rest)),
        rest.len() < s.rest.len(),
        !s.next_is(TokenKind::RightBrace),
    decreases tree, 0int, 0int,
{
    let c = tree->Node_1;
    let last = c.len() - 1;
    lemma_at_start(s, c, rest);
    lemma_at_end(s, c, rest);
    lemma_read_node(s, SyntaxKind::FnDecl, c, rest);
    lemma_next_token(s, c, 0, rest);
    lemma_signature_read(s, c, rest);
    lemma_at_next(s, c, last, rest);
    lemma_block_read(at(s, c, last, rest), c[last], behind(c, last, rest));
}

proof fn lemma_if_head_read<'de>(s: Snapshot<'de>, c: Seq<Source<'de>>, rest: Seq<Token<'de>>)
    requires
        s.rest == text(c) + rest,
        c.len() >= 4,
        is_token(c[0], TokenKind::If),
        is_token(c[1], TokenKind::LeftParen),
        is_expr(c[2], 0),
        is_token(c[3], TokenKind::RightParen),
    ensures
        s.next_is(TokenKind::If),
        if_head(s) == (Flow::Done, at(s, c, 4, rest)),
        at(s, c, 4, rest).ahead_of(s),
{
    lemma_at_start(s, c, rest);
    lemma_next_token(s, c, 0, rest);
    lemma_next_token(s, c, 1, rest);
    lemma_at_next(s, c, 2, rest);
    lemma_next_token(s, c, 3, rest);
    lemma_whole_expr_read(at(s, c, 2, rest), c[2], behind(c, 2, rest));
}

proof fn lemma_if_read<'de>(s: Snapshot<'de>, tree: Source<'de>, rest: Seq<Token<'de>>)
    requires
        s.rest == text_of(tree) + rest,
        is_if(tree),
        rest.len() > 0 ==> rest[0].kind != TokenKind::Else,
    ensures
        if_stmt(s) == (Flow::Done, read(s, seq![tree], rest)),
        rest.len() < s.rest.len(),
        s.next_is(TokenKind::If),
    decreases tree, 0int, 0int,
{
    let c = tree->Node_1;
    lemma_at_end(s, c, rest);
    lemma_read_node(s, SyntaxKind::If, c, rest);
    lemma_if_head_read(s, c, rest);
    let s4 = at(s, c, 4, rest);
    lemma_at_next(s, c, 4, rest);
    lemma_block_read(s4, c[4], behind(c, 4, rest));
    if c.len() == 7 {
        lemma_next_token(s, c, 5, rest);
        lemma_at_next(s, c, 6, rest);
        let s6 = at(s, c, 6, rest);
        if is_if(c[6]) {
            lemma_if_read(s6, c[6], behind(c, 6, rest));
        } else {
            lemma_block_read(s6, c[6], behind(c, 6, rest));
        }
    }
}

proof fn lemma_methods_read<'de>(
    s: Snapshot<'de>,
    tree: Source<'de>,
    i: int,
    rest: Seq<Token<'de>>,
)
    requires
        is_impl(tree),
        3 <= i < tree->Node_1.len(),
    ensures
        ({
            let c = tree->Node_1;
            methods(at(s, c, i, rest)) == (Flow::Done, at(s, c, c.len() - 1, rest))
        }),
    decreases tree, 1int, tree->Node_1.len() - i,
{
    let c = tree->Node_1;
    if i == c.len() - 1 {
        lemma_next_token(s, c, i, rest);
    } else {
        let here = at(s, c, i, rest);
        lemma_at_next(s, c, i, rest);
        lemma_fn_decl_read(here, c[i], true, behind(c, i, rest));
        lemma_methods_read(s, tree, i + 1, rest);
        assert(conform(fn_decl(here), seq![TokenKind::Fn]) == fn_decl(here));
    }
}

proof fn lemma_impl_read<'de>(s: Snapshot<'de>, tree: Source<'de>, rest: Seq<Token<'de>>)
    requires
        s.rest == text_of(tree) + rest,
        is_impl(tree),
    ensures
        impl_block(s) == (Flow::Done, read(s, seq![tree], rest)),
        rest.len() < s.rest.len(),
    decreases tree, 2int, 0int,
{
    let c = tree->Node_1;
    lemma_at_start(s, c, rest);
    lemma_at_end(s, c, rest);
    lemma_read_node(s, SyntaxKind::Impl, c, rest);
    lemma_next_token(s, c, 0, rest);
    lemma_next_name(s, c, 1, rest);
    lemma_next_token(s, c, 2, rest);
    lemma_methods_read(s, tree, 3, rest);
    lemma_at_shrinks(s, c, 3, c.len() - 1, rest);
    lemma_next_token(s, c, c.len() - 1, rest);
}

proof fn lemma_program_read<'de>(
    s: Snapshot<'de>,
    c: Seq<Source<'de>>,
    i: int,
    rest: Seq<Token<'de>>,
)
    requires
        0 <= i <= c.len(),
        is_stmts(c, i, c.len() as int),
        rest.len() > 0 ==> rest[0].kind != TokenKind::Else,
    ensures
        program(at(s, c, i, rest)) == program(read(s, c, rest)),
    decreases c.len() - i,
{
    let end = c.len() as int;
    let here = at(s, c, i, rest);
    lemma_at_end(s, c, rest);
    if i < end {
        lemma_stmts_first(s, c, i, end, rest);
        let next = if is_stmt(c[i]) && is_stmts(c, i + 1, end) {
            if i + 1 < end {
                lemma_stmts_first(s, c, i + 1, end, rest);
            }
            lemma_at_next(s, c, i, rest);
            lemma_stmt_read(here, c[i], behind(c, i, rest));
            i + 1
        } else {
            let typed = !(i + for_len(false) <= end && is_for(c, i, false) && is_stmts(
                c,
                i + for_len(false),
                end,
            ));
            lemma_for_read(s, c, i, typed, rest);
            i + for_len(typed)
        };
        lemma_program_read(s, c, next, rest);
    }
}

/// A program in front of other tokens is read without an error, and the parse goes on behind
/// it. (An `else` there could belong to an `if` at the end of the program.)
pub proof fn programs_are_passed_over<'de>(
    s: Snapshot<'de>,
    forest: Seq<Source<'de>>,
    rest: Seq<Token<'de>>,
)
    requires
        is_program(forest),
        s.rest == text(forest) + rest,
        rest.len() > 0 ==> rest[0].kind != TokenKind::Else,
    ensures
        program(s) == program(read(s, forest, rest)),
{
    lemma_at_start(s, forest, rest);
    lemma_program_read(s, forest, 0, rest);
}

/// A program is parsed without an error, and its tree is the one that the language gives it.
pub proof fn programs_are_read<'de>(s: Snapshot<'de>, forest: Seq<Source<'de>>)
    requires
        is_program(forest),
        s.rest == text(forest),
    ensures
        program(s) == (Flow::Done, read(s, forest, Seq::empty())),
        program(s).1.errs == s.errs,
{
    assert(text(forest) + Seq::<Token<'de>>::empty() =~= text(forest));
    programs_are_passed_over(s, forest, Seq::empty());
}

} // verus!
