//! What the parser makes of statements without statements in them, and of the heads of others.
use vstd::prelude::*;

use crate::error::Expected;
use crate::grammar::{
    assignment, consume_err, declaration, eat, expr, fields, for_head, for_index, ident, param,
    parameters, signature, signature_boundary, structure, Flow, Snapshot,
};
use crate::laws::accounts::{lemma_fields, lemma_param};
use crate::laws::mistakes::{
    assignment_part, bad_param, commas_stop, declaration_part, expr_stops, field_part,
    has_bad_param, index_type, is_cut, is_name, is_recovered, is_token, lacks_comma, list_end,
    list_ends, loop_head, name_or, param_part, parameter_item, parameters_part, result_part, starts,
    structure_part, token_or,
};
use crate::laws::parts::{
    all_done, ending, is_done, kids, lemma_all_done_push, lemma_yields_close, lemma_yields_miss,
    lemma_yields_none, lemma_yields_open, lemma_yields_plain, lemma_yields_push,
    lemma_yields_reject, lemma_yields_take, lost, missed, spelled_of, yields, Part,
};
use crate::syntax::SyntaxKind;
use crate::token::{Token, TokenKind};

use super::steps::{
    lemma_let_go, lemma_miss, lemma_name, lemma_nothing, lemma_part, lemma_recovered, lemma_reject,
    lemma_starts, lemma_take, lemma_token,
};
use super::expressions::expr_is_told;

verus! {

/// An assignment: a name, `=`, an expression and, if `semi` is set, a `;`; or one that was given
/// up.
pub proof fn assignment_is_told<'de>(s: Snapshot<'de>, semi: bool) -> (part: Part<'de>)
    ensures
        part is Open ==> !is_done(part),
        part is Open || (part matches Part::Node(kind, _) && kind == SyntaxKind::Assignment),
        assignment_part(part, semi),
        ending(part) == assignment(s, semi).0,
        yields(s, seq![part], assignment(s, semi).1),
        is_done(part) && !semi ==> expr_stops(kids(part)[2], 0, assignment(s, semi).1.rest),
{
    reveal(assignment_part);
    let none = Seq::<Part<'de>>::empty();
    lemma_yields_none(s);
    let name = lemma_name(s, none, s, Expected::Ident);
    let c1 = none.push(name);
    let (flow, s1) = ident(s, Expected::Ident);
    if !(flow is Done) {
        Part::Open(c1)
    } else {
        let equal = lemma_token(s, c1, s1, TokenKind::Equal, Expected::Equal);
        let c2 = c1.push(equal);
        let (flow, s2) = eat(s1, TokenKind::Equal, Expected::Equal);
        if !(flow is Done) {
            Part::Open(c2)
        } else {
            let value = expr_is_told(s2, 0);
            let (flow, s3) = expr(s2, 0);
            lemma_part(s, c2, s2, value, s3);
            let c3 = c2.push(value);
            if !(flow is Done) {
                Part::Open(c3)
            } else if !semi {
                lemma_yields_close(s, c3, s3, SyntaxKind::Assignment);
                Part::Node(SyntaxKind::Assignment, c3)
            } else {
                let end = lemma_token(s, c3, s3, TokenKind::Semicolon, Expected::Semicolon);
                let c4 = c3.push(end);
                let (flow, s4) = eat(s3, TokenKind::Semicolon, Expected::Semicolon);
                if !(flow is Done) {
                    Part::Open(c4)
                } else {
                    lemma_yields_close(s, c4, s4, SyntaxKind::Assignment);
                    Part::Node(SyntaxKind::Assignment, c4)
                }
            }
        }
    }
}

/// A declaration, or one that was given up.
pub proof fn declaration_is_told<'de>(s: Snapshot<'de>) -> (part: Part<'de>)
    requires
        s.next_is(TokenKind::Let),
    ensures
        part is Open ==> !is_done(part),
        part is Open || (part matches Part::Node(kind, _) && kind == SyntaxKind::Declaration),
        declaration_part(part),
        ending(part) == declaration(s).0,
        yields(s, seq![part], declaration(s).1),
{
    reveal(declaration_part);
    let none = Seq::<Part<'de>>::empty();
    lemma_yields_none(s);
    lemma_take(s, none, s);
    let c0 = none.push(Part::Token(s.rest[0]));
    let s0 = s.take();
    let name = lemma_name(s, c0, s0, Expected::Ident);
    let c1 = c0.push(name);
    let (flow, s1) = ident(s0, Expected::Ident);
    if !(flow is Done) {
        Part::Open(c1)
    } else if s1.at_end() {
        lemma_miss(s, c1, s1, Expected::SemicolonOrEqual);
        Part::Open(c1.push(missed(Expected::SemicolonOrEqual)))
    } else if s1.next_is(TokenKind::Colon) {
        lemma_take(s, c1, s1);
        let c2 = c1.push(Part::Token(s1.rest[0]));
        let s2 = s1.take();
        let ty = lemma_name(s, c2, s2, Expected::Ty);
        let c3 = c2.push(ty);
        let (flow, s3) = ident(s2, Expected::Ty);
        if !(flow is Done) {
            Part::Open(c3)
        } else if s3.at_end() {
            lemma_miss(s, c3, s3, Expected::SemicolonOrEqual);
            Part::Open(c3.push(missed(Expected::SemicolonOrEqual)))
        } else {
            lemma_reject(s, c3, s3, Expected::SemicolonOrEqual);
            Part::Open(c3.push(lost(s3.rest[0], Expected::SemicolonOrEqual)))
        }
    } else if s1.next_is(TokenKind::Semicolon) {
        lemma_take(s, c1, s1);
        let c2 = c1.push(Part::Token(s1.rest[0]));
        lemma_yields_close(s, c2, s1.take(), SyntaxKind::Declaration);
        Part::Node(SyntaxKind::Declaration, c2)
    } else if s1.next_is(TokenKind::Equal) {
        lemma_take(s, c1, s1);
        let c2 = c1.push(Part::Token(s1.rest[0]));
        let s2 = s1.take();
        let value = expr_is_told(s2, 0);
        let (flow, s3) = expr(s2, 0);
        lemma_part(s, c2, s2, value, s3);
        let c3 = c2.push(value);
        if !(flow is Done) {
            Part::Open(c3)
        } else {
            let end = lemma_token(s, c3, s3, TokenKind::Semicolon, Expected::Semicolon);
            let c4 = c3.push(end);
            let (flow, s4) = eat(s3, TokenKind::Semicolon, Expected::Semicolon);
            if !(flow is Done) {
                Part::Open(c4)
            } else {
                lemma_yields_close(s, c4, s4, SyntaxKind::Declaration);
                Part::Node(SyntaxKind::Declaration, c4)
            }
        }
    } else {
        lemma_reject(s, c1, s1, Expected::SemicolonOrEqual);
        Part::Open(c1.push(lost(s1.rest[0], Expected::SemicolonOrEqual)))
    }
}

/// A parameter, or one without an end.
pub proof fn param_is_told<'de>(s: Snapshot<'de>) -> (part: Part<'de>)
    requires
        s.next_is(TokenKind::Ident),
    ensures
        param_part(part),
        ending(part) == param(s).0,
        yields(s, seq![part], param(s).1),
        is_done(part) && lacks_comma(part) ==> !param(s).1.next_is(TokenKind::Comma),
{
    let none = Seq::<Part<'de>>::empty();
    lemma_yields_none(s);
    let name = lemma_name(s, none, s, Expected::Nothing);
    let c0 = none.push(name);
    let s0 = s.take_ident();
    if s0.at_end() {
        lemma_miss(s, c0, s0, Expected::TyAnnotation);
        Part::Open(c0.push(missed(Expected::TyAnnotation)))
    } else {
        let colon = if s0.next_is(TokenKind::Colon) {
            lemma_take(s, c0, s0);
            Part::Token(s0.rest[0])
        } else {
            lemma_let_go(s, c0, s0, Expected::TyAnnotation)
        };
        let s1 = eat(s0, TokenKind::Colon, Expected::TyAnnotation).1;
        let c1 = c0.push(colon);
        if s1.at_end() {
            lemma_miss(s, c1, s1, Expected::Ty);
            Part::Open(c1.push(missed(Expected::Ty)))
        } else {
            let ty = if s1.next_is(TokenKind::Ident) {
                lemma_name(s, c1, s1, Expected::Ty)
            } else {
                lemma_let_go(s, c1, s1, Expected::Ty)
            };
            let s2 = ident(s1, Expected::Ty).1;
            let c2 = c1.push(ty);
            if s2.at_end() {
                lemma_miss(s, c2, s2, Expected::RParen);
                Part::Open(c2.push(missed(Expected::RParen)))
            } else if s2.next_is(TokenKind::Comma) {
                lemma_take(s, c2, s2);
                let c3 = c2.push(Part::Token(s2.rest[0]));
                lemma_yields_close(s, c3, s2.take(), SyntaxKind::Param);
                Part::Node(SyntaxKind::Param, c3)
            } else {
                lemma_nothing(s, c2, s2);
                let c3 = c2.push(Part::Plain(Seq::empty()));
                lemma_yields_close(s, c3, s2, SyntaxKind::Param);
                Part::Node(SyntaxKind::Param, c3)
            }
        }
    }
}

/// The parts of a struct so far.
#[verifier::opaque]
spec fn are_fields<'de>(c: Seq<Part<'de>>) -> bool {
    &&& c.len() >= 3
    &&& is_token(c[0], TokenKind::Struct)
    &&& is_name(c[1])
    &&& is_token(c[2], TokenKind::LeftBrace)
    &&& commas_stop(c)
    &&& forall|i: int| 3 <= i < c.len() ==> field_part(i - 3, #[trigger] c[i])
}

proof fn lemma_are_fields<'de>(c: Seq<Part<'de>>, part: Part<'de>)
    requires
        are_fields(c),
        field_part(c.len() - 3, part),
        lacks_comma(c[c.len() - 1]) ==> !starts(part, TokenKind::Comma),
    ensures
        are_fields(c.push(part)),
{
    reveal(are_fields);
    assert(forall|i: int| 0 <= i < c.len() ==> c.push(part)[i] == c[i]);
}

proof fn lemma_fields_cut<'de>(c: Seq<Part<'de>>)
    requires
        are_fields(c),
        is_cut(c),
    ensures
        structure_part(Part::Open(c)),
{
    reveal(structure_part);
    reveal(are_fields);
}

proof fn lemma_fields_closed<'de>(c: Seq<Part<'de>>, tok: Token<'de>)
    requires
        are_fields(c),
        all_done(c),
        tok.kind == TokenKind::RightBrace,
    ensures
        structure_part(Part::Node(SyntaxKind::Struct, c.push(Part::Token(tok)))),
{
    reveal(structure_part);
    reveal(are_fields);
    let last = Part::Token(tok);
    lemma_all_done_push(c, last);
    assert(spelled_of(last) == seq![tok]);
    assert(forall|i: int| 0 <= i < c.len() ==> c.push(last)[i] == c[i]);
}

/// What stands where a field should.
proof fn field_is_told<'de>(s: Snapshot<'de>) -> (part: Part<'de>)
    requires
        !s.at_end(),
        !s.next_is(TokenKind::RightBrace),
    ensures
        ({
            let (flow, after) = if s.next_is(TokenKind::Ident) {
                param(s)
            } else {
                consume_err(s, Expected::Param)
            };
            &&& forall|i: int| #[trigger] field_part(i, part)
            &&& ending(part) == flow
            &&& yields(s, seq![part], after)
            &&& flow is Done && lacks_comma(part) ==> !after.next_is(TokenKind::Comma)
        }),
{
    if s.next_is(TokenKind::Ident) {
        param_is_told(s)
    } else {
        let none = Seq::<Part<'de>>::empty();
        lemma_yields_none(s);
        lemma_yields_reject(s, none, s, Expected::Param);
        let gone = lost(s.rest[0], Expected::Param);
        let one = none.push(gone);
        let s1 = s.reject(Expected::Param);
        if s1.at_end() {
            lemma_yields_miss(s, one, s1, Expected::Param);
            let two = one.push(missed(Expected::Param));
            lemma_yields_open(s, two, s1.miss(Expected::Param));
            assert(two[0] == gone && two[1] == missed::<'de>(Expected::Param));
            let part = Part::Open(two);
            assert(kids(part) == two && two.len() == 2);
            assert(ending(two[1]) is Eof);
            assert forall|i: int| #[trigger] field_part(i, part) by {}
            part
        } else {
            lemma_yields_none(s1);
            lemma_yields_take(s1, none, s1);
            let tok = Part::Token(s1.rest[0]);
            lemma_yields_close(s1, seq![tok], s1.take(), SyntaxKind::Error);
            let node = Part::Node(SyntaxKind::Error, seq![tok]);
            let s2 = s1.take().close(s1.out.len(), SyntaxKind::Error);
            lemma_yields_push(s, one, s1, node, s2);
            let two = one.push(node);
            lemma_yields_plain(s, two, s2);
            assert(two[0] == gone && two[1] == node);
            let part = Part::Plain(two);
            assert(kids(part) == two && two.len() == 2);
            assert forall|i: int| #[trigger] field_part(i, part) by {}
            part
        }
    }
}

proof fn fields_are_told<'de>(
    s0: Snapshot<'de>,
    c: Seq<Part<'de>>,
    s: Snapshot<'de>,
) -> (d: Seq<Part<'de>>)
    requires
        yields(s0, c, s),
        all_done(c),
        are_fields(c),
        c.len() >= 3,
        c.len() == 3 ==> !s.at_end(),
        lacks_comma(c[c.len() - 1]) ==> !s.next_is(TokenKind::Comma),
    ensures
        yields(s0, d, fields(s).1),
        are_fields(d),
        fields(s).0 is Done ==> all_done(d),
        !(fields(s).0 is Done) ==> is_cut(d) && ending(d[d.len() - 1]) == fields(s).0,
    decreases s.rest.len(),
{
    reveal_with_fuel(fields, 2);
    if s.at_end() {
        lemma_miss(s0, c, s, Expected::IdentOrRParen);
        let end = missed::<'de>(Expected::IdentOrRParen);
        assert(c.len() > 3) by {
            reveal(are_fields);
        }
        lemma_are_fields(c, end);
        c.push(end)
    } else if s.next_is(TokenKind::RightBrace) {
        c
    } else {
        let (flow, s1) = if s.next_is(TokenKind::Ident) {
            lemma_param(s);
            param(s)
        } else {
            consume_err(s, Expected::Param)
        };
        let field = field_is_told(s);
        lemma_part(s0, c, s, field, s1);
        lemma_starts(s, field, s1);
        lemma_are_fields(c, field);
        if flow is Done {
            fields_are_told(s0, c.push(field), s1)
        } else {
            c.push(field)
        }
    }
}

/// A struct, or one that was given up.
pub proof fn structure_is_told<'de>(s: Snapshot<'de>) -> (part: Part<'de>)
    requires
        s.next_is(TokenKind::Struct),
    ensures
        part is Open ==> !is_done(part),
        part is Open || (part matches Part::Node(kind, _) && kind == SyntaxKind::Struct),
        structure_part(part),
        ending(part) == structure(s).0,
        yields(s, seq![part], structure(s).1),
{
    reveal(structure_part);
    let none = Seq::<Part<'de>>::empty();
    lemma_yields_none(s);
    lemma_take(s, none, s);
    let c0 = none.push(Part::Token(s.rest[0]));
    let s0 = s.take();
    let name = lemma_name(s, c0, s0, Expected::Ident);
    let c1 = c0.push(name);
    let (flow, s1) = ident(s0, Expected::Ident);
    if !(flow is Done) {
        Part::Open(c1)
    } else {
        let brace = lemma_token(s, c1, s1, TokenKind::LeftBrace, Expected::LBrace);
        let c2 = c1.push(brace);
        let (flow, s2) = eat(s1, TokenKind::LeftBrace, Expected::LBrace);
        if !(flow is Done) {
            Part::Open(c2)
        } else {
            assert(are_fields(c2)) by {
                reveal(are_fields);
            }
            if s2.at_end() {
                lemma_miss(s, c2, s2, Expected::CommaOrRBrace);
                let end = missed::<'de>(Expected::CommaOrRBrace);
                lemma_are_fields(c2, end);
                lemma_fields_cut(c2.push(end));
                Part::Open(c2.push(end))
            } else {
                lemma_fields(s2);
                let (flow, s3) = fields(s2);
                let d = fields_are_told(s, c2, s2);
                if flow is Done {
                    lemma_take(s, d, s3);
                    let e = d.push(Part::Token(s3.rest[0]));
                    lemma_yields_close(s, e, s3.take(), SyntaxKind::Struct);
                    lemma_fields_closed(d, s3.rest[0]);
                    Part::Node(SyntaxKind::Struct, e)
                } else {
                    lemma_yields_open(s, d, s3);
                    lemma_fields_cut(d);
                    Part::Open(d)
                }
            }
        }
    }
}

/// Parameters so far.
#[verifier::opaque]
spec fn are_params<'de>(c: Seq<Part<'de>>) -> bool {
    &&& commas_stop(c)
    &&& forall|i: int| 0 <= i < c.len() ==> param_part(#[trigger] c[i])
}

proof fn lemma_are_params<'de>(c: Seq<Part<'de>>, part: Part<'de>)
    requires
        are_params(c),
        param_part(part),
        c.len() > 0 && lacks_comma(c[c.len() - 1]) ==> !starts(part, TokenKind::Comma),
    ensures
        are_params(c.push(part)),
{
    reveal(are_params);
    assert(forall|i: int| 0 <= i < c.len() ==> c.push(part)[i] == c[i]);
}

/// A list of parameters without anything else in it.
proof fn lemma_params<'de>(c: Seq<Part<'de>>)
    requires
        are_params(c),
        all_done(c),
    ensures
        parameters_part(Part::Plain(c)),
        !has_bad_param(Part::Plain(c)),
{
    reveal(are_params);
}

/// A list of parameters without an end.
proof fn lemma_params_cut<'de>(c: Seq<Part<'de>>)
    requires
        are_params(c),
        is_cut(c),
    ensures
        parameters_part(Part::Open(c)),
{
    reveal(are_params);
}

/// A list of parameters with something else behind them.
proof fn lemma_params_then<'de>(c: Seq<Part<'de>>, part: Part<'de>)
    requires
        are_params(c),
        all_done(c),
        parameter_item(part),
        c.len() > 0 && lacks_comma(c[c.len() - 1]) ==> !starts(part, TokenKind::Comma),
    ensures
        is_done(part) ==> parameters_part(Part::Plain(c.push(part))),
        !is_done(part) ==> parameters_part(Part::Open(c.push(part))),
{
    reveal(are_params);
    let d = c.push(part);
    assert(forall|i: int| 0 <= i < c.len() ==> d[i] == c[i]);
    assert(d.drop_last() =~= c);
    if is_done(part) {
        lemma_all_done_push(c, part);
    }
}

/// What stands in a list of parameters where none does.
proof fn bad_param_is_told<'de>(s: Snapshot<'de>) -> (part: Part<'de>)
    requires
        !s.at_end(),
        !s.next_is(TokenKind::RightParen),
        !s.next_is(TokenKind::Ident),
    ensures
        ({
            let after = s.reject(Expected::Param).recover(signature_boundary());
            &&& bad_param(part)
            &&& yields(s, seq![part], after)
            &&& after.at_end() || after.next_in(list_ends())
        }),
{
    let none = Seq::<Part<'de>>::empty();
    lemma_yields_none(s);
    lemma_yields_reject(s, none, s, Expected::Param);
    let gone = lost(s.rest[0], Expected::Param);
    assert(none.push(gone) =~= seq![gone]);
    lemma_recovered(s, gone, s.reject(Expected::Param), signature_boundary())
}

proof fn parameters_are_told<'de>(
    s0: Snapshot<'de>,
    c: Seq<Part<'de>>,
    s: Snapshot<'de>,
) -> (part: Part<'de>)
    requires
        yields(s0, c, s),
        all_done(c),
        are_params(c),
        c.len() > 0 && lacks_comma(c[c.len() - 1]) ==> !s.next_is(TokenKind::Comma),
    ensures
        parameters_part(part),
        ending(part) == parameters(s).0,
        yields(s0, seq![part], parameters(s).1),
        is_done(part) ==> if has_bad_param(part) {
            parameters(s).1.at_end() || parameters(s).1.next_in(list_ends())
        } else {
            parameters(s).1.next_is(TokenKind::RightParen)
        },
    decreases s.rest.len(),
{
    if s.at_end() {
        lemma_miss(s0, c, s, Expected::IdentOrRParen);
        let end = missed::<'de>(Expected::IdentOrRParen);
        lemma_params_then(c, end);
        Part::Open(c.push(end))
    } else if s.next_is(TokenKind::RightParen) {
        lemma_yields_plain(s0, c, s);
        lemma_params(c);
        Part::Plain(c)
    } else if s.next_is(TokenKind::Ident) {
        let (flow, s1) = param(s);
        lemma_param(s);
        let next = param_is_told(s);
        lemma_part(s0, c, s, next, s1);
        lemma_starts(s, next, s1);
        lemma_are_params(c, next);
        if flow is Done {
            parameters_are_told(s0, c.push(next), s1)
        } else {
            lemma_params_cut(c.push(next));
            Part::Open(c.push(next))
        }
    } else {
        let s1 = s.reject(Expected::Param).recover(signature_boundary());
        let bad = bad_param_is_told(s);
        lemma_part(s0, c, s, bad, s1);
        lemma_starts(s, bad, s1);
        lemma_params_then(c, bad);
        let d = c.push(bad);
        lemma_yields_plain(s0, d, s1);
        assert(d[d.len() - 1] == bad);
        Part::Plain(d)
    }
}

/// What stands behind the `)` of a signature: nothing, a type, or something that is reported and
/// what is skipped behind it up to a `{`.
proof fn result_is_told<'de>(s: Snapshot<'de>) -> (told: (Part<'de>, Flow, Snapshot<'de>))
    ensures
        ({
            let (part, flow, after) = told;
            &&& result_part(part)
            &&& ending(part) == flow
            &&& yields(s, seq![part], after)
            &&& flow is Done && kids(part).len() == 0 ==> after.next_is(TokenKind::LeftBrace)
            &&& is_recovered(part) ==> after.at_end() || after.next_is(TokenKind::LeftBrace)
            &&& if s.at_end() {
                flow is Eof && after == s.miss(Expected::LBraceOrArrow)
            } else if s.next_is(TokenKind::Arrow) {
                after == ident(s.take(), Expected::Ident).1 && if s.take().at_end() {
                    flow is Eof
                } else {
                    flow is Done
                }
            } else if s.next_is(TokenKind::LeftBrace) {
                flow is Done && after == s
            } else {
                flow is Done && after == s.reject(Expected::LBraceOrArrow).recover(
                    seq![TokenKind::LeftBrace],
                )
            }
        }),
{
    let none = Seq::<Part<'de>>::empty();
    lemma_yields_none(s);
    if s.at_end() {
        lemma_miss(s, none, s, Expected::LBraceOrArrow);
        let end = missed(Expected::LBraceOrArrow);
        assert(none.push(end) =~= seq![end]);
        (end, Flow::Eof, s.miss(Expected::LBraceOrArrow))
    } else if s.next_is(TokenKind::Arrow) {
        lemma_take(s, none, s);
        let c = none.push(Part::Token(s.rest[0]));
        let s1 = s.take();
        let ty = lemma_name(s, c, s1, Expected::Ident);
        let d = c.push(ty);
        let s2 = ident(s1, Expected::Ident).1;
        assert(d[0] == c[0] && d[1] == ty);
        if s1.at_end() {
            (Part::Open(d), Flow::Eof, s2)
        } else {
            lemma_yields_plain(s, d, s2);
            (Part::Plain(d), Flow::Done, s2)
        }
    } else if s.next_is(TokenKind::LeftBrace) {
        lemma_yields_plain(s, none, s);
        (Part::Plain(none), Flow::Done, s)
    } else {
        lemma_yields_reject(s, none, s, Expected::LBraceOrArrow);
        let gone = lost(s.rest[0], Expected::LBraceOrArrow);
        assert(none.push(gone) =~= seq![gone]);
        let set = seq![TokenKind::LeftBrace];
        let s1 = s.reject(Expected::LBraceOrArrow);
        let part = lemma_recovered(s, gone, s1, set);
        (part, Flow::Done, s1.recover(set))
    }
}

/// The parts of a function in front of its body.
pub(super) open spec fn are_signature<'de>(c: Seq<Part<'de>>, tok: Token<'de>) -> bool {
    &&& 2 <= c.len() <= 6
    &&& c[0] == Part::Token(tok)
    &&& name_or(c[1], |found: Seq<char>| Expected::Ident.kind_view(found))
    &&& c.len() > 2 ==> token_or(
        c[2],
        TokenKind::LeftParen,
        |found: Seq<char>| Expected::LParen.kind_view(found),
    )
    &&& c.len() > 3 ==> parameters_part(c[3])
    &&& c.len() > 4 ==> list_end(c[3], c[4])
    &&& c.len() > 5 ==> result_part(c[5])
}

pub(super) proof fn signature_is_told<'de>(s: Snapshot<'de>) -> (c: Seq<Part<'de>>)
    requires
        !s.at_end(),
    ensures
        ({
            let (flow, after) = signature(s);
            &&& are_signature(c, s.rest[0])
            &&& yields(s, c, after)
            &&& flow is Done ==> {
                &&& c.len() == 6
                &&& all_done(c)
                &&& kids(c[5]).len() == 0 ==> after.next_is(TokenKind::LeftBrace)
                &&& is_recovered(c[5]) ==> after.at_end() || after.next_is(TokenKind::LeftBrace)
            }
            &&& !(flow is Done) ==> is_cut(c) && ending(c[c.len() - 1]) == flow
        }),
{
    let none = Seq::<Part<'de>>::empty();
    lemma_yields_none(s);
    lemma_take(s, none, s);
    let c0 = none.push(Part::Token(s.rest[0]));
    let s0 = s.take();
    let name = lemma_name(s, c0, s0, Expected::Ident);
    let c1 = c0.push(name);
    let (flow, s1) = ident(s0, Expected::Ident);
    if !(flow is Done) {
        c1
    } else {
        let paren = lemma_token(s, c1, s1, TokenKind::LeftParen, Expected::LParen);
        let c2 = c1.push(paren);
        let (flow, s2) = eat(s1, TokenKind::LeftParen, Expected::LParen);
        if !(flow is Done) {
            c2
        } else {
            lemma_yields_none(s2);
            assert(are_params(none)) by {
                reveal(are_params);
            }
            let params = parameters_are_told(s2, none, s2);
            let (flow, s3) = parameters(s2);
            lemma_part(s, c2, s2, params, s3);
            let c3 = c2.push(params);
            assert(are_signature(c3, s.rest[0]));
            if !(flow is Done) {
                c3
            } else if s3.at_end() {
                lemma_miss(s, c3, s3, Expected::RParen);
                let c4 = c3.push(missed(Expected::RParen));
                assert(list_end(c4[3], c4[4]));
                c4
            } else {
                lemma_take(s, c3, s3);
                let s4 = s3.take();
                let c4 = c3.push(Part::Token(s3.rest[0]));
                assert(list_end(c4[3], c4[4]));
                let (result, flow, s5) = result_is_told(s4);
                lemma_part(s, c4, s4, result, s5);
                c4.push(result)
            }
        }
    }
}

/// The index of a loop is read behind `for (`.
proof fn for_index_is_told<'de>(
    s0: Snapshot<'de>,
    c: Seq<Part<'de>>,
    s: Snapshot<'de>,
) -> (d: Seq<Part<'de>>)
    requires
        yields(s0, c, s),
        all_done(c),
        c.len() == 2,
        loop_head(c),
    ensures
        ({
            let (flow, after) = for_index(s);
            &&& loop_head(d)
            &&& d.len() <= 7
            &&& yields(s0, d, after)
            &&& flow is Done ==> d.len() == 7 && all_done(d)
            &&& !(flow is Done) ==> is_cut(d) && ending(d[d.len() - 1]) == flow
        }),
{
    let none = Seq::<Part<'de>>::empty();
    let name = lemma_name(s0, c, s, Expected::Ident);
    let c2 = c.push(name);
    let (flow, s1) = ident(s, Expected::Ident);
    if !(flow is Done) {
        c2
    } else {
        let typed = s1.next_is(TokenKind::Colon);
        let (ty, s2) = if typed {
            lemma_yields_none(s1);
            lemma_take(s1, none, s1);
            let one = none.push(Part::Token(s1.rest[0]));
            let ty = lemma_name(s1, one, s1.take(), Expected::Ty);
            let two = one.push(ty);
            let s2 = ident(s1.take(), Expected::Ty).1;
            assert(two[0] == one[0] && two[1] == ty);
            if is_done(ty) {
                lemma_yields_plain(s1, two, s2);
                (Part::Plain(two), s2)
            } else {
                (Part::Open(two), s2)
            }
        } else {
            lemma_yields_none(s1);
            lemma_yields_plain(s1, none, s1);
            (Part::Plain(none), s1)
        };
        lemma_part(s0, c2, s1, ty, s2);
        let c3 = c2.push(ty);
        assert(index_type(ty));
        if !is_done(ty) {
            c3
        } else {
            let equal = lemma_token(s0, c3, s2, TokenKind::Equal, Expected::InitialisedIdx);
            let c4 = c3.push(equal);
            let (flow, s3) = eat(s2, TokenKind::Equal, Expected::InitialisedIdx);
            if !(flow is Done) {
                c4
            } else {
                let value = expr_is_told(s3, 0);
                let (flow, s4) = expr(s3, 0);
                lemma_part(s0, c4, s3, value, s4);
                let c5 = c4.push(value);
                if !(flow is Done) {
                    c5
                } else {
                    let end = lemma_token(s0, c5, s4, TokenKind::Semicolon, Expected::Semicolon);
                    c5.push(end)
                }
            }
        }
    }
}

/// A loop in front of its body.
pub(super) proof fn for_head_is_told<'de>(s: Snapshot<'de>) -> (d: Seq<Part<'de>>)
    requires
        s.next_is(TokenKind::For),
    ensures
        ({
            let (flow, after) = for_head(s);
            &&& loop_head(d)
            &&& d.len() <= 11
            &&& yields(s, d, after)
            &&& flow is Done ==> d.len() == 11 && all_done(d)
            &&& !(flow is Done) ==> is_cut(d) && ending(d[d.len() - 1]) == flow
        }),
{
    let none = Seq::<Part<'de>>::empty();
    lemma_yields_none(s);
    lemma_take(s, none, s);
    let c0 = none.push(Part::Token(s.rest[0]));
    let s0 = s.take();
    let paren = lemma_token(s, c0, s0, TokenKind::LeftParen, Expected::LParen);
    let c1 = c0.push(paren);
    let (flow, s1) = eat(s0, TokenKind::LeftParen, Expected::LParen);
    if !(flow is Done) {
        c1
    } else {
        let c2 = for_index_is_told(s, c1, s1);
        let (flow, s2) = for_index(s1);
        if !(flow is Done) {
            c2
        } else {
            for_rest_is_told(s, c2, s2)
        }
    }
}

/// The condition and the assignment of a loop are read behind its index.
proof fn for_rest_is_told<'de>(
    s0: Snapshot<'de>,
    c: Seq<Part<'de>>,
    s: Snapshot<'de>,
) -> (d: Seq<Part<'de>>)
    requires
        yields(s0, c, s),
        all_done(c),
        c.len() == 7,
        loop_head(c),
        s0.next_is(TokenKind::For),
        eat(s0.take(), TokenKind::LeftParen, Expected::LParen).0 is Done,
        for_index(eat(s0.take(), TokenKind::LeftParen, Expected::LParen).1) == (Flow::Done, s),
    ensures
        ({
            let (flow, after) = for_head(s0);
            &&& loop_head(d)
            &&& d.len() <= 11
            &&& yields(s0, d, after)
            &&& flow is Done ==> d.len() == 11 && all_done(d)
            &&& !(flow is Done) ==> is_cut(d) && ending(d[d.len() - 1]) == flow
        }),
{
    let condition = expr_is_told(s, 0);
    let (flow, s3) = expr(s, 0);
    lemma_part(s0, c, s, condition, s3);
    let c3 = c.push(condition);
    assert(loop_head(c3));
    if !(flow is Done) {
        c3
    } else {
        let end = lemma_token(s0, c3, s3, TokenKind::Semicolon, Expected::Semicolon);
        let c4 = c3.push(end);
        let (flow, s4) = eat(s3, TokenKind::Semicolon, Expected::Semicolon);
        assert(loop_head(c4));
        if !(flow is Done) {
            c4
        } else {
            let step = assignment_is_told(s4, false);
            let (flow, s5) = assignment(s4, false);
            lemma_part(s0, c4, s4, step, s5);
            let c5 = c4.push(step);
            assert(loop_head(c5));
            if !(flow is Done) {
                c5
            } else {
                let paren = lemma_token(s0, c5, s5, TokenKind::RightParen, Expected::RParen);
                let c6 = c5.push(paren);
                assert(loop_head(c6));
                c6
            }
        }
    }
}

} // verus!
