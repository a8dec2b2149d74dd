//! What has become of the tokens of a text, mistakes and all.
use vstd::prelude::*;

use crate::ast::Ident;
use crate::error::{ErrorView, Expected, KindView};
use crate::grammar::{Flow, Snapshot};
use crate::interner::{symbol_of, with_name};
use crate::red_node::Green;
use crate::source_map::{Ctxt, Site};
use crate::syntax::SyntaxKind;
use crate::token::{Token, TokenKind};

verus! {

/// A part of a text, and what has become of it.
pub enum Part<'de> {
    /// A token that has become a leaf.
    Token(Token<'de>),
    /// A token that has become a leaf that holds a name.
    Name(Token<'de>),
    /// A token that has been reported, and is gone.
    Lost(Token<'de>, KindView),
    /// The end of the text, which has been reported.
    End(KindView),
    /// Parts that are the children of a node.
    Node(SyntaxKind, Seq<Part<'de>>),
    /// Parts that belong together, without a node.
    Plain(Seq<Part<'de>>),
    /// The parts of something that was given up at the last of them.
    Open(Seq<Part<'de>>),
}

/// The parts that a part is made of.
pub open spec fn kids<'de>(part: Part<'de>) -> Seq<Part<'de>> {
    match part {
        Part::Node(_, c) => c,
        Part::Plain(c) => c,
        Part::Open(c) => c,
        _ => Seq::empty(),
    }
}

/// How the reading of a part has ended.
pub open spec fn ending<'de>(part: Part<'de>) -> Flow
    decreases part,
{
    match part {
        Part::Lost(_, _) => Flow::Failed,
        Part::End(_) => Flow::Eof,
        Part::Open(c) => if c.len() == 0 {
            Flow::Done
        } else {
            ending(c[c.len() - 1])
        },
        _ => Flow::Done,
    }
}

/// The part has been read to its end.
pub open spec fn is_done<'de>(part: Part<'de>) -> bool {
    ending(part) is Done
}

/// All of the parts have been read to their ends.
pub open spec fn all_done<'de>(c: Seq<Part<'de>>) -> bool {
    forall|i: int| 0 <= i < c.len() ==> is_done(#[trigger] c[i])
}

/// The tokens of a part, in order.
pub open spec fn spelled_of<'de>(part: Part<'de>) -> Seq<Token<'de>>
    decreases part,
{
    match part {
        Part::Token(tok) => seq![tok],
        Part::Name(tok) => seq![tok],
        Part::Lost(tok, _) => seq![tok],
        Part::End(_) => Seq::empty(),
        Part::Node(_, c) => spelled(c),
        Part::Plain(c) => spelled(c),
        Part::Open(c) => spelled(c),
    }
}

/// The tokens of a list of parts, in order.
pub open spec fn spelled<'de>(c: Seq<Part<'de>>) -> Seq<Token<'de>>
    decreases c,
{
    if c.len() == 0 {
        Seq::empty()
    } else {
        spelled(c.drop_last()) + spelled_of(c.last())
    }
}

/// The trees of a part, given the names before it; and the names behind it.
pub open spec fn trees_of<'de>(part: Part<'de>, names: Seq<Seq<char>>) -> (
    Seq<Green<'de>>,
    Seq<Seq<char>>,
)
    decreases part,
{
    match part {
        Part::Token(tok) => (seq![Green::Token(tok)], names),
        Part::Name(tok) => (
            seq![
                Green::Ident(
                    Ident {
                        sym: symbol_of(names, tok.lexeme@) as usize,
                        width: tok.lexeme.len(),
                    },
                ),
            ],
            with_name(names, tok.lexeme@),
        ),
        Part::Lost(_, _) => (Seq::empty(), names),
        Part::End(_) => (Seq::empty(), names),
        Part::Node(kind, c) => {
            let (inside, after) = trees(c, names);
            (seq![Green::Node(kind, inside)], after)
        },
        Part::Plain(c) => trees(c, names),
        Part::Open(c) => trees(c, names),
    }
}

/// The trees of a list of parts, given the names before it; and the names behind it.
pub open spec fn trees<'de>(c: Seq<Part<'de>>, names: Seq<Seq<char>>) -> (
    Seq<Green<'de>>,
    Seq<Seq<char>>,
)
    decreases c,
{
    if c.len() == 0 {
        (Seq::empty(), names)
    } else {
        let (init, between) = trees(c.drop_last(), names);
        let (last, after) = trees_of(c.last(), between);
        (init + last, after)
    }
}

/// The errors about a part, in order: each with the place of its token, or with `end`.
pub open spec fn reports_of<'de>(part: Part<'de>, end: Ctxt) -> Seq<ErrorView>
    decreases part,
{
    match part {
        Part::Lost(tok, kind) => {
            let ctxt = Ctxt {
                start: tok.start,
                width: tok.lexeme.len(),
                site: Some(Site::MakeErr),
            };
            seq![ErrorView { kind, ctxt: Some(ctxt) }]
        },
        Part::End(kind) => {
            let ctxt = Ctxt { start: end.start, width: end.width, site: Some(Site::Peek) };
            seq![ErrorView { kind, ctxt: Some(ctxt) }]
        },
        Part::Node(_, c) => reports(c, end),
        Part::Plain(c) => reports(c, end),
        Part::Open(c) => reports(c, end),
        _ => Seq::empty(),
    }
}

/// The errors about a list of parts, in order.
pub open spec fn reports<'de>(c: Seq<Part<'de>>, end: Ctxt) -> Seq<ErrorView>
    decreases c,
{
    if c.len() == 0 {
        Seq::empty()
    } else {
        reports(c.drop_last(), end) + reports_of(c.last(), end)
    }
}

/// From `s` to `after` the parts have been read: their tokens are gone, their trees and their
/// errors have been added, and nothing else has happened.
#[verifier::opaque]
pub open spec fn yields<'de>(
    s: Snapshot<'de>,
    c: Seq<Part<'de>>,
    after: Snapshot<'de>,
) -> bool {
    &&& s.rest == spelled(c) + after.rest
    &&& after.out == s.out + trees(c, s.names).0
    &&& after.names == trees(c, s.names).1
    &&& after.errs == s.errs + reports(c, s.end)
    &&& after.end == s.end
}

pub proof fn lemma_spelled_add<'de>(a: Seq<Part<'de>>, b: Seq<Part<'de>>)
    ensures
        spelled(a + b) == spelled(a) + spelled(b),
    decreases b.len(),
{
    if b.len() == 0 {
        assert(a + b =~= a);
        assert(spelled(a) + spelled(b) =~= spelled(a));
    } else {
        assert((a + b).drop_last() =~= a + b.drop_last());
        lemma_spelled_add(a, b.drop_last());
        assert(spelled(a + b) =~= spelled(a) + spelled(b));
    }
}

pub proof fn lemma_spelled_one<'de>(part: Part<'de>)
    ensures
        spelled(seq![part]) == spelled_of(part),
{
    let one = seq![part];
    assert(one.drop_last() =~= Seq::empty());
    assert(spelled(one.drop_last()) =~= Seq::empty());
    assert(spelled(one) == spelled(one.drop_last()) + spelled_of(one.last()));
    assert(spelled(one) =~= spelled_of(part));
}

proof fn lemma_trees_add<'de>(a: Seq<Part<'de>>, b: Seq<Part<'de>>, names: Seq<Seq<char>>)
    ensures
        ({
            let (first, between) = trees(a, names);
            let (second, after) = trees(b, between);
            trees(a + b, names) == (first + second, after)
        }),
    decreases b.len(),
{
    if b.len() == 0 {
        assert(a + b =~= a);
        assert(trees(a, names).0 + Seq::empty() =~= trees(a, names).0);
    } else {
        assert((a + b).drop_last() =~= a + b.drop_last());
        lemma_trees_add(a, b.drop_last(), names);
        let (first, between) = trees(a, names);
        let second = trees(b, between).0;
        assert(trees(a + b, names).0 =~= first + second);
    }
}

pub proof fn lemma_trees_one<'de>(part: Part<'de>, names: Seq<Seq<char>>)
    ensures
        trees(seq![part], names) == trees_of(part, names),
{
    let one = seq![part];
    assert(one.drop_last() =~= Seq::empty());
    assert(trees(one.drop_last(), names) == (Seq::<Green>::empty(), names));
    assert(trees(one, names).0 =~= trees_of(part, names).0);
}

proof fn lemma_reports_add<'de>(a: Seq<Part<'de>>, b: Seq<Part<'de>>, end: Ctxt)
    ensures
        reports(a + b, end) == reports(a, end) + reports(b, end),
    decreases b.len(),
{
    if b.len() == 0 {
        assert(a + b =~= a);
        assert(reports(a, end) + reports(b, end) =~= reports(a, end));
    } else {
        assert((a + b).drop_last() =~= a + b.drop_last());
        lemma_reports_add(a, b.drop_last(), end);
        assert(reports(a + b, end) =~= reports(a, end) + reports(b, end));
    }
}

proof fn lemma_reports_one<'de>(part: Part<'de>, end: Ctxt)
    ensures
        reports(seq![part], end) == reports_of(part, end),
{
    let one = seq![part];
    assert(one.drop_last() =~= Seq::empty());
    assert(reports(one.drop_last(), end) =~= Seq::empty());
    assert(reports(one, end) == reports(one.drop_last(), end) + reports_of(one.last(), end));
    assert(reports(one, end) =~= reports_of(part, end));
}

pub proof fn lemma_yields_none<'de>(s: Snapshot<'de>)
    ensures
        yields(s, Seq::empty(), s),
{
    reveal(yields);
    assert(Seq::<Token<'de>>::empty() + s.rest =~= s.rest);
    assert(s.out + Seq::empty() =~= s.out);
    assert(s.errs + Seq::empty() =~= s.errs);
}

pub proof fn lemma_yields_add<'de>(
    s: Snapshot<'de>,
    a: Seq<Part<'de>>,
    between: Snapshot<'de>,
    b: Seq<Part<'de>>,
    after: Snapshot<'de>,
)
    requires
        yields(s, a, between),
        yields(between, b, after),
    ensures
        yields(s, a + b, after),
{
    reveal(yields);
    lemma_spelled_add(a, b);
    lemma_trees_add(a, b, s.names);
    lemma_reports_add(a, b, s.end);
    assert(s.rest =~= spelled(a + b) + after.rest);
    assert(after.out =~= s.out + trees(a + b, s.names).0);
    assert(after.errs =~= s.errs + reports(a + b, s.end));
}

/// One part more.
pub proof fn lemma_yields_push<'de>(
    s: Snapshot<'de>,
    c: Seq<Part<'de>>,
    between: Snapshot<'de>,
    part: Part<'de>,
    after: Snapshot<'de>,
)
    requires
        yields(s, c, between),
        yields(between, seq![part], after),
    ensures
        yields(s, c.push(part), after),
{
    lemma_yields_add(s, c, between, seq![part], after);
    assert(c + seq![part] =~= c.push(part));
}

/// What one part yields.
proof fn lemma_yields_one<'de>(s: Snapshot<'de>, part: Part<'de>, after: Snapshot<'de>)
    requires
        s.rest == spelled_of(part) + after.rest,
        after.out == s.out + trees_of(part, s.names).0,
        after.names == trees_of(part, s.names).1,
        after.errs == s.errs + reports_of(part, s.end),
        after.end == s.end,
    ensures
        yields(s, seq![part], after),
{
    reveal(yields);
    lemma_spelled_one(part);
    lemma_trees_one(part, s.names);
    lemma_reports_one(part, s.end);
}

/// Two parts that spell, make and report the same yield the same.
proof fn lemma_yields_same<'de>(
    s: Snapshot<'de>,
    c: Seq<Part<'de>>,
    part: Part<'de>,
    after: Snapshot<'de>,
)
    requires
        yields(s, c, after),
        part == Part::Plain(c) || part == Part::Open(c),
    ensures
        yields(s, seq![part], after),
{
    reveal(yields);
    lemma_yields_one(s, part, after);
}

pub proof fn lemma_yields_plain<'de>(s: Snapshot<'de>, c: Seq<Part<'de>>, after: Snapshot<'de>)
    requires
        yields(s, c, after),
    ensures
        yields(s, seq![Part::Plain(c)], after),
{
    lemma_yields_same(s, c, Part::Plain(c), after);
}

pub proof fn lemma_yields_open<'de>(s: Snapshot<'de>, c: Seq<Part<'de>>, after: Snapshot<'de>)
    requires
        yields(s, c, after),
    ensures
        yields(s, seq![Part::Open(c)], after),
{
    lemma_yields_same(s, c, Part::Open(c), after);
}

/// What has been read becomes a node.
pub proof fn lemma_yields_close<'de>(
    s: Snapshot<'de>,
    c: Seq<Part<'de>>,
    after: Snapshot<'de>,
    kind: SyntaxKind,
)
    requires
        yields(s, c, after),
    ensures
        yields(s, seq![Part::Node(kind, c)], after.close(s.out.len(), kind)),
{
    reveal(yields);
    let inside = trees(c, s.names).0;
    let n = s.out.len() as int;
    let closed = after.close(s.out.len(), kind);
    assert(after.out.take(n) =~= s.out);
    assert(after.out.skip(n) =~= inside);
    assert(closed.out =~= s.out + seq![Green::Node(kind, inside)]);
    lemma_yields_one(s, Part::Node(kind, c), closed);
}

/// The next token is taken.
pub proof fn lemma_yields_take<'de>(s: Snapshot<'de>, c: Seq<Part<'de>>, between: Snapshot<'de>)
    requires
        yields(s, c, between),
        !between.at_end(),
    ensures
        yields(s, c.push(Part::Token(between.rest[0])), between.take()),
        yields(between, seq![Part::Token(between.rest[0])], between.take()),
{
    let tok = between.rest[0];
    let after = between.take();
    assert(between.rest =~= seq![tok] + after.rest);
    assert(after.out =~= between.out + seq![Green::Token(tok)]);
    assert(after.errs =~= between.errs + Seq::empty());
    lemma_yields_one(between, Part::Token(tok), after);
    lemma_yields_push(s, c, between, Part::Token(tok), after);
}

/// The next token is taken as a name.
pub proof fn lemma_yields_take_ident<'de>(
    s: Snapshot<'de>,
    c: Seq<Part<'de>>,
    between: Snapshot<'de>,
)
    requires
        yields(s, c, between),
        !between.at_end(),
    ensures
        yields(s, c.push(Part::Name(between.rest[0])), between.take_ident()),
{
    let tok = between.rest[0];
    let after = between.take_ident();
    assert(between.rest =~= seq![tok] + after.rest);
    assert(after.out =~= between.out + trees_of(Part::Name(tok), between.names).0);
    assert(after.errs =~= between.errs + Seq::empty());
    lemma_yields_one(between, Part::Name(tok), after);
    lemma_yields_push(s, c, between, Part::Name(tok), after);
}

/// The part for a token that is reported.
pub open spec fn lost<'de>(tok: Token<'de>, expected: Expected) -> Part<'de> {
    Part::Lost(tok, expected.kind_view(tok.lexeme@))
}

/// The part for a report of the end.
pub open spec fn missed<'de>(expected: Expected) -> Part<'de> {
    Part::End(expected.kind_view("EOF"@))
}

/// The next token is reported.
pub proof fn lemma_yields_reject<'de>(
    s: Snapshot<'de>,
    c: Seq<Part<'de>>,
    between: Snapshot<'de>,
    expected: Expected,
)
    requires
        yields(s, c, between),
        !between.at_end(),
    ensures
        yields(s, c.push(lost(between.rest[0], expected)), between.reject(expected)),
{
    let tok = between.rest[0];
    let part = lost(tok, expected);
    let after = between.reject(expected);
    assert(between.rest =~= seq![tok] + after.rest);
    assert(after.out =~= between.out + Seq::empty());
    assert(after.errs =~= between.errs + reports_of(part, between.end));
    lemma_yields_one(between, part, after);
    lemma_yields_push(s, c, between, part, after);
}

/// The end is reported.
pub proof fn lemma_yields_miss<'de>(
    s: Snapshot<'de>,
    c: Seq<Part<'de>>,
    between: Snapshot<'de>,
    expected: Expected,
)
    requires
        yields(s, c, between),
        between.at_end(),
    ensures
        yields(s, c.push(missed(expected)), between.miss(expected)),
{
    let part = missed::<'de>(expected);
    let after = between.miss(expected);
    assert(between.rest =~= Seq::empty() + after.rest);
    assert(after.out =~= between.out + Seq::empty());
    assert(after.errs =~= between.errs + reports_of(part, between.end));
    lemma_yields_one(between, part, after);
    lemma_yields_push(s, c, between, part, after);
}

/// All of the parts are tokens, and none of them is of a kind in `set`.
pub open spec fn none_of<'de>(c: Seq<Part<'de>>, set: Seq<TokenKind>) -> bool {
    forall|i: int|
        0 <= i < c.len() ==> ((#[trigger] c[i]) matches Part::Token(tok) && !set.contains(tok.kind))
}

proof fn lemma_yields_skip_to<'de>(
    s: Snapshot<'de>,
    c: Seq<Part<'de>>,
    between: Snapshot<'de>,
    set: Seq<TokenKind>,
) -> (d: Seq<Part<'de>>)
    requires
        yields(s, c, between),
        none_of(c, set),
    ensures
        yields(s, d, between.skip_to(set)),
        none_of(d, set),
    decreases between.rest.len(),
{
    if between.at_end() || between.next_in(set) {
        c
    } else {
        lemma_yields_take(s, c, between);
        lemma_yields_skip_to(s, c.push(Part::Token(between.rest[0])), between.take(), set)
    }
}

/// Tokens up to one whose kind is in `set` are put under an error node.
pub proof fn lemma_yields_recover<'de>(s: Snapshot<'de>, set: Seq<TokenKind>) -> (skipped: Seq<
    Part<'de>,
>)
    ensures
        none_of(skipped, set),
        yields(s, seq![Part::Node(SyntaxKind::Error, skipped)], s.recover(set)),
{
    lemma_yields_none(s);
    let skipped = lemma_yields_skip_to(s, Seq::empty(), s, set);
    lemma_yields_close(s, skipped, s.skip_to(set), SyntaxKind::Error);
    skipped
}

/// What is to come, by the token that the part starts with.
pub proof fn lemma_yields_first<'de>(s: Snapshot<'de>, part: Part<'de>, after: Snapshot<'de>)
    requires
        yields(s, seq![part], after),
    ensures
        s.rest == spelled_of(part) + after.rest,
        spelled_of(part).len() > 0 ==> !s.at_end() && s.rest[0] == spelled_of(part)[0],
        spelled_of(part).len() == 0 ==> s.rest == after.rest,
{
    reveal(yields);
    lemma_spelled_one(part);
    if spelled_of(part).len() == 0 {
        assert(s.rest =~= after.rest);
    }
}

pub proof fn lemma_all_done_push<'de>(c: Seq<Part<'de>>, part: Part<'de>)
    requires
        all_done(c),
        is_done(part),
    ensures
        all_done(c.push(part)),
{
}

} // verus!
