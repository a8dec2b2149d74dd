//! Reading one part behind others.
use vstd::prelude::*;

use crate::error::Expected;
use crate::grammar::{eat, ident, Snapshot};
use crate::laws::ledger::lemma_follows_recover;
use crate::laws::mistakes::{is_cut, is_skipped, name_or, starts, token_or};
use crate::laws::parts::{
    all_done, ending, is_done, lemma_yields_first, lemma_yields_miss, lemma_yields_none,
    lemma_yields_open, lemma_yields_plain, lemma_yields_push, lemma_yields_recover,
    lemma_yields_reject, lemma_yields_take, lemma_yields_take_ident, lost, missed, spelled_of,
    yields, Part,
};
use crate::syntax::SyntaxKind;
use crate::token::{Token, TokenKind};

verus! {

/// What is known once `part` has been read behind the parts `c`.
pub(super) open spec fn is_read<'de>(
    s0: Snapshot<'de>,
    c: Seq<Part<'de>>,
    part: Part<'de>,
    after: Snapshot<'de>,
) -> bool {
    let d = c.push(part);
    &&& yields(s0, d, after)
    &&& is_done(part) ==> all_done(d)
    &&& !is_done(part) ==> {
        &&& is_cut(d)
        &&& ending(Part::Open(d)) == ending(part)
        &&& yields(s0, seq![Part::Open(d)], after)
    }
}

/// A part is read behind the parts `c`.
pub(super) proof fn lemma_part<'de>(
    s0: Snapshot<'de>,
    c: Seq<Part<'de>>,
    s: Snapshot<'de>,
    part: Part<'de>,
    after: Snapshot<'de>,
)
    requires
        yields(s0, c, s),
        all_done(c),
        yields(s, seq![part], after),
    ensures
        is_read(s0, c, part, after),
{
    lemma_yields_push(s0, c, s, part, after);
    lemma_is_read(s0, c, part, after);
}

proof fn lemma_is_read<'de>(
    s0: Snapshot<'de>,
    c: Seq<Part<'de>>,
    part: Part<'de>,
    after: Snapshot<'de>,
)
    requires
        yields(s0, c.push(part), after),
        all_done(c),
    ensures
        is_read(s0, c, part, after),
{
    let d = c.push(part);
    assert(d.drop_last() =~= c);
    if !is_done(part) {
        lemma_yields_open(s0, d, after);
        assert(d[d.len() - 1] == part);
    }
}

pub(super) proof fn lemma_take<'de>(s0: Snapshot<'de>, c: Seq<Part<'de>>, s: Snapshot<'de>)
    requires
        yields(s0, c, s),
        all_done(c),
        !s.at_end(),
    ensures
        is_read(s0, c, Part::Token(s.rest[0]), s.take()),
{
    lemma_yields_take(s0, c, s);
    lemma_is_read(s0, c, Part::Token(s.rest[0]), s.take());
}

pub(super) proof fn lemma_reject<'de>(
    s0: Snapshot<'de>,
    c: Seq<Part<'de>>,
    s: Snapshot<'de>,
    expected: Expected,
)
    requires
        yields(s0, c, s),
        all_done(c),
        !s.at_end(),
    ensures
        is_read(s0, c, lost(s.rest[0], expected), s.reject(expected)),
{
    lemma_yields_reject(s0, c, s, expected);
    lemma_is_read(s0, c, lost(s.rest[0], expected), s.reject(expected));
}

pub(super) proof fn lemma_miss<'de>(
    s0: Snapshot<'de>,
    c: Seq<Part<'de>>,
    s: Snapshot<'de>,
    expected: Expected,
)
    requires
        yields(s0, c, s),
        all_done(c),
        s.at_end(),
    ensures
        is_read(s0, c, missed(expected), s.miss(expected)),
{
    lemma_yields_miss(s0, c, s, expected);
    lemma_is_read(s0, c, missed(expected), s.miss(expected));
}

/// A name is read behind the parts `c`.
pub(super) proof fn lemma_name<'de>(
    s0: Snapshot<'de>,
    c: Seq<Part<'de>>,
    s: Snapshot<'de>,
    expected: Expected,
) -> (part: Part<'de>)
    requires
        yields(s0, c, s),
        all_done(c),
    ensures
        name_or(part, |found: Seq<char>| expected.kind_view(found)),
        ending(part) == ident(s, expected).0,
        is_read(s0, c, part, ident(s, expected).1),
        part is Name || part is Lost || part is End,
        !s.at_end() ==> spelled_of(part) == seq![s.rest[0]],
        s.at_end() ==> part is End,
{
    if s.at_end() {
        lemma_miss(s0, c, s, expected);
        missed(expected)
    } else if s.next_is(TokenKind::Ident) {
        lemma_yields_take_ident(s0, c, s);
        lemma_is_read(s0, c, Part::Name(s.rest[0]), s.take_ident());
        Part::Name(s.rest[0])
    } else {
        lemma_reject(s0, c, s, expected);
        lost(s.rest[0], expected)
    }
}

/// A token of kind `kind` is read behind the parts `c`.
pub(super) proof fn lemma_token<'de>(
    s0: Snapshot<'de>,
    c: Seq<Part<'de>>,
    s: Snapshot<'de>,
    kind: TokenKind,
    expected: Expected,
) -> (part: Part<'de>)
    requires
        yields(s0, c, s),
        all_done(c),
    ensures
        token_or(part, kind, |found: Seq<char>| expected.kind_view(found)),
        ending(part) == eat(s, kind, expected).0,
        is_read(s0, c, part, eat(s, kind, expected).1),
        part is Token || part is Lost || part is End,
        !s.at_end() ==> spelled_of(part) == seq![s.rest[0]],
        s.at_end() ==> part is End,
        spelled_of(part).len() > 0 <==> !s.at_end(),
{
    if s.at_end() {
        lemma_miss(s0, c, s, expected);
        missed(expected)
    } else if s.next_is(kind) {
        lemma_take(s0, c, s);
        Part::Token(s.rest[0])
    } else {
        lemma_reject(s0, c, s, expected);
        lost(s.rest[0], expected)
    }
}

/// The part starts with the token that is to come, if it is not empty.
pub(super) proof fn lemma_starts<'de>(s: Snapshot<'de>, part: Part<'de>, after: Snapshot<'de>)
    requires
        yields(s, seq![part], after),
    ensures
        spelled_of(part).len() > 0 ==> !s.at_end() && s.rest[0] == spelled_of(part)[0],
        forall|kind: TokenKind| #[trigger] starts(part, kind) ==> s.next_is(kind),
        after.ahead_of(s) ==> spelled_of(part).len() > 0,
        after.ahead_of(s) ==> forall|kind: TokenKind|
            s.next_is(kind) ==> #[trigger] starts(part, kind),
{
    lemma_yields_first(s, part, after);
}

/// What has failed is given up, and what follows is skipped.
pub(super) proof fn lemma_recovered<'de>(
    s: Snapshot<'de>,
    part: Part<'de>,
    after: Snapshot<'de>,
    set: Seq<TokenKind>,
) -> (whole: Part<'de>)
    requires
        yields(s, seq![part], after),
    ensures
        whole matches Part::Plain(c) && c.len() == 2 && c[0] == part && is_skipped(c[1], set),
        yields(s, seq![whole], after.recover(set)),
        after.recover(set).at_end() || after.recover(set).next_in(set),
{
    lemma_follows_recover(after, set);
    let skipped = lemma_yields_recover(after, set);
    let node = Part::Node(SyntaxKind::Error, skipped);
    lemma_yields_push(s, seq![part], after, node, after.recover(set));
    let c = seq![part].push(node);
    lemma_yields_plain(s, c, after.recover(set));
    Part::Plain(c)
}

/// Nothing is read.
pub(super) proof fn lemma_nothing<'de>(s0: Snapshot<'de>, c: Seq<Part<'de>>, s: Snapshot<'de>)
    requires
        yields(s0, c, s),
        all_done(c),
    ensures
        is_read(s0, c, Part::Plain(Seq::empty()), s),
        spelled_of(Part::<'de>::Plain(Seq::empty())).len() == 0,
{
    lemma_yields_none(s);
    lemma_yields_plain(s, Seq::empty(), s);
    lemma_part(s0, c, s, Part::Plain(Seq::empty()), s);
}

/// The next token is reported, and nothing is given up.
pub(super) proof fn lemma_let_go<'de>(
    s0: Snapshot<'de>,
    c: Seq<Part<'de>>,
    s: Snapshot<'de>,
    expected: Expected,
) -> (part: Part<'de>)
    requires
        yields(s0, c, s),
        all_done(c),
        !s.at_end(),
    ensures
        part == Part::Plain(seq![lost(s.rest[0], expected)]),
        is_read(s0, c, part, s.reject(expected)),
{
    let none = Seq::<Part<'de>>::empty();
    let gone = lost(s.rest[0], expected);
    lemma_yields_none(s);
    lemma_yields_reject(s, none, s, expected);
    assert(none.push(gone) =~= seq![gone]);
    lemma_yields_plain(s, seq![gone], s.reject(expected));
    lemma_part(s0, c, s, Part::Plain(seq![gone]), s.reject(expected));
    Part::Plain(seq![gone])
}

} // verus!
