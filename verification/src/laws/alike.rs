//! Parses that cannot be told apart by the kinds of their errors.
use vstd::prelude::*;

use crate::error::{ErrorView, Expected, KindView};
use crate::grammar::{Flow, Snapshot};
use crate::syntax::SyntaxKind;
use crate::token::{Token, TokenKind};

verus! {

/// The kinds of the errors, in order.
pub open spec fn kinds(errs: Seq<ErrorView>) -> Seq<KindView> {
    errs.map_values(|err: ErrorView| err.kind)
}

/// The tokens are the same, wherever they stand in their texts.
pub open spec fn same_tokens<'de>(a: Seq<Token<'de>>, b: Seq<Token<'de>>) -> bool {
    &&& a.len() == b.len()
    &&& forall|i: int|
        0 <= i < a.len() ==> (#[trigger] a[i]).kind == b[i].kind && a[i].lexeme@ == b[i].lexeme@
}

/// The same tokens are to come, and there are errors of the same kinds. Trees and names may
/// differ.
#[verifier::opaque]
pub open spec fn alike<'de>(s: Snapshot<'de>, t: Snapshot<'de>) -> bool {
    &&& same_tokens(s.rest, t.rest)
    &&& kinds(s.errs) == kinds(t.errs)
}

/// Two productions end in the same way, and the parsers are alike behind them.
pub open spec fn end_alike<'de>(a: (Flow, Snapshot<'de>), b: (Flow, Snapshot<'de>)) -> bool {
    a.0 == b.0 && alike(a.1, b.1)
}

pub broadcast proof fn lemma_alike<'de>(s: Snapshot<'de>, t: Snapshot<'de>)
    requires
        #[trigger] alike(s, t),
    ensures
        s.rest.len() == t.rest.len(),
        s.rest.len() > 0 ==> s.rest[0].kind == t.rest[0].kind,
{
    reveal(alike);
}

/// The next token is used in both.
proof fn lemma_alike_next<'de>(
    s: Snapshot<'de>,
    t: Snapshot<'de>,
    s1: Snapshot<'de>,
    t1: Snapshot<'de>,
)
    requires
        alike(s, t),
        !s.at_end(),
        s1.rest == s.rest.drop_first(),
        t1.rest == t.rest.drop_first(),
        kinds(s1.errs) == kinds(t1.errs),
    ensures
        alike(s1, t1),
{
    reveal(alike);
    assert forall|i: int| 0 <= i < s1.rest.len() implies (#[trigger] s1.rest[i]).kind
        == t1.rest[i].kind && s1.rest[i].lexeme@ == t1.rest[i].lexeme@ by {
        assert(s1.rest[i] == s.rest[i + 1]);
        assert(t1.rest[i] == t.rest[i + 1]);
    }
}

pub broadcast proof fn lemma_alike_take<'de>(s: Snapshot<'de>, t: Snapshot<'de>)
    requires
        alike(s, t),
        !s.at_end(),
    ensures
        #![trigger alike(s, t), s.take()]
        alike(s.take(), t.take()),
{
    assert(kinds(s.errs) == kinds(t.errs)) by {
        reveal(alike);
    }
    lemma_alike_next(s, t, s.take(), t.take());
}

pub broadcast proof fn lemma_alike_take_ident<'de>(s: Snapshot<'de>, t: Snapshot<'de>)
    requires
        alike(s, t),
        !s.at_end(),
    ensures
        #![trigger alike(s, t), s.take_ident()]
        alike(s.take_ident(), t.take_ident()),
{
    assert(kinds(s.errs) == kinds(t.errs)) by {
        reveal(alike);
    }
    lemma_alike_next(s, t, s.take_ident(), t.take_ident());
}

pub broadcast proof fn lemma_alike_reject<'de>(
    s: Snapshot<'de>,
    t: Snapshot<'de>,
    expected: Expected,
)
    requires
        alike(s, t),
        !s.at_end(),
    ensures
        #![trigger alike(s, t), s.reject(expected)]
        alike(s.reject(expected), t.reject(expected)),
{
    assert(kinds(s.reject(expected).errs) == kinds(t.reject(expected).errs)) by {
        reveal(alike);
        assert(s.rest[0].lexeme@ == t.rest[0].lexeme@);
        let kind = expected.kind_view(s.rest[0].lexeme@);
        assert(kinds(s.reject(expected).errs) =~= kinds(s.errs).push(kind));
        assert(kinds(t.reject(expected).errs) =~= kinds(t.errs).push(kind));
    }
    lemma_alike_next(s, t, s.reject(expected), t.reject(expected));
}

pub broadcast proof fn lemma_alike_miss<'de>(s: Snapshot<'de>, t: Snapshot<'de>, expected: Expected)
    requires
        alike(s, t),
    ensures
        #![trigger alike(s, t), s.miss(expected)]
        alike(s.miss(expected), t.miss(expected)),
{
    reveal(alike);
    let kind = expected.kind_view("EOF"@);
    assert(kinds(s.miss(expected).errs) =~= kinds(s.errs).push(kind));
    assert(kinds(t.miss(expected).errs) =~= kinds(t.errs).push(kind));
}

pub broadcast proof fn lemma_alike_close<'de>(
    s: Snapshot<'de>,
    t: Snapshot<'de>,
    s_from: nat,
    t_from: nat,
    kind: SyntaxKind,
)
    requires
        alike(s, t),
    ensures
        #![trigger alike(s, t), s.close(s_from, kind), t.close(t_from, kind)]
        alike(s.close(s_from, kind), t.close(t_from, kind)),
{
    reveal(alike);
}

proof fn lemma_alike_skip_to<'de>(s: Snapshot<'de>, t: Snapshot<'de>, set: Seq<TokenKind>)
    requires
        alike(s, t),
    ensures
        alike(s.skip_to(set), t.skip_to(set)),
    decreases s.rest.len(),
{
    lemma_alike(s, t);
    if !(s.at_end() || s.next_in(set)) {
        lemma_alike_take(s, t);
        lemma_alike_skip_to(s.take(), t.take(), set);
    }
}

pub broadcast proof fn lemma_alike_recover<'de>(
    s: Snapshot<'de>,
    t: Snapshot<'de>,
    set: Seq<TokenKind>,
)
    requires
        alike(s, t),
    ensures
        #![trigger alike(s, t), s.recover(set)]
        alike(s.recover(set), t.recover(set)),
{
    lemma_alike_skip_to(s, t, set);
    lemma_alike_close(
        s.skip_to(set),
        t.skip_to(set),
        s.out.len(),
        t.out.len(),
        SyntaxKind::Error,
    );
}

pub broadcast group group_alike {
    lemma_alike,
    lemma_alike_take,
    lemma_alike_take_ident,
    lemma_alike_reject,
    lemma_alike_miss,
    lemma_alike_close,
    lemma_alike_recover,
}

} // verus!
