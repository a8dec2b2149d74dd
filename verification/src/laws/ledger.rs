//! What becomes of each token.
use vstd::prelude::*;

use crate::error::{ErrorView, Expected};
use crate::grammar::Snapshot;
use crate::red_node::Green;
use crate::source_map::Ctxt;
use crate::syntax::SyntaxKind;
use crate::token::{Token, TokenKind};

verus! {

/// The leaves of a tree, in order.
pub open spec fn leaves_of<'de>(tree: Green<'de>) -> Seq<Green<'de>>
    decreases tree,
{
    match tree {
        Green::Node(_, children) => leaves(children),
        _ => seq![tree],
    }
}

/// The leaves of a list of trees, in order.
pub open spec fn leaves<'de>(forest: Seq<Green<'de>>) -> Seq<Green<'de>>
    decreases forest,
{
    if forest.len() == 0 {
        Seq::empty()
    } else {
        leaves(forest.drop_last()) + leaves_of(forest.last())
    }
}

/// Neither the tree nor anything in it is an error node.
pub open spec fn is_sound<'de>(tree: Green<'de>) -> bool
    decreases tree,
{
    match tree {
        Green::Node(kind, children) => kind != SyntaxKind::Error && all_sound(children),
        _ => true,
    }
}

/// There is no error node in any of the trees.
pub open spec fn all_sound<'de>(forest: Seq<Green<'de>>) -> bool
    decreases forest,
{
    forest.len() == 0 || (all_sound(forest.drop_last()) && is_sound(forest.last()))
}

/// What can become of the next token.
pub enum Fate {
    /// It becomes a leaf.
    Kept,
    /// It becomes a leaf that holds a name.
    Named,
    /// It is reported.
    Rejected(Expected),
}

/// A snapshot, with the leaves in place of the trees.
#[verifier::ext_equal]
pub struct Ledger<'de> {
    pub rest: Seq<Token<'de>>,
    pub leaves: Seq<Green<'de>>,
    pub errs: Seq<ErrorView>,
    pub names: Seq<Seq<char>>,
    pub end: Ctxt,
}

/// The ledger of a snapshot.
pub open spec fn ledger<'de>(s: Snapshot<'de>) -> Ledger<'de> {
    Ledger { rest: s.rest, leaves: leaves(s.out), errs: s.errs, names: s.names, end: s.end }
}

/// A snapshot with the given ledger, in which every leaf is a tree of its own.
pub open spec fn unfolded<'de>(l: Ledger<'de>) -> Snapshot<'de> {
    Snapshot { rest: l.rest, out: l.leaves, errs: l.errs, names: l.names, end: l.end }
}

/// The next token meets its fate.
pub open spec fn settle<'de>(l: Ledger<'de>, fate: Fate) -> Ledger<'de> {
    let s = match fate {
        Fate::Kept => unfolded(l).take(),
        Fate::Named => unfolded(l).take_ident(),
        Fate::Rejected(expected) => unfolded(l).reject(expected),
    };
    Ledger { rest: s.rest, leaves: s.out, errs: s.errs, names: s.names, end: s.end }
}

/// The tokens meet their fates, in order. Only a name can be taken as a name, and a token is
/// reported only where something else can be expected.
pub open spec fn settle_all<'de>(l: Ledger<'de>, fates: Seq<Fate>) -> Option<Ledger<'de>>
    decreases fates.len(),
{
    if fates.len() == 0 {
        Some(l)
    } else {
        match settle_all(l, fates.drop_last()) {
            None => None,
            Some(m) => if m.rest.len() == 0 || (fates.last() is Named && m.rest[0].kind
                != TokenKind::Ident) || fates.last() == Fate::Rejected(Expected::Nothing) {
                None
            } else {
                Some(settle(m, fates.last()))
            },
        }
    }
}

/// The trees of `before` are still there, with more behind them; and `after` differs from
/// `before` by what became of the tokens in between, each of which is a leaf or was reported.
#[verifier::opaque]
pub open spec fn follows<'de>(before: Snapshot<'de>, after: Snapshot<'de>) -> bool {
    &&& before.out.is_prefix_of(after.out)
    &&& exists|fates: Seq<Fate>|
        #[trigger] settle_all(ledger(before), fates) == Some(ledger(after))
}

/// Where no error has been added, no error node has.
#[verifier::opaque]
pub open spec fn tidy<'de>(before: Snapshot<'de>, after: Snapshot<'de>) -> bool {
    after.errs.len() == before.errs.len() ==> all_sound(after.out.skip(before.out.len() as int))
}

pub proof fn lemma_leaves_add<'de>(a: Seq<Green<'de>>, b: Seq<Green<'de>>)
    ensures
        leaves(a + b) == leaves(a) + leaves(b),
    decreases b.len(),
{
    if b.len() == 0 {
        assert(a + b =~= a);
        assert(leaves(a) + leaves(b) =~= leaves(a));
    } else {
        assert((a + b).drop_last() =~= a + b.drop_last());
        lemma_leaves_add(a, b.drop_last());
        assert(leaves(a + b) =~= leaves(a) + leaves(b));
    }
}

pub proof fn lemma_leaves_push<'de>(forest: Seq<Green<'de>>, tree: Green<'de>)
    ensures
        leaves(forest.push(tree)) == leaves(forest) + leaves_of(tree),
{
    assert(forest.push(tree).drop_last() =~= forest);
}

pub proof fn lemma_all_sound_add<'de>(a: Seq<Green<'de>>, b: Seq<Green<'de>>)
    ensures
        all_sound(a + b) == (all_sound(a) && all_sound(b)),
    decreases b.len(),
{
    if b.len() == 0 {
        assert(a + b =~= a);
    } else {
        assert((a + b).drop_last() =~= a + b.drop_last());
        lemma_all_sound_add(a, b.drop_last());
    }
}

pub proof fn lemma_all_sound_one<'de>(tree: Green<'de>)
    ensures
        all_sound(seq![tree]) == is_sound(tree),
{
    let one = seq![tree];
    assert(one.drop_last() =~= Seq::empty());
    assert(all_sound(one.drop_last()));
    assert(one.last() == tree);
    assert(all_sound(one) == (all_sound(one.drop_last()) && is_sound(one.last())));
}

pub proof fn lemma_settle_all_add<'de>(l: Ledger<'de>, a: Seq<Fate>, b: Seq<Fate>)
    ensures
        settle_all(l, a + b) == match settle_all(l, a) {
            None => None,
            Some(m) => settle_all(m, b),
        },
    decreases b.len(),
{
    if b.len() == 0 {
        assert(a + b =~= a);
    } else {
        assert((a + b).drop_last() =~= a + b.drop_last());
        lemma_settle_all_add(l, a, b.drop_last());
    }
}

/// What holds between two ledgers, whatever became of the tokens in between.
pub proof fn lemma_settle_all<'de>(l: Ledger<'de>, fates: Seq<Fate>)
    requires
        settle_all(l, fates) is Some,
    ensures
        ({
            let m = settle_all(l, fates)->0;
            &&& fates.len() <= l.rest.len()
            &&& m.rest == l.rest.skip(fates.len() as int)
            &&& l.leaves.is_prefix_of(m.leaves)
            &&& l.errs.is_prefix_of(m.errs)
            &&& l.names.is_prefix_of(m.names)
            &&& fates.len() == (m.leaves.len() - l.leaves.len()) + (m.errs.len() - l.errs.len())
            &&& m.end == l.end
        }),
    decreases fates.len(),
{
    if fates.len() == 0 {
        assert(l.rest.skip(0) =~= l.rest);
        assert(l.leaves.is_prefix_of(l.leaves));
    } else {
        lemma_settle_all(l, fates.drop_last());
        let m = settle_all(l, fates.drop_last())->0;
        let n = settle(m, fates.last());
        assert(n.rest =~= l.rest.skip(fates.len() as int));
        assert(m.leaves.is_prefix_of(n.leaves));
        assert(m.errs.is_prefix_of(n.errs));
        assert(m.names.is_prefix_of(n.names));
    }
}

pub broadcast proof fn lemma_follows_refl<'de>(s: Snapshot<'de>)
    ensures
        #[trigger] follows(s, s),
{
    reveal(follows);
    assert(settle_all(ledger(s), Seq::empty()) == Some(ledger(s)));
}

pub broadcast proof fn lemma_follows_trans<'de>(
    a: Snapshot<'de>,
    b: Snapshot<'de>,
    c: Snapshot<'de>,
)
    requires
        #[trigger] follows(a, b),
        #[trigger] follows(b, c),
    ensures
        follows(a, c),
{
    reveal(follows);
    let x = choose|fates: Seq<Fate>| #[trigger]
        settle_all(ledger(a), fates) == Some(ledger(b));
    let y = choose|fates: Seq<Fate>| #[trigger]
        settle_all(ledger(b), fates) == Some(ledger(c));
    lemma_settle_all_add(ledger(a), x, y);
    assert(settle_all(ledger(a), x + y) == Some(ledger(c)));
}

/// What can be read off two snapshots of which one follows the other.
pub broadcast proof fn lemma_follows<'de>(before: Snapshot<'de>, after: Snapshot<'de>)
    requires
        #[trigger] follows(before, after),
    ensures
        after.rest.len() <= before.rest.len(),
        after.errs.len() >= before.errs.len(),
        after.out.len() >= before.out.len(),
        after.end == before.end,
{
    reveal(follows);
    let fates = choose|fates: Seq<Fate>| #[trigger]
        settle_all(ledger(before), fates) == Some(ledger(after));
    lemma_settle_all(ledger(before), fates);
}

proof fn lemma_follows_one<'de>(s: Snapshot<'de>, after: Snapshot<'de>, fate: Fate)
    requires
        s.rest.len() > 0,
        fate is Named ==> s.next_is(TokenKind::Ident),
        fate != Fate::Rejected(Expected::Nothing),
        s.out.is_prefix_of(after.out),
        ledger(after) == settle(ledger(s), fate),
    ensures
        follows(s, after),
{
    reveal(follows);
    let fates = seq![fate];
    assert(fates.drop_last() =~= Seq::empty());
    assert(settle_all(ledger(s), Seq::empty()) == Some(ledger(s)));
    assert(settle_all(ledger(s), fates) == Some(ledger(after)));
}

pub broadcast proof fn lemma_follows_take<'de>(s: Snapshot<'de>)
    requires
        s.rest.len() > 0,
    ensures
        #![trigger s.take()]
        follows(s, s.take()),
        tidy(s, s.take()),
{
    lemma_leaves_push(s.out, Green::Token(s.rest[0]));
    assert(leaves(s.take().out) =~= leaves(s.out).push(Green::Token(s.rest[0])));
    lemma_follows_one(s, s.take(), Fate::Kept);
    lemma_tidy_leaf(s, s.take(), Green::Token(s.rest[0]));
}

pub broadcast proof fn lemma_follows_take_ident<'de>(s: Snapshot<'de>)
    requires
        s.next_is(TokenKind::Ident),
    ensures
        #![trigger s.take_ident()]
        follows(s, s.take_ident()),
        tidy(s, s.take_ident()),
{
    let leaf = Green::Ident(s.next_ident());
    lemma_leaves_push(s.out, leaf);
    assert(leaves(s.take_ident().out) =~= leaves(s.out).push(leaf));
    lemma_follows_one(s, s.take_ident(), Fate::Named);
    lemma_tidy_leaf(s, s.take_ident(), leaf);
}

proof fn lemma_tidy_leaf<'de>(s: Snapshot<'de>, after: Snapshot<'de>, leaf: Green<'de>)
    requires
        after.out == s.out.push(leaf),
        !(leaf is Node),
    ensures
        tidy(s, after),
{
    reveal(tidy);
    let added = after.out.skip(s.out.len() as int);
    assert(added =~= seq![leaf]);
    lemma_all_sound_one(leaf);
}

pub broadcast proof fn lemma_follows_reject<'de>(s: Snapshot<'de>, expected: Expected)
    requires
        s.rest.len() > 0,
        expected != Expected::Nothing,
    ensures
        #![trigger s.reject(expected)]
        follows(s, s.reject(expected)),
        tidy(s, s.reject(expected)),
{
    lemma_follows_one(s, s.reject(expected), Fate::Rejected(expected));
    reveal(tidy);
}

pub broadcast proof fn lemma_tidy_refl<'de>(s: Snapshot<'de>)
    ensures
        #[trigger] tidy(s, s),
{
    reveal(tidy);
    assert(s.out.skip(s.out.len() as int) =~= Seq::empty());
}

pub broadcast proof fn lemma_tidy_trans<'de>(a: Snapshot<'de>, b: Snapshot<'de>, c: Snapshot<'de>)
    requires
        #[trigger] tidy(a, b),
        #[trigger] tidy(b, c),
        follows(a, b),
        follows(b, c),
    ensures
        tidy(a, c),
{
    reveal(tidy);
    lemma_follows(a, b);
    lemma_follows(b, c);
    if c.errs.len() == a.errs.len() {
        reveal(follows);
        let n = a.out.len() as int;
        let added_b = b.out.skip(n);
        let added_c = c.out.skip(b.out.len() as int);
        assert(c.out.skip(n) =~= added_b + added_c);
        lemma_all_sound_add(added_b, added_c);
    }
}

/// Making a node of what a production has added changes neither what became of the tokens nor
/// the trees in front.
pub broadcast proof fn lemma_follows_close<'de>(
    s: Snapshot<'de>,
    after: Snapshot<'de>,
    from: nat,
    kind: SyntaxKind,
)
    requires
        follows(s, after),
        from == s.out.len(),
    ensures
        #![trigger follows(s, after), after.close(from, kind)]
        follows(s, after.close(from, kind)),
        after.close(from, kind).out.len() == from + 1,
        kind != SyntaxKind::Error && tidy(s, after) ==> tidy(s, after.close(from, kind)),
        after.errs.len() > s.errs.len() ==> tidy(s, after.close(from, kind)),
{
    reveal(follows);
    reveal(tidy);
    let n = from as int;
    let inside = after.out.skip(n);
    let closed = after.close(from, kind);
    let node = Green::Node(kind, inside);
    assert(after.out.take(n) =~= s.out);
    assert(after.out =~= s.out + inside);
    lemma_leaves_add(s.out, inside);
    lemma_leaves_push(s.out, node);
    assert(ledger(closed) == ledger(after));
    assert(s.out.is_prefix_of(closed.out));
    let added = closed.out.skip(n);
    assert(added =~= seq![node]);
    lemma_all_sound_one(node);
}

pub proof fn lemma_follows_skip_to<'de>(s: Snapshot<'de>, set: Seq<TokenKind>)
    ensures
        follows(s, s.skip_to(set)),
        s.skip_to(set).errs == s.errs,
        s.skip_to(set).at_end() || s.skip_to(set).next_in(set),
    decreases s.rest.len(),
{
    lemma_follows_refl(s);
    if !(s.at_end() || s.next_in(set)) {
        lemma_follows_take(s);
        lemma_follows_skip_to(s.take(), set);
        lemma_follows_trans(s, s.take(), s.take().skip_to(set));
    }
}

/// Recovery eats tokens up to one of the set; it leaves an error node, and adds no error.
pub broadcast proof fn lemma_follows_recover<'de>(s: Snapshot<'de>, set: Seq<TokenKind>)
    ensures
        #![trigger s.recover(set)]
        follows(s, s.recover(set)),
        s.recover(set).errs == s.errs,
        s.recover(set).at_end() || s.recover(set).next_in(set),
{
    lemma_follows_skip_to(s, set);
    lemma_follows_close(s, s.skip_to(set), s.out.len(), SyntaxKind::Error);
}

/// An error node is in order once an error has been added.
pub broadcast proof fn lemma_tidy_after_error<'de>(s: Snapshot<'de>, after: Snapshot<'de>)
    requires
        after.errs.len() > s.errs.len(),
    ensures
        #[trigger] tidy(s, after),
{
    reveal(tidy);
}

pub broadcast group group_ledger {
    lemma_follows_refl,
    lemma_follows_trans,
    lemma_follows,
    lemma_follows_take,
    lemma_follows_take_ident,
    lemma_follows_reject,
    lemma_follows_close,
    lemma_follows_recover,
    lemma_tidy_refl,
    lemma_tidy_trans,
    lemma_tidy_after_error,
}

} // verus!
