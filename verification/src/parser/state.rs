//! The state of a parser, and the steps that change it.
use vstd::prelude::*;

use crate::ast::Ident;
use crate::error::{Expected, ParseError, ParseErrorKind};
use crate::grammar::Snapshot;
use crate::interner::Interner;
use crate::lexer::Lexer;
use crate::red_node::{greens, Green, SyntaxTree};
use crate::source_map::{place_of, Site, SourceMap};
use crate::syntax::SyntaxKind;
use crate::token::Token;

use super::action::{
    build, lemma_listing_add, lemma_listing_push, lemma_settled_add, lemma_settled_one, listing,
    listing_is_injective, listing_of, settled, Tree,
};

verus! {

/// A parser: the tokens that are still to come, and what has been made of those before.
pub struct Parser<'de> {
    /// Where names are kept.
    pub interner: &'de mut Interner,
    /// All else.
    pub work: Work<'de>,
}

/// The tokens that are still to come, the record of what has been made of those before, and the
/// errors.
pub struct Work<'de> {
    source_map: &'de SourceMap,
    toks: Lexer<'de>,
    actions: Vec<Tree<'de>>,
    errors: Vec<ParseError>,
    forest: Ghost<Seq<Green<'de>>>,
}

/// A node of the record that is open.
#[derive(Clone, Copy)]
pub struct TreeIdx {
    idx: usize,
    at: Ghost<nat>,
}

/// A node of the record that is completed.
#[derive(Clone, Copy)]
pub struct CompletedTreeIdx {
    idx: usize,
    at: Ghost<nat>,
}

impl<'de> View for Parser<'de> {
    type V = Snapshot<'de>;

    closed spec fn view(&self) -> Snapshot<'de> {
        Snapshot {
            rest: self.work.toks@,
            out: self.work.forest@,
            errs: self.work.errors@.map_values(|err: ParseError| err@),
            names: self.interner@,
            end: self.work.source_map.end_place(),
        }
    }
}

impl View for TreeIdx {
    type V = nat;

    /// How many trees stand in front of the node.
    closed spec fn view(&self) -> nat {
        self.at@
    }
}

impl View for CompletedTreeIdx {
    type V = nat;

    /// How many trees stand in front of the node.
    closed spec fn view(&self) -> nat {
        self.at@
    }
}

impl TreeIdx {
    /// The node was opened in `p`.
    pub closed spec fn starts_in(&self, p: &Parser<'_>) -> bool {
        self.idx == p.work.actions@.len() && self.at@ == p.work.forest@.len()
    }
}

impl CompletedTreeIdx {
    /// The node was opened in `p`.
    pub closed spec fn starts_in(&self, p: &Parser<'_>) -> bool {
        self.idx == p.work.actions@.len() && self.at@ == p.work.forest@.len()
    }
}

impl<'de> Parser<'de> {
    /// The record of actions is that of the trees.
    pub closed spec fn inv(&self) -> bool {
        listing(self.work.forest@) == settled(self.work.actions@)
    }

    /// The record and the trees of `before` are still there, with more behind them.
    pub closed spec fn grew(&self, before: &Parser<'de>) -> bool {
        &&& self.work.actions@.len() >= before.work.actions@.len()
        &&& self.work.actions@.take(before.work.actions@.len() as int) =~= before.work.actions@
        &&& self.work.forest@.len() >= before.work.forest@.len()
        &&& self.work.forest@.take(before.work.forest@.len() as int) =~= before.work.forest@
    }

    /// Entry `idx` of the record stands in front of the tree at index `at`.
    spec fn aligned(&self, idx: usize, at: nat) -> bool {
        &&& idx <= self.work.actions@.len()
        &&& at <= self.work.forest@.len()
        &&& listing(self.work.forest@.take(at as int)) == settled(
            self.work.actions@.take(idx as int),
        )
    }

    /// `t` is a node that is open and not completed.
    pub closed spec fn opened(&self, t: &TreeIdx) -> bool {
        &&& self.aligned(t.idx, t.at@)
        &&& t.idx < self.work.actions@.len()
        &&& self.work.actions@[t.idx as int] == Tree::<'de>::Open(None)
    }

    /// `t` is a node that is completed.
    pub closed spec fn completed(&self, t: &CompletedTreeIdx) -> bool {
        self.aligned(t.idx, t.at@)
    }
}

pub(super) broadcast proof fn lemma_grew_refl<'de>(a: &Parser<'de>)
    ensures
        #[trigger] a.grew(a),
{
}

pub(super) broadcast proof fn lemma_grew_trans<'de>(
    a: &Parser<'de>,
    b: &Parser<'de>,
    c: &Parser<'de>,
)
    requires
        #[trigger] b.grew(a),
        #[trigger] c.grew(b),
    ensures
        c.grew(a),
{
    let (x, y, z) = (a.work.actions@, b.work.actions@, c.work.actions@);
    assert(z.take(x.len() as int) =~= z.take(y.len() as int).take(x.len() as int));
    let (x, y, z) = (a.work.forest@, b.work.forest@, c.work.forest@);
    assert(z.take(x.len() as int) =~= z.take(y.len() as int).take(x.len() as int));
}

pub(super) broadcast proof fn lemma_opened_stays<'de>(
    a: &Parser<'de>,
    b: &Parser<'de>,
    t: &TreeIdx,
)
    requires
        #[trigger] a.opened(t),
        #[trigger] b.grew(a),
    ensures
        b.opened(t),
{
    let (x, y) = (a.work.actions@, b.work.actions@);
    assert(y.take(t.idx as int) =~= y.take(x.len() as int).take(t.idx as int));
    assert(y.take(x.len() as int)[t.idx as int] == y[t.idx as int]);
    let (x, y) = (a.work.forest@, b.work.forest@);
    assert(y.take(t.at@ as int) =~= y.take(x.len() as int).take(t.at@ as int));
}

pub(super) broadcast group group_growth {
    lemma_grew_refl,
    lemma_grew_trans,
    lemma_opened_stays,
}

impl<'de> Parser<'de> {
    /// A parser at the start of its tokens. It keeps names in `interner`, which holds the names
    /// of the parser once the parser is gone.
    pub fn new(
        iter: Lexer<'de>,
        source_map: &'de SourceMap,
        interner: &'de mut Interner,
    ) -> (parser: Self)
        ensures
            parser.inv(),
            parser@ == (Snapshot {
                rest: iter@,
                out: Seq::empty(),
                errs: Seq::empty(),
                names: old(interner)@,
                end: source_map.end_place(),
            }),
            parser.interner@ == parser@.names,
            *final(parser.interner) == *final(interner),
    {
        let work = Work {
            source_map,
            toks: iter,
            actions: Vec::new(),
            errors: Vec::new(),
            forest: Ghost(Seq::empty()),
        };
        let parser = Parser { interner, work };
        assert(parser@.errs =~= Seq::empty());
        parser
    }

    /// Hands out the trees and the errors, and keeps neither.
    pub(super) fn finish(&mut self) -> (result: (SyntaxTree<'de>, Vec<ParseError>))
        requires
            old(self).inv(),
        ensures
            final(self).inv(),
            *final(final(self).interner) == *final(old(self).interner),
            final(self)@ == (Snapshot { out: Seq::empty(), errs: Seq::empty(), ..old(self)@ }),
            result.0@ == old(self)@.out,
            result.1@.map_values(|err: ParseError| err@) == old(self)@.errs,
            final(self).interner@ == final(self)@.names,
    {
        let mut actions: Vec<Tree<'de>> = Vec::new();
        let mut errors: Vec<ParseError> = Vec::new();
        std::mem::swap(&mut actions, &mut self.work.actions);
        std::mem::swap(&mut errors, &mut self.work.errors);
        self.work.forest = Ghost(Seq::empty());
        assert(self@.errs =~= Seq::empty());
        assert(listing(old(self).work.forest@) == settled(actions@));
        let trees = build(actions);
        proof {
            listing_is_injective(greens(trees@), old(self).work.forest@);
        }
        (SyntaxTree::new_root(trees), errors)
    }

    /// The next token.
    pub(super) fn next_tok(&self) -> (tok: Option<Token<'de>>)
        ensures
            tok == if self@.at_end() {
                None
            } else {
                Some(self@.rest[0])
            },
    {
        self.work.toks.peek()
    }

    /// Reports the end of the input, with what was `expected` there.
    pub(super) fn miss(&mut self, expected: Expected)
        requires
            old(self).inv(),
        ensures
            final(self).inv(),
            *final(final(self).interner) == *final(old(self).interner),
            final(self).grew(old(self)),
            final(self)@ == old(self)@.miss(expected),
    {
        let kind = expected.kind("EOF".to_owned());
        let ctxt = Some(self.work.source_map.ctxt_from_end().with(Site::Peek));
        self.work.errors.push(ParseError { kind, ctxt });
        assert(self@ =~= old(self)@.miss(expected));
    }

    /// Should only be used the case that the next token **exists** but isn't what it should be:
    /// takes the token, and cooks up an error about it.
    pub fn make_err(&mut self, make_kind: impl FnOnce(String) -> ParseErrorKind) -> (err: ParseError)
        requires
            old(self).inv(),
            !old(self)@.at_end(),
            forall|found: String|
                found@ == old(self)@.rest[0].lexeme@ ==> call_requires(make_kind, (found,)),
        ensures
            final(self).inv(),
            *final(final(self).interner) == *final(old(self).interner),
            final(self).grew(old(self)),
            final(self)@ == (Snapshot { rest: old(self)@.rest.drop_first(), ..old(self)@ }),
            exists|found: String|
                found@ == old(self)@.rest[0].lexeme@ && call_ensures(make_kind, (found,), err.kind),
            err.ctxt == Some(place_of(old(self)@.rest[0]).raised_in(Site::MakeErr)),
            final(self).interner@ == final(self)@.names,
    {
        let tok = self.work.toks.next().unwrap();
        let kind = make_kind(tok.lexeme.to_owned());
        let ctxt = Some(self.work.source_map.ctxt_from_tok(&tok).with(Site::MakeErr));
        ParseError { kind, ctxt }
    }

    /// Takes the next token and reports it, with what was `expected` in its place.
    pub(super) fn reject(&mut self, expected: Expected)
        requires
            old(self).inv(),
            !old(self)@.at_end(),
        ensures
            final(self).inv(),
            *final(final(self).interner) == *final(old(self).interner),
            final(self).grew(old(self)),
            final(self)@ == old(self)@.reject(expected),
    {
        let make_kind = |found: String| -> (kind: ParseErrorKind)
            ensures
                kind@ == expected.kind_view(found@),
        {
            expected.kind(found)
        };
        let err = self.make_err(make_kind);
        self.work.errors.push(err);
        assert(self@ =~= old(self)@.reject(expected));
    }

    /// Records a leaf.
    fn push_leaf(&mut self, entry: Tree<'de>, leaf: Ghost<Green<'de>>)
        requires
            old(self).inv(),
            seq![entry] == listing_of(leaf@),
            entry != Tree::<'de>::Open(None),
        ensures
            final(self).inv(),
            *final(final(self).interner) == *final(old(self).interner),
            final(self).grew(old(self)),
            final(self)@ == (Snapshot { out: old(self)@.out.push(leaf@), ..old(self)@ }),
            final(self).work.toks == old(self).work.toks,
    {
        self.work.actions.push(entry);
        self.work.forest = Ghost(self.work.forest@.push(leaf@));
        proof {
            assert(self.work.actions@ =~= old(self).work.actions@ + seq![entry]);
            lemma_settled_add(old(self).work.actions@, seq![entry]);
            lemma_settled_one(entry);
            lemma_listing_push(old(self).work.forest@, leaf@);
        }
    }

    /// Eats the next token no matter what it is granted that there is one.
    pub(super) fn consume(&mut self)
        requires
            old(self).inv(),
            !old(self)@.at_end(),
        ensures
            final(self).inv(),
            *final(final(self).interner) == *final(old(self).interner),
            final(self).grew(old(self)),
            final(self)@ == old(self)@.take(),
    {
        let tok = self.work.toks.next().unwrap();
        self.push_leaf(Tree::Token { tok }, Ghost(Green::Token(tok)));
    }

    /// Eats the next token as a name, and interns its symbol.
    pub(super) fn consume_ident(&mut self)
        requires
            old(self).inv(),
            !old(self)@.at_end(),
        ensures
            final(self).inv(),
            *final(final(self).interner) == *final(old(self).interner),
            final(self).grew(old(self)),
            final(self)@ == old(self)@.take_ident(),
    {
        let tok = self.work.toks.next().unwrap();
        let sym = self.interner.intern(tok.lexeme);
        let ident = Ident { sym, width: tok.lexeme.len() };
        self.push_leaf(Tree::Ident { ident }, Ghost(Green::Ident(ident)));
    }

    /// Opens a node.
    pub(super) fn start(&mut self) -> (t: TreeIdx)
        requires
            old(self).inv(),
        ensures
            final(self).inv(),
            *final(final(self).interner) == *final(old(self).interner),
            final(self)@ == old(self)@,
            final(self).grew(old(self)),
            final(self).opened(&t),
            t.starts_in(old(self)),
            t@ == old(self)@.out.len(),
    {
        let idx: usize = self.work.actions.len();
        self.work.actions.push(Tree::Open(None));
        proof {
            assert(self.work.actions@ =~= old(self).work.actions@ + seq![Tree::Open(None)]);
            lemma_settled_add(old(self).work.actions@, seq![Tree::Open(None)]);
            lemma_settled_one(Tree::Open::<'de>(None));
            assert(settled(self.work.actions@) =~= settled(old(self).work.actions@));
            assert(self.work.actions@.take(idx as int) =~= old(self).work.actions@);
            assert(self.work.forest@.take(self.work.forest@.len() as int) =~= self.work.forest@);
        }
        TreeIdx { idx, at: Ghost(self.work.forest@.len()) }
    }
}

impl TreeIdx {
    /// Completes the node: what stands behind its start is inside it.
    pub(super) fn end<'de>(self, kind: SyntaxKind, p: &mut Parser<'de>) -> (done: CompletedTreeIdx)
        requires
            old(p).inv(),
            old(p).opened(&self),
        ensures
            final(p).inv(),
            *final(final(p).interner) == *final(old(p).interner),
            final(p)@ == old(p)@.close(self@, kind),
            final(p).completed(&done),
            forall|s: &Parser<'de>|
                old(p).grew(s) && self.starts_in(s) ==> #[trigger] final(p).grew(s),
            forall|s: &Parser<'de>| self.starts_in(s) ==> #[trigger] done.starts_in(s),
            done@ == self@,
    {
        let ghost at = self.at@ as int;
        let ghost idx = self.idx as int;
        let ghost before = p.work.actions@.take(idx);
        let ghost inside = p.work.actions@.skip(idx + 1);
        let ghost trees_before = p.work.forest@.take(at);
        let ghost trees_inside = p.work.forest@.skip(at);
        let ghost node = Green::Node(kind, trees_inside);
        proof {
            assert(p.work.actions@ =~= before + seq![Tree::Open(None)] + inside);
            lemma_settled_add(before, seq![Tree::Open(None)]);
            lemma_settled_add(before + seq![Tree::Open(None)], inside);
            lemma_settled_one(Tree::Open::<'de>(None));
            assert(p.work.forest@ =~= trees_before + trees_inside);
            lemma_listing_add(trees_before, trees_inside);
            assert(settled(inside) =~= settled(p.work.actions@).skip(settled(before).len() as int));
            assert(listing(trees_inside) =~= listing(p.work.forest@).skip(
                listing(trees_before).len() as int,
            ));
        }
        p.work.actions.set(self.idx, Tree::Open(Some(kind)));
        p.work.actions.push(Tree::Close);
        p.work.forest = Ghost(trees_before.push(node));
        proof {
            let open = seq![Tree::Open(Some(kind))];
            let close = seq![Tree::Close];
            assert(p.work.actions@ =~= before + open + inside + close);
            lemma_settled_add(before, open);
            lemma_settled_add(before + open, inside);
            lemma_settled_add(before + open + inside, close);
            lemma_settled_one(Tree::Open::<'de>(Some(kind)));
            lemma_settled_one(Tree::Close::<'de>);
            lemma_listing_push(trees_before, node);
            assert(settled(p.work.actions@) =~= listing(p.work.forest@));
            assert(p.work.actions@.take(idx) =~= before);
            assert(p.work.forest@.take(at) =~= trees_before);
        }
        CompletedTreeIdx { idx: self.idx, at: self.at }
    }
}

impl CompletedTreeIdx {
    /// Opens a node around the completed one.
    pub(super) fn precede<'de>(self, p: &mut Parser<'de>) -> (t: TreeIdx)
        requires
            old(p).inv(),
            old(p).completed(&self),
        ensures
            final(p).inv(),
            *final(final(p).interner) == *final(old(p).interner),
            final(p)@ == old(p)@,
            final(p).opened(&t),
            forall|s: &Parser<'de>|
                old(p).grew(s) && self.starts_in(s) ==> #[trigger] final(p).grew(s),
            forall|s: &Parser<'de>| self.starts_in(s) ==> #[trigger] t.starts_in(s),
            t@ == self@,
    {
        let ghost idx = self.idx as int;
        let ghost before = p.work.actions@.take(idx);
        let ghost behind = p.work.actions@.skip(idx);
        proof {
            assert(p.work.actions@ =~= before + behind);
            lemma_settled_add(before, behind);
        }
        p.work.actions.insert(self.idx, Tree::Open(None));
        proof {
            let open = seq![Tree::Open(None)];
            assert(p.work.actions@ =~= before + open + behind);
            lemma_settled_add(before, open);
            lemma_settled_add(before + open, behind);
            lemma_settled_one(Tree::Open::<'de>(None));
            assert(settled(p.work.actions@) =~= settled(before) + settled(behind));
            assert(p.work.actions@.take(idx) =~= before);
        }
        TreeIdx { idx: self.idx, at: self.at }
    }
}

} // verus!
