//! Reading the text of a tree part by part.
use vstd::prelude::*;

use crate::grammar::Snapshot;
use crate::syntax::SyntaxKind;
use crate::token::Token;

use super::language::{read, resolve, resolve_of, text, text_of, Source};

verus! {

/// `s` once the first `i` trees of `forest` have been read, with `rest` behind the others.
#[verifier::opaque]
pub open spec fn at<'de>(
    s: Snapshot<'de>,
    forest: Seq<Source<'de>>,
    i: int,
    rest: Seq<Token<'de>>,
) -> Snapshot<'de> {
    read(s, forest.take(i), text(forest.skip(i)) + rest)
}

/// What follows the tree at index `i`.
pub open spec fn behind<'de>(
    forest: Seq<Source<'de>>,
    i: int,
    rest: Seq<Token<'de>>,
) -> Seq<Token<'de>> {
    text(forest.skip(i + 1)) + rest
}

pub proof fn lemma_text_add<'de>(a: Seq<Source<'de>>, b: Seq<Source<'de>>)
    ensures
        text(a + b) == text(a) + text(b),
    decreases b.len(),
{
    if b.len() == 0 {
        assert(a + b =~= a);
        assert(text(a) + text(b) =~= text(a));
    } else {
        assert((a + b).drop_last() =~= a + b.drop_last());
        lemma_text_add(a, b.drop_last());
        assert(text(a + b) =~= text(a) + text(b));
    }
}

pub proof fn lemma_text_one<'de>(tree: Source<'de>)
    ensures
        text(seq![tree]) == text_of(tree),
{
    let one = seq![tree];
    assert(one.drop_last() =~= Seq::empty());
    assert(text(one.drop_last()) =~= Seq::empty());
    assert(text(one) == text(one.drop_last()) + text_of(one.last()));
    assert(text(one) =~= text_of(tree));
}

pub proof fn lemma_resolve_add<'de>(
    a: Seq<Source<'de>>,
    b: Seq<Source<'de>>,
    names: Seq<Seq<char>>,
)
    ensures
        ({
            let (first, between) = resolve(a, names);
            let (second, after) = resolve(b, between);
            resolve(a + b, names) == (first + second, after)
        }),
    decreases b.len(),
{
    if b.len() == 0 {
        assert(a + b =~= a);
        assert(resolve(a, names).0 + Seq::empty() =~= resolve(a, names).0);
    } else {
        assert((a + b).drop_last() =~= a + b.drop_last());
        lemma_resolve_add(a, b.drop_last(), names);
        let (first, between) = resolve(a, names);
        let second = resolve(b, between).0;
        assert(resolve(a + b, names).0 =~= first + second);
    }
}

pub proof fn lemma_resolve_one<'de>(tree: Source<'de>, names: Seq<Seq<char>>)
    ensures
        resolve(seq![tree], names) == (
            seq![resolve_of(tree, names).0],
            resolve_of(tree, names).1,
        ),
{
    let one = seq![tree];
    assert(one.drop_last() =~= Seq::empty());
    assert(resolve(one.drop_last(), names) == (Seq::<crate::red_node::Green>::empty(), names));
    assert(resolve(one, names).0 =~= seq![resolve_of(tree, names).0]);
}

/// Reading starts where nothing has been read.
pub proof fn lemma_at_start<'de>(s: Snapshot<'de>, forest: Seq<Source<'de>>, rest: Seq<Token<'de>>)
    requires
        s.rest == text(forest) + rest,
    ensures
        at(s, forest, 0, rest) == s,
{
    reveal(at);
    assert(forest.take(0) =~= Seq::empty());
    assert(forest.skip(0) =~= forest);
    assert(s.out + Seq::empty() =~= s.out);
    assert(at(s, forest, 0, rest) =~= s);
}

/// Reading ends where everything has been read.
pub proof fn lemma_at_end<'de>(s: Snapshot<'de>, forest: Seq<Source<'de>>, rest: Seq<Token<'de>>)
    ensures
        at(s, forest, forest.len() as int, rest) == read(s, forest, rest),
{
    reveal(at);
    assert(forest.take(forest.len() as int) =~= forest);
    assert(forest.skip(forest.len() as int) =~= Seq::empty());
    assert(Seq::<Token<'de>>::empty() + rest =~= rest);
}

/// One tree further.
pub proof fn lemma_at_next<'de>(
    s: Snapshot<'de>,
    forest: Seq<Source<'de>>,
    i: int,
    rest: Seq<Token<'de>>,
)
    requires
        0 <= i < forest.len(),
    ensures
        at(s, forest, i, rest).rest == text_of(forest[i]) + behind(forest, i, rest),
        at(s, forest, i + 1, rest) == read(
            at(s, forest, i, rest),
            seq![forest[i]],
            behind(forest, i, rest),
        ),
        at(s, forest, i + 1, rest).rest == behind(forest, i, rest),
{
    reveal(at);
    let one = seq![forest[i]];
    assert(forest.skip(i) =~= one + forest.skip(i + 1));
    lemma_text_add(one, forest.skip(i + 1));
    lemma_text_one(forest[i]);
    assert(at(s, forest, i, rest).rest =~= text_of(forest[i]) + behind(forest, i, rest));
    assert(forest.take(i + 1) =~= forest.take(i) + one);
    lemma_resolve_add(forest.take(i), one, s.names);
    let here = at(s, forest, i, rest);
    assert(s.out + resolve(forest.take(i + 1), s.names).0 =~= here.out + resolve(
        one,
        here.names,
    ).0);
}

/// A token is read by taking it.
pub proof fn lemma_read_token<'de>(s: Snapshot<'de>, tok: Token<'de>, rest: Seq<Token<'de>>)
    requires
        s.rest == seq![tok] + rest,
    ensures
        s.rest.len() > 0,
        s.rest[0] == tok,
        s.take() == read(s, seq![Source::Token(tok)], rest),
{
    lemma_resolve_one(Source::Token(tok), s.names);
    assert(s.rest.drop_first() =~= rest);
    assert(s.take() =~= read(s, seq![Source::Token(tok)], rest));
}

/// A name is read by taking it as a name.
pub proof fn lemma_read_name<'de>(s: Snapshot<'de>, tok: Token<'de>, rest: Seq<Token<'de>>)
    requires
        s.rest == seq![tok] + rest,
    ensures
        s.rest.len() > 0,
        s.rest[0] == tok,
        s.take_ident() == read(s, seq![Source::Name(tok)], rest),
{
    lemma_resolve_one(Source::Name(tok), s.names);
    assert(s.rest.drop_first() =~= rest);
    assert(s.take_ident() =~= read(s, seq![Source::Name(tok)], rest));
}

/// A node is read by reading its children and making a node of them.
pub proof fn lemma_read_node<'de>(
    s: Snapshot<'de>,
    kind: SyntaxKind,
    children: Seq<Source<'de>>,
    rest: Seq<Token<'de>>,
)
    ensures
        at(s, children, children.len() as int, rest).close(s.out.len(), kind) == read(
            s,
            seq![Source::Node(kind, children)],
            rest,
        ),
{
    lemma_at_end(s, children, rest);
    let inside = resolve(children, s.names).0;
    lemma_resolve_one(Source::Node(kind, children), s.names);
    let n = s.out.len() as int;
    assert((s.out + inside).take(n) =~= s.out);
    assert((s.out + inside).skip(n) =~= inside);
    assert(read(s, children, rest).close(s.out.len(), kind) =~= read(
        s,
        seq![Source::Node(kind, children)],
        rest,
    ));
}

/// The next tree is a token: it is there, and taking it goes one tree further.
pub proof fn lemma_next_token<'de>(
    s: Snapshot<'de>,
    forest: Seq<Source<'de>>,
    i: int,
    rest: Seq<Token<'de>>,
)
    requires
        0 <= i < forest.len(),
        forest[i] is Token,
    ensures
        !at(s, forest, i, rest).at_end(),
        at(s, forest, i, rest).rest[0] == forest[i]->Token_0,
        at(s, forest, i, rest).take() == at(s, forest, i + 1, rest),
        at(s, forest, i + 1, rest).ahead_of(at(s, forest, i, rest)),
{
    lemma_at_next(s, forest, i, rest);
    lemma_read_token(at(s, forest, i, rest), forest[i]->Token_0, behind(forest, i, rest));
}

/// The next tree is a name: its token is there, and taking it as a name goes one tree further.
pub proof fn lemma_next_name<'de>(
    s: Snapshot<'de>,
    forest: Seq<Source<'de>>,
    i: int,
    rest: Seq<Token<'de>>,
)
    requires
        0 <= i < forest.len(),
        forest[i] is Name,
    ensures
        !at(s, forest, i, rest).at_end(),
        at(s, forest, i, rest).rest[0] == forest[i]->Name_0,
        at(s, forest, i, rest).take_ident() == at(s, forest, i + 1, rest),
        at(s, forest, i + 1, rest).ahead_of(at(s, forest, i, rest)),
{
    lemma_at_next(s, forest, i, rest);
    lemma_read_name(at(s, forest, i, rest), forest[i]->Name_0, behind(forest, i, rest));
}

/// What has been read of the trees in front does not grow what is left.
pub proof fn lemma_at_shrinks<'de>(
    s: Snapshot<'de>,
    forest: Seq<Source<'de>>,
    i: int,
    j: int,
    rest: Seq<Token<'de>>,
)
    requires
        0 <= i <= j <= forest.len(),
    ensures
        at(s, forest, j, rest).rest.len() <= at(s, forest, i, rest).rest.len(),
    decreases j - i,
{
    if i < j {
        lemma_at_next(s, forest, i, rest);
        lemma_at_shrinks(s, forest, i + 1, j, rest);
    }
}

/// From `s` to `after` the trees in `forest` have been read, and nothing else has happened.
#[verifier::opaque]
pub open spec fn reads<'de>(
    s: Snapshot<'de>,
    forest: Seq<Source<'de>>,
    after: Snapshot<'de>,
) -> bool {
    s.rest == text(forest) + after.rest && after == read(s, forest, after.rest)
}

pub proof fn lemma_reads_none<'de>(s: Snapshot<'de>)
    ensures
        reads(s, Seq::empty(), s),
{
    reveal(reads);
    assert(Seq::<Token<'de>>::empty() + s.rest =~= s.rest);
    assert(s.out + Seq::empty() =~= s.out);
    assert(read(s, Seq::empty(), s.rest) =~= s);
}

pub proof fn lemma_reads_add<'de>(
    s: Snapshot<'de>,
    a: Seq<Source<'de>>,
    between: Snapshot<'de>,
    b: Seq<Source<'de>>,
    after: Snapshot<'de>,
)
    requires
        reads(s, a, between),
        reads(between, b, after),
    ensures
        reads(s, a + b, after),
{
    reveal(reads);
    lemma_text_add(a, b);
    lemma_resolve_add(a, b, s.names);
    assert(s.rest =~= text(a + b) + after.rest);
    assert(after =~= read(s, a + b, after.rest));
}

/// One tree more.
pub proof fn lemma_reads_push<'de>(
    s: Snapshot<'de>,
    forest: Seq<Source<'de>>,
    between: Snapshot<'de>,
    tree: Source<'de>,
    after: Snapshot<'de>,
)
    requires
        reads(s, forest, between),
        reads(between, seq![tree], after),
    ensures
        reads(s, forest.push(tree), after),
{
    lemma_reads_add(s, forest, between, seq![tree], after);
    assert(forest + seq![tree] =~= forest.push(tree));
}

/// One token more.
pub proof fn lemma_reads_take<'de>(
    s: Snapshot<'de>,
    forest: Seq<Source<'de>>,
    between: Snapshot<'de>,
)
    requires
        reads(s, forest, between),
        !between.at_end(),
    ensures
        reads(s, forest.push(Source::Token(between.rest[0])), between.take()),
{
    let tok = between.rest[0];
    let tree = Source::Token(tok);
    let rest = between.rest.drop_first();
    assert(between.rest =~= seq![tok] + rest);
    lemma_read_token(between, tok, rest);
    lemma_text_one(tree);
    assert(reads(between, seq![tree], between.take())) by {
        reveal(reads);
    }
    lemma_reads_push(s, forest, between, tree, between.take());
}

/// One name more.
pub proof fn lemma_reads_take_ident<'de>(
    s: Snapshot<'de>,
    forest: Seq<Source<'de>>,
    between: Snapshot<'de>,
)
    requires
        reads(s, forest, between),
        !between.at_end(),
    ensures
        reads(s, forest.push(Source::Name(between.rest[0])), between.take_ident()),
{
    let tok = between.rest[0];
    let tree = Source::Name(tok);
    let rest = between.rest.drop_first();
    assert(between.rest =~= seq![tok] + rest);
    lemma_read_name(between, tok, rest);
    lemma_text_one(tree);
    assert(reads(between, seq![tree], between.take_ident())) by {
        reveal(reads);
    }
    lemma_reads_push(s, forest, between, tree, between.take_ident());
}

/// What has been read becomes a node.
pub proof fn lemma_reads_close<'de>(
    s: Snapshot<'de>,
    forest: Seq<Source<'de>>,
    after: Snapshot<'de>,
    kind: SyntaxKind,
)
    requires
        reads(s, forest, after),
    ensures
        reads(s, seq![Source::Node(kind, forest)], after.close(s.out.len(), kind)),
{
    reveal(reads);
    lemma_text_one(Source::Node(kind, forest));
    lemma_at_end(s, forest, after.rest);
    lemma_read_node(s, kind, forest, after.rest);
}

} // verus!
