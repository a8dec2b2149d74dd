//! The flat record of a tree that the parser keeps while the tree is still growing.
//!
//! A node is opened before its kind is known. Completing it fills the kind in and closes it;
//! one that is never completed leaves no node, and what was recorded behind it belongs to the
//! enclosing node.
use vstd::prelude::*;

use crate::ast::Ident;
use crate::red_node::{greens, lemma_green_node, Element, Green};
use crate::syntax::SyntaxKind;
use crate::token::Token;

verus! {

/// One entry of the record.
#[derive(Clone, Copy, Debug)]
pub enum Tree<'de> {
    /// A node starts here; without a kind as long as it is not completed.
    Open(Option<SyntaxKind>),
    /// The innermost completed node that is still open ends here.
    Close,
    /// A token.
    Token { tok: Token<'de> },
    /// A name.
    Ident { ident: Ident },
}

/// The record of a tree.
pub open spec fn listing_of<'de>(tree: Green<'de>) -> Seq<Tree<'de>>
    decreases tree,
{
    match tree {
        Green::Token(tok) => seq![Tree::Token { tok }],
        Green::Ident(ident) => seq![Tree::Ident { ident }],
        Green::Node(kind, children) => seq![Tree::Open(Some(kind))] + listing(children) + seq![
            Tree::Close,
        ],
    }
}

/// The record of a list of trees.
pub open spec fn listing<'de>(forest: Seq<Green<'de>>) -> Seq<Tree<'de>>
    decreases forest,
{
    if forest.len() == 0 {
        Seq::empty()
    } else {
        listing(forest.drop_last()) + listing_of(forest.last())
    }
}

/// The record without the nodes that were not completed.
pub open spec fn settled<'de>(record: Seq<Tree<'de>>) -> Seq<Tree<'de>>
    decreases record.len(),
{
    if record.len() == 0 {
        Seq::empty()
    } else if record.last() == Tree::Open(None) {
        settled(record.drop_last())
    } else {
        settled(record.drop_last()).push(record.last())
    }
}

pub proof fn lemma_settled_add<'de>(a: Seq<Tree<'de>>, b: Seq<Tree<'de>>)
    ensures
        settled(a + b) == settled(a) + settled(b),
    decreases b.len(),
{
    if b.len() == 0 {
        assert(a + b =~= a);
        assert(settled(a) + settled(b) =~= settled(a));
    } else {
        assert((a + b).drop_last() =~= a + b.drop_last());
        lemma_settled_add(a, b.drop_last());
        assert(settled(a + b) =~= settled(a) + settled(b));
    }
}

pub proof fn lemma_settled_one<'de>(entry: Tree<'de>)
    ensures
        settled(seq![entry]) == if entry == Tree::Open(None) {
            Seq::<Tree<'de>>::empty()
        } else {
            seq![entry]
        },
{
    reveal_with_fuel(settled, 2);
    assert(seq![entry].drop_last() =~= Seq::empty());
    assert(Seq::<Tree<'de>>::empty().push(entry) =~= seq![entry]);
}

pub proof fn lemma_listing_add<'de>(a: Seq<Green<'de>>, b: Seq<Green<'de>>)
    ensures
        listing(a + b) == listing(a) + listing(b),
    decreases b.len(),
{
    if b.len() == 0 {
        assert(a + b =~= a);
        assert(listing(a) + listing(b) =~= listing(a));
    } else {
        assert((a + b).drop_last() =~= a + b.drop_last());
        lemma_listing_add(a, b.drop_last());
        assert(listing(a + b) =~= listing(a) + listing(b));
    }
}

pub proof fn lemma_listing_push<'de>(forest: Seq<Green<'de>>, tree: Green<'de>)
    ensures
        listing(forest.push(tree)) == listing(forest) + listing_of(tree),
{
    assert(forest.push(tree).drop_last() =~= forest);
}

/// How many more nodes a record opens than it closes.
pub open spec fn depth<'de>(record: Seq<Tree<'de>>) -> int
    decreases record.len(),
{
    if record.len() == 0 {
        0
    } else {
        depth(record.drop_last()) + match record.last() {
            Tree::Open(_) => 1int,
            Tree::Close => -1int,
            _ => 0int,
        }
    }
}

pub proof fn lemma_depth_add<'de>(a: Seq<Tree<'de>>, b: Seq<Tree<'de>>)
    ensures
        depth(a + b) == depth(a) + depth(b),
    decreases b.len(),
{
    if b.len() == 0 {
        assert(a + b =~= a);
    } else {
        assert((a + b).drop_last() =~= a + b.drop_last());
        lemma_depth_add(a, b.drop_last());
    }
}

pub proof fn lemma_depth_one<'de>(entry: Tree<'de>)
    ensures
        depth(seq![entry]) == match entry {
            Tree::Open(_) => 1int,
            Tree::Close => -1int,
            _ => 0int,
        },
{
    reveal_with_fuel(depth, 2);
    assert(seq![entry].drop_last() =~= Seq::empty());
}

/// The record of a tree closes what it opens, and no part of it from the start closes more.
proof fn lemma_depth_listing_of<'de>(tree: Green<'de>)
    ensures
        depth(listing_of(tree)) == 0,
        forall|k: int|
            0 <= k <= listing_of(tree).len() ==> depth(#[trigger] listing_of(tree).take(k)) >= 0,
    decreases tree,
{
    let rec = listing_of(tree);
    match tree {
        Green::Token(tok) => {
            lemma_depth_one(Tree::Token { tok });
            assert forall|k: int| 0 <= k <= rec.len() implies depth(#[trigger] rec.take(k)) >= 0 by {
                if k == 1 {
                    assert(rec.take(k) =~= rec);
                }
            }
        },
        Green::Ident(ident) => {
            lemma_depth_one(Tree::Ident::<'de> { ident });
            assert forall|k: int| 0 <= k <= rec.len() implies depth(#[trigger] rec.take(k)) >= 0 by {
                if k == 1 {
                    assert(rec.take(k) =~= rec);
                }
            }
        },
        Green::Node(kind, children) => {
            let open = seq![Tree::Open(Some(kind))];
            let close = seq![Tree::Close];
            let inner = listing(children);
            lemma_depth_listing(children);
            lemma_depth_one(Tree::Open::<'de>(Some(kind)));
            lemma_depth_one(Tree::Close::<'de>);
            lemma_depth_add(open, inner);
            lemma_depth_add(open + inner, close);
            assert forall|k: int| 0 <= k <= rec.len() implies depth(#[trigger] rec.take(k)) >= 0 by {
                if k == rec.len() {
                    assert(rec.take(k) =~= rec);
                } else if k > 0 {
                    assert(rec.take(k) =~= open + inner.take(k - 1));
                    lemma_depth_add(open, inner.take(k - 1));
                }
            }
        },
    }
}

/// The record of a list of trees closes what it opens, and no part of it from the start
/// closes more.
pub proof fn lemma_depth_listing<'de>(forest: Seq<Green<'de>>)
    ensures
        depth(listing(forest)) == 0,
        forall|k: int|
            0 <= k <= listing(forest).len() ==> depth(#[trigger] listing(forest).take(k)) >= 0,
    decreases forest,
{
    if forest.len() > 0 {
        let init = listing(forest.drop_last());
        let tail = listing_of(forest.last());
        lemma_depth_listing(forest.drop_last());
        lemma_depth_listing_of(forest.last());
        lemma_depth_add(init, tail);
        let rec = listing(forest);
        assert forall|k: int| 0 <= k <= rec.len() implies depth(#[trigger] rec.take(k)) >= 0 by {
            if k <= init.len() {
                assert(rec.take(k) =~= init.take(k));
            } else {
                assert(rec.take(k) =~= init + tail.take(k - init.len()));
                lemma_depth_add(init, tail.take(k - init.len()));
            }
        }
    }
}

proof fn lemma_listing_front<'de>(forest: Seq<Green<'de>>)
    requires
        forest.len() > 0,
    ensures
        listing(forest) == listing_of(forest[0]) + listing(forest.drop_first()),
{
    let head = seq![forest[0]];
    assert(forest =~= head + forest.drop_first());
    lemma_listing_add(head, forest.drop_first());
    assert(head =~= Seq::empty().push(forest[0]));
    lemma_listing_push(Seq::empty(), forest[0]);
    assert(listing(head) =~= listing_of(forest[0]));
}

/// No record of a tree is the beginning of another one.
proof fn lemma_tree_from_listing<'de>(
    a: Green<'de>,
    b: Green<'de>,
    after_a: Seq<Tree<'de>>,
    after_b: Seq<Tree<'de>>,
)
    requires
        listing_of(a) + after_a == listing_of(b) + after_b,
    ensures
        a == b,
        after_a == after_b,
    decreases a,
{
    let all_a = listing_of(a) + after_a;
    let all_b = listing_of(b) + after_b;
    assert(all_a[0] == listing_of(a)[0]);
    assert(all_b[0] == listing_of(b)[0]);
    match a {
        Green::Node(kind, children) => {
            assert(b is Node);
            let kind_b = b->Node_0;
            let children_b = b->Node_1;
            let rest_a = listing(children) + (seq![Tree::Close] + after_a);
            let rest_b = listing(children_b) + (seq![Tree::Close] + after_b);
            assert(all_a =~= seq![Tree::Open(Some(kind))] + rest_a);
            assert(all_b =~= seq![Tree::Open(Some(kind_b))] + rest_b);
            assert(rest_a =~= all_a.skip(1));
            assert(rest_b =~= all_b.skip(1));
            lemma_forest_from_listing(children, children_b, after_a, after_b);
        },
        _ => {
            assert(after_a =~= all_a.skip(1));
            assert(after_b =~= all_b.skip(1));
        },
    }
}

/// The record of a list of trees, up to the mark that closes it, determines the list.
proof fn lemma_forest_from_listing<'de>(
    a: Seq<Green<'de>>,
    b: Seq<Green<'de>>,
    after_a: Seq<Tree<'de>>,
    after_b: Seq<Tree<'de>>,
)
    requires
        listing(a) + (seq![Tree::Close] + after_a) == listing(b) + (seq![Tree::Close] + after_b),
    ensures
        a == b,
        after_a == after_b,
    decreases a,
{
    let end_a = seq![Tree::Close] + after_a;
    let end_b = seq![Tree::Close] + after_b;
    let all_a = listing(a) + end_a;
    let all_b = listing(b) + end_b;
    if a.len() > 0 {
        lemma_listing_front(a);
        assert(all_a =~= listing_of(a[0]) + (listing(a.drop_first()) + end_a));
        assert(all_a[0] == listing_of(a[0])[0]);
    } else {
        assert(all_a =~= end_a);
        assert(all_a[0] == Tree::<'de>::Close);
    }
    if b.len() > 0 {
        lemma_listing_front(b);
        assert(all_b =~= listing_of(b[0]) + (listing(b.drop_first()) + end_b));
        assert(all_b[0] == listing_of(b[0])[0]);
    } else {
        assert(all_b =~= end_b);
        assert(all_b[0] == Tree::<'de>::Close);
    }
    if a.len() > 0 && b.len() > 0 {
        lemma_tree_from_listing(
            a[0],
            b[0],
            listing(a.drop_first()) + end_a,
            listing(b.drop_first()) + end_b,
        );
        lemma_forest_from_listing(a.drop_first(), b.drop_first(), after_a, after_b);
        assert(a =~= seq![a[0]] + a.drop_first());
        assert(b =~= seq![b[0]] + b.drop_first());
    } else {
        assert(a =~= b);
        assert(after_a =~= all_a.skip(1));
        assert(after_b =~= all_b.skip(1));
    }
}

/// A record determines the trees it is the record of.
pub proof fn listing_is_injective<'de>(a: Seq<Green<'de>>, b: Seq<Green<'de>>)
    requires
        listing(a) == listing(b),
    ensures
        a == b,
{
    lemma_forest_from_listing(a, b, Seq::empty(), Seq::empty());
}

/// The record of the nodes that are open, from the outside in: each with the trees in front
/// of it.
spec fn pending<'de>(stack: Seq<(SyntaxKind, Vec<Element<'de>>)>) -> Seq<Tree<'de>>
    decreases stack.len(),
{
    if stack.len() == 0 {
        Seq::empty()
    } else {
        pending(stack.drop_last()) + listing(greens(stack.last().1@)) + seq![
            Tree::Open(Some(stack.last().0)),
        ]
    }
}

proof fn lemma_depth_pending<'de>(stack: Seq<(SyntaxKind, Vec<Element<'de>>)>)
    ensures
        depth(pending(stack)) == stack.len(),
    decreases stack.len(),
{
    if stack.len() > 0 {
        let before = pending(stack.drop_last());
        let left = listing(greens(stack.last().1@));
        let open = seq![Tree::Open(Some(stack.last().0))];
        lemma_depth_pending(stack.drop_last());
        lemma_depth_listing(greens(stack.last().1@));
        lemma_depth_add(before, left);
        lemma_depth_one(Tree::Open::<'de>(Some(stack.last().0)));
        lemma_depth_add(before + left, open);
    }
}

/// Builds the trees that a record stands for.
pub fn build<'de>(actions: Vec<Tree<'de>>) -> (trees: Vec<Element<'de>>)
    requires
        exists|forest: Seq<Green<'de>>| #[trigger] listing(forest) == settled(actions@),
    ensures
        listing(greens(trees@)) == settled(actions@),
{
    let ghost forest = choose|forest: Seq<Green<'de>>| #[trigger]
        listing(forest) == settled(actions@);
    let mut stack: Vec<(SyntaxKind, Vec<Element<'de>>)> = Vec::new();
    let mut trees: Vec<Element<'de>> = Vec::new();
    let mut next: usize = 0;
    proof {
        assert(actions@.take(0) =~= Seq::empty());
        assert(greens(trees@) =~= Seq::empty());
        assert(settled(actions@.take(0)) =~= pending(stack@) + listing(greens(trees@)));
    }
    while next < actions.len()
        invariant
            next <= actions.len(),
            listing(forest) == settled(actions@),
            settled(actions@.take(next as int)) == pending(stack@) + listing(greens(trees@)),
        decreases actions.len() - next,
    {
        let entry = actions[next];
        let ghost before = actions@.take(next as int);
        let ghost rest = actions@.skip(next + 1);
        let ghost trees0 = greens(trees@);
        let ghost stack0 = stack@;
        proof {
            assert(actions@.take(next + 1) =~= before + seq![entry]);
            lemma_settled_add(before, seq![entry]);
            lemma_settled_one(entry);
            assert(actions@ =~= actions@.take(next + 1) + rest);
            lemma_settled_add(actions@.take(next + 1), rest);
        }
        match entry {
            Tree::Open(Some(kind)) => {
                stack.push((kind, trees));
                trees = Vec::new();
                proof {
                    assert(stack@.drop_last() =~= stack0);
                    assert(greens(trees@) =~= Seq::empty());
                    assert(settled(actions@.take(next + 1)) =~= pending(stack@) + listing(
                        greens(trees@),
                    ));
                }
            },
            Tree::Open(None) => {
                proof {
                    assert(settled(actions@.take(next + 1)) =~= settled(before));
                }
            },
            Tree::Close => {
                proof {
                    // A record never closes more than it has opened.
                    let part = settled(actions@.take(next + 1));
                    assert(part =~= listing(forest).take(part.len() as int));
                    lemma_depth_listing(forest);
                    lemma_depth_pending(stack@);
                    lemma_depth_listing(trees0);
                    lemma_depth_add(pending(stack@), listing(trees0));
                    lemma_depth_one(Tree::Close::<'de>);
                    lemma_depth_add(settled(before), seq![Tree::Close]);
                    assert(stack@.len() > 0);
                }
                if let Some((kind, outer)) = stack.pop() {
                    let mut outer = outer;
                    let ghost left = greens(outer@);
                    let ghost node = Element::Node(kind, trees);
                    proof {
                        lemma_green_node(kind, trees);
                    }
                    outer.push(Element::Node(kind, trees));
                    trees = outer;
                    proof {
                        assert(stack0.drop_last() =~= stack@);
                        assert(greens(trees@) =~= left.push(node.green()));
                        lemma_listing_push(left, node.green());
                        assert(settled(actions@.take(next + 1)) =~= pending(stack@) + listing(
                            greens(trees@),
                        ));
                    }
                }
            },
            Tree::Token { tok } => {
                trees.push(Element::Token(tok));
                proof {
                    assert(greens(trees@) =~= trees0.push(Green::Token(tok)));
                    lemma_listing_push(trees0, Green::Token(tok));
                    assert(settled(actions@.take(next + 1)) =~= pending(stack@) + listing(
                        greens(trees@),
                    ));
                }
            },
            Tree::Ident { ident } => {
                trees.push(Element::Ident(ident));
                proof {
                    assert(greens(trees@) =~= trees0.push(Green::Ident(ident)));
                    lemma_listing_push(trees0, Green::Ident(ident));
                    assert(settled(actions@.take(next + 1)) =~= pending(stack@) + listing(
                        greens(trees@),
                    ));
                }
            },
        }
        next += 1;
    }
    proof {
        assert(actions@.take(next as int) =~= actions@);
        lemma_depth_listing(forest);
        lemma_depth_pending(stack@);
        lemma_depth_listing(greens(trees@));
        lemma_depth_add(pending(stack@), listing(greens(trees@)));
        assert(pending(stack@) + listing(greens(trees@)) =~= listing(greens(trees@)));
    }
    trees
}

} // verus!
