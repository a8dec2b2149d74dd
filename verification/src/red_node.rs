//! Syntax trees.
use vstd::prelude::*;

use crate::ast::Ident;
use crate::syntax::SyntaxKind;
use crate::token::Token;

verus! {

/// A tree as contracts speak of it: a leaf that holds a token or a name, or a node with its
/// children in order.
pub enum Green<'de> {
    Token(Token<'de>),
    Ident(Ident),
    Node(SyntaxKind, Seq<Green<'de>>),
}

/// A tree.
#[derive(Debug)]
pub enum Element<'de> {
    Token(Token<'de>),
    Ident(Ident),
    Node(SyntaxKind, Vec<Element<'de>>),
}

impl<'de> Element<'de> {
    /// The tree as a mathematical value.
    pub open spec fn green(self) -> Green<'de>
        decreases self,
    {
        match self {
            Element::Token(tok) => Green::Token(tok),
            Element::Ident(ident) => Green::Ident(ident),
            Element::Node(kind, children) => Green::Node(
                kind,
                Seq::new(
                    children@.len(),
                    |i: int|
                        if 0 <= i < children@.len() {
                            children@[i].green()
                        } else {
                            arbitrary()
                        },
                ),
            ),
        }
    }
}

/// The trees of a list, in order.
pub open spec fn greens<'de>(elements: Seq<Element<'de>>) -> Seq<Green<'de>> {
    Seq::new(elements.len(), |i: int| elements[i].green())
}

/// A node's children are the trees of its list.
pub proof fn lemma_green_node<'de>(kind: SyntaxKind, children: Vec<Element<'de>>)
    ensures
        Element::Node(kind, children).green() == Green::Node(kind, greens(children@)),
{
    if let Green::Node(_, inner) = Element::Node(kind, children).green() {
        assert(inner =~= greens(children@));
    }
}

/// A parsed source: its top-level trees, in order.
#[derive(Debug)]
pub struct SyntaxTree<'de> {
    pub children: Vec<Element<'de>>,
}

impl<'de> View for SyntaxTree<'de> {
    type V = Seq<Green<'de>>;

    open spec fn view(&self) -> Seq<Green<'de>> {
        greens(self.children@)
    }
}

impl<'de> SyntaxTree<'de> {
    /// The tree with the given top level.
    pub fn new_root(children: Vec<Element<'de>>) -> (tree: SyntaxTree<'de>)
        ensures
            tree@ == greens(children@),
    {
        SyntaxTree { children }
    }
}

} // verus!
