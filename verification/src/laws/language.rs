//! The language, as a set of trees.
use vstd::prelude::*;

use crate::ast::Ident;
use crate::grammar::Snapshot;
use crate::interner::{symbol_of, with_name};
use crate::red_node::Green;
use crate::syntax::SyntaxKind;
use crate::token::{Token, TokenKind};

verus! {

/// A tree over tokens: as [`Green`], but with the token of a name in place of its symbol.
pub enum Source<'de> {
    Token(Token<'de>),
    Name(Token<'de>),
    Node(SyntaxKind, Seq<Source<'de>>),
}

/// The tokens of a tree, in order.
pub open spec fn text_of<'de>(tree: Source<'de>) -> Seq<Token<'de>>
    decreases tree,
{
    match tree {
        Source::Token(tok) => seq![tok],
        Source::Name(tok) => seq![tok],
        Source::Node(_, children) => text(children),
    }
}

/// The tokens of a list of trees, in order.
pub open spec fn text<'de>(forest: Seq<Source<'de>>) -> Seq<Token<'de>>
    decreases forest,
{
    if forest.len() == 0 {
        Seq::empty()
    } else {
        text(forest.drop_last()) + text_of(forest.last())
    }
}

/// The tree with symbols for its names, given the names before it; and the names behind it.
pub open spec fn resolve_of<'de>(tree: Source<'de>, names: Seq<Seq<char>>) -> (
    Green<'de>,
    Seq<Seq<char>>,
)
    decreases tree,
{
    match tree {
        Source::Token(tok) => (Green::Token(tok), names),
        Source::Name(tok) => (
            Green::Ident(
                Ident {
                    sym: symbol_of(names, tok.lexeme@) as usize,
                    width: tok.lexeme.len(),
                },
            ),
            with_name(names, tok.lexeme@),
        ),
        Source::Node(kind, children) => {
            let (inside, after) = resolve(children, names);
            (Green::Node(kind, inside), after)
        },
    }
}

/// The trees with symbols for their names, given the names before them; and the names behind.
pub open spec fn resolve<'de>(forest: Seq<Source<'de>>, names: Seq<Seq<char>>) -> (
    Seq<Green<'de>>,
    Seq<Seq<char>>,
)
    decreases forest,
{
    if forest.len() == 0 {
        (Seq::empty(), names)
    } else {
        let (init, between) = resolve(forest.drop_last(), names);
        let (last, after) = resolve_of(forest.last(), between);
        (init.push(last), after)
    }
}

/// A token of kind `kind`.
pub open spec fn is_token<'de>(tree: Source<'de>, kind: TokenKind) -> bool {
    tree matches Source::Token(tok) && tok.kind == kind
}

/// A name.
pub open spec fn is_name<'de>(tree: Source<'de>) -> bool {
    tree matches Source::Name(tok) && tok.kind == TokenKind::Ident
}

/// The operators by how tightly they bind: `==` the least, `*` and `/` the most. No other token
/// is an operator.
pub open spec fn rank(kind: TokenKind) -> Option<nat> {
    match kind {
        TokenKind::EqualEqual => Some(0),
        TokenKind::Or => Some(1),
        TokenKind::And => Some(2),
        TokenKind::Greater
        | TokenKind::GreaterEqual
        | TokenKind::Less
        | TokenKind::LessEqual => Some(3),
        TokenKind::Plus | TokenKind::Minus => Some(4),
        TokenKind::Star | TokenKind::Slash => Some(5),
        _ => None,
    }
}

/// An expression whose operators are at least of rank `min`:
///
/// - a literal, or a name;
/// - a call;
/// - an operation, with the operators on its left at least of its own rank, and those on its
///   right of a higher one.
pub open spec fn is_expr<'de>(tree: Source<'de>, min: nat) -> bool
    decreases tree,
{
    match tree {
        Source::Node(SyntaxKind::AtomExpr, c) => c.len() == 1 && (is_token(c[0], TokenKind::Number)
            || is_token(c[0], TokenKind::Float) || is_name(c[0])),
        Source::Node(SyntaxKind::FnApp, c) => c.len() == 2 && is_name(c[0]) && is_arguments(c[1]),
        Source::Node(SyntaxKind::BinExpr, c) => {
            &&& c.len() == 3
            &&& c[1] matches Source::Token(tok) && rank(tok.kind) matches Some(r) && {
                &&& r >= min
                &&& is_expr(c[0], r)
                &&& is_expr(c[2], r + 1)
            }
        },
        _ => false,
    }
}

/// `()`, or `(`, expressions with commas between them, and `)`.
pub open spec fn is_arguments<'de>(tree: Source<'de>) -> bool
    decreases tree,
{
    match tree {
        Source::Node(SyntaxKind::ParamList, c) => {
            &&& c.len() >= 2
            &&& is_token(c[0], TokenKind::LeftParen)
            &&& is_token(c[c.len() - 1], TokenKind::RightParen)
            &&& c.len() == 2 || c.len() % 2 == 1
            &&& forall|i: int|
                0 < i < c.len() - 1 ==> if i % 2 == 1 {
                    is_expr(#[trigger] c[i], 0)
                } else {
                    is_token(c[i], TokenKind::Comma)
                }
        },
        _ => false,
    }
}

/// `name = value`, with a `;` behind it if `semi` is set.
pub open spec fn is_assignment<'de>(tree: Source<'de>, semi: bool) -> bool {
    match tree {
        Source::Node(SyntaxKind::Assignment, c) => {
            &&& c.len() == if semi {
                4int
            } else {
                3int
            }
            &&& is_name(c[0])
            &&& is_token(c[1], TokenKind::Equal)
            &&& is_expr(c[2], 0)
            &&& semi ==> is_token(c[3], TokenKind::Semicolon)
        },
        _ => false,
    }
}

/// `let name;` or `let name = value;`
pub open spec fn is_declaration<'de>(tree: Source<'de>) -> bool {
    match tree {
        Source::Node(SyntaxKind::Declaration, c) => {
            &&& c.len() == 3 || c.len() == 5
            &&& is_token(c[0], TokenKind::Let)
            &&& is_name(c[1])
            &&& c.len() == 3 ==> is_token(c[2], TokenKind::Semicolon)
            &&& c.len() == 5 ==> is_token(c[2], TokenKind::Equal) && is_expr(c[3], 0) && is_token(
                c[4],
                TokenKind::Semicolon,
            )
        },
        _ => false,
    }
}

/// `name: type`, with a `,` behind it if there is one.
pub open spec fn is_param<'de>(tree: Source<'de>) -> bool {
    match tree {
        Source::Node(SyntaxKind::Param, c) => {
            &&& c.len() == 3 || c.len() == 4
            &&& is_name(c[0])
            &&& is_token(c[1], TokenKind::Colon)
            &&& is_name(c[2])
            &&& c.len() == 4 ==> is_token(c[3], TokenKind::Comma)
        },
        _ => false,
    }
}

/// `struct name { fields }`
pub open spec fn is_structure<'de>(tree: Source<'de>) -> bool {
    match tree {
        Source::Node(SyntaxKind::Struct, c) => {
            &&& c.len() >= 4
            &&& is_token(c[0], TokenKind::Struct)
            &&& is_name(c[1])
            &&& is_token(c[2], TokenKind::LeftBrace)
            &&& forall|i: int| 3 <= i < c.len() - 1 ==> is_param(#[trigger] c[i])
            &&& is_token(c[c.len() - 1], TokenKind::RightBrace)
        },
        _ => false,
    }
}

/// How many parts of a function stand between its `(` and its `)`.
pub open spec fn arity<'de>(c: Seq<Source<'de>>) -> int {
    if c.len() >= 7 && is_token(c[c.len() - 3], TokenKind::Arrow) {
        c.len() - 7
    } else {
        c.len() - 5
    }
}

/// From the name of a function to the token in front of its body: `name ( parameters )`, and
/// `-> type` if there is a type.
pub open spec fn is_signature<'de>(c: Seq<Source<'de>>) -> bool {
    let n = arity(c);
    &&& n >= 0
    &&& is_name(c[1])
    &&& is_token(c[2], TokenKind::LeftParen)
    &&& forall|i: int| 3 <= i < n + 3 ==> is_param(#[trigger] c[i])
    &&& is_token(c[n + 3], TokenKind::RightParen)
    &&& c.len() == n + 7 ==> is_token(c[n + 4], TokenKind::Arrow) && is_name(c[n + 5])
}

/// A function declaration. In front of its name stands `fn`; inside an `impl` block, where
/// nothing but a function can stand, it may be any other token that does not end the block.
pub open spec fn is_fn_decl<'de>(tree: Source<'de>, inside_impl: bool) -> bool
    decreases tree, 0nat,
{
    match tree {
        Source::Node(SyntaxKind::FnDecl, c) => {
            &&& is_signature(c)
            &&& c[0] matches Source::Token(tok) && if inside_impl {
                tok.kind != TokenKind::RightBrace
            } else {
                tok.kind == TokenKind::Fn
            }
            &&& is_block(c[c.len() - 1])
        },
        _ => false,
    }
}

/// `{ statements }`
pub open spec fn is_block<'de>(tree: Source<'de>) -> bool
    decreases tree, 0nat,
{
    match tree {
        Source::Node(SyntaxKind::Block, c) => {
            &&& c.len() >= 2
            &&& is_token(c[0], TokenKind::LeftBrace)
            &&& is_token(c[c.len() - 1], TokenKind::RightBrace)
            &&& is_stmts(c, 1, c.len() - 1)
        },
        _ => false,
    }
}

/// `if (condition) block`, with `else` and another `if` or a block behind it if there is one.
pub open spec fn is_if<'de>(tree: Source<'de>) -> bool
    decreases tree, 0nat,
{
    match tree {
        Source::Node(SyntaxKind::If, c) => {
            &&& c.len() == 5 || c.len() == 7
            &&& is_token(c[0], TokenKind::If)
            &&& is_token(c[1], TokenKind::LeftParen)
            &&& is_expr(c[2], 0)
            &&& is_token(c[3], TokenKind::RightParen)
            &&& is_block(c[4])
            &&& c.len() == 7 ==> is_token(c[5], TokenKind::Else) && (is_if(c[6]) || is_block(c[6]))
        },
        _ => false,
    }
}

/// `impl name { functions }`
pub open spec fn is_impl<'de>(tree: Source<'de>) -> bool
    decreases tree, 0nat,
{
    match tree {
        Source::Node(SyntaxKind::Impl, c) => {
            &&& c.len() >= 4
            &&& is_token(c[0], TokenKind::Impl)
            &&& is_name(c[1])
            &&& is_token(c[2], TokenKind::LeftBrace)
            &&& forall|i: int| 3 <= i < c.len() - 1 ==> is_fn_decl(#[trigger] c[i], true)
            &&& is_token(c[c.len() - 1], TokenKind::RightBrace)
        },
        _ => false,
    }
}

/// A statement that is a node.
pub open spec fn is_stmt<'de>(tree: Source<'de>) -> bool
    decreases tree, 1nat,
{
    ||| is_declaration(tree)
    ||| is_assignment(tree, true)
    ||| is_structure(tree)
    ||| is_fn_decl(tree, false)
    ||| is_if(tree)
    ||| is_impl(tree)
}

/// The parts of a `for` loop, from its `for` at index `at` on, which stand side by side:
/// `for (name = value; condition; assignment) block`, with a type behind the name if `typed`
/// is set.
pub open spec fn is_for<'de>(c: Seq<Source<'de>>, at: int, typed: bool) -> bool
    recommends
        0 <= at,
        at + for_len(typed) <= c.len(),
    decreases c, 0nat,
    when 0 <= at && at + for_len(typed) <= c.len()
{
    let eq = if typed {
        at + 5
    } else {
        at + 3
    };
    &&& is_token(c[at], TokenKind::For)
    &&& is_token(c[at + 1], TokenKind::LeftParen)
    &&& is_name(c[at + 2])
    &&& typed ==> is_token(c[at + 3], TokenKind::Colon) && is_name(c[at + 4])
    &&& is_token(c[eq], TokenKind::Equal)
    &&& is_expr(c[eq + 1], 0)
    &&& is_token(c[eq + 2], TokenKind::Semicolon)
    &&& is_expr(c[eq + 3], 0)
    &&& is_token(c[eq + 4], TokenKind::Semicolon)
    &&& is_assignment(c[eq + 5], false)
    &&& is_token(c[eq + 6], TokenKind::RightParen)
    &&& is_block(c[eq + 7])
}

/// How many parts a `for` loop has.
pub open spec fn for_len(typed: bool) -> int {
    if typed {
        13
    } else {
        11
    }
}

/// From index `at` to index `end` stand statements.
pub open spec fn is_stmts<'de>(c: Seq<Source<'de>>, at: int, end: int) -> bool
    decreases c, 1nat, end - at,
{
    if !(0 <= at < end <= c.len()) {
        at == end
    } else {
        ||| is_stmt(c[at]) && is_stmts(c, at + 1, end)
        ||| at + for_len(false) <= end && is_for(c, at, false) && is_stmts(
            c,
            at + for_len(false),
            end,
        )
        ||| at + for_len(true) <= end && is_for(c, at, true) && is_stmts(
            c,
            at + for_len(true),
            end,
        )
    }
}

/// A program: statements.
pub open spec fn is_program<'de>(forest: Seq<Source<'de>>) -> bool {
    is_stmts(forest, 0, forest.len() as int)
}

/// `s` once `forest` has been read and added, with `rest` still to come.
pub open spec fn read<'de>(
    s: Snapshot<'de>,
    forest: Seq<Source<'de>>,
    rest: Seq<Token<'de>>,
) -> Snapshot<'de> {
    Snapshot {
        rest,
        out: s.out + resolve(forest, s.names).0,
        names: resolve(forest, s.names).1,
        ..s
    }
}

} // verus!
