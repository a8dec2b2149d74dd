//! The kinds of interior nodes of a syntax tree.
use vstd::prelude::*;

verus! {

/// What an interior node of the tree stands for.
#[derive(Clone, Copy, PartialEq, Eq, Debug, Structural)]
pub enum SyntaxKind {
    /// An `impl` block.
    Impl,
    /// A `struct` definition.
    Struct,
    /// An `if` statement, with its `else` branch if there is one.
    If,
    /// A parameter or a field: a name, a colon and a type.
    Param,
    /// A function declaration.
    FnDecl,
    /// A braced list of statements.
    Block,
    /// An assignment.
    Assignment,
    /// A `let` declaration.
    Declaration,
    /// The parenthesised arguments of a call.
    ParamList,
    /// A literal or a name.
    AtomExpr,
    /// A call.
    FnApp,
    /// A binary operation.
    BinExpr,
    /// Tokens that were skipped to recover from an error.
    Error,
}

} // verus!
