//! What each production makes of a token sequence.
//!
//! A production is a function from a [`Snapshot`] of the parser to a [`Flow`] and the snapshot
//! behind it. Snapshots hold finished trees only: a production that completes wraps whatever
//! it has added to the top level in a node, and one that does not complete leaves what it has
//! added where it is.
//!
//! Some productions go on only where fewer tokens are left than at their start. That is always
//! so: each production that is done has used a token. And productions that begin with a token
//! of a certain kind are entered only where one stands; that they report the end of the input
//! as [`Expected::Nothing`] makes them total.
use vstd::prelude::*;

use crate::ast::{Ident, OpKind};
use crate::error::{ErrorView, Expected};
use crate::interner::{symbol_of, with_name};
use crate::red_node::Green;
use crate::source_map::{place_of, Ctxt, Site};
use crate::syntax::SyntaxKind;
use crate::token::{Token, TokenKind};

verus! {

/// How a production ends.
#[derive(Clone, Copy, PartialEq, Eq, Debug, Structural)]
pub enum Flow {
    /// It is complete.
    Done,
    /// It met a token that it has no use for. The token is gone and has been reported.
    Failed,
    /// It ran out of tokens where it needed one, and has reported it.
    Eof,
}

/// A parser as contracts speak of it.
#[verifier::ext_equal]
pub struct Snapshot<'de> {
    /// The tokens that are still to come.
    pub rest: Seq<Token<'de>>,
    /// The trees so far.
    pub out: Seq<Green<'de>>,
    /// The errors so far.
    pub errs: Seq<ErrorView>,
    /// The names so far, each at its symbol.
    pub names: Seq<Seq<char>>,
    /// The place that errors about the end of the input are reported for.
    pub end: Ctxt,
}

impl<'de> Snapshot<'de> {
    /// There are no tokens left.
    pub open spec fn at_end(self) -> bool {
        self.rest.len() == 0
    }

    /// The next token is there and is of kind `kind`.
    pub open spec fn next_is(self, kind: TokenKind) -> bool {
        self.rest.len() > 0 && self.rest[0].kind == kind
    }

    /// The next token is there and its kind is in `set`.
    pub open spec fn next_in(self, set: Seq<TokenKind>) -> bool {
        self.rest.len() > 0 && set.contains(self.rest[0].kind)
    }

    /// Fewer tokens are left than in `before`.
    pub open spec fn ahead_of(self, before: Snapshot<'de>) -> bool {
        self.rest.len() < before.rest.len()
    }

    /// The next token becomes a leaf.
    pub open spec fn take(self) -> Snapshot<'de> {
        Snapshot {
            rest: self.rest.drop_first(),
            out: self.out.push(Green::Token(self.rest[0])),
            ..self
        }
    }

    /// The leaf for the next token, taken as a name.
    pub open spec fn next_ident(self) -> Ident {
        Ident {
            sym: symbol_of(self.names, self.rest[0].lexeme@) as usize,
            width: self.rest[0].lexeme.len(),
        }
    }

    /// The next token becomes a leaf that holds a name.
    pub open spec fn take_ident(self) -> Snapshot<'de> {
        Snapshot {
            rest: self.rest.drop_first(),
            out: self.out.push(Green::Ident(self.next_ident())),
            names: with_name(self.names, self.rest[0].lexeme@),
            ..self
        }
    }

    /// The next token is dropped and reported.
    pub open spec fn reject(self, expected: Expected) -> Snapshot<'de> {
        Snapshot {
            rest: self.rest.drop_first(),
            errs: self.errs.push(
                ErrorView {
                    kind: expected.kind_view(self.rest[0].lexeme@),
                    ctxt: Some(place_of(self.rest[0]).raised_in(Site::MakeErr)),
                },
            ),
            ..self
        }
    }

    /// The end of the input is reported.
    pub open spec fn miss(self, expected: Expected) -> Snapshot<'de> {
        Snapshot {
            errs: self.errs.push(
                ErrorView {
                    kind: expected.kind_view("EOF"@),
                    ctxt: Some(self.end.raised_in(Site::Peek)),
                },
            ),
            ..self
        }
    }

    /// The trees from index `from` on become the children of one node.
    pub open spec fn close(self, from: nat, kind: SyntaxKind) -> Snapshot<'de> {
        Snapshot {
            out: self.out.take(from as int).push(Green::Node(kind, self.out.skip(from as int))),
            ..self
        }
    }

    /// Tokens become leaves up to the next one whose kind is in `set`.
    pub open spec fn skip_to(self, set: Seq<TokenKind>) -> Snapshot<'de>
        decreases self.rest.len(),
    {
        if self.at_end() || self.next_in(set) {
            self
        } else {
            self.take().skip_to(set)
        }
    }

    /// Tokens up to the next one whose kind is in `set` become the children of an error node.
    pub open spec fn recover(self, set: Seq<TokenKind>) -> Snapshot<'de> {
        self.skip_to(set).close(self.out.len(), SyntaxKind::Error)
    }
}

/// Where a statement that failed is given up: the tokens that start another one.
pub open spec fn statement_boundary() -> Seq<TokenKind> {
    seq![TokenKind::Let, TokenKind::Fn, TokenKind::If, TokenKind::Impl, TokenKind::Struct]
}

/// Where a parameter list that failed is given up.
pub open spec fn signature_boundary() -> Seq<TokenKind> {
    seq![TokenKind::Arrow, TokenKind::LeftBrace, TokenKind::RightParen]
}

/// The left and the right binding power of an operator.
pub open spec fn binding_power(op: OpKind) -> (u8, u8) {
    match op {
        OpKind::Equal => (1, 2),
        OpKind::Or => (3, 4),
        OpKind::And => (5, 6),
        OpKind::Greater | OpKind::GreaterEqual | OpKind::Less | OpKind::LessEqual => (7, 8),
        OpKind::Add | OpKind::Sub => (9, 10),
        OpKind::Mult | OpKind::Div => (11, 12),
    }
}

/// A name; `expected` is reported for another token and for the end.
pub open spec fn ident<'de>(s: Snapshot<'de>, expected: Expected) -> (Flow, Snapshot<'de>) {
    if s.at_end() {
        (Flow::Eof, s.miss(expected))
    } else if s.next_is(TokenKind::Ident) {
        (Flow::Done, s.take_ident())
    } else {
        (Flow::Failed, s.reject(expected))
    }
}

/// A token of kind `kind`; `expected` is reported for another one and for the end.
pub open spec fn eat<'de>(s: Snapshot<'de>, kind: TokenKind, expected: Expected) -> (
    Flow,
    Snapshot<'de>,
) {
    if s.at_end() {
        (Flow::Eof, s.miss(expected))
    } else if s.next_is(kind) {
        (Flow::Done, s.take())
    } else {
        (Flow::Failed, s.reject(expected))
    }
}

/// The next token is reported, and the one behind it becomes an error node.
pub open spec fn consume_err<'de>(s: Snapshot<'de>, expected: Expected) -> (Flow, Snapshot<'de>) {
    if s.at_end() {
        (Flow::Eof, s.miss(expected))
    } else {
        let s1 = s.reject(expected);
        if s1.at_end() {
            (Flow::Eof, s1.miss(expected))
        } else {
            (Flow::Done, s1.take().close(s1.out.len(), SyntaxKind::Error))
        }
    }
}

/// A production that has failed is followed by a recovery.
pub open spec fn conform<'de>(result: (Flow, Snapshot<'de>), set: Seq<TokenKind>) -> (
    Flow,
    Snapshot<'de>,
) {
    if result.0 is Failed {
        (Flow::Done, result.1.recover(set))
    } else {
        result
    }
}

/// An operand, and the operators that bind at least as tightly as `min_bp`, each with its
/// right operand.
pub open spec fn expr<'de>(s: Snapshot<'de>, min_bp: u8) -> (Flow, Snapshot<'de>)
    decreases s.rest.len(), 1nat,
{
    let from = s.out.len();
    if s.at_end() {
        (Flow::Eof, s.miss(Expected::Expr))
    } else if s.next_is(TokenKind::Number) || s.next_is(TokenKind::Float) {
        operators(s.take().close(from, SyntaxKind::AtomExpr), from, min_bp)
    } else if s.next_is(TokenKind::Ident) {
        let s1 = s.take_ident();
        if s1.at_end() {
            (Flow::Eof, s1.miss(Expected::Semicolon))
        } else if s1.next_is(TokenKind::LeftParen) {
            let (flow, s2) = arguments(s1);
            if flow is Done && s2.ahead_of(s) {
                operators(s2.close(from, SyntaxKind::FnApp), from, min_bp)
            } else {
                (flow, s2)
            }
        } else {
            operators(s1.close(from, SyntaxKind::AtomExpr), from, min_bp)
        }
    } else {
        (Flow::Failed, s.reject(Expected::Operand))
    }
}

/// The rest of an expression: the tree at index `from` is its left operand.
pub open spec fn operators<'de>(s: Snapshot<'de>, from: nat, min_bp: u8) -> (Flow, Snapshot<'de>)
    decreases s.rest.len(), 0nat,
{
    if s.at_end() {
        (Flow::Done, s)
    } else {
        match OpKind::of_token(s.rest[0].kind) {
            None => (Flow::Done, s),
            Some(op) => {
                let (left, right) = binding_power(op);
                if left < min_bp {
                    (Flow::Done, s)
                } else {
                    let (flow, s1) = expr(s.take(), right);
                    if flow is Done && s1.ahead_of(s) {
                        operators(s1.close(from, SyntaxKind::BinExpr), from, min_bp)
                    } else {
                        (flow, s1)
                    }
                }
            },
        }
    }
}

/// The arguments of a call, from `(` to `)`.
pub open spec fn arguments<'de>(s: Snapshot<'de>) -> (Flow, Snapshot<'de>)
    decreases s.rest.len(), 0nat,
{
    let from = s.out.len();
    if s.at_end() {
        (Flow::Eof, s.miss(Expected::Nothing))
    } else {
        let s1 = s.take();
        if s1.at_end() {
            (Flow::Eof, s1.miss(Expected::Expr))
        } else if s1.next_is(TokenKind::RightParen) {
            (Flow::Done, s1.take().close(from, SyntaxKind::ParamList))
        } else {
            let (flow, s2) = argument_list(s1);
            if !(flow is Done) {
                (flow, s2)
            } else {
                (Flow::Done, s2.take().close(from, SyntaxKind::ParamList))
            }
        }
    }
}

/// One or more arguments, up to a `)`.
pub open spec fn argument_list<'de>(s: Snapshot<'de>) -> (Flow, Snapshot<'de>)
    decreases s.rest.len(), 2nat,
{
    let set = seq![TokenKind::Semicolon];
    let (flow, s1) = conform(expr(s, 0), set);
    if !(flow is Done) {
        (flow, s1)
    } else if s1.at_end() {
        (Flow::Eof, s1.miss(Expected::CommaOrRParen))
    } else if s1.next_is(TokenKind::RightParen) {
        (Flow::Done, s1)
    } else if s1.next_is(TokenKind::Comma) {
        let s2 = s1.take();
        if s2.ahead_of(s) {
            argument_list(s2)
        } else {
            (flow, s2)
        }
    } else {
        let s2 = s1.recover(set);
        if s2.at_end() {
            (Flow::Eof, s2.miss(Expected::CommaOrRParen))
        } else {
            let s3 = s2.reject(Expected::CommaOrRParen);
            if s3.ahead_of(s) {
                argument_list(s3)
            } else {
                (flow, s3)
            }
        }
    }
}

/// `name = value`, with a `;` behind it if `semi` is set.
pub open spec fn assignment<'de>(s: Snapshot<'de>, semi: bool) -> (Flow, Snapshot<'de>) {
    let (flow, s1) = ident(s, Expected::Ident);
    if !(flow is Done) {
        (flow, s1)
    } else {
        let (flow, s2) = eat(s1, TokenKind::Equal, Expected::Equal);
        if !(flow is Done) {
            (flow, s2)
        } else {
            let (flow, s3) = expr(s2, 0);
            if !(flow is Done) {
                (flow, s3)
            } else {
                let (flow, s4) = if semi {
                    eat(s3, TokenKind::Semicolon, Expected::Semicolon)
                } else {
                    (Flow::Done, s3)
                };
                if !(flow is Done) {
                    (flow, s4)
                } else {
                    (Flow::Done, s4.close(s.out.len(), SyntaxKind::Assignment))
                }
            }
        }
    }
}

/// `let name;` or `let name = value;`. A type behind the name is read, and then reported.
pub open spec fn declaration<'de>(s: Snapshot<'de>) -> (Flow, Snapshot<'de>) {
    if s.at_end() {
        (Flow::Eof, s.miss(Expected::Nothing))
    } else {
        let (flow, s1) = ident(s.take(), Expected::Ident);
        if !(flow is Done) {
            (flow, s1)
        } else if s1.at_end() {
            (Flow::Eof, s1.miss(Expected::SemicolonOrEqual))
        } else if s1.next_is(TokenKind::Colon) {
            let (flow, s2) = ident(s1.take(), Expected::Ty);
            if !(flow is Done) {
                (flow, s2)
            } else if s2.at_end() {
                (Flow::Eof, s2.miss(Expected::SemicolonOrEqual))
            } else {
                (Flow::Failed, s2.reject(Expected::SemicolonOrEqual))
            }
        } else if s1.next_is(TokenKind::Semicolon) {
            (Flow::Done, s1.take().close(s.out.len(), SyntaxKind::Declaration))
        } else if s1.next_is(TokenKind::Equal) {
            let (flow, s2) = expr(s1.take(), 0);
            if !(flow is Done) {
                (flow, s2)
            } else {
                let (flow, s3) = eat(s2, TokenKind::Semicolon, Expected::Semicolon);
                if !(flow is Done) {
                    (flow, s3)
                } else {
                    (Flow::Done, s3.close(s.out.len(), SyntaxKind::Declaration))
                }
            }
        } else {
            (Flow::Failed, s1.reject(Expected::SemicolonOrEqual))
        }
    }
}

/// `name: type`, with a `,` behind it if there is one. What is missing is reported, and the
/// parameter is complete all the same.
pub open spec fn param<'de>(s: Snapshot<'de>) -> (Flow, Snapshot<'de>) {
    let (flow, s0) = ident(s, Expected::Nothing);
    if !(flow is Done) {
        (flow, s0)
    } else {
        let (flow, s1) = eat(s0, TokenKind::Colon, Expected::TyAnnotation);
        if flow is Eof {
            (flow, s1)
        } else {
            let (flow, s2) = ident(s1, Expected::Ty);
            if flow is Eof {
                (flow, s2)
            } else if s2.at_end() {
                (Flow::Eof, s2.miss(Expected::RParen))
            } else {
                let s3 = if s2.next_is(TokenKind::Comma) {
                    s2.take()
                } else {
                    s2
                };
                (Flow::Done, s3.close(s.out.len(), SyntaxKind::Param))
            }
        }
    }
}

/// The fields of a struct, up to a `}`. Where something else stands than a field, it is
/// reported, and another field is attempted behind it.
pub open spec fn fields<'de>(s: Snapshot<'de>) -> (Flow, Snapshot<'de>)
    decreases s.rest.len(),
{
    if s.at_end() {
        (Flow::Eof, s.miss(Expected::IdentOrRParen))
    } else if s.next_is(TokenKind::RightBrace) {
        (Flow::Done, s)
    } else {
        let (flow, s1) = if s.next_is(TokenKind::Ident) {
            param(s)
        } else {
            consume_err(s, Expected::Param)
        };
        if !(flow is Done) {
            (flow, s1)
        } else {
            fields(s1)
        }
    }
}

/// `struct name { fields }`
pub open spec fn structure<'de>(s: Snapshot<'de>) -> (Flow, Snapshot<'de>) {
    if s.at_end() {
        (Flow::Eof, s.miss(Expected::Nothing))
    } else {
        let (flow, s1) = ident(s.take(), Expected::Ident);
        if !(flow is Done) {
            (flow, s1)
        } else {
            let (flow, s2) = eat(s1, TokenKind::LeftBrace, Expected::LBrace);
            if !(flow is Done) {
                (flow, s2)
            } else if s2.at_end() {
                (Flow::Eof, s2.miss(Expected::CommaOrRBrace))
            } else {
                let (flow, s3) = fields(s2);
                if !(flow is Done) {
                    (flow, s3)
                } else {
                    (Flow::Done, s3.take().close(s.out.len(), SyntaxKind::Struct))
                }
            }
        }
    }
}

/// The parameters of a function, up to a `)`; or, where something else stands, up to where the
/// list is given up.
pub open spec fn parameters<'de>(s: Snapshot<'de>) -> (Flow, Snapshot<'de>)
    decreases s.rest.len(),
{
    if s.at_end() {
        (Flow::Eof, s.miss(Expected::IdentOrRParen))
    } else if s.next_is(TokenKind::RightParen) {
        (Flow::Done, s)
    } else if s.next_is(TokenKind::Ident) {
        let (flow, s1) = param(s);
        if !(flow is Done) {
            (flow, s1)
        } else {
            parameters(s1)
        }
    } else {
        (Flow::Done, s.reject(Expected::Param).recover(signature_boundary()))
    }
}

/// What stands between the parameters of a function and its body: the token that ends the
/// list, and `-> type` if there is a type.
pub open spec fn signature_end<'de>(s: Snapshot<'de>) -> (Flow, Snapshot<'de>) {
    if s.at_end() {
        (Flow::Eof, s.miss(Expected::RParen))
    } else {
        let s1 = s.take();
        if s1.at_end() {
            (Flow::Eof, s1.miss(Expected::LBraceOrArrow))
        } else if s1.next_is(TokenKind::Arrow) {
            let (flow, s2) = ident(s1.take(), Expected::Ident);
            if flow is Eof {
                (flow, s2)
            } else {
                (Flow::Done, s2)
            }
        } else if s1.next_is(TokenKind::LeftBrace) {
            (Flow::Done, s1)
        } else {
            (Flow::Done, s1.reject(Expected::LBraceOrArrow).recover(seq![TokenKind::LeftBrace]))
        }
    }
}

/// A function without its body: from `fn` to the `{` of the body.
pub open spec fn signature<'de>(s: Snapshot<'de>) -> (Flow, Snapshot<'de>) {
    if s.at_end() {
        (Flow::Eof, s.miss(Expected::Nothing))
    } else {
        let (flow, s1) = ident(s.take(), Expected::Ident);
        if !(flow is Done) {
            (flow, s1)
        } else {
            let (flow, s2) = eat(s1, TokenKind::LeftParen, Expected::LParen);
            if !(flow is Done) {
                (flow, s2)
            } else {
                let (flow, s3) = parameters(s2);
                if !(flow is Done) {
                    (flow, s3)
                } else {
                    signature_end(s3)
                }
            }
        }
    }
}

/// An `if` without its branches: from `if` to the `)`.
pub open spec fn if_head<'de>(s: Snapshot<'de>) -> (Flow, Snapshot<'de>) {
    if s.at_end() {
        (Flow::Eof, s.miss(Expected::Nothing))
    } else {
        let (flow, s1) = eat(s.take(), TokenKind::LeftParen, Expected::LParen);
        if !(flow is Done) {
            (flow, s1)
        } else {
            let (flow, s2) = expr(s1, 0);
            if !(flow is Done) {
                (flow, s2)
            } else {
                eat(s2, TokenKind::RightParen, Expected::RParen)
            }
        }
    }
}

/// The index of a `for` loop: `name = value;`, with a type behind the name if there is one.
pub open spec fn for_index<'de>(s: Snapshot<'de>) -> (Flow, Snapshot<'de>) {
    let (flow, s1) = ident(s, Expected::Ident);
    if !(flow is Done) {
        (flow, s1)
    } else {
        let (flow, s2) = if s1.next_is(TokenKind::Colon) {
            ident(s1.take(), Expected::Ty)
        } else {
            (Flow::Done, s1)
        };
        if !(flow is Done) {
            (flow, s2)
        } else {
            let (flow, s3) = eat(s2, TokenKind::Equal, Expected::InitialisedIdx);
            if !(flow is Done) {
                (flow, s3)
            } else {
                let (flow, s4) = expr(s3, 0);
                if !(flow is Done) {
                    (flow, s4)
                } else {
                    eat(s4, TokenKind::Semicolon, Expected::Semicolon)
                }
            }
        }
    }
}

/// A `for` loop without its body: from `for` to the `)`.
pub open spec fn for_head<'de>(s: Snapshot<'de>) -> (Flow, Snapshot<'de>) {
    if s.at_end() {
        (Flow::Eof, s.miss(Expected::Nothing))
    } else {
        let (flow, s1) = eat(s.take(), TokenKind::LeftParen, Expected::LParen);
        if !(flow is Done) {
            (flow, s1)
        } else {
            let (flow, s2) = for_index(s1);
            if !(flow is Done) {
                (flow, s2)
            } else {
                let (flow, s3) = expr(s2, 0);
                if !(flow is Done) {
                    (flow, s3)
                } else {
                    let (flow, s4) = eat(s3, TokenKind::Semicolon, Expected::Semicolon);
                    if !(flow is Done) {
                        (flow, s4)
                    } else {
                        let (flow, s5) = assignment(s4, false);
                        if !(flow is Done) {
                            (flow, s5)
                        } else {
                            eat(s5, TokenKind::RightParen, Expected::RParen)
                        }
                    }
                }
            }
        }
    }
}

/// A statement. One that fails is followed by a recovery, and is then done.
pub open spec fn stmt<'de>(s: Snapshot<'de>) -> (Flow, Snapshot<'de>)
    decreases s.rest.len(), 3nat,
{
    if s.at_end() {
        (Flow::Eof, s.miss(Expected::FnOrLet))
    } else {
        conform(
            match s.rest[0].kind {
                TokenKind::Let => declaration(s),
                TokenKind::Fn => fn_decl(s),
                TokenKind::For => for_loop(s),
                TokenKind::If => if_stmt(s),
                TokenKind::Impl => impl_block(s),
                TokenKind::Struct => structure(s),
                _ => assignment(s, true),
            },
            statement_boundary(),
        )
    }
}

/// Statements, up to a `}`.
pub open spec fn stmts<'de>(s: Snapshot<'de>) -> (Flow, Snapshot<'de>)
    decreases s.rest.len(), 4nat,
{
    if s.at_end() {
        (Flow::Eof, s.miss(Expected::RBrace))
    } else if s.next_is(TokenKind::RightBrace) {
        (Flow::Done, s)
    } else {
        let (flow, s1) = stmt(s);
        if flow is Done && s1.ahead_of(s) {
            stmts(s1)
        } else {
            (flow, s1)
        }
    }
}

/// `{ statements }`
pub open spec fn block<'de>(s: Snapshot<'de>) -> (Flow, Snapshot<'de>)
    decreases s.rest.len(), 0nat,
{
    let (flow, s1) = eat(s, TokenKind::LeftBrace, Expected::LParen);
    if !(flow is Done) {
        (flow, s1)
    } else if s1.at_end() {
        (Flow::Eof, s1.miss(Expected::LBrace))
    } else {
        let (flow, s2) = stmts(s1);
        if !(flow is Done) {
            (flow, s2)
        } else {
            (Flow::Done, s2.take().close(s.out.len(), SyntaxKind::Block))
        }
    }
}

/// A function declaration.
pub open spec fn fn_decl<'de>(s: Snapshot<'de>) -> (Flow, Snapshot<'de>)
    decreases s.rest.len(), 2nat,
{
    let (flow, s1) = signature(s);
    if flow is Done && s1.ahead_of(s) {
        let (flow, s2) = block(s1);
        if !(flow is Done) {
            (flow, s2)
        } else {
            (Flow::Done, s2.close(s.out.len(), SyntaxKind::FnDecl))
        }
    } else {
        (flow, s1)
    }
}

/// `if (condition) block`, with `else` and another `if` or a block behind it if there is one.
pub open spec fn if_stmt<'de>(s: Snapshot<'de>) -> (Flow, Snapshot<'de>)
    decreases s.rest.len(), 1nat,
{
    let (flow, s1) = if_head(s);
    if flow is Done && s1.ahead_of(s) {
        let (flow, s2) = block(s1);
        if flow is Done && s2.next_is(TokenKind::Else) && s2.ahead_of(s) {
            let s3 = s2.take();
            let (flow, s4) = if s3.next_is(TokenKind::If) {
                if_stmt(s3)
            } else {
                block(s3)
            };
            if !(flow is Done) {
                (flow, s4)
            } else {
                (Flow::Done, s4.close(s.out.len(), SyntaxKind::If))
            }
        } else if !(flow is Done) {
            (flow, s2)
        } else {
            (Flow::Done, s2.close(s.out.len(), SyntaxKind::If))
        }
    } else {
        (flow, s1)
    }
}

/// `for (index; condition; assignment) block`. It makes no node of its own.
pub open spec fn for_loop<'de>(s: Snapshot<'de>) -> (Flow, Snapshot<'de>)
    decreases s.rest.len(), 1nat,
{
    let (flow, s1) = for_head(s);
    if flow is Done && s1.ahead_of(s) {
        block(s1)
    } else {
        (flow, s1)
    }
}

/// The functions of an `impl` block, up to a `}`. One that fails is followed by a recovery.
pub open spec fn methods<'de>(s: Snapshot<'de>) -> (Flow, Snapshot<'de>)
    decreases s.rest.len(), 3nat,
{
    if s.at_end() {
        (Flow::Eof, s.miss(Expected::RBrace))
    } else if s.next_is(TokenKind::RightBrace) {
        (Flow::Done, s)
    } else {
        let (flow, s1) = conform(fn_decl(s), seq![TokenKind::Fn]);
        if flow is Done && s1.ahead_of(s) {
            methods(s1)
        } else {
            (flow, s1)
        }
    }
}

/// `impl name { functions }`
pub open spec fn impl_block<'de>(s: Snapshot<'de>) -> (Flow, Snapshot<'de>)
    decreases s.rest.len(), 1nat,
{
    if s.at_end() {
        (Flow::Eof, s.miss(Expected::Nothing))
    } else {
        let (flow, s1) = ident(s.take(), Expected::ImplTarget);
        if !(flow is Done) {
            (flow, s1)
        } else {
            let (flow, s2) = eat(s1, TokenKind::LeftBrace, Expected::LBrace);
            if !(flow is Done) {
                (flow, s2)
            } else {
                let (flow, s3) = methods(s2);
                if !(flow is Done) {
                    (flow, s3)
                } else {
                    (Flow::Done, s3.take().close(s.out.len(), SyntaxKind::Impl))
                }
            }
        }
    }
}

/// Statements, up to the end of the input.
pub open spec fn program<'de>(s: Snapshot<'de>) -> (Flow, Snapshot<'de>)
    decreases s.rest.len(),
{
    if s.at_end() {
        (Flow::Done, s)
    } else {
        let (flow, s1) = stmt(s);
        if flow is Done && s1.ahead_of(s) {
            program(s1)
        } else {
            (flow, s1)
        }
    }
}

} // verus!
