//! Expressions.
use vstd::prelude::*;

use crate::ast::OpKind;
use crate::error::Expected;
use crate::grammar::{self, Flow};
use crate::syntax::SyntaxKind;
use crate::token::TokenKind;

use super::Parser;

verus! {

broadcast use super::state::group_growth;

impl<'de> Parser<'de> {
    /// Parse the arguments of a call.
    fn parse_params(&mut self) -> (flow: Flow)
        requires
            old(self).inv(),
            !old(self)@.at_end(),
        ensures
            final(self).inv(),
            *final(final(self).interner) == *final(old(self).interner),
            final(self).grew(old(self)),
            (flow, final(self)@) == grammar::arguments(old(self)@),
            final(self)@.rest.len() <= old(self)@.rest.len(),
        decreases old(self)@.rest.len(), 0nat,
    {
        let t = self.start();
        self.consume();  // l_paren
        match self.peek(Expected::Expr) {
            None => {
                return Flow::Eof;
            },
            Some(next) => {
                if next.kind != TokenKind::RightParen {
                    let flow = self.argument_list();
                    if flow != Flow::Done {
                        return flow;
                    }
                }
            },
        }
        self.consume();  // r_paren
        t.end(SyntaxKind::ParamList, self);
        Flow::Done
    }

    /// Parse arguments up to a closing parenthesis, recovering from those that are none.
    fn argument_list(&mut self) -> (flow: Flow)
        requires
            old(self).inv(),
            !old(self)@.at_end(),
        ensures
            final(self).inv(),
            *final(final(self).interner) == *final(old(self).interner),
            final(self).grew(old(self)),
            (flow, final(self)@) == grammar::argument_list(old(self)@),
            final(self)@.rest.len() <= old(self)@.rest.len(),
            flow is Done ==> final(self)@.next_is(TokenKind::RightParen),
        decreases old(self)@.rest.len(), 3nat,
    {
        loop
            invariant
                self.inv(),
                *final(self.interner) == *final(old(self).interner),
                self.grew(old(self)),
                grammar::argument_list(self@) == grammar::argument_list(old(self)@),
                self@.rest.len() <= old(self)@.rest.len(),
            decreases self@.rest.len(),
        {
            let set = [TokenKind::Semicolon];
            assert(set@ =~= seq![TokenKind::Semicolon]);
            let flow = self.expression();
            let flow = self.conform(flow, &set);
            if flow != Flow::Done {
                return flow;
            }
            match self.peek(Expected::CommaOrRParen) {
                None => {
                    return Flow::Eof;
                },
                Some(next) => match next.kind {
                    TokenKind::RightParen => {
                        return Flow::Done;
                    },
                    TokenKind::Comma => {
                        self.consume();
                    },
                    _ => {
                        self.recover(&set);
                        if self.peek(Expected::CommaOrRParen).is_none() {
                            return Flow::Eof;
                        }
                        self.reject(Expected::CommaOrRParen);
                    },
                },
            }
        }
    }

    /// Extract an expression, handling any errors that were raised
    pub(super) fn expression(&mut self) -> (flow: Flow)
        requires
            old(self).inv(),
        ensures
            final(self).inv(),
            *final(final(self).interner) == *final(old(self).interner),
            final(self).grew(old(self)),
            (flow, final(self)@) == grammar::expr(old(self)@, 0),
            final(self)@.rest.len() <= old(self)@.rest.len(),
            flow is Done || flow is Failed ==> final(self)@.ahead_of(old(self)@),
        decreases old(self)@.rest.len(), 2nat,
    {
        self.expr(0)
    }

    /// An implementation of Pratt Parsing to deal with mathematical operations. All calls to this
    /// function from outside of itself must have `min_bp` = 0.
    fn expr(&mut self, min_bp: u8) -> (flow: Flow)
        requires
            old(self).inv(),
        ensures
            final(self).inv(),
            *final(final(self).interner) == *final(old(self).interner),
            final(self).grew(old(self)),
            (flow, final(self)@) == grammar::expr(old(self)@, min_bp),
            final(self)@.rest.len() <= old(self)@.rest.len(),
            flow is Done || flow is Failed ==> final(self)@.ahead_of(old(self)@),
        decreases old(self)@.rest.len(), 1nat,
    {
        let t = self.start();
        let next = match self.peek(Expected::Expr) {
            None => {
                return Flow::Eof;
            },
            Some(tok) => tok,
        };
        let mut lhs = match next.kind {
            TokenKind::Number | TokenKind::Float => {
                self.consume();
                t.end(SyntaxKind::AtomExpr, self)
            },
            TokenKind::Ident => {
                self.ident(Expected::Ident);
                match self.peek(Expected::Semicolon) {
                    None => {
                        return Flow::Eof;
                    },
                    Some(next) => match next.kind {
                        TokenKind::LeftParen => {
                            let flow = self.parse_params();
                            if flow != Flow::Done {
                                return flow;
                            }
                            t.end(SyntaxKind::FnApp, self)
                        },
                        _ => t.end(SyntaxKind::AtomExpr, self),
                    },
                }
            },
            _ => {
                self.reject(Expected::Operand);
                return Flow::Failed;
            },
        };
        loop
            invariant
                self.inv(),
                *final(self.interner) == *final(old(self).interner),
                self.grew(old(self)),
                self.completed(&lhs),
                lhs.starts_in(old(self)),
                lhs@ == old(self)@.out.len(),
                grammar::operators(self@, lhs@, min_bp) == grammar::expr(old(self)@, min_bp),
                self@.rest.len() < old(self)@.rest.len(),
            decreases self@.rest.len(),
        {
            let op = match self.next_tok() {
                None => {
                    return Flow::Done;
                },
                Some(tok) => match OpKind::from_token(tok.kind) {
                    None => {
                        return Flow::Done;
                    },
                    Some(op) => op,
                },
            };
            let (l, r) = infix_binding_power(&op);
            if l < min_bp {
                return Flow::Done;  // fold to left
            }
            // only want to consume once we know that we're folding so that after
            // folding we can resume on the operator that had a lower BP to the left of
            // it

            let bin_expr = lhs.precede(self);
            assert(self.grew(old(self)));
            assert(bin_expr.starts_in(old(self)));
            self.consume();  // op
            let flow = self.expr(r);  // rhs
            if flow != Flow::Done {
                return flow;
            }
            assert(self.grew(old(self)));
            lhs = bin_expr.end(SyntaxKind::BinExpr, self);
        }
    }
}

/// How tightly an operator binds to its left and to its right.
pub fn infix_binding_power(op: &OpKind) -> (power: (u8, u8))
    ensures
        power == grammar::binding_power(*op),
{
    match op {
        OpKind::Equal => (1, 2),
        OpKind::Or => (3, 4),
        OpKind::And => (5, 6),
        OpKind::Greater | OpKind::GreaterEqual | OpKind::Less | OpKind::LessEqual => (7, 8),
        OpKind::Add | OpKind::Sub => (9, 10),
        OpKind::Mult | OpKind::Div => (11, 12),
    }
}

} // verus!
