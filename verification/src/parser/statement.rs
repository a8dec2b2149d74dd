//! Statements.
use vstd::prelude::*;

use crate::error::Expected;
use crate::grammar::{self, Flow};
use crate::syntax::SyntaxKind;
use crate::token::TokenKind;

use super::Parser;

verus! {

broadcast use super::state::group_growth;

impl<'de> Parser<'de> {
    /// func | var | assignment | for | if | impl | struct
    pub(super) fn stmt(&mut self) -> (flow: Flow)
        requires
            old(self).inv(),
        ensures
            final(self).inv(),
            *final(final(self).interner) == *final(old(self).interner),
            final(self).grew(old(self)),
            (flow, final(self)@) == grammar::stmt(old(self)@),
            !(flow is Failed),
            final(self)@.rest.len() <= old(self)@.rest.len(),
            flow is Done ==> final(self)@.ahead_of(old(self)@),
        decreases old(self)@.rest.len(), 3nat,
    {
        let set = [
            TokenKind::Let,
            TokenKind::Fn,
            TokenKind::If,
            TokenKind::Impl,
            TokenKind::Struct,
        ];
        assert(set@ =~= grammar::statement_boundary());
        let next = match self.peek(Expected::FnOrLet) {
            None => {
                return Flow::Eof;
            },
            Some(tok) => tok.kind,
        };
        let flow = match next {
            TokenKind::Let => self.declaration(),
            TokenKind::Fn => self.fn_decl(),
            TokenKind::For => self.for_loop(),
            TokenKind::If => self.if_stmt(),
            TokenKind::Impl => self.impl_block(),
            TokenKind::Struct => self.structure(),
            _ => self.assignment(true),
        };
        self.conform(flow, &set)
    }

    fn impl_block(&mut self) -> (flow: Flow)
        requires
            old(self).inv(),
            !old(self)@.at_end(),
        ensures
            final(self).inv(),
            *final(final(self).interner) == *final(old(self).interner),
            final(self).grew(old(self)),
            (flow, final(self)@) == grammar::impl_block(old(self)@),
            final(self)@.ahead_of(old(self)@),
        decreases old(self)@.rest.len(), 1nat,
    {
        let t = self.start();
        self.consume();  // impl
        let flow = self.ident(Expected::ImplTarget);  // target struct
        if flow != Flow::Done {
            return flow;
        }
        let flow = self.eat(TokenKind::LeftBrace, Expected::LBrace);
        if flow != Flow::Done {
            return flow;
        }
        let ghost inside = *self;
        let set = [TokenKind::Fn];
        assert(set@ =~= seq![TokenKind::Fn]);
        loop
            invariant_except_break
                self.inv(),
                *final(self.interner) == *final(old(self).interner),
                self.grew(&inside),
                inside.grew(old(self)),
                set@ == seq![TokenKind::Fn],
                grammar::methods(self@) == grammar::methods(inside@),
                inside@.ahead_of(old(self)@),
                self@.rest.len() <= inside@.rest.len(),
                ({
                    let (flow, s3) = grammar::methods(inside@);
                    flow is Done || grammar::impl_block(old(self)@) == (flow, s3)
                }),
            ensures
                self.inv(),
                *final(self.interner) == *final(old(self).interner),
                self.grew(&inside),
                grammar::methods(inside@) == (Flow::Done, self@),
                self@.next_is(TokenKind::RightBrace),
                self@.rest.len() <= inside@.rest.len(),
            decreases self@.rest.len(),
        {
            match self.peek(Expected::RBrace) {
                None => {
                    return Flow::Eof;
                },
                Some(next) => {
                    if next.kind == TokenKind::RightBrace {
                        break;
                    }
                },
            }
            let flow = self.fn_decl();
            let flow = self.conform(flow, &set);
            if flow != Flow::Done {
                return flow;
            }
        }
        self.consume();  // r_brace
        t.end(SyntaxKind::Impl, self);
        Flow::Done
    }

    fn structure(&mut self) -> (flow: Flow)
        requires
            old(self).inv(),
            !old(self)@.at_end(),
        ensures
            final(self).inv(),
            *final(final(self).interner) == *final(old(self).interner),
            final(self).grew(old(self)),
            (flow, final(self)@) == grammar::structure(old(self)@),
            final(self)@.ahead_of(old(self)@),
    {
        let t = self.start();
        self.consume();  // struct
        let flow = self.ident(Expected::Ident);
        if flow != Flow::Done {
            return flow;
        }
        let flow = self.eat(TokenKind::LeftBrace, Expected::LBrace);
        if flow != Flow::Done {
            return flow;
        }
        let mut next = match self.peek(Expected::CommaOrRBrace) {
            None => {
                return Flow::Eof;
            },
            Some(tok) => tok.kind,
        };
        let ghost inside = *self;
        while next != TokenKind::RightBrace
            invariant
                self.inv(),
                *final(self.interner) == *final(old(self).interner),
                self.grew(&inside),
                inside.grew(old(self)),
                self@.next_is(next),
                grammar::fields(self@) == grammar::fields(inside@),
                inside@.ahead_of(old(self)@),
                self@.rest.len() <= inside@.rest.len(),
                ({
                    let (flow, s3) = grammar::fields(inside@);
                    flow is Done || grammar::structure(old(self)@) == (flow, s3)
                }),
            decreases self@.rest.len(),
        {
            if next == TokenKind::Ident {
                let flow = self.param();
                if flow != Flow::Done {
                    return flow;
                }
            } else {
                let flow = self.consume_err(Expected::Param);
                if flow != Flow::Done {
                    return flow;
                }
                // attempt to parse another field now

            }
            assert(grammar::fields(self@) == grammar::fields(inside@));
            next = match self.peek(Expected::IdentOrRParen) {
                None => {
                    return Flow::Eof;
                },
                Some(tok) => tok.kind,
            };
        }
        self.consume();  // r_brace
        t.end(SyntaxKind::Struct, self);
        Flow::Done
    }

    fn if_stmt(&mut self) -> (flow: Flow)
        requires
            old(self).inv(),
            !old(self)@.at_end(),
        ensures
            final(self).inv(),
            *final(final(self).interner) == *final(old(self).interner),
            final(self).grew(old(self)),
            (flow, final(self)@) == grammar::if_stmt(old(self)@),
            final(self)@.ahead_of(old(self)@),
        decreases old(self)@.rest.len(), 1nat,
    {
        let t = self.start();
        self.consume();  // if
        let flow = self.eat(TokenKind::LeftParen, Expected::LParen);
        if flow != Flow::Done {
            return flow;
        }
        let flow = self.expression();  // predicate
        if flow != Flow::Done {
            return flow;
        }
        let flow = self.eat(TokenKind::RightParen, Expected::RParen);
        if flow != Flow::Done {
            return flow;
        }
        let flow = self.block();  // branch taken
        if flow != Flow::Done {
            return flow;
        }
        if self.at(TokenKind::Else) {
            self.consume();
            let flow = if self.at(TokenKind::If) {
                self.if_stmt()
            } else {
                self.block()
            };
            if flow != Flow::Done {
                return flow;
            }
        }
        t.end(SyntaxKind::If, self);
        Flow::Done
    }

    fn for_loop(&mut self) -> (flow: Flow)
        requires
            old(self).inv(),
            !old(self)@.at_end(),
        ensures
            final(self).inv(),
            *final(final(self).interner) == *final(old(self).interner),
            final(self).grew(old(self)),
            (flow, final(self)@) == grammar::for_loop(old(self)@),
            final(self)@.ahead_of(old(self)@),
        decreases old(self)@.rest.len(), 1nat,
    {
        self.consume();  // for
        let flow = self.eat(TokenKind::LeftParen, Expected::LParen);
        if flow != Flow::Done {
            return flow;
        }
        let flow = self.ident(Expected::Ident);
        if flow != Flow::Done {
            return flow;
        }
        if self.at(TokenKind::Colon) {
            self.consume();
            let flow = self.ident(Expected::Ty);
            if flow != Flow::Done {
                return flow;
            }
        }
        let flow = self.eat(TokenKind::Equal, Expected::InitialisedIdx);
        if flow != Flow::Done {
            return flow;
        }
        let flow = self.expression();  // value
        if flow != Flow::Done {
            return flow;
        }
        let flow = self.eat(TokenKind::Semicolon, Expected::Semicolon);
        if flow != Flow::Done {
            return flow;
        }
        let flow = self.expression();  // predicate
        if flow != Flow::Done {
            return flow;
        }
        let flow = self.eat(TokenKind::Semicolon, Expected::Semicolon);
        if flow != Flow::Done {
            return flow;
        }
        let flow = self.assignment(false);
        if flow != Flow::Done {
            return flow;
        }
        let flow = self.eat(TokenKind::RightParen, Expected::RParen);
        if flow != Flow::Done {
            return flow;
        }
        self.block()
    }

    /// Param = Ident ':' TypeExpr ','?
    fn param(&mut self) -> (flow: Flow)
        requires
            old(self).inv(),
            old(self)@.next_is(TokenKind::Ident),
        ensures
            final(self).inv(),
            *final(final(self).interner) == *final(old(self).interner),
            final(self).grew(old(self)),
            (flow, final(self)@) == grammar::param(old(self)@),
            final(self)@.ahead_of(old(self)@),
    {
        let t = self.start();
        self.ident(Expected::Nothing);
        let flow = self.eat(TokenKind::Colon, Expected::TyAnnotation);
        if flow == Flow::Eof {
            return flow;
        }
        let flow = self.ident(Expected::Ty);
        if flow == Flow::Eof {
            return flow;
        }
        match self.peek(Expected::RParen) {
            None => {
                return Flow::Eof;
            },
            Some(next) => {
                if next.kind == TokenKind::Comma {
                    self.consume();
                }
            },
        }
        t.end(SyntaxKind::Param, self);
        Flow::Done
    }

    fn fn_decl(&mut self) -> (flow: Flow)
        requires
            old(self).inv(),
            !old(self)@.at_end(),
        ensures
            final(self).inv(),
            *final(final(self).interner) == *final(old(self).interner),
            final(self).grew(old(self)),
            (flow, final(self)@) == grammar::fn_decl(old(self)@),
            final(self)@.ahead_of(old(self)@),
        decreases old(self)@.rest.len(), 2nat,
    {
        let t = self.start();
        self.consume();  // fn
        let flow = self.ident(Expected::Ident);
        if flow != Flow::Done {
            return flow;
        }
        let flow = self.eat(TokenKind::LeftParen, Expected::LParen);
        if flow != Flow::Done {
            return flow;
        }
        let flow = self.parameters();
        if flow != Flow::Done {
            return flow;
        }
        if self.peek(Expected::RParen).is_none() {
            return Flow::Eof;
        }
        self.consume();  // r_paren
        let branch = match self.peek(Expected::LBraceOrArrow) {
            None => {
                return Flow::Eof;
            },
            Some(tok) => tok.kind,
        };
        match branch {
            TokenKind::Arrow => {
                self.consume();
                let flow = self.ident(Expected::Ident);  // ignore failure and continue
                if flow == Flow::Eof {
                    return flow;
                }
            },
            TokenKind::LeftBrace => {},
            _ => {
                self.reject(Expected::LBraceOrArrow);
                let set = [TokenKind::LeftBrace];
                assert(set@ =~= seq![TokenKind::LeftBrace]);
                self.recover(&set);
            },
        }
        let flow = self.block();
        if flow != Flow::Done {
            return flow;
        }
        t.end(SyntaxKind::FnDecl, self);
        Flow::Done
    }

    /// The parameters of a function, up to the token that ends the list.
    fn parameters(&mut self) -> (flow: Flow)
        requires
            old(self).inv(),
        ensures
            final(self).inv(),
            *final(final(self).interner) == *final(old(self).interner),
            final(self).grew(old(self)),
            (flow, final(self)@) == grammar::parameters(old(self)@),
            final(self)@.rest.len() <= old(self)@.rest.len(),
    {
        loop
            invariant
                self.inv(),
                *final(self.interner) == *final(old(self).interner),
                self.grew(old(self)),
                grammar::parameters(self@) == grammar::parameters(old(self)@),
                self@.rest.len() <= old(self)@.rest.len(),
            decreases self@.rest.len(),
        {
            match self.peek(Expected::IdentOrRParen) {
                None => {
                    return Flow::Eof;
                },
                Some(next) => match next.kind {
                    TokenKind::RightParen => {
                        return Flow::Done;
                    },
                    TokenKind::Ident => {
                        let flow = self.param();
                        if flow != Flow::Done {
                            return flow;
                        }
                    },
                    _ => {
                        self.reject(Expected::Param);
                        let set = [
                            TokenKind::Arrow,
                            TokenKind::LeftBrace,
                            TokenKind::RightParen,
                        ];
                        assert(set@ =~= grammar::signature_boundary());
                        self.recover(&set);
                        return Flow::Done;
                    },
                },
            }
        }
    }

    fn block(&mut self) -> (flow: Flow)
        requires
            old(self).inv(),
        ensures
            final(self).inv(),
            *final(final(self).interner) == *final(old(self).interner),
            final(self).grew(old(self)),
            (flow, final(self)@) == grammar::block(old(self)@),
            final(self)@.rest.len() <= old(self)@.rest.len(),
            flow is Done ==> final(self)@.ahead_of(old(self)@),
        decreases old(self)@.rest.len(), 0nat,
    {
        let t = self.start();
        let flow = self.eat(TokenKind::LeftBrace, Expected::LParen);
        if flow != Flow::Done {
            return flow;
        }
        let mut next = match self.peek(Expected::LBrace) {
            None => {
                return Flow::Eof;
            },
            Some(tok) => tok.kind,
        };
        let ghost inside = *self;
        while next != TokenKind::RightBrace
            invariant
                self.inv(),
                *final(self.interner) == *final(old(self).interner),
                self.grew(&inside),
                inside.grew(old(self)),
                self@.next_is(next),
                grammar::stmts(self@) == grammar::stmts(inside@),
                inside@.ahead_of(old(self)@),
                self@.rest.len() <= inside@.rest.len(),
                ({
                    let (flow, s2) = grammar::stmts(inside@);
                    flow is Done || grammar::block(old(self)@) == (flow, s2)
                }),
            decreases self@.rest.len(),
        {
            let flow = self.stmt();  // the recovery is done by statement
            if flow != Flow::Done {
                return flow;
            }
            assert(grammar::stmts(self@) == grammar::stmts(inside@));
            next = match self.peek(Expected::RBrace) {
                None => {
                    return Flow::Eof;
                },
                Some(tok) => tok.kind,
            };
        }
        self.consume();  // r_brace
        t.end(SyntaxKind::Block, self);
        Flow::Done
    }

    /// Parse an assignment of a value to an ident
    fn assignment(&mut self, semi: bool) -> (flow: Flow)
        requires
            old(self).inv(),
        ensures
            final(self).inv(),
            *final(final(self).interner) == *final(old(self).interner),
            final(self).grew(old(self)),
            (flow, final(self)@) == grammar::assignment(old(self)@, semi),
            final(self)@.rest.len() <= old(self)@.rest.len(),
            !old(self)@.at_end() ==> final(self)@.ahead_of(old(self)@),
    {
        let t = self.start();
        let flow = self.ident(Expected::Ident);
        if flow != Flow::Done {
            return flow;
        }
        let flow = self.eat(TokenKind::Equal, Expected::Equal);
        if flow != Flow::Done {
            return flow;
        }
        let flow = self.expression();
        if flow != Flow::Done {
            return flow;
        }
        if semi {
            let flow = self.eat(TokenKind::Semicolon, Expected::Semicolon);
            if flow != Flow::Done {
                return flow;
            }
        }
        t.end(SyntaxKind::Assignment, self);
        Flow::Done
    }

    /// Parse a declaration
    fn declaration(&mut self) -> (flow: Flow)
        requires
            old(self).inv(),
            !old(self)@.at_end(),
        ensures
            final(self).inv(),
            *final(final(self).interner) == *final(old(self).interner),
            final(self).grew(old(self)),
            (flow, final(self)@) == grammar::declaration(old(self)@),
            final(self)@.ahead_of(old(self)@),
    {
        let t = self.start();
        self.consume();  // let
        let flow = self.ident(Expected::Ident);
        if flow != Flow::Done {
            return flow;
        }
        let branch = match self.peek(Expected::SemicolonOrEqual) {
            None => {
                return Flow::Eof;
            },
            Some(tok) => tok.kind,
        };
        if branch == TokenKind::Colon {
            self.consume();
            let flow = self.ident(Expected::Ty);
            if flow != Flow::Done {
                return flow;
            }
        }
        match branch {
            TokenKind::Semicolon => {
                self.consume();
            },
            TokenKind::Equal => {
                self.consume();
                let flow = self.expression();
                if flow != Flow::Done {
                    return flow;
                }
                let flow = self.eat(TokenKind::Semicolon, Expected::Semicolon);
                if flow != Flow::Done {
                    return flow;
                }
            },
            _ => {
                if self.peek(Expected::SemicolonOrEqual).is_none() {
                    return Flow::Eof;
                }
                self.reject(Expected::SemicolonOrEqual);
                return Flow::Failed;
            },
        }
        t.end(SyntaxKind::Declaration, self);
        Flow::Done
    }
}

} // verus!
