//! The steps that productions are made of.
use vstd::prelude::*;

use crate::error::Expected;
use crate::grammar::{self, Flow};
use crate::syntax::SyntaxKind;
use crate::token::{Token, TokenKind};

use super::Parser;

verus! {

broadcast use super::state::group_growth;

impl<'de> Parser<'de> {
    /// The next token. At the end of the input that is reported, with what was `expected`.
    pub(super) fn peek(&mut self, expected: Expected) -> (tok: Option<Token<'de>>)
        requires
            old(self).inv(),
        ensures
            final(self).inv(),
            *final(final(self).interner) == *final(old(self).interner),
            final(self).grew(old(self)),
            old(self)@.at_end() ==> tok is None && final(self)@ == old(self)@.miss(expected),
            !old(self)@.at_end() ==> tok == Some(old(self)@.rest[0]) && *final(self) == *old(self),
    {
        match self.next_tok() {
            Some(tok) => Some(tok),
            None => {
                self.miss(expected);
                None
            },
        }
    }

    pub(super) fn at_eof(&self) -> (end: bool)
        ensures
            end == self@.at_end(),
    {
        self.next_tok().is_none()
    }

    /// Attempts to parse an ident and interns its symbol, reporting `expected` if it fails.
    pub(super) fn ident(&mut self, expected: Expected) -> (flow: Flow)
        requires
            old(self).inv(),
        ensures
            final(self).inv(),
            *final(final(self).interner) == *final(old(self).interner),
            final(self).grew(old(self)),
            (flow, final(self)@) == grammar::ident(old(self)@, expected),
    {
        match self.peek(expected) {
            None => Flow::Eof,
            Some(next) => {
                if next.kind == TokenKind::Ident {
                    self.consume_ident();
                    Flow::Done
                } else {
                    self.reject(expected);
                    Flow::Failed
                }
            },
        }
    }

    /// Eats a token of kind `kind`, otherwise reports `expected`.
    pub(super) fn eat(&mut self, kind: TokenKind, expected: Expected) -> (flow: Flow)
        requires
            old(self).inv(),
        ensures
            final(self).inv(),
            *final(final(self).interner) == *final(old(self).interner),
            final(self).grew(old(self)),
            (flow, final(self)@) == grammar::eat(old(self)@, kind, expected),
    {
        match self.peek(expected) {
            None => Flow::Eof,
            Some(next) => {
                if next.kind == kind {
                    self.consume();
                    Flow::Done
                } else {
                    self.reject(expected);
                    Flow::Failed
                }
            },
        }
    }

    /// The next token is of kind `kind`.
    pub(super) fn at(&self, kind: TokenKind) -> (at: bool)
        ensures
            at == self@.next_is(kind),
    {
        match self.next_tok() {
            Some(tok) => tok.kind == kind,
            None => false,
        }
    }

    /// The kind of the next token is in `set`.
    pub(super) fn at_any(&self, set: &[TokenKind]) -> (at: bool)
        ensures
            at == self@.next_in(set@),
    {
        match self.next_tok() {
            Some(tok) => {
                let mut i: usize = 0;
                while i < set.len()
                    invariant
                        i <= set.len(),
                        self@.rest.len() > 0,
                        self@.rest[0] == tok,
                        forall|j: int| 0 <= j < i ==> set@[j] != tok.kind,
                    decreases set.len() - i,
                {
                    if set[i] == tok.kind {
                        assert(set@[i as int] == tok.kind);
                        return true;
                    }
                    i += 1;
                }
                false
            },
            None => false,
        }
    }

    /// Reports the next token, and makes an error node of the one behind it.
    pub(super) fn consume_err(&mut self, expected: Expected) -> (flow: Flow)
        requires
            old(self).inv(),
        ensures
            final(self).inv(),
            *final(final(self).interner) == *final(old(self).interner),
            final(self).grew(old(self)),
            (flow, final(self)@) == grammar::consume_err(old(self)@, expected),
    {
        if self.peek(expected).is_none() {
            return Flow::Eof;
        }
        self.reject(expected);
        if self.peek(expected).is_none() {
            return Flow::Eof;
        }
        let ghost rejected = *self;
        let error_tree = self.start();
        self.consume();
        error_tree.end(SyntaxKind::Error, self);
        assert(self.grew(&rejected));
        Flow::Done
    }

    /// Eats tokens up to one whose kind is in `set`, and makes an error node of them.
    pub(super) fn recover(&mut self, set: &[TokenKind])
        requires
            old(self).inv(),
        ensures
            final(self).inv(),
            *final(final(self).interner) == *final(old(self).interner),
            final(self).grew(old(self)),
            final(self)@ == old(self)@.recover(set@),
            final(self)@.rest.len() <= old(self)@.rest.len(),
            final(self)@.at_end() || final(self)@.next_in(set@),
    {
        let error_tree = self.start();
        let ghost started = *self;
        while !self.at_any(set) && !self.at_eof()
            invariant
                self.inv(),
                *final(self.interner) == *final(old(self).interner),
                self.grew(&started),
                started@.skip_to(set@) == self@.skip_to(set@),
                self@.rest.len() <= started@.rest.len(),
            decreases self@.rest.len(),
        {
            self.consume();
        }
        error_tree.end(SyntaxKind::Error, self);
    }

    /// Conforms the parser to a state that is satisfactory based on the input set of tokens, if
    /// `flow` is that of a production that failed.
    pub(super) fn conform(&mut self, flow: Flow, set: &[TokenKind]) -> (conformed: Flow)
        requires
            old(self).inv(),
        ensures
            final(self).inv(),
            *final(final(self).interner) == *final(old(self).interner),
            final(self).grew(old(self)),
            (conformed, final(self)@) == grammar::conform((flow, old(self)@), set@),
            final(self)@.rest.len() <= old(self)@.rest.len(),
    {
        if flow == Flow::Failed {
            self.recover(set);
            Flow::Done
        } else {
            flow
        }
    }
}

} // verus!
