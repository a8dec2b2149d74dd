//! A recursive descent parser that reports errors and goes on.
pub mod action;
mod expression;
mod state;
mod statement;
pub mod utils;

use vstd::prelude::*;

use crate::error::ParseError;
use crate::grammar::{self, Flow, Snapshot};
use crate::laws::accounts::program_is_lawful;
use crate::red_node::SyntaxTree;

pub use self::expression::infix_binding_power;
pub use self::state::Parser;

verus! {

/// The state of the parser
#[derive(Clone, Copy, PartialEq, Eq, Debug, Structural)]
pub enum State {
    /// Parse
    Parse,
    /// Recover until we see a statement boundary
    Recover,
    /// Return `None` forever
    Abort,
    /// Return `None` forever
    Finished,
}

impl<'de> Parser<'de> {
    /// Parses statements up to the end of the input, or up to one that has no end.
    fn statements(&mut self) -> (flow: Flow)
        requires
            old(self).inv(),
        ensures
            final(self).inv(),
            *final(final(self).interner) == *final(old(self).interner),
            (flow, final(self)@) == grammar::program(old(self)@),
    {
        while !self.at_eof()
            invariant
                self.inv(),
                *final(self.interner) == *final(old(self).interner),
                grammar::program(self@) == grammar::program(old(self)@),
            decreases self@.rest.len(),
        {
            let flow = self.stmt();
            if flow != Flow::Done {
                return flow;
            }
        }
        Flow::Done
    }

    /// Parses all of the input: the tree, and the errors in the order in which they were met.
    pub fn parse(&mut self) -> (result: (SyntaxTree<'de>, Vec<ParseError>))
        requires
            old(self).inv(),
        ensures
            final(self).inv(),
            *final(final(self).interner) == *final(old(self).interner),
            ({
                let end = grammar::program(old(self)@).1;
                &&& result.0@ == end.out
                &&& result.1@.map_values(|err: ParseError| err@) == end.errs
                &&& final(self)@ == (Snapshot { out: Seq::empty(), errs: Seq::empty(), ..end })
            }),
            final(self)@.at_end(),
            final(self).interner@ == final(self)@.names,
    {
        proof {
            program_is_lawful(self@);
        }
        self.statements();
        self.finish()
    }
}

} // verus!
