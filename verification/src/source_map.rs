//! Source text, and places in it.
use vstd::prelude::*;

use crate::token::Token;

verus! {

/// The step of the parser in which an error was raised.
#[derive(Clone, Copy, PartialEq, Eq, Debug, Structural)]
pub enum Site {
    /// Looking at the next token, where there is none.
    Peek,
    /// Taking a token that isn't what it should be.
    MakeErr,
}

/// A place in the source: where it starts and how wide it is, in bytes; and, if an error was
/// raised about it, the step that raised it.
#[derive(Clone, Copy, PartialEq, Eq, Debug, Structural)]
pub struct Ctxt {
    pub start: usize,
    pub width: usize,
    pub site: Option<Site>,
}

impl Ctxt {
    /// The same place, with an error raised about it in the step `site`.
    pub open spec fn raised_in(self, site: Site) -> Ctxt {
        Ctxt { site: Some(site), ..self }
    }

    /// Notes the step in which an error was raised.
    pub fn with(self, site: Site) -> (ctxt: Ctxt)
        ensures
            ctxt == self.raised_in(site),
    {
        Ctxt { start: self.start, width: self.width, site: Some(site) }
    }
}

/// The place of a token.
pub open spec fn place_of(tok: Token<'_>) -> Ctxt {
    Ctxt { start: tok.start, width: tok.lexeme.len(), site: None }
}

/// A source text.
pub struct SourceMap {
    text: String,
}

impl View for SourceMap {
    type V = Seq<char>;

    closed spec fn view(&self) -> Seq<char> {
        self.text@
    }
}

impl SourceMap {
    /// Takes over a source text.
    pub fn new(text: String) -> (map: SourceMap)
        ensures
            map@ == text@,
    {
        SourceMap { text }
    }

    /// The whole text.
    pub fn text(&self) -> (text: &str)
        ensures
            text@ == self@,
    {
        self.text.as_str()
    }

    /// The place just behind the last byte of the text.
    pub open spec fn end_place(&self) -> Ctxt {
        Ctxt { start: vstd::utf8::encode_utf8(self@).len() as usize, width: 0, site: None }
    }

    /// The place of a token.
    pub fn ctxt_from_tok(&self, tok: &Token<'_>) -> (ctxt: Ctxt)
        ensures
            ctxt == place_of(*tok),
    {
        Ctxt { start: tok.start, width: tok.lexeme.len(), site: None }
    }

    /// The place just behind the last byte of the text.
    pub fn ctxt_from_end(&self) -> (ctxt: Ctxt)
        ensures
            ctxt == self.end_place(),
    {
        Ctxt { start: self.text.as_str().len(), width: 0, site: None }
    }
}

} // verus!
