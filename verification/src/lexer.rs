//! The tokens of a source text.
pub mod munch;
pub mod scan;

use vstd::prelude::*;
use vstd::utf8::{encode_utf8, encode_utf8_valid_utf8};

use crate::source_map::{Ctxt, SourceMap};
use crate::token::Token;

use self::scan::{lemma_piece, lemma_piece_boundary, next_piece, piece, pieces, Piece, Span};

verus! {

/// The tokens of a source, in order.
pub struct Lexer<'de> {
    toks: Vec<Token<'de>>,
    next: usize,
    strays: Vec<Ctxt>,
}

impl<'de> View for Lexer<'de> {
    type V = Seq<Token<'de>>;

    /// The tokens that are still to come.
    closed spec fn view(&self) -> Seq<Token<'de>> {
        self.toks@.skip(self.next as int)
    }
}

/// The pieces of a text that are tokens.
pub open spec fn tokens(bytes: Seq<u8>) -> Seq<Span> {
    pieces(bytes, 0).filter(|span: Span| span.piece is Token)
}

/// The pieces of a text that are neither tokens nor white space.
pub open spec fn strays(bytes: Seq<u8>) -> Seq<Span> {
    pieces(bytes, 0).filter(|span: Span| span.piece is Stray)
}

/// The token is the one that covers the span.
pub open spec fn covers(tok: Token<'_>, span: Span, bytes: Seq<u8>) -> bool {
    &&& span.piece == Piece::Token(tok.kind)
    &&& tok.start == span.start
    &&& encode_utf8(tok.lexeme@) == bytes.subrange(span.start, span.end)
}

/// The tokens are those of the text.
pub open spec fn is_lexed<'de>(toks: Seq<Token<'de>>, bytes: Seq<u8>) -> bool {
    &&& toks.len() == tokens(bytes).len()
    &&& forall|i: int| 0 <= i < toks.len() ==> covers(#[trigger] toks[i], tokens(bytes)[i], bytes)
}

/// The place is that of the span.
pub open spec fn is_place_of(ctxt: Ctxt, span: Span) -> bool {
    ctxt.start == span.start && ctxt.width == span.end - span.start && ctxt.site is None
}

proof fn lemma_filter_push(spans: Seq<Span>, span: Span, keep: spec_fn(Span) -> bool)
    ensures
        spans.push(span).filter(keep) == if keep(span) {
            spans.filter(keep).push(span)
        } else {
            spans.filter(keep)
        },
{
    reveal(Seq::filter);
    assert(spans.push(span).drop_last() =~= spans);
}

proof fn lemma_pieces_tile(bytes: Seq<u8>, start: int)
    requires
        0 <= start <= bytes.len(),
    ensures
        tiled(pieces(bytes, start), start, bytes.len() as int),
    decreases bytes.len() - start,
{
    if start < bytes.len() {
        lemma_piece(bytes.skip(start));
        let (found, width) = piece(bytes.skip(start));
        let first = Span { piece: found, start, end: start + width };
        let more = pieces(bytes, start + width);
        lemma_pieces_tile(bytes, start + width);
        let all = seq![first] + more;
        assert(pieces(bytes, start) == all);
        assert forall|i: int| 0 <= i < all.len() implies (#[trigger] all[i]).start < all[i].end by {
            if i > 0 {
                assert(all[i] == more[i - 1]);
            }
        }
        assert forall|i: int, j: int| 0 <= i && i + 1 == j < all.len() implies (
        #[trigger] all[i]).end == (#[trigger] all[j]).start by {
            assert(all[j] == more[j - 1]);
            if i > 0 {
                assert(all[i] == more[i - 1]);
            }
        }
        if more.len() > 0 {
            assert(all.last() == more.last());
        }
    }
}

/// The spans lie side by side from `start` to `end`, and none of them is empty.
pub open spec fn tiled(spans: Seq<Span>, start: int, end: int) -> bool {
    &&& forall|i: int| 0 <= i < spans.len() ==> (#[trigger] spans[i]).start < spans[i].end
    &&& forall|i: int, j: int|
        0 <= i && i + 1 == j < spans.len() ==> (#[trigger] spans[i]).end == (
        #[trigger] spans[j]).start
    &&& if spans.len() == 0 {
        start == end
    } else {
        start == spans.first().start && spans.last().end == end
    }
}

/// Every byte of a text is in exactly one of its pieces.
pub proof fn pieces_tile_the_text(bytes: Seq<u8>)
    ensures
        tiled(pieces(bytes, 0), 0, bytes.len() as int),
{
    lemma_pieces_tile(bytes, 0);
}

proof fn lemma_filter_in_order(spans: Seq<Span>, keep: spec_fn(Span) -> bool, start: int, end: int)
    requires
        tiled(spans, start, end),
    ensures
        forall|i: int|
            0 <= i < spans.filter(keep).len() ==> start <= (#[trigger] spans.filter(keep)[i]).start
                < spans.filter(keep)[i].end <= end,
        forall|i: int, j: int|
            0 <= i < j < spans.filter(keep).len() ==> (#[trigger] spans.filter(keep)[i]).end <= (
            #[trigger] spans.filter(keep)[j]).start,
        start <= end,
    decreases spans.len(),
{
    reveal(Seq::filter);
    if spans.len() > 0 {
        let init = spans.drop_last();
        let between = spans.last().start;
        assert(tiled(init, start, between)) by {
            assert(forall|i: int| 0 <= i < init.len() ==> init[i] == spans[i]);
        }
        lemma_filter_in_order(init, keep, start, between);
    }
}

/// Tokens are not empty and do not overlap, and they come in the order of the text.
pub proof fn tokens_follow_the_text(bytes: Seq<u8>)
    ensures
        forall|i: int|
            0 <= i < tokens(bytes).len() ==> 0 <= (#[trigger] tokens(bytes)[i]).start < tokens(
                bytes,
            )[i].end <= bytes.len(),
        forall|i: int, j: int|
            0 <= i < j < tokens(bytes).len() ==> (#[trigger] tokens(bytes)[i]).end <= (
            #[trigger] tokens(bytes)[j]).start,
{
    pieces_tile_the_text(bytes);
    lemma_filter_in_order(
        pieces(bytes, 0),
        |span: Span| span.piece is Token,
        0,
        bytes.len() as int,
    );
}

impl<'de> Lexer<'de> {
    #[verifier::type_invariant]
    spec fn in_bounds(&self) -> bool {
        self.next <= self.toks@.len()
    }

    /// The characters that no token starts with.
    pub closed spec fn stray_places(&self) -> Seq<Ctxt> {
        self.strays@
    }

    /// Splits a source text into tokens. Characters that no token starts with are passed over
    /// and noted.
    pub fn new(source_map: &'de SourceMap) -> (lexer: Lexer<'de>)
        ensures
            ({
                let bytes = encode_utf8(source_map@);
                &&& is_lexed(lexer@, bytes)
                &&& lexer.stray_places().len() == strays(bytes).len()
                &&& forall|i: int|
                    0 <= i < lexer.stray_places().len() ==> is_place_of(
                        #[trigger] lexer.stray_places()[i],
                        strays(bytes)[i],
                    )
            }),
    {
        let ghost bytes = encode_utf8(source_map@);
        let ghost is_token = |span: Span| span.piece is Token;
        let ghost is_stray = |span: Span| span.piece is Stray;
        let mut toks: Vec<Token<'de>> = Vec::new();
        let mut noted: Vec<Ctxt> = Vec::new();
        let mut rest = source_map.text();
        let len: usize = rest.as_bytes().len();
        let mut start: usize = 0;
        let ghost mut done: Seq<Span> = Seq::empty();
        proof {
            reveal(Seq::filter);
            assert(bytes.skip(0) =~= bytes);
            assert(done + pieces(bytes, 0) =~= pieces(bytes, 0));
        }
        while !rest.is_empty()
            invariant
                bytes == encode_utf8(source_map@),
                start <= bytes.len() == len,
                encode_utf8(rest@) == bytes.skip(start as int),
                done + pieces(bytes, start as int) == pieces(bytes, 0),
                is_token == (|span: Span| span.piece is Token),
                is_stray == (|span: Span| span.piece is Stray),
                toks@.len() == done.filter(is_token).len(),
                forall|i: int|
                    0 <= i < toks@.len() ==> covers(
                        #[trigger] toks@[i],
                        done.filter(is_token)[i],
                        bytes,
                    ),
                noted@.len() == done.filter(is_stray).len(),
                forall|i: int|
                    0 <= i < noted@.len() ==> is_place_of(
                        #[trigger] noted@[i],
                        done.filter(is_stray)[i],
                    ),
            decreases len - start,
        {
            let (found, width) = next_piece(rest.as_bytes());
            proof {
                encode_utf8_valid_utf8(rest@);
                lemma_piece(encode_utf8(rest@));
                lemma_piece_boundary(encode_utf8(rest@));
            }
            let (lexeme, behind) = rest.split_at(width);
            let ghost span = Span { piece: found, start: start as int, end: start + width };
            proof {
                lemma_filter_push(done, span, is_token);
                lemma_filter_push(done, span, is_stray);
                assert(bytes.subrange(start as int, start + width) =~= bytes.skip(
                    start as int,
                ).subrange(0, width as int));
                assert(done.push(span) + pieces(bytes, start + width) =~= done + pieces(
                    bytes,
                    start as int,
                ));
            }
            match found {
                Piece::Blank => {},
                Piece::Stray => {
                    noted.push(Ctxt { start, width, site: None });
                },
                Piece::Token(kind) => {
                    toks.push(Token { kind, lexeme, start });
                },
            }
            start = start + width;
            rest = behind;
            proof {
                done = done.push(span);
                assert(encode_utf8(rest@) =~= bytes.skip(start as int));
            }
        }
        proof {
            assert(start == bytes.len());
            assert(done =~= pieces(bytes, 0));
            assert(toks@.skip(0) =~= toks@);
        }
        Lexer { toks, next: 0, strays: noted }
    }

    /// The places of the characters that no token starts with, in order.
    pub fn strays(&self) -> (places: &Vec<Ctxt>)
        ensures
            places@ == self.stray_places(),
    {
        &self.strays
    }

    /// The next token, which stays where it is.
    pub fn peek(&self) -> (tok: Option<Token<'de>>)
        ensures
            tok == if self@.len() > 0 {
                Some(self@[0])
            } else {
                None
            },
    {
        proof {
            use_type_invariant(self);
        }
        if self.next < self.toks.len() {
            Some(self.toks[self.next])
        } else {
            None
        }
    }

    /// Takes the next token.
    pub fn next(&mut self) -> (tok: Option<Token<'de>>)
        ensures
            old(self)@.len() > 0 ==> tok == Some(old(self)@[0]) && final(self)@ == old(
                self,
            )@.drop_first(),
            old(self)@.len() == 0 ==> tok is None && final(self)@ == old(self)@,
            final(self).stray_places() == old(self).stray_places(),
    {
        proof {
            use_type_invariant(&*self);
        }
        if self.next < self.toks.len() {
            let tok = self.toks[self.next];
            self.next = self.next + 1;
            assert(self@ =~= old(self)@.drop_first());
            Some(tok)
        } else {
            None
        }
    }
}

} // verus!
