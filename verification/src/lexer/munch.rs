//! Where the tokens of a text begin and end, and what they are.
use vstd::prelude::*;
use vstd::utf8::{encode_utf8, is_ascii_chars_encode_utf8};

use crate::source_map::Ctxt;
use crate::token::{Token, TokenKind};

use super::scan::{lemma_piece, lemma_run, piece, pieces, run, word_kind, Class, Piece, Span};
use super::{covers, is_lexed, is_place_of, strays, tokens, tokens_follow_the_text};

verus! {

/// A byte that names begin with: `a` to `z`, `A` to `Z` or `_`.
pub open spec fn begins_word(byte: u8) -> bool {
    let c = byte as char;
    ('a' <= c && c <= 'z') || ('A' <= c && c <= 'Z') || c == '_'
}

/// A byte of a number: `0` to `9`.
pub open spec fn in_number(byte: u8) -> bool {
    '0' <= byte as char && byte as char <= '9'
}

/// A byte of a name: one that names begin with, or one of a number.
pub open spec fn in_word(byte: u8) -> bool {
    begins_word(byte) || in_number(byte)
}

/// At index `i` stands `c`.
pub open spec fn stands(bytes: Seq<u8>, i: int, c: char) -> bool {
    0 <= i < bytes.len() && bytes[i] as char == c
}

/// At index `i` stand `a` and `b`.
pub open spec fn pair_stands(bytes: Seq<u8>, i: int, a: char, b: char) -> bool {
    stands(bytes, i, a) && stands(bytes, i + 1, b)
}

/// At index `i` stands `a`, and `b` not behind it.
pub open spec fn alone_stands(bytes: Seq<u8>, i: int, a: char, b: char) -> bool {
    stands(bytes, i, a) && !stands(bytes, i + 1, b)
}

/// The span is a token of kind `kind`.
pub open spec fn is_kind(span: Span, kind: TokenKind) -> bool {
    span.piece == Piece::Token(kind)
}

/// The span is a name or a keyword.
pub open spec fn is_word(span: Span) -> bool {
    ||| is_kind(span, TokenKind::Ident)
    ||| is_kind(span, TokenKind::Let)
    ||| is_kind(span, TokenKind::Fn)
    ||| is_kind(span, TokenKind::If)
    ||| is_kind(span, TokenKind::Else)
    ||| is_kind(span, TokenKind::For)
    ||| is_kind(span, TokenKind::Impl)
    ||| is_kind(span, TokenKind::Struct)
}

/// The span is a number.
pub open spec fn is_number(span: Span) -> bool {
    is_kind(span, TokenKind::Number) || is_kind(span, TokenKind::Float)
}

/// The span is a symbol of two bytes.
pub open spec fn is_pair(span: Span) -> bool {
    ||| is_kind(span, TokenKind::Arrow)
    ||| is_kind(span, TokenKind::EqualEqual)
    ||| is_kind(span, TokenKind::GreaterEqual)
    ||| is_kind(span, TokenKind::LessEqual)
    ||| is_kind(span, TokenKind::Or)
    ||| is_kind(span, TokenKind::And)
}

/// Each piece is what stands at the front of the text from its start on.
proof fn lemma_span(bytes: Seq<u8>, start: int, i: int)
    requires
        0 <= start,
        0 <= i < pieces(bytes, start).len(),
    ensures
        ({
            let span = pieces(bytes, start)[i];
            &&& 0 <= span.start < span.end <= bytes.len()
            &&& span.piece == piece(bytes.skip(span.start)).0
            &&& span.end == span.start + piece(bytes.skip(span.start)).1
        }),
    decreases i,
{
    let (found, width) = piece(bytes.skip(start));
    lemma_piece(bytes.skip(start));
    if i > 0 {
        assert(pieces(bytes, start)[i] == pieces(bytes, start + width)[i - 1]);
        lemma_span(bytes, start + width, i - 1);
    }
}

/// The run of a class in the middle of a text.
proof fn lemma_run_at(bytes: Seq<u8>, start: int, class: Class)
    requires
        0 <= start <= bytes.len(),
    ensures
        ({
            let n = run(bytes.skip(start), class);
            &&& start + n <= bytes.len()
            &&& forall|k: int| start <= k < start + n ==> class.holds(#[trigger] bytes[k])
            &&& start + n < bytes.len() ==> !class.holds(bytes[start + n])
        }),
{
    let here = bytes.skip(start);
    let n = run(here, class);
    lemma_run(here, class);
    assert forall|k: int| start <= k < start + n implies class.holds(#[trigger] bytes[k]) by {
        assert(bytes[k] == here[k - start]);
    }
}

/// A word begins where a byte stands that names begin with. It holds all bytes of names that
/// follow, and no others.
pub proof fn words_are_whole(bytes: Seq<u8>, i: int)
    requires
        0 <= i < pieces(bytes, 0).len(),
    ensures
        ({
            let span = pieces(bytes, 0)[i];
            &&& is_word(span) <==> begins_word(bytes[span.start])
            &&& is_word(span) ==> {
                &&& forall|k: int| span.start <= k < span.end ==> in_word(#[trigger] bytes[k])
                &&& span.end < bytes.len() ==> !in_word(bytes[span.end])
            }
        }),
{
    lemma_span(bytes, 0, i);
    let span = pieces(bytes, 0)[i];
    let here = bytes.skip(span.start);
    assert(here[0] == bytes[span.start]);
    lemma_run_at(bytes, span.start, Class::Word);
}

/// The keywords are `let`, `fn`, `if`, `else`, `for`, `impl` and `struct`. Every other word is a
/// name.
pub proof fn keywords_are_listed(bytes: Seq<u8>, i: int)
    requires
        0 <= i < pieces(bytes, 0).len(),
        is_word(pieces(bytes, 0)[i]),
    ensures
        ({
            let span = pieces(bytes, 0)[i];
            let word = bytes.subrange(span.start, span.end);
            &&& is_kind(span, TokenKind::Let) <==> word == encode_utf8("let"@)
            &&& is_kind(span, TokenKind::Fn) <==> word == encode_utf8("fn"@)
            &&& is_kind(span, TokenKind::If) <==> word == encode_utf8("if"@)
            &&& is_kind(span, TokenKind::Else) <==> word == encode_utf8("else"@)
            &&& is_kind(span, TokenKind::For) <==> word == encode_utf8("for"@)
            &&& is_kind(span, TokenKind::Impl) <==> word == encode_utf8("impl"@)
            &&& is_kind(span, TokenKind::Struct) <==> word == encode_utf8("struct"@)
        }),
{
    lemma_span(bytes, 0, i);
    words_are_whole(bytes, i);
    let span = pieces(bytes, 0)[i];
    let here = bytes.skip(span.start);
    let word = bytes.subrange(span.start, span.end);
    assert(here[0] == bytes[span.start]);
    assert(here.take(span.end - span.start) =~= word);
    assert(span.piece == Piece::Token(word_kind(word)));
    lemma_keywords_differ();
}

proof fn lemma_keywords_differ()
    ensures
        encode_utf8("let"@).len() == 3,
        encode_utf8("let"@)[0] == 'l' as u8,
        encode_utf8("fn"@).len() == 2,
        encode_utf8("fn"@)[0] == 'f' as u8,
        encode_utf8("if"@).len() == 2,
        encode_utf8("if"@)[0] == 'i' as u8,
        encode_utf8("else"@).len() == 4,
        encode_utf8("else"@)[0] == 'e' as u8,
        encode_utf8("for"@).len() == 3,
        encode_utf8("for"@)[0] == 'f' as u8,
        encode_utf8("impl"@).len() == 4,
        encode_utf8("impl"@)[0] == 'i' as u8,
        encode_utf8("struct"@).len() == 6,
{
    reveal_strlit("let");
    reveal_strlit("fn");
    reveal_strlit("if");
    reveal_strlit("else");
    reveal_strlit("for");
    reveal_strlit("impl");
    reveal_strlit("struct");
    is_ascii_chars_encode_utf8("let"@);
    is_ascii_chars_encode_utf8("fn"@);
    is_ascii_chars_encode_utf8("if"@);
    is_ascii_chars_encode_utf8("else"@);
    is_ascii_chars_encode_utf8("for"@);
    is_ascii_chars_encode_utf8("impl"@);
    is_ascii_chars_encode_utf8("struct"@);
}

/// A number begins with a digit, and holds all digits that follow. If a `.` stands behind them
/// with a digit behind it, the number goes on with the `.` and all digits behind it.
pub proof fn numbers_are_whole(bytes: Seq<u8>, i: int)
    requires
        0 <= i < pieces(bytes, 0).len(),
    ensures
        ({
            let span = pieces(bytes, 0)[i];
            &&& is_number(span) <==> in_number(bytes[span.start])
            &&& is_number(span) && span.end < bytes.len() ==> !in_number(bytes[span.end])
            &&& is_kind(span, TokenKind::Number) ==> {
                &&& forall|k: int| span.start <= k < span.end ==> in_number(#[trigger] bytes[k])
                &&& stands(bytes, span.end, '.') && span.end + 1 < bytes.len() ==> !in_number(
                    bytes[span.end + 1],
                )
            }
            &&& is_kind(span, TokenKind::Float) ==> exists|dot: int|
                {
                    &&& span.start < dot < span.end - 1
                    &&& #[trigger] stands(bytes, dot, '.')
                    &&& forall|k: int|
                        span.start <= k < span.end && k != dot ==> in_number(#[trigger] bytes[k])
                }
        }),
{
    lemma_span(bytes, 0, i);
    let span = pieces(bytes, 0)[i];
    let here = bytes.skip(span.start);
    assert(here[0] == bytes[span.start]);
    words_are_whole(bytes, i);
    lemma_run_at(bytes, span.start, Class::Digit);
    let whole = run(here, Class::Digit);
    let dot = span.start + whole;
    if in_number(bytes[span.start]) && dot < bytes.len() {
        assert(here[whole as int] == bytes[dot]);
        assert(here.skip(whole as int + 1) =~= bytes.skip(dot + 1));
        lemma_run_at(bytes, dot + 1, Class::Digit);
        if is_kind(span, TokenKind::Float) {
            assert(stands(bytes, dot, '.'));
        }
    }
}

/// The symbols. One of two bytes is never read as two symbols.
pub proof fn symbols_are_listed(bytes: Seq<u8>, i: int)
    requires
        0 <= i < pieces(bytes, 0).len(),
    ensures
        ({
            let span = pieces(bytes, 0)[i];
            let s = span.start;
            &&& is_kind(span, TokenKind::LeftParen) <==> stands(bytes, s, '(')
            &&& is_kind(span, TokenKind::RightParen) <==> stands(bytes, s, ')')
            &&& is_kind(span, TokenKind::LeftBrace) <==> stands(bytes, s, '{')
            &&& is_kind(span, TokenKind::RightBrace) <==> stands(bytes, s, '}')
            &&& is_kind(span, TokenKind::Comma) <==> stands(bytes, s, ',')
            &&& is_kind(span, TokenKind::Colon) <==> stands(bytes, s, ':')
            &&& is_kind(span, TokenKind::Semicolon) <==> stands(bytes, s, ';')
            &&& is_kind(span, TokenKind::Plus) <==> stands(bytes, s, '+')
            &&& is_kind(span, TokenKind::Star) <==> stands(bytes, s, '*')
            &&& is_kind(span, TokenKind::Slash) <==> stands(bytes, s, '/')
            &&& is_kind(span, TokenKind::Arrow) <==> pair_stands(bytes, s, '-', '>')
            &&& is_kind(span, TokenKind::Minus) <==> alone_stands(bytes, s, '-', '>')
            &&& is_kind(span, TokenKind::EqualEqual) <==> pair_stands(bytes, s, '=', '=')
            &&& is_kind(span, TokenKind::Equal) <==> alone_stands(bytes, s, '=', '=')
            &&& is_kind(span, TokenKind::GreaterEqual) <==> pair_stands(bytes, s, '>', '=')
            &&& is_kind(span, TokenKind::Greater) <==> alone_stands(bytes, s, '>', '=')
            &&& is_kind(span, TokenKind::LessEqual) <==> pair_stands(bytes, s, '<', '=')
            &&& is_kind(span, TokenKind::Less) <==> alone_stands(bytes, s, '<', '=')
            &&& is_kind(span, TokenKind::Or) <==> pair_stands(bytes, s, '|', '|')
            &&& is_kind(span, TokenKind::And) <==> pair_stands(bytes, s, '&', '&')
            &&& span.piece is Token && !is_word(span) && !is_number(span) ==> span.end == s + (
            if is_pair(span) {
                2int
            } else {
                1
            })
        }),
{
    lemma_span(bytes, 0, i);
    let span = pieces(bytes, 0)[i];
    let here = bytes.skip(span.start);
    assert(here[0] == bytes[span.start]);
    if here.len() > 1 {
        assert(here[1] == bytes[span.start + 1]);
    }
    words_are_whole(bytes, i);
    numbers_are_whole(bytes, i);
}

/// White space is a space, a tab, a line feed or a carriage return, each a piece of its own.
/// Nothing is stray but a character that neither a word, nor a number, nor a symbol begins with;
/// and all of the character is.
pub proof fn strays_are_whole(bytes: Seq<u8>, i: int)
    requires
        0 <= i < pieces(bytes, 0).len(),
    ensures
        ({
            let span = pieces(bytes, 0)[i];
            let s = span.start;
            let c = bytes[s] as char;
            let blank = c == ' ' || c == '\t' || c == '\n' || c == '\r';
            let symbol = {
                ||| c == '(' || c == ')' || c == '{' || c == '}'
                ||| c == ',' || c == ':' || c == ';'
                ||| c == '=' || c == '>' || c == '<'
                ||| c == '+' || c == '-' || c == '*' || c == '/'
                ||| pair_stands(bytes, s, '|', '|')
                ||| pair_stands(bytes, s, '&', '&')
            };
            &&& span.piece is Blank <==> blank
            &&& span.piece is Blank ==> span.end == s + 1
            &&& span.piece is Stray <==> !blank && !symbol && !in_word(bytes[s])
            &&& span.piece is Stray ==> {
                &&& forall|k: int| s < k < span.end ==> 0x80 <= #[trigger] bytes[k] <= 0xbf
                &&& span.end < bytes.len() ==> !(0x80 <= bytes[span.end] <= 0xbf)
            }
        }),
{
    lemma_span(bytes, 0, i);
    let span = pieces(bytes, 0)[i];
    let here = bytes.skip(span.start);
    assert(here[0] == bytes[span.start]);
    if here.len() > 1 {
        assert(here[1] == bytes[span.start + 1]);
    }
    assert(here.drop_first() =~= bytes.skip(span.start + 1));
    lemma_run_at(bytes, span.start + 1, Class::Continuation);
    words_are_whole(bytes, i);
    numbers_are_whole(bytes, i);
}

/// Every token is a piece of the text, and every piece that is a token is one of the tokens; and
/// so for strays.
pub proof fn tokens_are_pieces(bytes: Seq<u8>)
    ensures
        forall|span: Span|
            #[trigger] tokens(bytes).contains(span) <==> pieces(bytes, 0).contains(span)
                && span.piece is Token,
        forall|span: Span|
            #[trigger] strays(bytes).contains(span) <==> pieces(bytes, 0).contains(span)
                && span.piece is Stray,
{
    lemma_filtered(pieces(bytes, 0), |span: Span| span.piece is Token);
    lemma_filtered(pieces(bytes, 0), |span: Span| span.piece is Stray);
}

proof fn lemma_filtered(spans: Seq<Span>, keep: spec_fn(Span) -> bool)
    ensures
        forall|span: Span|
            #[trigger] spans.filter(keep).contains(span) <==> spans.contains(span) && keep(span),
    decreases spans.len(),
{
    reveal(Seq::filter);
    if spans.len() > 0 {
        let init = spans.drop_last();
        let last = spans.last();
        lemma_filtered(init, keep);
        assert(spans =~= init.push(last));
        assert forall|span: Span|
            #[trigger] spans.filter(keep).contains(span) == (spans.contains(span) && keep(span)) by {
            let kept = init.filter(keep);
            assert(init.push(last).contains(span) == (init.contains(span) || span == last)) by {
                if init.contains(span) {
                    let k = init.index_of(span);
                    assert(init.push(last)[k] == span);
                }
                if span == last {
                    assert(init.push(last)[init.len() as int] == span);
                }
            }
            assert(kept.push(last).contains(span) == (kept.contains(span) || span == last)) by {
                if kept.contains(span) {
                    let k = kept.index_of(span);
                    assert(kept.push(last)[k] == span);
                }
                if span == last {
                    assert(kept.push(last)[kept.len() as int] == span);
                }
            }
            assert(kept.contains(span) == (init.contains(span) && keep(span)));
        }
    }
}

/// Between two words there is something else.
pub proof fn words_do_not_touch(bytes: Seq<u8>, i: int, j: int)
    requires
        0 <= i < pieces(bytes, 0).len(),
        0 <= j < pieces(bytes, 0).len(),
        is_word(pieces(bytes, 0)[i]),
        is_word(pieces(bytes, 0)[j]),
    ensures
        pieces(bytes, 0)[i].end != pieces(bytes, 0)[j].start,
{
    words_are_whole(bytes, i);
    words_are_whole(bytes, j);
    lemma_span(bytes, 0, j);
}

/// The tokens of a text, one by one: each is what stands in the text from its start on, as far as
/// its text reaches.
pub proof fn lexemes_are_the_text<'de>(toks: Seq<Token<'de>>, bytes: Seq<u8>, i: int)
    requires
        is_lexed(toks, bytes),
        bytes.len() <= usize::MAX,
        0 <= i < toks.len(),
    ensures
        ({
            let start = toks[i].start as int;
            let end = start + toks[i].lexeme.len();
            &&& start < end <= bytes.len()
            &&& encode_utf8(toks[i].lexeme@) == bytes.subrange(start, end)
            &&& pieces(bytes, 0).contains(Span { piece: Piece::Token(toks[i].kind), start, end })
            &&& i > 0 ==> toks[i - 1].start + toks[i - 1].lexeme.len() <= start
        }),
{
    let span = tokens(bytes)[i];
    tokens_follow_the_text(bytes);
    tokens_are_pieces(bytes);
    assert(covers(toks[i], span, bytes));
    assert(tokens(bytes).contains(span));
    if i > 0 {
        assert(covers(toks[i - 1], tokens(bytes)[i - 1], bytes));
    }
}

/// The places that are noted as stray are those of the characters that are, each as wide as the
/// character.
pub proof fn stray_places_are_the_text(places: Seq<Ctxt>, bytes: Seq<u8>, i: int)
    requires
        places.len() == strays(bytes).len(),
        forall|k: int|
            0 <= k < places.len() ==> is_place_of(#[trigger] places[k], strays(bytes)[k]),
        0 <= i < places.len(),
    ensures
        ({
            let start = places[i].start as int;
            let end = start + places[i].width;
            &&& pieces(bytes, 0).contains(Span { piece: Piece::Stray, start, end })
            &&& places[i].site is None
        }),
{
    tokens_are_pieces(bytes);
    assert(is_place_of(places[i], strays(bytes)[i]));
    assert(strays(bytes).contains(strays(bytes)[i]));
}

} // verus!
