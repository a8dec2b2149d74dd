//! What the tokens of a text are.
use vstd::prelude::*;
use vstd::utf8::{
    encode_utf8, is_char_boundary, is_char_boundary_iff_not_is_continuation_byte,
    is_char_boundary_start_end_of_seq, pop_first_scalar, valid_utf8,
};

use crate::token::TokenKind;

verus! {

/// A class of bytes.
#[derive(Clone, Copy, PartialEq, Eq, Debug, Structural)]
pub enum Class {
    /// What can stand in a name: letters, digits and `_`.
    Word,
    /// The decimal digits.
    Digit,
    /// What can follow the first byte of a character.
    Continuation,
}

impl Class {
    /// The byte is of the class.
    pub open spec fn holds(self, byte: u8) -> bool {
        match self {
            Class::Word => is_letter(byte) || is_digit(byte),
            Class::Digit => is_digit(byte),
            Class::Continuation => 0x80 <= byte <= 0xbf,
        }
    }

    fn has(self, byte: u8) -> (yes: bool)
        ensures
            yes == self.holds(byte),
    {
        let digit = '0' <= byte as char && byte as char <= '9';
        match self {
            Class::Word => digit || letter(byte),
            Class::Digit => digit,
            Class::Continuation => 0x80 <= byte && byte <= 0xbf,
        }
    }
}

/// A letter or `_`.
pub open spec fn is_letter(byte: u8) -> bool {
    let c = byte as char;
    'a' <= c <= 'z' || 'A' <= c <= 'Z' || c == '_'
}

fn letter(byte: u8) -> (yes: bool)
    ensures
        yes == is_letter(byte),
{
    let c = byte as char;
    ('a' <= c && c <= 'z') || ('A' <= c && c <= 'Z') || c == '_'
}

/// A decimal digit.
pub open spec fn is_digit(byte: u8) -> bool {
    '0' <= byte as char <= '9'
}

/// A space, a tab, a line feed or a carriage return.
pub open spec fn is_blank(byte: u8) -> bool {
    let c = byte as char;
    c == ' ' || c == '\t' || c == '\n' || c == '\r'
}

fn blank(byte: u8) -> (yes: bool)
    ensures
        yes == is_blank(byte),
{
    let c = byte as char;
    c == ' ' || c == '\t' || c == '\n' || c == '\r'
}

/// How many bytes of the class stand at the front.
pub open spec fn run(bytes: Seq<u8>, class: Class) -> nat
    decreases bytes.len(),
{
    if bytes.len() == 0 || !class.holds(bytes[0]) {
        0
    } else {
        run(bytes.drop_first(), class) + 1
    }
}

/// The kind of a word: that of a keyword, or a name.
pub open spec fn word_kind(word: Seq<u8>) -> TokenKind {
    if word == encode_utf8("let"@) {
        TokenKind::Let
    } else if word == encode_utf8("fn"@) {
        TokenKind::Fn
    } else if word == encode_utf8("if"@) {
        TokenKind::If
    } else if word == encode_utf8("else"@) {
        TokenKind::Else
    } else if word == encode_utf8("for"@) {
        TokenKind::For
    } else if word == encode_utf8("impl"@) {
        TokenKind::Impl
    } else if word == encode_utf8("struct"@) {
        TokenKind::Struct
    } else {
        TokenKind::Ident
    }
}

/// The kind of the symbol that is made of two bytes.
pub open spec fn pair_kind(first: char, second: char) -> Option<TokenKind> {
    if first == '-' && second == '>' {
        Some(TokenKind::Arrow)
    } else if first == '=' && second == '=' {
        Some(TokenKind::EqualEqual)
    } else if first == '>' && second == '=' {
        Some(TokenKind::GreaterEqual)
    } else if first == '<' && second == '=' {
        Some(TokenKind::LessEqual)
    } else if first == '|' && second == '|' {
        Some(TokenKind::Or)
    } else if first == '&' && second == '&' {
        Some(TokenKind::And)
    } else {
        None
    }
}

/// The kind of the symbol that is made of one byte.
pub open spec fn single_kind(c: char) -> Option<TokenKind> {
    if c == '(' {
        Some(TokenKind::LeftParen)
    } else if c == ')' {
        Some(TokenKind::RightParen)
    } else if c == '{' {
        Some(TokenKind::LeftBrace)
    } else if c == '}' {
        Some(TokenKind::RightBrace)
    } else if c == ',' {
        Some(TokenKind::Comma)
    } else if c == ':' {
        Some(TokenKind::Colon)
    } else if c == ';' {
        Some(TokenKind::Semicolon)
    } else if c == '=' {
        Some(TokenKind::Equal)
    } else if c == '>' {
        Some(TokenKind::Greater)
    } else if c == '<' {
        Some(TokenKind::Less)
    } else if c == '+' {
        Some(TokenKind::Plus)
    } else if c == '-' {
        Some(TokenKind::Minus)
    } else if c == '*' {
        Some(TokenKind::Star)
    } else if c == '/' {
        Some(TokenKind::Slash)
    } else {
        None
    }
}

/// What stands at the front of a text.
#[derive(Clone, Copy, PartialEq, Eq, Debug, Structural)]
pub enum Piece {
    /// White space.
    Blank,
    /// A character that no token starts with.
    Stray,
    /// A token.
    Token(TokenKind),
}

/// What stands at the front of a text, and how many bytes of it.
pub open spec fn piece(bytes: Seq<u8>) -> (Piece, nat)
    recommends
        bytes.len() > 0,
{
    let first = bytes[0];
    if is_blank(first) {
        (Piece::Blank, 1)
    } else if is_letter(first) {
        let width = run(bytes, Class::Word);
        (Piece::Token(word_kind(bytes.take(width as int))), width)
    } else if is_digit(first) {
        let whole = run(bytes, Class::Digit);
        let fraction = run(bytes.skip(whole as int + 1), Class::Digit);
        if whole < bytes.len() && bytes[whole as int] as char == '.' && fraction > 0 {
            (Piece::Token(TokenKind::Float), whole + 1 + fraction)
        } else {
            (Piece::Token(TokenKind::Number), whole)
        }
    } else if bytes.len() > 1 && pair_kind(first as char, bytes[1] as char) is Some {
        (Piece::Token(pair_kind(first as char, bytes[1] as char)->0), 2)
    } else if single_kind(first as char) is Some {
        (Piece::Token(single_kind(first as char)->0), 1)
    } else {
        (Piece::Stray, run(bytes.drop_first(), Class::Continuation) + 1)
    }
}

/// A piece of a text, from the byte at `start` up to the byte at `end`.
pub struct Span {
    pub piece: Piece,
    pub start: int,
    pub end: int,
}

/// The pieces of a text from the byte at `start` on.
pub open spec fn pieces(bytes: Seq<u8>, start: int) -> Seq<Span>
    decreases bytes.len() - start via pieces_end
{
    if 0 <= start < bytes.len() {
        let (piece, width) = piece(bytes.skip(start));
        seq![Span { piece, start, end: start + width }] + pieces(bytes, start + width)
    } else {
        Seq::empty()
    }
}

#[via_fn]
proof fn pieces_end(bytes: Seq<u8>, start: int) {
    if 0 <= start < bytes.len() {
        lemma_piece(bytes.skip(start));
    }
}

pub proof fn lemma_run(bytes: Seq<u8>, class: Class)
    ensures
        run(bytes, class) <= bytes.len(),
        forall|i: int| 0 <= i < run(bytes, class) ==> class.holds(#[trigger] bytes[i]),
        run(bytes, class) < bytes.len() ==> !class.holds(bytes[run(bytes, class) as int]),
    decreases bytes.len(),
{
    if bytes.len() > 0 && class.holds(bytes[0]) {
        let tail = bytes.drop_first();
        lemma_run(tail, class);
        assert forall|i: int| 0 <= i < run(bytes, class) implies class.holds(
            #[trigger] bytes[i],
        ) by {
            if i > 0 {
                assert(bytes[i] == tail[i - 1]);
            }
        }
    }
}

/// Every piece has a byte, and ends inside the text.
pub proof fn lemma_piece(bytes: Seq<u8>)
    requires
        bytes.len() > 0,
    ensures
        0 < piece(bytes).1 <= bytes.len(),
{
    let whole = run(bytes, Class::Digit);
    lemma_run(bytes, Class::Word);
    lemma_run(bytes, Class::Digit);
    lemma_run(bytes.drop_first(), Class::Continuation);
    if whole < bytes.len() {
        lemma_run(bytes.skip(whole as int + 1), Class::Digit);
    }
}

/// Behind bytes that are characters of their own another character starts.
proof fn lemma_ascii_boundary(bytes: Seq<u8>, n: int)
    requires
        valid_utf8(bytes),
        0 <= n <= bytes.len(),
        forall|i: int| 0 <= i < n ==> #[trigger] bytes[i] < 0x80,
    ensures
        is_char_boundary(bytes, n),
    decreases n,
{
    if n > 0 {
        assert(bytes[0] < 0x80);
        let tail = pop_first_scalar(bytes);
        assert(tail =~= bytes.skip(1));
        assert forall|i: int| 0 <= i < n - 1 implies #[trigger] tail[i] < 0x80 by {
            assert(tail[i] == bytes[i + 1]);
        }
        lemma_ascii_boundary(tail, n - 1);
    }
}

/// No piece ends inside a character.
pub proof fn lemma_piece_boundary(bytes: Seq<u8>)
    requires
        bytes.len() > 0,
        valid_utf8(bytes),
    ensures
        is_char_boundary(bytes, piece(bytes).1 as int),
{
    let (found, width) = piece(bytes);
    let whole = run(bytes, Class::Digit);
    lemma_piece(bytes);
    lemma_run(bytes, Class::Word);
    lemma_run(bytes, Class::Digit);
    if found is Stray {
        let tail = bytes.drop_first();
        lemma_run(tail, Class::Continuation);
        if width == bytes.len() {
            is_char_boundary_start_end_of_seq(bytes);
        } else {
            assert(bytes[width as int] == tail[width - 1]);
            is_char_boundary_iff_not_is_continuation_byte(bytes, width as int);
        }
    } else {
        assert forall|i: int| 0 <= i < width implies #[trigger] bytes[i] < 0x80 by {
            if found == Piece::Token(TokenKind::Float) && i > whole {
                let fraction = bytes.skip(whole as int + 1);
                lemma_run(fraction, Class::Digit);
                assert(bytes[i] == fraction[i - whole - 1]);
            }
        }
        lemma_ascii_boundary(bytes, width as int);
    }
}

/// The bytes of the class from `from` on.
fn count(bytes: &[u8], from: usize, class: Class) -> (n: usize)
    requires
        from <= bytes@.len(),
    ensures
        n == run(bytes@.skip(from as int), class),
        from + n <= bytes@.len(),
{
    let len: usize = bytes.len();
    let mut n: usize = 0;
    while from + n < len && class.has(bytes[from + n])
        invariant
            from + n <= len == bytes@.len(),
            run(bytes@.skip(from as int), class) == n + run(bytes@.skip(from + n), class),
        ensures
            run(bytes@.skip(from + n), class) == 0,
        decreases len - from - n,
    {
        proof {
            let here = bytes@.skip(from + n);
            assert(here[0] == bytes@[from + n]);
            assert(here.drop_first() =~= bytes@.skip(from + n + 1));
        }
        n += 1;
    }
    n
}

/// The first `n` bytes are those of `word`.
fn is_same(bytes: &[u8], n: usize, word: &str) -> (yes: bool)
    requires
        n <= bytes@.len(),
    ensures
        yes == (bytes@.take(n as int) == encode_utf8(word@)),
{
    let other = word.as_bytes();
    if n != other.len() {
        return false;
    }
    let mut i: usize = 0;
    while i < n
        invariant
            i <= n <= bytes@.len(),
            n == other@.len(),
            other@ == encode_utf8(word@),
            forall|j: int| 0 <= j < i ==> bytes@[j] == other@[j],
        decreases n - i,
    {
        if bytes[i] != other[i] {
            assert(bytes@.take(n as int)[i as int] != other@[i as int]);
            return false;
        }
        i += 1;
    }
    assert(bytes@.take(n as int) =~= other@);
    true
}

fn kind_of_word(bytes: &[u8], n: usize) -> (kind: TokenKind)
    requires
        n <= bytes@.len(),
    ensures
        kind == word_kind(bytes@.take(n as int)),
{
    if is_same(bytes, n, "let") {
        TokenKind::Let
    } else if is_same(bytes, n, "fn") {
        TokenKind::Fn
    } else if is_same(bytes, n, "if") {
        TokenKind::If
    } else if is_same(bytes, n, "else") {
        TokenKind::Else
    } else if is_same(bytes, n, "for") {
        TokenKind::For
    } else if is_same(bytes, n, "impl") {
        TokenKind::Impl
    } else if is_same(bytes, n, "struct") {
        TokenKind::Struct
    } else {
        TokenKind::Ident
    }
}

fn kind_of_pair(first: u8, second: u8) -> (kind: Option<TokenKind>)
    ensures
        kind == pair_kind(first as char, second as char),
{
    match (first as char, second as char) {
        ('-', '>') => Some(TokenKind::Arrow),
        ('=', '=') => Some(TokenKind::EqualEqual),
        ('>', '=') => Some(TokenKind::GreaterEqual),
        ('<', '=') => Some(TokenKind::LessEqual),
        ('|', '|') => Some(TokenKind::Or),
        ('&', '&') => Some(TokenKind::And),
        _ => None,
    }
}

fn kind_of_single(byte: u8) -> (kind: Option<TokenKind>)
    ensures
        kind == single_kind(byte as char),
{
    match byte as char {
        '(' => Some(TokenKind::LeftParen),
        ')' => Some(TokenKind::RightParen),
        '{' => Some(TokenKind::LeftBrace),
        '}' => Some(TokenKind::RightBrace),
        ',' => Some(TokenKind::Comma),
        ':' => Some(TokenKind::Colon),
        ';' => Some(TokenKind::Semicolon),
        '=' => Some(TokenKind::Equal),
        '>' => Some(TokenKind::Greater),
        '<' => Some(TokenKind::Less),
        '+' => Some(TokenKind::Plus),
        '-' => Some(TokenKind::Minus),
        '*' => Some(TokenKind::Star),
        '/' => Some(TokenKind::Slash),
        _ => None,
    }
}

/// Finds what stands at the front of a text, and how many bytes of it.
pub fn next_piece(bytes: &[u8]) -> (found: (Piece, usize))
    requires
        bytes@.len() > 0,
    ensures
        found.0 == piece(bytes@).0,
        found.1 == piece(bytes@).1,
{
    let first = bytes[0];
    assert(bytes@.skip(0) =~= bytes@);
    if blank(first) {
        (Piece::Blank, 1)
    } else if letter(first) {
        let width: usize = count(bytes, 0, Class::Word);
        (Piece::Token(kind_of_word(bytes, width)), width)
    } else if Class::Digit.has(first) {
        let whole: usize = count(bytes, 0, Class::Digit);
        if whole < bytes.len() && bytes[whole] as char == '.' {
            let fraction: usize = count(bytes, whole + 1, Class::Digit);
            if fraction > 0 {
                return (Piece::Token(TokenKind::Float), whole + 1 + fraction);
            }
        }
        (Piece::Token(TokenKind::Number), whole)
    } else {
        if bytes.len() > 1 {
            if let Some(kind) = kind_of_pair(first, bytes[1]) {
                return (Piece::Token(kind), 2);
            }
        }
        match kind_of_single(first) {
            Some(kind) => (Piece::Token(kind), 1),
            None => {
                assert(bytes@.skip(1) =~= bytes@.drop_first());
                (Piece::Stray, count(bytes, 1, Class::Continuation) + 1)
            },
        }
    }
}

} // verus!
