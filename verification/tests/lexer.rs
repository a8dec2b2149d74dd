use compiler::ast::OpKind;
use compiler::lexer::Lexer;
use compiler::source_map::{Ctxt, Site, SourceMap};
use compiler::token::TokenKind;

fn kinds(text: &str) -> Vec<TokenKind> {
    let source_map = SourceMap::new(text.to_string());
    let mut lexer = Lexer::new(&source_map);
    let mut kinds = vec![];
    while let Some(tok) = lexer.next() {
        assert_eq!(&text[tok.start..tok.start + tok.lexeme.len()], tok.lexeme);
        kinds.push(tok.kind);
    }
    kinds
}

#[test]
fn keywords_and_names() {
    assert_eq!(
        kinds("let fn if else for impl struct lets f _x9 Struct"),
        vec![
            TokenKind::Let,
            TokenKind::Fn,
            TokenKind::If,
            TokenKind::Else,
            TokenKind::For,
            TokenKind::Impl,
            TokenKind::Struct,
            TokenKind::Ident,
            TokenKind::Ident,
            TokenKind::Ident,
            TokenKind::Ident,
        ]
    );
}

#[test]
fn symbols() {
    assert_eq!(
        kinds("(){},:;->===|| &&>>=<<=+-*/"),
        vec![
            TokenKind::LeftParen,
            TokenKind::RightParen,
            TokenKind::LeftBrace,
            TokenKind::RightBrace,
            TokenKind::Comma,
            TokenKind::Colon,
            TokenKind::Semicolon,
            TokenKind::Arrow,
            TokenKind::EqualEqual,
            TokenKind::Equal,
            TokenKind::Or,
            TokenKind::And,
            TokenKind::Greater,
            TokenKind::GreaterEqual,
            TokenKind::Less,
            TokenKind::LessEqual,
            TokenKind::Plus,
            TokenKind::Minus,
            TokenKind::Star,
            TokenKind::Slash,
        ]
    );
}

#[test]
fn numbers() {
    assert_eq!(kinds("0 12 3.25"), vec![TokenKind::Number, TokenKind::Number, TokenKind::Float]);
    // A `.` without a digit behind it is no part of a number.
    assert_eq!(kinds("7."), vec![TokenKind::Number]);
    assert_eq!(kinds("7.x"), vec![TokenKind::Number, TokenKind::Ident]);
    assert_eq!(kinds("1a"), vec![TokenKind::Number, TokenKind::Ident]);
}

#[test]
fn stray_characters_are_noted() {
    let source_map = SourceMap::new("a é\u{1F600}b | c".to_string());
    let mut lexer = Lexer::new(&source_map);
    assert_eq!(
        lexer.strays(),
        &vec![
            Ctxt { start: 2, width: 2, site: None },
            Ctxt { start: 4, width: 4, site: None },
            Ctxt { start: 10, width: 1, site: None },
        ]
    );
    let a = lexer.next().unwrap();
    assert_eq!((a.lexeme, a.start), ("a", 0));
    let b = lexer.peek().unwrap();
    assert_eq!((b.lexeme, b.start), ("b", 8));
    let b = lexer.next().unwrap();
    assert_eq!((b.lexeme, b.start), ("b", 8));
    let c = lexer.next().unwrap();
    assert_eq!((c.lexeme, c.start), ("c", 12));
    assert!(lexer.peek().is_none());
    assert!(lexer.next().is_none());
}

#[test]
fn tokens_strays_and_blanks_cover_the_text() {
    let text = "let  x=f(1.5)?;\té\n}";
    let source_map = SourceMap::new(text.to_string());
    let mut lexer = Lexer::new(&source_map);
    let mut covered = vec![0; text.len()];
    for place in lexer.strays() {
        for i in place.start..place.start + place.width {
            covered[i] += 1;
        }
    }
    while let Some(tok) = lexer.next() {
        for i in tok.start..tok.start + tok.lexeme.len() {
            covered[i] += 1;
        }
    }
    for (i, byte) in text.bytes().enumerate() {
        assert_eq!(covered[i], if byte.is_ascii_whitespace() { 0 } else { 1 });
    }
}

#[test]
fn operators_of_tokens() {
    assert_eq!(OpKind::from_token(TokenKind::EqualEqual), Some(OpKind::Equal));
    assert_eq!(OpKind::from_token(TokenKind::Or), Some(OpKind::Or));
    assert_eq!(OpKind::from_token(TokenKind::And), Some(OpKind::And));
    assert_eq!(OpKind::from_token(TokenKind::Greater), Some(OpKind::Greater));
    assert_eq!(OpKind::from_token(TokenKind::GreaterEqual), Some(OpKind::GreaterEqual));
    assert_eq!(OpKind::from_token(TokenKind::Less), Some(OpKind::Less));
    assert_eq!(OpKind::from_token(TokenKind::LessEqual), Some(OpKind::LessEqual));
    assert_eq!(OpKind::from_token(TokenKind::Plus), Some(OpKind::Add));
    assert_eq!(OpKind::from_token(TokenKind::Minus), Some(OpKind::Sub));
    assert_eq!(OpKind::from_token(TokenKind::Star), Some(OpKind::Mult));
    assert_eq!(OpKind::from_token(TokenKind::Slash), Some(OpKind::Div));
    assert_eq!(OpKind::from_token(TokenKind::Equal), None);
    assert_eq!(OpKind::from_token(TokenKind::Ident), None);
}

#[test]
fn end_of_the_text() {
    let source_map = SourceMap::new("é;".to_string());
    assert_eq!(source_map.text(), "é;");
    let end = source_map.ctxt_from_end();
    assert_eq!(end, Ctxt { start: 3, width: 0, site: None });
    assert_eq!(end.with(Site::Peek), Ctxt { start: 3, width: 0, site: Some(Site::Peek) });
    let lexer = Lexer::new(&source_map);
    let semicolon = lexer.peek().unwrap();
    assert_eq!(source_map.ctxt_from_tok(&semicolon), Ctxt { start: 2, width: 1, site: None });
}
