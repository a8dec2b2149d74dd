use compiler::ast::OpKind;
use compiler::error::{Expected, ParseError, ParseErrorKind};
use compiler::interner::Interner;
use compiler::lexer::Lexer;
use compiler::parser::{infix_binding_power, Parser, State};
use compiler::red_node::Element;
use compiler::source_map::{Ctxt, Site, SourceMap};
use compiler::token::TokenKind;

/// A tree that does not borrow from the parser.
enum Shown {
    Text(String),
    Name(usize, usize),
    Node(String, Vec<Shown>),
}

fn own(elements: &[Element<'_>]) -> Vec<Shown> {
    elements
        .iter()
        .map(|element| match element {
            Element::Token(tok) => Shown::Text(tok.lexeme.to_string()),
            Element::Ident(ident) => Shown::Name(ident.sym, ident.width),
            Element::Node(kind, children) => Shown::Node(format!("{:?}", kind), own(children)),
        })
        .collect()
}

/// Writes a tree as its leaves, with each node in brackets behind its kind.
fn show(shown: &Shown, interner: &Interner) -> String {
    match shown {
        Shown::Text(text) => text.clone(),
        Shown::Name(sym, width) => {
            let name = interner.lookup(*sym).unwrap();
            assert_eq!(name.len(), *width);
            name.to_string()
        }
        Shown::Node(kind, children) => format!("({} {})", kind, show_all(children, interner)),
    }
}

fn show_all(shown: &[Shown], interner: &Interner) -> String {
    let parts: Vec<String> = shown.iter().map(|s| show(s, interner)).collect();
    parts.join(" ")
}

fn parse_owned(text: &str) -> (Vec<Shown>, Vec<ParseError>, Interner) {
    let source_map = SourceMap::new(text.to_string());
    let mut interner = Interner::with_capacity(4);
    let lexer = Lexer::new(&source_map);
    let mut parser = Parser::new(lexer, &source_map, &mut interner);
    let (tree, errors) = parser.parse();
    let shown = own(&tree.children);
    (shown, errors, interner)
}

fn parse(text: &str) -> (String, Vec<ParseError>) {
    let (shown, errors, interner) = parse_owned(text);
    (show_all(&shown, &interner), errors)
}

fn assert_tree(text: &str, expected: &str) {
    let (tree, errors) = parse(text);
    assert_eq!(errors, vec![]);
    assert_eq!(tree, expected);
}

fn error(kind: ParseErrorKind, start: usize, width: usize) -> ParseError {
    // No token is empty: only the end of the input has no width.
    let site = Some(if width == 0 { Site::Peek } else { Site::MakeErr });
    ParseError { kind, ctxt: Some(Ctxt { start, width, site }) }
}

#[test]
fn empty_input_is_a_program() {
    assert_tree("", "");
    assert_tree(" \n\t\r ", "");
}

#[test]
fn binding_powers() {
    assert_eq!(infix_binding_power(&OpKind::Equal), (1, 2));
    assert_eq!(infix_binding_power(&OpKind::Or), (3, 4));
    assert_eq!(infix_binding_power(&OpKind::And), (5, 6));
    assert_eq!(infix_binding_power(&OpKind::Greater), (7, 8));
    assert_eq!(infix_binding_power(&OpKind::GreaterEqual), (7, 8));
    assert_eq!(infix_binding_power(&OpKind::Less), (7, 8));
    assert_eq!(infix_binding_power(&OpKind::LessEqual), (7, 8));
    assert_eq!(infix_binding_power(&OpKind::Add), (9, 10));
    assert_eq!(infix_binding_power(&OpKind::Sub), (9, 10));
    assert_eq!(infix_binding_power(&OpKind::Mult), (11, 12));
    assert_eq!(infix_binding_power(&OpKind::Div), (11, 12));
}

#[test]
fn tighter_operators_group_first() {
    assert_tree(
        "x = 1 + 2 * 3;",
        "(Assignment x = (BinExpr (AtomExpr 1) + (BinExpr (AtomExpr 2) * (AtomExpr 3))) ;)",
    );
    assert_tree(
        "x = 1 * 2 + 3;",
        "(Assignment x = (BinExpr (BinExpr (AtomExpr 1) * (AtomExpr 2)) + (AtomExpr 3)) ;)",
    );
    assert_tree(
        "x = a || b && c <= d == e;",
        "(Assignment x = (BinExpr (BinExpr (AtomExpr a) || (BinExpr (AtomExpr b) && \
         (BinExpr (AtomExpr c) <= (AtomExpr d)))) == (AtomExpr e)) ;)",
    );
}

#[test]
fn equal_operators_group_to_the_left() {
    assert_tree(
        "x = 1 - 2 - 3;",
        "(Assignment x = (BinExpr (BinExpr (AtomExpr 1) - (AtomExpr 2)) - (AtomExpr 3)) ;)",
    );
    assert_tree(
        "x = 8 / 4 * 2;",
        "(Assignment x = (BinExpr (BinExpr (AtomExpr 8) / (AtomExpr 4)) * (AtomExpr 2)) ;)",
    );
}

#[test]
fn calls() {
    assert_tree(
        "x = f(1, g()) + y;",
        "(Assignment x = (BinExpr (FnApp f (ParamList ( (AtomExpr 1) , \
         (FnApp g (ParamList ( ))) ))) + (AtomExpr y)) ;)",
    );
}

#[test]
fn declarations() {
    assert_tree("let x;", "(Declaration let x ;)");
    assert_tree("let x = 2.5;", "(Declaration let x = (AtomExpr 2.5) ;)");
}

#[test]
fn typed_declaration_is_reported() {
    let (tree, errors) = parse("let x: T = 5; let y;");
    assert_eq!(tree, "let x : T (Error 5 ;) (Declaration let y ;)");
    assert_eq!(
        errors,
        vec![error(
            ParseErrorKind::ExpFound(
                vec![TokenKind::Semicolon, TokenKind::Equal],
                "=".to_string()
            ),
            9,
            1
        )]
    );
}

#[test]
fn functions() {
    assert_tree("fn f() { }", "(FnDecl fn f ( ) (Block { }))");
    assert_tree(
        "fn f(a: A, b: B) -> C { let x; }",
        "(FnDecl fn f ( (Param a : A ,) (Param b : B) ) -> C (Block { (Declaration let x ;) }))",
    );
    assert_tree(
        "fn f(a: A,) { }",
        "(FnDecl fn f ( (Param a : A ,) ) (Block { }))",
    );
}

#[test]
fn branches() {
    assert_tree(
        "if (a > 1) { } else if (b) { x = 1; } else { }",
        "(If if ( (BinExpr (AtomExpr a) > (AtomExpr 1)) ) (Block { }) else \
         (If if ( (AtomExpr b) ) (Block { (Assignment x = (AtomExpr 1) ;) }) else (Block { })))",
    );
    assert_tree(
        "if (a) { } let x;",
        "(If if ( (AtomExpr a) ) (Block { })) (Declaration let x ;)",
    );
}

#[test]
fn loops() {
    assert_tree(
        "for (i = 0; i < 9; i = i + 1) { }",
        "for ( i = (AtomExpr 0) ; (BinExpr (AtomExpr i) < (AtomExpr 9)) ; \
         (Assignment i = (BinExpr (AtomExpr i) + (AtomExpr 1))) ) (Block { })",
    );
    assert_tree(
        "for (i: Int = 0; i; i = 1) { let x; }",
        "for ( i : Int = (AtomExpr 0) ; (AtomExpr i) ; (Assignment i = (AtomExpr 1)) ) \
         (Block { (Declaration let x ;) })",
    );
}

#[test]
fn structs_and_impls() {
    assert_tree("struct A { }", "(Struct struct A { })");
    assert_tree(
        "struct A { x: T, y: U, }",
        "(Struct struct A { (Param x : T ,) (Param y : U ,) })",
    );
    assert_tree(
        "impl A { fn f() { } fn g() { } }",
        "(Impl impl A { (FnDecl fn f ( ) (Block { })) (FnDecl fn g ( ) (Block { })) })",
    );
}

#[test]
fn any_token_starts_a_function_inside_an_impl() {
    assert_tree("impl A { let f() { } }", "(Impl impl A { (FnDecl let f ( ) (Block { })) })");
}

#[test]
fn commas_behind_parameters_are_optional() {
    assert_tree("struct A { x: T }", "(Struct struct A { (Param x : T) })");
    assert_tree(
        "struct A { x: T y: U, z: V }",
        "(Struct struct A { (Param x : T) (Param y : U ,) (Param z : V) })",
    );
    assert_tree(
        "fn f(a: A b: B) { }",
        "(FnDecl fn f ( (Param a : A) (Param b : B) ) (Block { }))",
    );
}

#[test]
fn a_field_is_attempted_behind_a_stray_comma() {
    let (tree, errors) = parse("struct A { , 1 x: T, }");
    assert_eq!(tree, "(Struct struct A { (Error 1) (Param x : T ,) })");
    assert_eq!(errors, vec![error(ParseErrorKind::ExpParamFound(",".to_string()), 11, 1)]);
}

#[test]
fn commas_between_fields_are_reported_with_what_follows() {
    let (tree, errors) = parse("struct A { , 1 2 3 }");
    assert_eq!(tree, "(Struct struct A { (Error 1) (Error 3) })");
    assert_eq!(
        errors,
        vec![
            error(ParseErrorKind::ExpParamFound(",".to_string()), 11, 1),
            error(ParseErrorKind::ExpParamFound("2".to_string()), 15, 1),
        ]
    );
}

#[test]
fn recovery_stops_at_the_next_statement() {
    let (tree, errors) = parse("x = ; y z let a;");
    assert_eq!(tree, "x = (Error y z) (Declaration let a ;)");
    assert_eq!(errors, vec![error(ParseErrorKind::ExpOperandFound(";".to_string()), 4, 1)]);
}

#[test]
fn recovery_passes_over_an_assignment() {
    let (tree, errors) = parse("x 1 y = 2;");
    assert_eq!(tree, "x (Error y = 2 ;)");
    assert_eq!(errors, vec![error(ParseErrorKind::ExpEqualFound("1".to_string()), 2, 1)]);
}

#[test]
fn recovery_inside_an_impl_stops_at_the_next_function() {
    let (tree, errors) = parse("impl A { fn 1 ( ) { } fn g() { } }");
    assert_eq!(
        tree,
        "(Impl impl A { fn (Error ( ) { }) (FnDecl fn g ( ) (Block { })) })"
    );
    assert_eq!(errors, vec![error(ParseErrorKind::ExpIdentFound("1".to_string()), 12, 1)]);
}

#[test]
fn recovery_inside_parameters() {
    let (tree, errors) = parse("fn f(1 2) { }");
    assert_eq!(tree, "(FnDecl fn f ( (Error 2) ) (Block { }))");
    assert_eq!(errors, vec![error(ParseErrorKind::ExpParamFound("1".to_string()), 5, 1)]);
    // The token that the list is given up at is taken for its `)`.
    let (tree, errors) = parse("fn f(1 -> T { }");
    assert_eq!(tree, "(FnDecl fn f ( (Error ) -> (Error ) (Block { }))");
    assert_eq!(
        errors,
        vec![
            error(ParseErrorKind::ExpParamFound("1".to_string()), 5, 1),
            error(
                ParseErrorKind::ExpFound(
                    vec![TokenKind::LeftBrace, TokenKind::Arrow],
                    "T".to_string()
                ),
                10,
                1
            ),
        ]
    );
}

#[test]
fn missing_return_type_is_reported() {
    let (tree, errors) = parse("fn f() -> 1 { }");
    assert_eq!(tree, "(FnDecl fn f ( ) -> (Block { }))");
    assert_eq!(errors, vec![error(ParseErrorKind::ExpIdentFound("1".to_string()), 10, 1)]);
}

#[test]
fn parameters_are_complete_all_the_same() {
    let (tree, errors) = parse("fn f(a 1 2, b: B) { }");
    assert_eq!(tree, "(FnDecl fn f ( (Param a ,) (Param b : B) ) (Block { }))");
    assert_eq!(
        errors,
        vec![
            error(ParseErrorKind::ExpTyAnnotationFound("1".to_string()), 7, 1),
            error(ParseErrorKind::ExpTyFound("2".to_string()), 9, 1),
        ]
    );
    let (tree, errors) = parse("fn f(a 1 2 3 b: B) { }");
    assert_eq!(tree, "(FnDecl fn f ( (Param a) (Error b : B) ) (Block { }))");
    assert_eq!(
        errors,
        vec![
            error(ParseErrorKind::ExpTyAnnotationFound("1".to_string()), 7, 1),
            error(ParseErrorKind::ExpTyFound("2".to_string()), 9, 1),
            error(ParseErrorKind::ExpParamFound("3".to_string()), 11, 1),
        ]
    );
}

#[test]
fn recovery_inside_arguments() {
    let (tree, errors) = parse("x = f(1 2; 3);");
    assert_eq!(
        tree,
        "(Assignment x = (FnApp f (ParamList ( (AtomExpr 1) (Error 2) (AtomExpr 3) ))) ;)"
    );
    assert_eq!(
        errors,
        vec![error(
            ParseErrorKind::ExpFound(
                vec![TokenKind::Comma, TokenKind::RightParen],
                ";".to_string()
            ),
            9,
            1
        )]
    );
}

#[test]
fn each_missing_token_is_reported() {
    let cases: Vec<(&str, ParseErrorKind, usize)> = vec![
        ("impl 1", ParseErrorKind::ExpImplStructTargetFound("1".to_string()), 5),
        ("let 1", ParseErrorKind::ExpIdentFound("1".to_string()), 4),
        ("let x: 1", ParseErrorKind::ExpTyFound("1".to_string()), 7),
        ("x = )", ParseErrorKind::ExpOperandFound(")".to_string()), 4),
        ("x + 1;", ParseErrorKind::ExpEqualFound("+".to_string()), 2),
        ("x = 1 }", ParseErrorKind::ExpSemicolonFound("}".to_string()), 6),
        ("if x", ParseErrorKind::ExpLParenFound("x".to_string()), 3),
        ("if (x }", ParseErrorKind::ExpRParenFound("}".to_string()), 6),
        ("struct A (", ParseErrorKind::ExpLBraceFound("(".to_string()), 9),
        ("if (x) x", ParseErrorKind::ExpLParenFound("x".to_string()), 7),
        ("for x", ParseErrorKind::ExpLParenFound("x".to_string()), 4),
        ("for (i; 1", ParseErrorKind::IdxNotInitialised, 6),
    ];
    for (text, kind, start) in cases {
        let (_, errors) = parse(text);
        assert_eq!(errors, vec![error(kind, start, 1)], "{}", text);
    }
}

#[test]
fn each_early_end_is_reported() {
    let eof = || "EOF".to_string();
    let cases: Vec<(&str, ParseErrorKind)> = vec![
        ("let", ParseErrorKind::ExpIdentFound(eof())),
        (
            "let x",
            ParseErrorKind::ExpFound(vec![TokenKind::Semicolon, TokenKind::Equal], eof()),
        ),
        (
            "let x: T",
            ParseErrorKind::ExpFound(vec![TokenKind::Semicolon, TokenKind::Equal], eof()),
        ),
        ("let x:", ParseErrorKind::ExpTyFound(eof())),
        ("impl", ParseErrorKind::ExpImplStructTargetFound(eof())),
        ("for (i:", ParseErrorKind::ExpTyFound(eof())),
        ("fn f(a:", ParseErrorKind::ExpTyFound(eof())),
        ("x = ", ParseErrorKind::ExpExprFound(eof())),
        ("x = y", ParseErrorKind::ExpSemicolonFound(eof())),
        ("x = 1", ParseErrorKind::ExpSemicolonFound(eof())),
        ("x = f(", ParseErrorKind::ExpExprFound(eof())),
        (
            "x = f(1",
            ParseErrorKind::ExpFound(vec![TokenKind::Comma, TokenKind::RightParen], eof()),
        ),
        (
            "x = f(1 2",
            ParseErrorKind::ExpFound(vec![TokenKind::Comma, TokenKind::RightParen], eof()),
        ),
        (
            "x = f(1 2 )",
            ParseErrorKind::ExpFound(vec![TokenKind::Comma, TokenKind::RightParen], eof()),
        ),
        (
            "struct A {",
            ParseErrorKind::ExpFound(vec![TokenKind::Comma, TokenKind::RightBrace], eof()),
        ),
        (
            "fn f(",
            ParseErrorKind::ExpFound(vec![TokenKind::Ident, TokenKind::RightParen], eof()),
        ),
        (
            "fn f()",
            ParseErrorKind::ExpFound(vec![TokenKind::LeftBrace, TokenKind::Arrow], eof()),
        ),
        ("fn f(a: A", ParseErrorKind::ExpRParenFound(eof())),
        ("fn f() {", ParseErrorKind::ExpLBraceFound(eof())),
        ("fn f() { let x;", ParseErrorKind::ExpRBraceFound(eof())),
        ("impl A {", ParseErrorKind::ExpRBraceFound(eof())),
        ("if (x) { } else", ParseErrorKind::ExpLParenFound(eof())),
        ("for", ParseErrorKind::ExpLParenFound(eof())),
    ];
    for (text, kind) in cases {
        let (_, errors) = parse(text);
        assert_eq!(errors, vec![error(kind, text.len(), 0)], "{}", text);
    }
}

#[test]
fn an_early_end_behind_an_error_is_reported() {
    let param = |found: &str| ParseErrorKind::ExpParamFound(found.to_string());
    let (tree, errors) = parse("struct A { 1");
    assert_eq!(tree, "struct A {");
    assert_eq!(errors, vec![error(param("1"), 11, 1), error(param("EOF"), 12, 0)]);
    let (tree, errors) = parse("struct A { , 1");
    assert_eq!(tree, "struct A { (Error 1)");
    assert_eq!(
        errors,
        vec![
            error(param(","), 11, 1),
            error(
                ParseErrorKind::ExpFound(
                    vec![TokenKind::Ident, TokenKind::RightParen],
                    "EOF".to_string()
                ),
                14,
                0
            ),
        ]
    );
    let (tree, errors) = parse("fn f(1 2");
    assert_eq!(tree, "fn f ( (Error 2)");
    assert_eq!(
        errors,
        vec![
            error(param("1"), 5, 1),
            error(ParseErrorKind::ExpRParenFound("EOF".to_string()), 8, 0),
        ]
    );
}

#[test]
fn a_loop_without_a_bracket_is_given_up() {
    let (tree, errors) = parse("for x = 1; let y;");
    assert_eq!(tree, "for (Error = 1 ;) (Declaration let y ;)");
    assert_eq!(errors, vec![error(ParseErrorKind::ExpLParenFound("x".to_string()), 4, 1)]);
}

#[test]
fn statements_without_errors_keep_the_errors_behind_them() {
    let first = "let a; struct A { x: T } if (a) { } ";
    for second in ["", "let 1; fn f(1 2", "x = ; let y", "for x", "struct A { , 1 x: T, }"] {
        let alone = parse(second).1;
        let behind = parse(&format!("{}{}", first, second)).1;
        assert_eq!(alone.len(), behind.len());
        for (a, b) in alone.iter().zip(&behind) {
            assert_eq!(a.kind, b.kind);
            assert_eq!(a.ctxt.unwrap().start + first.len(), b.ctxt.unwrap().start);
        }
    }
}

#[test]
fn errors_without_an_input() {
    assert_eq!(
        Expected::FnOrLet.kind("EOF".to_string()),
        ParseErrorKind::ExpFound(vec![TokenKind::Fn, TokenKind::Let], "EOF".to_string())
    );
    assert_eq!(
        Expected::Nothing.kind("x".to_string()),
        ParseErrorKind::Unreachable("x".to_string())
    );
}

#[test]
fn make_err_takes_the_token() {
    let source_map = SourceMap::new("abc = 1;".to_string());
    let mut interner = Interner::with_capacity(1);
    let lexer = Lexer::new(&source_map);
    let mut parser = Parser::new(lexer, &source_map, &mut interner);
    let err = parser.make_err(ParseErrorKind::ExpParamFound);
    assert_eq!(err, error(ParseErrorKind::ExpParamFound("abc".to_string()), 0, 3));
    // The error is handed out, not kept; and what is left starts behind the token.
    let (tree, errors) = parser.parse();
    assert_eq!(errors, vec![error(ParseErrorKind::ExpIdentFound("=".to_string()), 4, 1)]);
    let shown = own(&tree.children);
    assert_eq!(show_all(&shown, &interner), "(Error 1 ;)");
}

#[test]
fn a_second_parse_finds_nothing() {
    let source_map = SourceMap::new("let 1; let y;".to_string());
    let mut interner = Interner::with_capacity(1);
    let lexer = Lexer::new(&source_map);
    let mut parser = Parser::new(lexer, &source_map, &mut interner);
    let (tree, errors) = parser.parse();
    assert_eq!(tree.children.len(), 3);
    assert_eq!(errors.len(), 1);
    let (tree, errors) = parser.parse();
    assert_eq!(tree.children.len(), 0);
    assert_eq!(errors.len(), 0);
}

fn leaves(elements: &[Element<'_>]) -> usize {
    elements
        .iter()
        .map(|element| match element {
            Element::Node(_, children) => leaves(children),
            _ => 1,
        })
        .sum()
}

#[test]
fn every_token_is_a_leaf_or_an_error() {
    for text in ["x = ; y z let a;", "fn f(1 2) { }", "impl A { fn 1 ( ) { } fn g() { } }"] {
        let source_map = SourceMap::new(text.to_string());
        let mut count = Lexer::new(&source_map);
        let mut tokens = 0;
        while count.next().is_some() {
            tokens += 1;
        }
        let mut interner = Interner::with_capacity(1);
        let lexer = Lexer::new(&source_map);
        let mut parser = Parser::new(lexer, &source_map, &mut interner);
        let (tree, errors) = parser.parse();
        assert_eq!(leaves(&tree.children) + errors.len(), tokens);
    }
}

#[test]
fn leaves_spell_the_text() {
    let text = "fn f ( a : A ) -> B { x = g ( 1 , a ) + 2.5 ; if ( x ) { } else { let y ; } }";
    let (shown, errors, interner) = parse_owned(text);
    assert_eq!(errors, vec![]);
    let mut words = vec![];
    spell(&shown, &interner, &mut words);
    assert_eq!(words.join(" "), text);
}

fn spell(shown: &[Shown], interner: &Interner, words: &mut Vec<String>) {
    for part in shown {
        match part {
            Shown::Node(_, children) => spell(children, interner, words),
            leaf => words.push(show(leaf, interner)),
        }
    }
}

#[test]
fn errors_come_in_the_order_of_the_text() {
    let (_, errors) = parse("x = ; let 1; fn f(a 1 2 3 b: B) { ) } let");
    let starts: Vec<usize> = errors.iter().map(|e| e.ctxt.unwrap().start).collect();
    assert_eq!(starts, vec![4, 10, 20, 22, 24, 34, 41]);
}

#[test]
fn names_are_kept_once() {
    let source_map = SourceMap::new("a = b; b = a;".to_string());
    let mut interner = Interner::with_capacity(1);
    let lexer = Lexer::new(&source_map);
    let mut parser = Parser::new(lexer, &source_map, &mut interner);
    parser.parse();
    assert_eq!(interner.lookup(0), Some("a"));
    assert_eq!(interner.lookup(1), Some("b"));
    assert_eq!(interner.lookup(2), None);
    assert_eq!(interner.intern("b"), 1);
    assert_eq!(interner.intern("c"), 2);
    assert_eq!(interner.intern("a"), 0);
    assert_eq!(interner.lookup(2), Some("c"));
}

#[test]
fn states_differ() {
    assert_ne!(State::Parse, State::Recover);
    assert_ne!(State::Abort, State::Finished);
}
