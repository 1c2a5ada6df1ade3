use viper::ast::{BinOp, CmpOp, Expr, Stmt};
use viper::interpreter::collect_locals;
use viper::lexer::Lexer;
use viper::parser::Parser;
use viper::symbol::{Interner, Symbol};
use viper::token::Token;

fn lex(code: &str) -> Result<Vec<Token>, String> {
    Lexer::new(code).tokenize()
}

fn parse(code: &str) -> (Result<Vec<Stmt>, String>, Interner) {
    let tokens = lex(code).unwrap();
    let mut interner = Interner::new();
    let r = Parser::new(tokens).parse(&mut interner);
    (r, interner)
}

#[test]
fn lexer_rejects_a_lone_bang() {
    assert_eq!(lex("x = !y\n"), Err("Unexpected character: !".to_string()));
}

#[test]
fn lexer_rejects_an_unknown_character() {
    assert_eq!(lex("x = 1 $ 2\n"), Err("Unexpected character: $".to_string()));
}

#[test]
fn lexer_rejects_an_unterminated_string() {
    assert_eq!(lex("x = \"abc"), Err("Unterminated string".to_string()));
    assert_eq!(lex("x = 'ab\\"), Err("Unterminated string escape".to_string()));
}

#[test]
fn lexer_reports_a_dedent_to_an_unknown_level() {
    assert_eq!(
        lex("if x:\n        y = 1\n    z = 2\n"),
        Err("Indentation error at position 24".to_string())
    );
}

#[test]
fn lexer_string_escapes() {
    let tokens = lex("s = 'a\\tb\\n\\q'\n").unwrap();
    assert_eq!(tokens[2], Token::StringLiteral("a\tb\n\\q".to_string()));
}

#[test]
fn lexer_comment_line_leaves_its_newline() {
    let tokens = lex("# note\nx = 1  # trailing\n").unwrap();
    assert_eq!(
        tokens,
        vec![
            Token::Newline,
            Token::Identifier("x".to_string()),
            Token::Assign,
            Token::Integer(1),
            Token::Newline,
            Token::Eof,
        ]
    );
}

#[test]
fn parser_respects_precedence() {
    let (r, interner) = parse("x = 1 + 2 * 3 ** 2\n");
    let x = Symbol(0);
    assert_eq!(interner.resolve(x), "x");
    let expected = Stmt::Assign {
        target: x,
        value: Expr::BinaryOp {
            left: Box::new(Expr::Integer(1)),
            op: BinOp::Add,
            right: Box::new(Expr::BinaryOp {
                left: Box::new(Expr::Integer(2)),
                op: BinOp::Mul,
                right: Box::new(Expr::BinaryOp {
                    left: Box::new(Expr::Integer(3)),
                    op: BinOp::Pow,
                    right: Box::new(Expr::Integer(2)),
                }),
            }),
        },
    };
    assert_eq!(r, Ok(vec![expected]));
}

#[test]
fn parser_chains_comparisons() {
    let (r, _) = parse("1 < 2 <= 3\n");
    let expected = Stmt::Expression(Expr::Compare {
        left: Box::new(Expr::Integer(1)),
        ops: vec![CmpOp::Lt, CmpOp::LtE],
        comparators: vec![Expr::Integer(2), Expr::Integer(3)],
    });
    assert_eq!(r, Ok(vec![expected]));
}

#[test]
fn parser_augmented_assignment() {
    let (r, _) = parse("n -= 4\n");
    assert_eq!(
        r,
        Ok(vec![Stmt::AugAssign { target: Symbol(0), op: BinOp::Sub, value: Expr::Integer(4) }])
    );
}

#[test]
fn parser_rejects_invalid_targets() {
    assert_eq!(parse("1 = 2\n").0, Err("Invalid assignment target".to_string()));
    assert_eq!(parse("1 += 2\n").0, Err("Invalid augmented assignment target".to_string()));
}

#[test]
fn parser_rejects_a_stray_token() {
    assert!(parse(")\n").0.is_err());
    assert!(parse("def (x):\n    pass\n").0.is_err());
}

#[test]
fn collect_locals_gives_parameters_the_first_slots() {
    let params = vec![Symbol(0), Symbol(1)];
    let body = vec![
        Stmt::Assign { target: Symbol(5), value: Expr::Integer(1) },
        Stmt::For {
            target: Symbol(7),
            iter: Expr::Identifier(Symbol(0)),
            body: vec![Stmt::AugAssign {
                target: Symbol(1),
                op: BinOp::Add,
                value: Expr::Identifier(Symbol(7)),
            }],
        },
        Stmt::Assign { target: Symbol(5), value: Expr::Integer(2) },
        Stmt::While {
            condition: Expr::Boolean(false),
            body: vec![Stmt::Assign { target: Symbol(9), value: Expr::NoneLit }],
        },
    ];
    let (slots, count) = collect_locals(&params, &body);
    assert_eq!(count, 5);
    assert_eq!(slots.get(&0), Some(&0));
    assert_eq!(slots.get(&1), Some(&1));
    assert_eq!(slots.get(&5), Some(&2));
    assert_eq!(slots.get(&7), Some(&3));
    assert_eq!(slots.get(&9), Some(&4));
    assert_eq!(slots.len(), 5);
}

#[test]
fn lexer_measures_the_line_after_an_empty_line() {
    assert_eq!(
        lex("if x:\n    y = 1\n\nz = 2\n"),
        Ok(vec![
            Token::If,
            Token::Identifier("x".to_string()),
            Token::Colon,
            Token::Newline,
            Token::Indent,
            Token::Identifier("y".to_string()),
            Token::Assign,
            Token::Integer(1),
            Token::Newline,
            Token::Dedent,
            Token::Identifier("z".to_string()),
            Token::Assign,
            Token::Integer(2),
            Token::Newline,
            Token::Eof,
        ])
    );
}

#[test]
fn parser_errors_name_the_token() {
    assert_eq!(parse("def 5():\n    pass\n").0.err(), Some("Expected function name, got Integer(5)".to_string()));
    assert_eq!(parse("def None():\n    pass\n").0.err(), Some("Expected function name, got None".to_string()));
    assert_eq!(
        parse("x = \"a\\\"b\"\ndef \"q\"():\n    pass\n").0.err(),
        Some("Expected function name, got StringLiteral(\"q\")".to_string())
    );
    assert_eq!(parse("print(1\n").0.err(), Some("Unexpected token: Newline".to_string()));
    assert_eq!(parse("x = (1\n").0.err(), Some("Expected RightParen, got Newline at position 4".to_string()));
}
