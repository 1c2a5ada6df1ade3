use viper::lexer::Lexer;
use viper::token::Token;

#[test]
fn test_simple_assignment() {
    let mut lexer = Lexer::new("x = 42\n");
    let tokens = lexer.tokenize().unwrap();
    assert_eq!(
        tokens,
        vec![
            Token::Identifier("x".to_string()),
            Token::Assign,
            Token::Integer(42),
            Token::Newline,
            Token::Eof,
        ]
    );
}

#[test]
fn test_function_def() {
    let mut lexer = Lexer::new("def add(a, b):\n    return a + b\n");
    let tokens = lexer.tokenize().unwrap();
    assert_eq!(
        tokens,
        vec![
            Token::Def,
            Token::Identifier("add".to_string()),
            Token::LeftParen,
            Token::Identifier("a".to_string()),
            Token::Comma,
            Token::Identifier("b".to_string()),
            Token::RightParen,
            Token::Colon,
            Token::Newline,
            Token::Indent,
            Token::Return,
            Token::Identifier("a".to_string()),
            Token::Plus,
            Token::Identifier("b".to_string()),
            Token::Newline,
            Token::Dedent,
            Token::Eof,
        ]
    );
}

#[test]
fn lexer_dedents_close_every_open_block() {
    let mut lexer = Lexer::new("if x:\n    if y:\n        z = 1\n");
    let tokens = lexer.tokenize().unwrap();
    let indents = tokens.iter().filter(|t| **t == Token::Indent).count();
    let dedents = tokens.iter().filter(|t| **t == Token::Dedent).count();
    assert_eq!(indents, 2);
    assert_eq!(dedents, 2);
    assert_eq!(tokens.last(), Some(&Token::Eof));
    assert_eq!(tokens.iter().filter(|t| **t == Token::Eof).count(), 1);
}

#[test]
fn lexer_keeps_float_text() {
    let mut lexer = Lexer::new("y = 3.25\n");
    let tokens = lexer.tokenize().unwrap();
    assert_eq!(tokens[2], Token::Float("3.25".to_string()));
}

#[test]
fn lexer_rejects_integer_overflow() {
    let mut lexer = Lexer::new("x = 99999999999999999999\n");
    assert!(lexer.tokenize().is_err());
}

#[test]
fn lexer_keywords_and_operators() {
    let mut lexer = Lexer::new("x += 1 // 2 ** 3 != None\n");
    let tokens = lexer.tokenize().unwrap();
    assert_eq!(
        tokens,
        vec![
            Token::Identifier("x".to_string()),
            Token::PlusAssign,
            Token::Integer(1),
            Token::DoubleSlash,
            Token::Integer(2),
            Token::DoubleStar,
            Token::Integer(3),
            Token::NotEqual,
            Token::NoneKw,
            Token::Newline,
            Token::Eof,
        ]
    );
}
