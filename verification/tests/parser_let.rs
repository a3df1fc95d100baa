use minilang::ast::{Expression, Statement};
use minilang::lexer::{Lexer, LexerError};
use minilang::parser::{Parser, ParserError};
use minilang::token::TokenType;

fn test_let_statement(stmt: &Statement, expected_name: &str) -> bool {
    match stmt {
        Statement::Let { token, name, .. } => {
            if token.token_type != TokenType::Let {
                println!("Token type not 'Let'. got={:?}", token);
                return false;
            }

            match name {
                Expression::Identifier { token, value } => {
                    if token.token_type != TokenType::Ident {
                        println!("Token type not 'Ident'. got={:?}", token);
                        return false;
                    }

                    if value != expected_name {
                        println!(
                            "Identifier value wrong. expected={}, got={}",
                            expected_name, value
                        );
                        return false;
                    }
                }
            }

            true
        }
    }
}

#[test]
fn test_let_statements() {
    let input = r#"
                        let x = 5;
                        let y = 10;
                        let foobar = 838383;
                    "#;

    let lexer = Lexer::new(input);
    let mut parser = Parser::new(lexer).expect("failed to create parser");

    let program = parser.parse_program().expect("failed to parse program");

    assert_eq!(
        program.statements.len(),
        3,
        "expected 3 statements, got {}",
        program.statements.len()
    );

    let tests = ["x", "y", "foobar"];

    for (i, &expected_ident) in tests.iter().enumerate() {
        assert!(
            test_let_statement(&program.statements[i], expected_ident),
            "test_let_statement failed for statement {}",
            i
        );
    }
}

#[test]
fn one_let_statement_with_function_value() {
    let lexer = Lexer::new("let add = fn(x, y) { x + y; };");
    let mut parser = Parser::new(lexer).expect("failed to create parser");

    let stmt = parser.parse_statement().expect("failed to parse statement");
    match &stmt {
        Statement::Let { name, .. } => match name {
            Expression::Identifier { value, .. } => assert_eq!(value, "add"),
        },
    }
}

#[test]
fn statement_without_let_is_unexpected_token() {
    let lexer = Lexer::new("foobar;");
    let mut parser = Parser::new(lexer).expect("failed to create parser");

    match parser.parse_statement() {
        Err(ParserError::UnexpectedToken(token)) => {
            assert_eq!(token.token_type, TokenType::Ident);
            assert_eq!(token.literal, "foobar");
        }
        other => panic!("expected UnexpectedToken, got {:?}", other),
    }
}

#[test]
fn missing_assign_fails_without_advancing() {
    let lexer = Lexer::new("let x 5;");
    let mut parser = Parser::new(lexer).expect("failed to create parser");

    match parser.parse_let_statement() {
        Err(ParserError::UnexpectedTokenType(expected, got)) => {
            assert_eq!(expected, TokenType::Assign);
            assert_eq!(got, TokenType::Int);
        }
        other => panic!("expected UnexpectedTokenType, got {:?}", other),
    }

    assert_eq!(parser.curr_token().token_type, TokenType::Ident);
    assert_eq!(parser.curr_token().literal, "x");
}

#[test]
fn missing_ident_fails_with_expected_ident() {
    let lexer = Lexer::new("let = 5;");
    let mut parser = Parser::new(lexer).expect("failed to create parser");

    match parser.parse_let_statement() {
        Err(ParserError::UnexpectedTokenType(expected, got)) => {
            assert_eq!(expected, TokenType::Ident);
            assert_eq!(got, TokenType::Assign);
        }
        other => panic!("expected UnexpectedTokenType, got {:?}", other),
    }
}

#[test]
fn lexer_error_is_fatal_to_parsing() {
    let lexer = Lexer::new("let x = 99999999999;");
    let mut parser = Parser::new(lexer).expect("failed to create parser");

    match parser.parse_program() {
        Err(ParserError::LexerError(LexerError::InvalidNumber(text))) => {
            assert_eq!(text, "99999999999");
        }
        other => panic!("expected LexerError, got {:?}", other),
    }
}

#[test]
fn lexer_error_in_first_tokens_fails_construction() {
    let lexer = Lexer::new("99999999999");
    match Parser::new(lexer) {
        Err(ParserError::LexerError(LexerError::InvalidNumber(text))) => {
            assert_eq!(text, "99999999999");
        }
        other => {
            assert!(other.is_err(), "expected construction to fail");
            panic!("expected LexerError");
        }
    }
}

#[test]
fn missing_semicolon_fails_at_end_of_stream() {
    let lexer = Lexer::new("let x = 5");
    let mut parser = Parser::new(lexer).expect("failed to create parser");

    match parser.parse_program() {
        Err(ParserError::UnexpectedTokenType(expected, got)) => {
            assert_eq!(expected, TokenType::Semicolon);
            assert_eq!(got, TokenType::Eof);
        }
        other => panic!("expected UnexpectedTokenType, got {:?}", other),
    }
}

#[test]
fn empty_source_is_an_empty_program() {
    let lexer = Lexer::new("");
    let mut parser = Parser::new(lexer).expect("failed to create parser");
    let program = parser.parse_program().expect("failed to parse program");
    assert_eq!(program.statements.len(), 0);
}

#[test]
fn program_stops_at_first_error() {
    let lexer = Lexer::new("let x = 1; foobar; let y = 2;");
    let mut parser = Parser::new(lexer).expect("failed to create parser");
    match parser.parse_program() {
        Err(ParserError::UnexpectedToken(token)) => {
            assert_eq!(token.literal, "foobar");
        }
        other => panic!("expected UnexpectedToken, got {:?}", other),
    }
}

#[test]
fn let_value_placeholder_is_token_at_semicolon() {
    let lexer = Lexer::new("let x = 1 + 2;");
    let mut parser = Parser::new(lexer).expect("failed to create parser");
    let stmt = parser.parse_statement().expect("failed to parse statement");
    match &stmt {
        Statement::Let { value, .. } => match value {
            Expression::Identifier { token, value } => {
                assert_eq!(token.token_type, TokenType::Semicolon);
                assert_eq!(value, ";");
            }
        },
    }
    assert!(parser.curr_token_is(TokenType::Semicolon));
    assert!(parser.peek_token_is(TokenType::Eof));
}
