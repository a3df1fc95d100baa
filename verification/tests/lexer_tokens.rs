use minilang::lexer::{Lexer, LexerError};
use minilang::token::{Token, TokenType};

fn check_sequence(input: &str, expected: &[(TokenType, &str)]) {
    let mut lexer = Lexer::new(input);
    for (i, (expected_token_type, expected_literal)) in expected.iter().enumerate() {
        let received = lexer.next_token().unwrap();
        assert_eq!(
            expected_token_type, &received.token_type,
            "test {}: token_type mismatch, expected {:?}, got {:?}",
            i, expected_token_type, received.token_type
        );
        assert_eq!(
            expected_literal, &received.literal,
            "test {}: literal mismatch, expected {:?}, got {:?}",
            i, expected_literal, received.literal
        );
    }
}

fn full_program_expected() -> Vec<(TokenType, &'static str)> {
    vec![
        (TokenType::Let, "let"),
        (TokenType::Ident, "five"),
        (TokenType::Assign, "="),
        (TokenType::Int, "5"),
        (TokenType::Semicolon, ";"),
        //
        (TokenType::Let, "let"),
        (TokenType::Ident, "ten"),
        (TokenType::Assign, "="),
        (TokenType::Int, "10"),
        (TokenType::Semicolon, ";"),
        //
        (TokenType::Let, "let"),
        (TokenType::Ident, "add"),
        (TokenType::Assign, "="),
        (TokenType::Function, "fn"),
        (TokenType::Lparen, "("),
        (TokenType::Ident, "x"),
        (TokenType::Comma, ","),
        (TokenType::Ident, "y"),
        (TokenType::Rparen, ")"),
        (TokenType::Lbrace, "{"),
        (TokenType::Ident, "x"),
        (TokenType::Plus, "+"),
        (TokenType::Ident, "y"),
        (TokenType::Semicolon, ";"),
        (TokenType::Rbrace, "}"),
        (TokenType::Semicolon, ";"),
        //
        (TokenType::Let, "let"),
        (TokenType::Ident, "result"),
        (TokenType::Assign, "="),
        (TokenType::Ident, "add"),
        (TokenType::Lparen, "("),
        (TokenType::Ident, "five"),
        (TokenType::Comma, ","),
        (TokenType::Ident, "ten"),
        (TokenType::Rparen, ")"),
        (TokenType::Semicolon, ";"),
        //
        (TokenType::Bang, "!"),
        (TokenType::Minus, "-"),
        (TokenType::Slash, "/"),
        (TokenType::Asterisk, "*"),
        (TokenType::Int, "5"),
        (TokenType::Semicolon, ";"),
        //
        (TokenType::Int, "5"),
        (TokenType::Lt, "<"),
        (TokenType::Int, "10"),
        (TokenType::Gt, ">"),
        (TokenType::Int, "5"),
        (TokenType::Semicolon, ";"),
        //
        (TokenType::If, "if"),
        (TokenType::Lparen, "("),
        (TokenType::Int, "5"),
        (TokenType::Lt, "<"),
        (TokenType::Int, "10"),
        (TokenType::Rparen, ")"),
        (TokenType::Lbrace, "{"),
        (TokenType::Return, "return"),
        (TokenType::Ident, "true"),
        (TokenType::Semicolon, ";"),
        (TokenType::Rbrace, "}"),
        (TokenType::Else, "else"),
        (TokenType::Lbrace, "{"),
        (TokenType::Return, "return"),
        (TokenType::Ident, "false"),
        (TokenType::Semicolon, ";"),
        (TokenType::Rbrace, "}"),
        //
        (TokenType::Int, "10"),
        (TokenType::Eq, "=="),
        (TokenType::Int, "10"),
        (TokenType::Semicolon, ";"),
        //
        (TokenType::Int, "10"),
        (TokenType::NotEq, "!="),
        (TokenType::Int, "9"),
        (TokenType::Semicolon, ";"),
        //
        (TokenType::Eof, ""),
    ]
}

#[test]
fn mod_test_next_token() {
    let input = r#"
let five = 5;
let ten = 10;

let add = fn(x, y) {
  x + y;
};

let result = add(five, ten);
!-/*5;
5 < 10 > 5;

if (5 < 10) {
    return true;
} else {
    return false;
}

10 == 10;
10 != 9;
"#;
    check_sequence(input, &full_program_expected());
}

#[test]
fn test_test_next_token() {
    let input = r#"
          let five = 5;
          let ten = 10;

          let add = fn(x, y) {
            x + y;
          };

          let result = add(five, ten);
          !-/*5;
          5 < 10 > 5;

          if (5 < 10) {
              return true;
          } else {
              return false;
          }

          10 == 10;
          10 != 9;
                                  "#;
    check_sequence(input, &full_program_expected());
}

#[test]
fn let_five_token_sequence() {
    check_sequence(
        "let five = 5;",
        &[
            (TokenType::Let, "let"),
            (TokenType::Ident, "five"),
            (TokenType::Assign, "="),
            (TokenType::Int, "5"),
            (TokenType::Semicolon, ";"),
            (TokenType::Eof, ""),
        ],
    );
}

#[test]
fn eof_is_idempotent() {
    let mut lexer = Lexer::new("x");
    assert_eq!(lexer.next_token().unwrap().token_type, TokenType::Ident);
    for _ in 0..4 {
        let t = lexer.next_token().unwrap();
        assert_eq!(t.token_type, TokenType::Eof);
        assert_eq!(t.literal, "");
    }
}

#[test]
fn empty_input_yields_only_eof() {
    let mut lexer = Lexer::new("");
    for _ in 0..3 {
        let t = lexer.next_token().unwrap();
        assert_eq!(t.token_type, TokenType::Eof);
        assert_eq!(t.literal, "");
    }
}

#[test]
fn two_char_operators_win_over_prefixes() {
    check_sequence("==", &[(TokenType::Eq, "=="), (TokenType::Eof, "")]);
    check_sequence("!=", &[(TokenType::NotEq, "!="), (TokenType::Eof, "")]);
    check_sequence(
        "===",
        &[(TokenType::Eq, "=="), (TokenType::Assign, "="), (TokenType::Eof, "")],
    );
    check_sequence(
        "=!=",
        &[(TokenType::Assign, "="), (TokenType::NotEq, "!="), (TokenType::Eof, "")],
    );
    check_sequence(
        "!!=",
        &[(TokenType::Bang, "!"), (TokenType::NotEq, "!="), (TokenType::Eof, "")],
    );
}

#[test]
fn keywords_are_exact_and_case_sensitive() {
    check_sequence(
        "let fn if else return letx Let returns",
        &[
            (TokenType::Let, "let"),
            (TokenType::Function, "fn"),
            (TokenType::If, "if"),
            (TokenType::Else, "else"),
            (TokenType::Return, "return"),
            (TokenType::Ident, "letx"),
            (TokenType::Ident, "Let"),
            (TokenType::Ident, "returns"),
            (TokenType::Eof, ""),
        ],
    );
}

#[test]
fn digit_run_that_fits_is_kept_as_text() {
    check_sequence(
        "2147483647 007",
        &[
            (TokenType::Int, "2147483647"),
            (TokenType::Int, "007"),
            (TokenType::Eof, ""),
        ],
    );
}

#[test]
fn digit_run_overflow_is_soft() {
    let mut lexer = Lexer::new("2147483648 5;");
    match lexer.next_token() {
        Err(LexerError::InvalidNumber(text)) => assert_eq!(text, "2147483648"),
        other => panic!("expected InvalidNumber, got {:?}", other),
    }
    let t = lexer.next_token().unwrap();
    assert_eq!(t.token_type, TokenType::Int);
    assert_eq!(t.literal, "5");
    assert_eq!(lexer.next_token().unwrap().token_type, TokenType::Semicolon);
    assert_eq!(lexer.next_token().unwrap().token_type, TokenType::Eof);
}

#[test]
fn unknown_characters_are_single_illegal_tokens() {
    check_sequence(
        "~#",
        &[
            (TokenType::Illegal, "~"),
            (TokenType::Illegal, "#"),
            (TokenType::Eof, ""),
        ],
    );
}

#[test]
fn non_ascii_character_is_one_illegal_token() {
    check_sequence(
        "\u{3bb}x",
        &[
            (TokenType::Illegal, "\u{3bb}"),
            (TokenType::Ident, "x"),
            (TokenType::Eof, ""),
        ],
    );
}

#[test]
fn token_constructors() {
    assert_eq!(TokenType::from_symbol("=="), TokenType::Eq);
    assert_eq!(TokenType::from_symbol("!="), TokenType::NotEq);
    assert_eq!(TokenType::from_symbol("="), TokenType::Assign);
    assert_eq!(TokenType::from_symbol(";"), TokenType::Semicolon);
    assert_eq!(TokenType::from_symbol("@"), TokenType::Illegal);
    assert_eq!(TokenType::from_symbol("=!"), TokenType::Illegal);

    let t = Token::from_symbol("{");
    assert_eq!(t.token_type, TokenType::Lbrace);
    assert_eq!(t.literal, "{");

    let t = Token::eof();
    assert_eq!(t.token_type, TokenType::Eof);
    assert_eq!(t.literal, "");

    let t = Token::ident(String::from("return"));
    assert_eq!(t.token_type, TokenType::Return);
    assert_eq!(t.literal, "return");

    let t = Token::ident(String::from("returning"));
    assert_eq!(t.token_type, TokenType::Ident);

    let t = Token::integer(String::from("42"));
    assert_eq!(t.token_type, TokenType::Int);
    assert_eq!(t.literal, "42");

    let t = Token::new(TokenType::Plus, String::from("+"));
    assert_eq!(t.token_type, TokenType::Plus);
    assert_eq!(t.literal, "+");
}
