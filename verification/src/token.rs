use vstd::prelude::*;

verus! {

/// The closed set of lexical categories a token can belong to.
#[derive(Debug, PartialEq, Eq, Clone, Copy, Structural)]
pub enum TokenType {
    Illegal,
    Eof,

    Ident,
    Int,

    Assign,
    Plus,
    Minus,
    Bang,
    Asterisk,
    Slash,

    Eq,
    NotEq,
    Gt,
    Lt,

    Comma,
    Semicolon,

    Lparen,
    Rparen,
    Lbrace,
    Rbrace,

    Function,
    Let,
    If,
    Else,
    Return,
}

/// The token type denoted by a symbol spelling, with the two-character
/// operators distinguished from their single-character prefixes.
pub open spec fn spec_from_symbol(s: Seq<char>) -> TokenType {
    if s.len() == 2 {
        if s[0] == '=' && s[1] == '=' {
            TokenType::Eq
        } else if s[0] == '!' && s[1] == '=' {
            TokenType::NotEq
        } else {
            TokenType::Illegal
        }
    } else if s.len() == 1 {
        spec_single_symbol_type(s[0])
    } else {
        TokenType::Illegal
    }
}

/// The token type of a single-character symbol, `Illegal` for a character
/// outside the symbol table.
pub open spec fn spec_single_symbol_type(c: char) -> TokenType {
    if c == '=' {
        TokenType::Assign
    } else if c == '!' {
        TokenType::Bang
    } else if c == '+' {
        TokenType::Plus
    } else if c == '-' {
        TokenType::Minus
    } else if c == '*' {
        TokenType::Asterisk
    } else if c == '/' {
        TokenType::Slash
    } else if c == ',' {
        TokenType::Comma
    } else if c == ';' {
        TokenType::Semicolon
    } else if c == '>' {
        TokenType::Gt
    } else if c == '<' {
        TokenType::Lt
    } else if c == '(' {
        TokenType::Lparen
    } else if c == ')' {
        TokenType::Rparen
    } else if c == '{' {
        TokenType::Lbrace
    } else if c == '}' {
        TokenType::Rbrace
    } else {
        TokenType::Illegal
    }
}

/// The token type of a maximal letter run: a keyword type when the spelling
/// exactly equals one of the keywords, `Ident` otherwise.
pub open spec fn spec_ident_type(s: Seq<char>) -> TokenType {
    if s == "let"@ {
        TokenType::Let
    } else if s == "fn"@ {
        TokenType::Function
    } else if s == "if"@ {
        TokenType::If
    } else if s == "else"@ {
        TokenType::Else
    } else if s == "return"@ {
        TokenType::Return
    } else {
        TokenType::Ident
    }
}

impl TokenType {
    /// Looks a symbol spelling up in the symbol table.
    pub fn from_symbol(symbol: &str) -> (t: Self)
        ensures
            t == spec_from_symbol(symbol@),
    {
        let n = symbol.unicode_len();
        if n == 2 {
            let c0 = symbol.get_char(0);
            let c1 = symbol.get_char(1);
            if c0 == '=' && c1 == '=' {
                TokenType::Eq
            } else if c0 == '!' && c1 == '=' {
                TokenType::NotEq
            } else {
                TokenType::Illegal
            }
        } else if n == 1 {
            Self::from_single_symbol(symbol.get_char(0))
        } else {
            TokenType::Illegal
        }
    }

    /// Looks a single character up in the symbol table.
    pub fn from_single_symbol(c: char) -> (t: Self)
        ensures
            t == spec_single_symbol_type(c),
    {
        if c == '=' {
            TokenType::Assign
        } else if c == '!' {
            TokenType::Bang
        } else if c == '+' {
            TokenType::Plus
        } else if c == '-' {
            TokenType::Minus
        } else if c == '*' {
            TokenType::Asterisk
        } else if c == '/' {
            TokenType::Slash
        } else if c == ',' {
            TokenType::Comma
        } else if c == ';' {
            TokenType::Semicolon
        } else if c == '>' {
            TokenType::Gt
        } else if c == '<' {
            TokenType::Lt
        } else if c == '(' {
            TokenType::Lparen
        } else if c == ')' {
            TokenType::Rparen
        } else if c == '{' {
            TokenType::Lbrace
        } else if c == '}' {
            TokenType::Rbrace
        } else {
            TokenType::Illegal
        }
    }
}

/// The mathematical value of a token: its category and the character
/// sequence of its literal.
pub ghost struct SpecToken {
    pub token_type: TokenType,
    pub literal: Seq<char>,
}

/// A single token: a category together with the exact spelling matched
/// in the source text.
#[derive(Debug, Clone)]
pub struct Token {
    pub token_type: TokenType,
    pub literal: String,
}

impl View for Token {
    type V = SpecToken;

    open spec fn view(&self) -> SpecToken {
        SpecToken { token_type: self.token_type, literal: self.literal@ }
    }
}

impl Token {
    pub fn new(token_type: TokenType, literal: String) -> (t: Self)
        ensures
            t@ == (SpecToken { token_type, literal: literal@ }),
    {
        Self { token_type, literal }
    }

    pub fn from_symbol(literal: &str) -> (t: Self)
        ensures
            t@ == (SpecToken { token_type: spec_from_symbol(literal@), literal: literal@ }),
    {
        Self::new(TokenType::from_symbol(literal), literal.to_owned())
    }

    /// The end-of-stream token: its literal is empty.
    pub fn eof() -> (t: Self)
        ensures
            t@ == (SpecToken { token_type: TokenType::Eof, literal: Seq::<char>::empty() }),
    {
        Self::new(TokenType::Eof, String::new())
    }

    /// Classifies a letter run against the keyword table and builds the token.
    pub fn ident(literal: String) -> (t: Self)
        ensures
            t@ == (SpecToken { token_type: spec_ident_type(literal@), literal: literal@ }),
    {
        let token_type = if literal.eq(&String::from_str("let")) {
            TokenType::Let
        } else if literal.eq(&String::from_str("fn")) {
            TokenType::Function
        } else if literal.eq(&String::from_str("if")) {
            TokenType::If
        } else if literal.eq(&String::from_str("else")) {
            TokenType::Else
        } else if literal.eq(&String::from_str("return")) {
            TokenType::Return
        } else {
            TokenType::Ident
        };
        Self::new(token_type, literal)
    }

    /// An integer literal token; the digit text is kept as spelled.
    pub fn integer(number: String) -> (t: Self)
        ensures
            t@ == (SpecToken { token_type: TokenType::Int, literal: number@ }),
    {
        Self::new(TokenType::Int, number)
    }
}

} // verus!
