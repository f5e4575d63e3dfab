use vstd::prelude::*;

verus! {

/// The closed set of token kinds.
#[allow(non_camel_case_types)]
#[derive(Debug, Clone, Copy, PartialEq, Eq, Structural)]
pub enum TokenType {
    ILLEGAL,
    EOF,
    IDENT,
    INT,
    ASSIGN,
    PLUS,
    MINUS,
    COMMA,
    SEMICOLON,
    LPAREN,
    RPAREN,
    LBRACE,
    RBRACE,
    FUNCTION,
    LET,
    FSLASH,
    BANG,
    STAR,
    LESS,
    GREATER,
    IF,
    ELSE,
    RETURN,
    TRUE,
    FALSE,
    EQ,
    NOT_EQ,
}

/// A token: its kind and the text it was read from.
#[derive(Debug, Clone, PartialEq)]
pub struct Token {
    pub token_type: TokenType,
    pub literal: String,
}

/// The name under which a kind appears in messages.
pub open spec fn kind_str(t: TokenType) -> &'static str {
    match t {
        TokenType::ILLEGAL => "ILLEGAL",
        TokenType::EOF => "EOF",
        TokenType::IDENT => "IDENT",
        TokenType::INT => "INT",
        TokenType::ASSIGN => "ASSIGN",
        TokenType::PLUS => "PLUS",
        TokenType::MINUS => "MINUS",
        TokenType::COMMA => "COMMA",
        TokenType::SEMICOLON => "SEMICOLON",
        TokenType::LPAREN => "LPAREN",
        TokenType::RPAREN => "RPAREN",
        TokenType::LBRACE => "LBRACE",
        TokenType::RBRACE => "RBRACE",
        TokenType::FUNCTION => "FUNCTION",
        TokenType::LET => "LET",
        TokenType::FSLASH => "FSLASH",
        TokenType::BANG => "BANG",
        TokenType::STAR => "STAR",
        TokenType::LESS => "LESS",
        TokenType::GREATER => "GREATER",
        TokenType::IF => "IF",
        TokenType::ELSE => "ELSE",
        TokenType::RETURN => "RETURN",
        TokenType::TRUE => "TRUE",
        TokenType::FALSE => "FALSE",
        TokenType::EQ => "EQ",
        TokenType::NOT_EQ => "NOT_EQ",
    }
}

impl TokenType {
    /// The kind's name, as it appears in error messages.
    pub fn name(self) -> (r: &'static str)
        ensures
            r == kind_str(self),
    {
        match self {
            TokenType::ILLEGAL => "ILLEGAL",
            TokenType::EOF => "EOF",
            TokenType::IDENT => "IDENT",
            TokenType::INT => "INT",
            TokenType::ASSIGN => "ASSIGN",
            TokenType::PLUS => "PLUS",
            TokenType::MINUS => "MINUS",
            TokenType::COMMA => "COMMA",
            TokenType::SEMICOLON => "SEMICOLON",
            TokenType::LPAREN => "LPAREN",
            TokenType::RPAREN => "RPAREN",
            TokenType::LBRACE => "LBRACE",
            TokenType::RBRACE => "RBRACE",
            TokenType::FUNCTION => "FUNCTION",
            TokenType::LET => "LET",
            TokenType::FSLASH => "FSLASH",
            TokenType::BANG => "BANG",
            TokenType::STAR => "STAR",
            TokenType::LESS => "LESS",
            TokenType::GREATER => "GREATER",
            TokenType::IF => "IF",
            TokenType::ELSE => "ELSE",
            TokenType::RETURN => "RETURN",
            TokenType::TRUE => "TRUE",
            TokenType::FALSE => "FALSE",
            TokenType::EQ => "EQ",
            TokenType::NOT_EQ => "NOT_EQ",
        }
    }
}

/// Builds a token from its kind and text.
pub fn new_token(token_type: TokenType, literal: String) -> (t: Token)
    ensures
        t.token_type == token_type,
        t.literal == literal,
{
    Token { token_type, literal }
}

} // verus!
