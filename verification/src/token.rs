//! Tokens as handed over by the lexer: a token kind, the raw lexeme, an
//! optional literal payload and a source position.
//!
//! A number literal is carried as the IEEE-754 binary64 bit pattern of its
//! value, so that the core itself never computes with machine floats.

use vstd::prelude::*;

verus! {

#[derive(Debug, Clone, Copy, PartialEq, Eq, Structural)]
pub enum TokenType {
    LeftParen,
    RightParen,
    LeftBrace,
    RightBrace,
    Plus,
    Minus,
    Dot,
    SemiColon,
    Star,
    Comma,
    Not,
    Asign,
    Equal,
    NotEqual,
    Less,
    LessEq,
    Greater,
    GreaterEq,
    String,
    Identifier,
    Number,
    Div,
    And,
    Class,
    Else,
    False,
    For,
    Fun,
    If,
    Nil,
    Or,
    Print,
    Return,
    Super,
    This,
    True,
    Var,
    While,
    Eof,
}

#[derive(Debug, Clone, Copy, PartialEq, Eq, Structural)]
pub struct TokenPosition {
    pub line: u64,
    pub offset: u64,
}

/// The literal payload of a token; a number is kept as the bit pattern of an
/// IEEE-754 binary64 value.
#[derive(Debug)]
pub enum TokenLiteral {
    Str(String),
    Number(u64),
    NoValue,
}

impl Clone for TokenLiteral {
    fn clone(&self) -> (r: Self)
        ensures
            r == *self,
    {
        match self {
            TokenLiteral::Str(s) => TokenLiteral::Str(s.clone()),
            TokenLiteral::Number(b) => TokenLiteral::Number(*b),
            TokenLiteral::NoValue => TokenLiteral::NoValue,
        }
    }
}

#[derive(Debug)]
pub struct Token {
    pub token_type: TokenType,
    pub lexeme: String,
    pub literal: TokenLiteral,
    pub pos: TokenPosition,
}

impl Clone for Token {
    fn clone(&self) -> (r: Self)
        ensures
            r == *self,
    {
        Token {
            token_type: self.token_type,
            lexeme: self.lexeme.clone(),
            literal: self.literal.clone(),
            pos: self.pos,
        }
    }
}

impl Token {
    pub fn new(token_type: TokenType, lexeme: String, literal: TokenLiteral, line: u64, offset: u64) -> (t: Token)
        ensures
            t == (Token { token_type, lexeme, literal, pos: TokenPosition { line, offset } }),
    {
        Token { token_type, lexeme, literal, pos: TokenPosition { line, offset } }
    }

    /// A token that carries no literal payload.
    pub fn symbol(token_type: TokenType, lexeme: String, line: u64, offset: u64) -> (t: Token)
        ensures
            t.token_type == token_type,
            t.lexeme == lexeme,
            t.literal is NoValue,
            t.pos == (TokenPosition { line, offset }),
    {
        Token::new(token_type, lexeme, TokenLiteral::NoValue, line, offset)
    }

    /// A keyword or identifier token: the kind is decided by the lexeme.
    pub fn textual(value: String, line: u64, offset: u64) -> (t: Token)
        ensures
            t.token_type == spec_identifier_type(value@),
            t.lexeme == value,
            t.literal is NoValue,
            t.pos == (TokenPosition { line, offset }),
    {
        let token_type = identifier_type(value.as_str());
        Token::new(token_type, value, TokenLiteral::NoValue, line, offset)
    }

    /// A string token; the lexeme still carries its surrounding quotes, the
    /// literal payload is the text between them.
    pub fn string(lexeme: String, line: u64, offset: u64) -> (t: Token)
        requires
            lexeme@.len() >= 2,
        ensures
            t.token_type == TokenType::String,
            t.lexeme == lexeme,
            t.literal matches TokenLiteral::Str(s) && s@ == lexeme@.subrange(1, lexeme@.len() - 1),
            t.pos == (TokenPosition { line, offset }),
    {
        let n = lexeme.as_str().unicode_len();
        let value = lexeme.as_str().substring_char(1, n - 1).to_owned();
        Token::new(TokenType::String, lexeme, TokenLiteral::Str(value), line, offset)
    }

    /// A number token; `bits` is the IEEE-754 binary64 bit pattern of the
    /// value the lexeme denotes.
    pub fn number(lexeme: String, bits: u64, line: u64, offset: u64) -> (t: Token)
        ensures
            t.token_type == TokenType::Number,
            t.lexeme == lexeme,
            t.literal == TokenLiteral::Number(bits),
            t.pos == (TokenPosition { line, offset }),
    {
        Token::new(TokenType::Number, lexeme, TokenLiteral::Number(bits), line, offset)
    }

    pub fn eof(line: u64) -> (t: Token)
        ensures
            t.token_type == TokenType::Eof,
            t.lexeme@ == Seq::<char>::empty(),
            t.literal is NoValue,
            t.pos == (TokenPosition { line, offset: 0 }),
    {
        Token::new(TokenType::Eof, String::new(), TokenLiteral::NoValue, line, 0)
    }
}

/// Character-wise equality of two string slices.
pub fn str_eq(a: &str, b: &str) -> (r: bool)
    ensures
        r == (a@ == b@),
{
    let x: String = a.to_owned();
    let y: String = b.to_owned();
    x == y
}

/// The token kind that a given identifier-shaped lexeme denotes: one of the
/// reserved words, or a plain identifier.
pub open spec fn spec_identifier_type(s: Seq<char>) -> TokenType {
    if s == "and"@ {
        TokenType::And
    } else if s == "class"@ {
        TokenType::Class
    } else if s == "else"@ {
        TokenType::Else
    } else if s == "false"@ {
        TokenType::False
    } else if s == "for"@ {
        TokenType::For
    } else if s == "fun"@ {
        TokenType::Fun
    } else if s == "if"@ {
        TokenType::If
    } else if s == "nil"@ {
        TokenType::Nil
    } else if s == "or"@ {
        TokenType::Or
    } else if s == "print"@ {
        TokenType::Print
    } else if s == "return"@ {
        TokenType::Return
    } else if s == "super"@ {
        TokenType::Super
    } else if s == "this"@ {
        TokenType::This
    } else if s == "true"@ {
        TokenType::True
    } else if s == "var"@ {
        TokenType::Var
    } else if s == "while"@ {
        TokenType::While
    } else {
        TokenType::Identifier
    }
}

pub fn identifier_type(s: &str) -> (t: TokenType)
    ensures
        t == spec_identifier_type(s@),
{
    if str_eq(s, "and") {
        TokenType::And
    } else if str_eq(s, "class") {
        TokenType::Class
    } else if str_eq(s, "else") {
        TokenType::Else
    } else if str_eq(s, "false") {
        TokenType::False
    } else if str_eq(s, "for") {
        TokenType::For
    } else if str_eq(s, "fun") {
        TokenType::Fun
    } else if str_eq(s, "if") {
        TokenType::If
    } else if str_eq(s, "nil") {
        TokenType::Nil
    } else if str_eq(s, "or") {
        TokenType::Or
    } else if str_eq(s, "print") {
        TokenType::Print
    } else if str_eq(s, "return") {
        TokenType::Return
    } else if str_eq(s, "super") {
        TokenType::Super
    } else if str_eq(s, "this") {
        TokenType::This
    } else if str_eq(s, "true") {
        TokenType::True
    } else if str_eq(s, "var") {
        TokenType::Var
    } else if str_eq(s, "while") {
        TokenType::While
    } else {
        TokenType::Identifier
    }
}

} // verus!
