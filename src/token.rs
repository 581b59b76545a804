//! Tokens of the language and their mathematical view.
use vstd::prelude::*;
use vstd::string::*;

verus! {

/// One lexical unit. Identifiers and integer literals carry their text.
#[derive(Clone, Debug, PartialEq, Eq, Hash)]
pub enum Token {
    Illegal,
    EOF,
    // Identifiers + literals
    Identifier(String),
    Int(String),
    // Operators
    Assign,
    Plus,
    Minus,
    Bang,
    Asterisk,
    Slash,
    LessThan,
    GreaterThan,
    Equal,
    NotEqual,
    // Delimiters
    Comma,
    Semicolon,
    LParen,
    RParen,
    LBrace,
    RBrace,
    // Keywords
    Function,
    Let,
    If,
    Else,
    Return,
    True,
    False,
}

/// The view of a `Token`: the same alternatives, with text as a sequence of characters.
pub enum Tok {
    Illegal,
    Eof,
    Ident(Seq<char>),
    Int(Seq<char>),
    Assign,
    Plus,
    Minus,
    Bang,
    Asterisk,
    Slash,
    LessThan,
    GreaterThan,
    Equal,
    NotEqual,
    Comma,
    Semicolon,
    LParen,
    RParen,
    LBrace,
    RBrace,
    Function,
    Let,
    If,
    Else,
    Return,
    True,
    False,
}

impl View for Token {
    type V = Tok;

    open spec fn view(&self) -> Tok {
        match self {
            Token::Illegal => Tok::Illegal,
            Token::EOF => Tok::Eof,
            Token::Identifier(s) => Tok::Ident(s@),
            Token::Int(s) => Tok::Int(s@),
            Token::Assign => Tok::Assign,
            Token::Plus => Tok::Plus,
            Token::Minus => Tok::Minus,
            Token::Bang => Tok::Bang,
            Token::Asterisk => Tok::Asterisk,
            Token::Slash => Tok::Slash,
            Token::LessThan => Tok::LessThan,
            Token::GreaterThan => Tok::GreaterThan,
            Token::Equal => Tok::Equal,
            Token::NotEqual => Tok::NotEqual,
            Token::Comma => Tok::Comma,
            Token::Semicolon => Tok::Semicolon,
            Token::LParen => Tok::LParen,
            Token::RParen => Tok::RParen,
            Token::LBrace => Tok::LBrace,
            Token::RBrace => Tok::RBrace,
            Token::Function => Tok::Function,
            Token::Let => Tok::Let,
            Token::If => Tok::If,
            Token::Else => Tok::Else,
            Token::Return => Tok::Return,
            Token::True => Tok::True,
            Token::False => Tok::False,
        }
    }
}

} // verus!

verus! {

impl Tok {
    /// The text a token is written with; the two markers render as `ILLEGAL` and `EOF`.
    pub open spec fn text(self) -> Seq<char> {
        match self {
            Tok::Illegal => "ILLEGAL"@,
            Tok::Eof => "EOF"@,
            Tok::Ident(s) => s,
            Tok::Int(s) => s,
            Tok::Assign => "="@,
            Tok::Plus => "+"@,
            Tok::Minus => "-"@,
            Tok::Bang => "!"@,
            Tok::Asterisk => "*"@,
            Tok::Slash => "/"@,
            Tok::LessThan => "<"@,
            Tok::GreaterThan => ">"@,
            Tok::Equal => "=="@,
            Tok::NotEqual => "!="@,
            Tok::Comma => ","@,
            Tok::Semicolon => ";"@,
            Tok::LParen => "("@,
            Tok::RParen => ")"@,
            Tok::LBrace => "{"@,
            Tok::RBrace => "}"@,
            Tok::Function => "fn"@,
            Tok::Let => "let"@,
            Tok::If => "if"@,
            Tok::Else => "else"@,
            Tok::Return => "return"@,
            Tok::True => "true"@,
            Tok::False => "false"@,
        }
    }
}

impl Token {
    /// The text this token is written with (`ILLEGAL` and `EOF` for the two markers).
    pub fn to_string(&self) -> (r: String)
        ensures
            r@ == self@.text(),
    {
        match self {
            Token::Illegal => String::from_str("ILLEGAL"),
            Token::EOF => String::from_str("EOF"),
            Token::Identifier(s) => s.clone(),
            Token::Int(s) => s.clone(),
            Token::Assign => String::from_str("="),
            Token::Plus => String::from_str("+"),
            Token::Minus => String::from_str("-"),
            Token::Bang => String::from_str("!"),
            Token::Asterisk => String::from_str("*"),
            Token::Slash => String::from_str("/"),
            Token::LessThan => String::from_str("<"),
            Token::GreaterThan => String::from_str(">"),
            Token::Equal => String::from_str("=="),
            Token::NotEqual => String::from_str("!="),
            Token::Comma => String::from_str(","),
            Token::Semicolon => String::from_str(";"),
            Token::LParen => String::from_str("("),
            Token::RParen => String::from_str(")"),
            Token::LBrace => String::from_str("{"),
            Token::RBrace => String::from_str("}"),
            Token::Function => String::from_str("fn"),
            Token::Let => String::from_str("let"),
            Token::If => String::from_str("if"),
            Token::Else => String::from_str("else"),
            Token::Return => String::from_str("return"),
            Token::True => String::from_str("true"),
            Token::False => String::from_str("false"),
        }
    }
}

} // verus!
