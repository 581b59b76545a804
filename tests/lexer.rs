use monkey::lexer::Lexer;
use monkey::token::Token;

fn tokens_of(input: &str, count: usize) -> Vec<Token> {
    let mut lexer = Lexer::new(input.to_string());
    let mut tokens = Vec::new();
    for _ in 0..count {
    tokens.push(lexer.next_token());
    }
    tokens
}

#[test]
fn test_next_token() {
    let input = "
            let five = 5;
            let ten = 10;

            let add = fn(x, y) {
                x + y;
            };

            let result = add(five, ten);
            !-/*5;
            5 < 10 > 5;

            if (5 < 10) {
                return true;
            } else {
                return false;
            }

            10 == 10;
            10 != 9;
        ";
    let expected = vec![
        Token::Let,
        Token::Identifier(String::from("five")),
        Token::Assign,
        Token::Int(String::from("5")),
        Token::Semicolon,
        Token::Let,
        Token::Identifier(String::from("ten")),
        Token::Assign,
        Token::Int(String::from("10")),
        Token::Semicolon,
        Token::Let,
        Token::Identifier(String::from("add")),
        Token::Assign,
        Token::Function,
        Token::LParen,
        Token::Identifier(String::from("x")),
        Token::Comma,
        Token::Identifier(String::from("y")),
        Token::RParen,
        Token::LBrace,
        Token::Identifier(String::from("x")),
        Token::Plus,
        Token::Identifier(String::from("y")),
        Token::Semicolon,
        Token::RBrace,
        Token::Semicolon,
        Token::Let,
        Token::Identifier(String::from("result")),
        Token::Assign,
        Token::Identifier(String::from("add")),
        Token::LParen,
        Token::Identifier(String::from("five")),
        Token::Comma,
        Token::Identifier(String::from("ten")),
        Token::RParen,
        Token::Semicolon,
        Token::Bang,
        Token::Minus,
        Token::Slash,
        Token::Asterisk,
        Token::Int(String::from("5")),
        Token::Semicolon,
        Token::Int(String::from("5")),
        Token::LessThan,
        Token::Int(String::from("10")),
        Token::GreaterThan,
        Token::Int(String::from("5")),
        Token::Semicolon,
        Token::If,
        Token::LParen,
        Token::Int(String::from("5")),
        Token::LessThan,
        Token::Int(String::from("10")),
        Token::RParen,
        Token::LBrace,
        Token::Return,
        Token::True,
        Token::Semicolon,
        Token::RBrace,
        Token::Else,
        Token::LBrace,
        Token::Return,
        Token::False,
        Token::Semicolon,
        Token::RBrace,
        Token::Int(String::from("10")),
        Token::Equal,
        Token::Int(String::from("10")),
        Token::Semicolon,
        Token::Int(String::from("10")),
        Token::NotEqual,
        Token::Int(String::from("9")),
        Token::Semicolon,
        Token::EOF,
    ];

    let mut lexer = Lexer::new(input.to_string());

    for expected_token in expected {
        let token = lexer.next_token();
        assert_eq!(token, expected_token);
    }
}

#[test]
fn lexer_test_next_token() {
    let input = "let five = 5;
let ten = 10;

let add = fn(x, y) {
    x + y;
};

let result = add(five, ten);
!-/*5;
5 < 10 > 5;

if (5 < 10) {
    return true;
} else {
    return false;
}

10 == 10;
10 != 9;
";

    let expected = vec![
        Token::Let,
        Token::Identifier(String::from("five")),
        Token::Assign,
        Token::Int(String::from("5")),
        Token::Semicolon,
        Token::Let,
        Token::Identifier(String::from("ten")),
        Token::Assign,
        Token::Int(String::from("10")),
        Token::Semicolon,
        Token::Let,
        Token::Identifier(String::from("add")),
        Token::Assign,
        Token::Function,
        Token::LParen,
        Token::Identifier(String::from("x")),
        Token::Comma,
        Token::Identifier(String::from("y")),
        Token::RParen,
        Token::LBrace,
        Token::Identifier(String::from("x")),
        Token::Plus,
        Token::Identifier(String::from("y")),
        Token::Semicolon,
        Token::RBrace,
        Token::Semicolon,
        Token::Let,
        Token::Identifier(String::from("result")),
        Token::Assign,
        Token::Identifier(String::from("add")),
        Token::LParen,
        Token::Identifier(String::from("five")),
        Token::Comma,
        Token::Identifier(String::from("ten")),
        Token::RParen,
        Token::Semicolon,
        Token::Bang,
        Token::Minus,
        Token::Slash,
        Token::Asterisk,
        Token::Int(String::from("5")),
        Token::Semicolon,
        Token::Int(String::from("5")),
        Token::LessThan,
        Token::Int(String::from("10")),
        Token::GreaterThan,
        Token::Int(String::from("5")),
        Token::Semicolon,
        Token::If,
        Token::LParen,
        Token::Int(String::from("5")),
        Token::LessThan,
        Token::Int(String::from("10")),
        Token::RParen,
        Token::LBrace,
        Token::Return,
        Token::True,
        Token::Semicolon,
        Token::RBrace,
        Token::Else,
        Token::LBrace,
        Token::Return,
        Token::False,
        Token::Semicolon,
        Token::RBrace,
        Token::Int(String::from("10")),
        Token::Equal,
        Token::Int(String::from("10")),
        Token::Semicolon,
        Token::Int(String::from("10")),
        Token::NotEqual,
        Token::Int(String::from("9")),
        Token::Semicolon,
        Token::EOF,
    ];

    let mut lexer = Lexer::new(input.to_string());

    for expected_token in expected {
        let token = lexer.next_token();
        assert_eq!(token, expected_token);
    }
}

#[test]
fn single_character_tokens() {
    assert_eq!(
    tokens_of("=+(){},;", 9),
    vec![
        Token::Assign,
        Token::Plus,
        Token::LParen,
        Token::RParen,
        Token::LBrace,
        Token::RBrace,
        Token::Comma,
        Token::Semicolon,
        Token::EOF,
    ]
    );
}

#[test]
fn end_of_input_repeats() {
    let mut lexer = Lexer::new(String::from("x  "));
    assert_eq!(lexer.next_token(), Token::Identifier(String::from("x")));
    for _ in 0..5 {
    assert_eq!(lexer.next_token(), Token::EOF);
    }
}

#[test]
fn empty_input_is_end_of_input() {
    assert_eq!(tokens_of("", 3), vec![Token::EOF, Token::EOF, Token::EOF]);
    assert_eq!(tokens_of(" \t\r\n", 2), vec![Token::EOF, Token::EOF]);
}

#[test]
fn unknown_bytes_are_illegal_and_consumed() {
    assert_eq!(
    tokens_of("@a", 3),
    vec![Token::Illegal, Token::Identifier(String::from("a")), Token::EOF]
    );
    // a two-byte character gives one illegal token per byte
    assert_eq!(tokens_of("\u{e9}", 3), vec![Token::Illegal, Token::Illegal, Token::EOF]);
}

#[test]
fn two_character_operators() {
    assert_eq!(
    tokens_of("== != = ! =!", 7),
    vec![
        Token::Equal,
        Token::NotEqual,
        Token::Assign,
        Token::Bang,
        Token::Assign,
        Token::Bang,
        Token::EOF,
    ]
    );
}

#[test]
fn digits_end_identifiers() {
    assert_eq!(
    tokens_of("ab12cd _x", 5),
    vec![
        Token::Identifier(String::from("ab")),
        Token::Int(String::from("12")),
        Token::Identifier(String::from("cd")),
        Token::Identifier(String::from("_x")),
        Token::EOF,
    ]
    );
}

#[test]
fn keywords_and_near_keywords() {
    assert_eq!(
    tokens_of("fn let if else return true false lets Fn", 10),
    vec![
        Token::Function,
        Token::Let,
        Token::If,
        Token::Else,
        Token::Return,
        Token::True,
        Token::False,
        Token::Identifier(String::from("lets")),
        Token::Identifier(String::from("Fn")),
        Token::EOF,
    ]
    );
}

#[test]
fn token_text() {
    assert_eq!(Token::Identifier(String::from("abc")).to_string(), "abc");
    assert_eq!(Token::Int(String::from("007")).to_string(), "007");
    assert_eq!(Token::NotEqual.to_string(), "!=");
    assert_eq!(Token::LBrace.to_string(), "{");
    assert_eq!(Token::EOF.to_string(), "EOF");
    assert_eq!(Token::Illegal.to_string(), "ILLEGAL");
}
