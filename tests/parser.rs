use monkey::ast::{Expression, InfixOperator, PrefixOperator, Statement};
use monkey::lexer::Lexer;
use monkey::parser::Parser;
use monkey::token::Token;

#[test]
fn test_let_statements() {
    let input = String::from(
        "
        let x = 5;
        let y = 10;
        let foobar = 838383;
    ",
    );

    let lexer = Lexer::new(input);
    let mut parser = Parser::new(lexer);
    let program = parser.parse_program();

    assert_eq!(parser.errors, Vec::<String>::new());
    assert_eq!(program.statements.len(), 3);

    let expected = vec!["x", "y", "foobar"];
    for (i, name) in expected.iter().enumerate() {
        let statement = &program.statements[i];
        match statement {
            Statement::Let(let_statement) => {
                assert_eq!(let_statement.name, Token::Identifier(name.to_string()));
            }
            _ => panic!("Expected LetStatement"),
        }
    }
}

#[test]
fn test_return_statements() {
    let input = String::from(
        "
        return 5;
        return 10;
        return 993322;
    ",
    );

    let lexer = Lexer::new(input);
    let mut parser = Parser::new(lexer);
    let program = parser.parse_program();

    assert_eq!(parser.errors, Vec::<String>::new());
    assert_eq!(program.statements.len(), 3);

    for statement in program.statements {
        match statement {
            Statement::Return(_) => {}
            _ => panic!("Expected ReturnStatement"),
        }
    }
}

#[test]
fn test_identifier_expression() {
    let input = String::from("foobar;");

    let lexer = Lexer::new(input);
    let mut parser = Parser::new(lexer);
    let program = parser.parse_program();

    assert_eq!(parser.errors, Vec::<String>::new());
    assert_eq!(program.statements.len(), 1);

    let statement = &program.statements[0];
    let expression = match statement {
        Statement::Expression(expression_statement) => &expression_statement.expression,
        _ => panic!("Expected ExpressionStatement"),
    };
    let identifier = match expression {
        Expression::Identifier(token) => token,
        _ => panic!("Expected Identifier"),
    };
    assert_eq!(identifier, &String::from("foobar"));
}

#[test]
fn test_integer_literal_expression() {
    let input = String::from("5;");

    let lexer = Lexer::new(input);
    let mut parser = Parser::new(lexer);
    let program = parser.parse_program();

    assert_eq!(parser.errors, Vec::<String>::new());
    assert_eq!(program.statements.len(), 1);

    let statement = &program.statements[0];
    let expression = match statement {
        Statement::Expression(expression_statement) => &expression_statement.expression,
        _ => panic!("Expected ExpressionStatement"),
    };
    let integer = match expression {
        Expression::IntegerLiteral(token) => token,
        _ => panic!("Expected Integer"),
    };
    assert_eq!(integer, &5);
}

#[test]
fn test_parse_prefix_expressions() {
    let tests = vec![
        ("!5;", PrefixOperator::Bang, Expression::IntegerLiteral(5)),
        (
            "-15;",
            PrefixOperator::Minus,
            Expression::IntegerLiteral(15),
        ),
        ("!true;", PrefixOperator::Bang, Expression::Boolean(true)),
        ("!false;", PrefixOperator::Bang, Expression::Boolean(false)),
    ];

    for (input, operator, expected_right) in tests {
        let lexer = Lexer::new(String::from(input));
        let mut parser = Parser::new(lexer);
        let program = parser.parse_program();

        assert_eq!(parser.errors, Vec::<String>::new());
        assert_eq!(program.statements.len(), 1);

        let statement = &program.statements[0];
        let expression = match statement {
            Statement::Expression(expression_statement) => &expression_statement.expression,
            _ => panic!("Expected ExpressionStatement"),
        };
        let prefix = match expression {
            Expression::Prefix(expression) => expression,
            _ => panic!("Expected Prefix"),
        };
        assert_eq!(prefix.operator, operator);
        assert_eq!(*prefix.right, expected_right);
    }
}

#[test]
fn test_parse_infix_expressions() {
    let tests = vec![
        (
            "5 + 5;",
            Expression::IntegerLiteral(5),
            InfixOperator::Plus,
            Expression::IntegerLiteral(5),
        ),
        (
            "5 - 5;",
            Expression::IntegerLiteral(5),
            InfixOperator::Minus,
            Expression::IntegerLiteral(5),
        ),
        (
            "5 * 5;",
            Expression::IntegerLiteral(5),
            InfixOperator::Asterisk,
            Expression::IntegerLiteral(5),
        ),
        (
            "5 / 5;",
            Expression::IntegerLiteral(5),
            InfixOperator::Slash,
            Expression::IntegerLiteral(5),
        ),
        (
            "5 > 5;",
            Expression::IntegerLiteral(5),
            InfixOperator::GreaterThan,
            Expression::IntegerLiteral(5),
        ),
        (
            "5 < 5;",
            Expression::IntegerLiteral(5),
            InfixOperator::LessThan,
            Expression::IntegerLiteral(5),
        ),
        (
            "5 == 5;",
            Expression::IntegerLiteral(5),
            InfixOperator::Equal,
            Expression::IntegerLiteral(5),
        ),
        (
            "5 != 5;",
            Expression::IntegerLiteral(5),
            InfixOperator::NotEqual,
            Expression::IntegerLiteral(5),
        ),
        (
            "true == true",
            Expression::Boolean(true),
            InfixOperator::Equal,
            Expression::Boolean(true),
        ),
        (
            "true != false",
            Expression::Boolean(true),
            InfixOperator::NotEqual,
            Expression::Boolean(false),
        ),
        (
            "false == false",
            Expression::Boolean(false),
            InfixOperator::Equal,
            Expression::Boolean(false),
        ),
    ];

    for (input, expected_left, expected_operator, expected_right) in tests {
        let lexer = Lexer::new(String::from(input));
        let mut parser = Parser::new(lexer);
        let program = parser.parse_program();

        assert_eq!(parser.errors, Vec::<String>::new());
        assert_eq!(program.statements.len(), 1);

        let statement = &program.statements[0];
        let expression = match statement {
            Statement::Expression(expression_statement) => &expression_statement.expression,
            _ => panic!("Expected ExpressionStatement"),
        };
        let infix = match expression {
            Expression::Infix(expression) => expression,
            _ => panic!("Expected Infix"),
        };
        assert_eq!(infix.operator, expected_operator);
        assert_eq!(*infix.left, expected_left);
        assert_eq!(*infix.right, expected_right);
    }
}

#[test]
fn test_operator_precedence_parsing() {
    let tests = vec![
        ("-a * b;", "((-a) * b)"),
        ("!-a;", "(!(-a))"),
        ("a + b + c;", "((a + b) + c)"),
        ("a + b - c;", "((a + b) - c)"),
        ("a * b * c;", "((a * b) * c)"),
        ("a * b / c;", "((a * b) / c)"),
        ("a + b / c;", "(a + (b / c))"),
        ("a + b * c + d / e - f;", "(((a + (b * c)) + (d / e)) - f)"),
        ("3 + 4; -5 * 5;", "(3 + 4)((-5) * 5)"),
        ("5 > 4 == 3 < 4;", "((5 > 4) == (3 < 4))"),
        ("5 < 4 != 3 > 4;", "((5 < 4) != (3 > 4))"),
        (
            "3 + 4 * 5 == 3 * 1 + 4 * 5;",
            "((3 + (4 * 5)) == ((3 * 1) + (4 * 5)))",
        ),
        ("true;", "true"),
        ("false;", "false"),
        ("3 > 5 == false;", "((3 > 5) == false)"),
        ("3 < 5 == true;", "((3 < 5) == true)"),
        ("1 + (2 + 3) + 4;", "((1 + (2 + 3)) + 4)"),
        ("(5 + 5) * 2;", "((5 + 5) * 2)"),
        ("2 / (5 + 5);", "(2 / (5 + 5))"),
        ("-(5 + 5);", "(-(5 + 5))"),
        ("!(true == true);", "(!(true == true))"),
    ];

    for (input, expected) in tests {
        let lexer = Lexer::new(String::from(input));
        let mut parser = Parser::new(lexer);
        let program = parser.parse_program();
        assert_eq!(parser.errors, Vec::<String>::new());
        assert_eq!(program.to_string(), expected);
    }
}

#[test]
fn test_boolean_expression() {
    let tests = vec![("true;", true), ("false;", false)];
    for (input, expected) in tests {
        let lexer = Lexer::new(String::from(input));
        let mut parser = Parser::new(lexer);
        let program = parser.parse_program();

        assert_eq!(parser.errors, Vec::<String>::new());
        assert_eq!(program.statements.len(), 1);

        let statement = &program.statements[0];
        let expression = match statement {
            Statement::Expression(expression_statement) => &expression_statement.expression,
            _ => panic!("Expected ExpressionStatement"),
        };
        let boolean = match expression {
            Expression::Boolean(token) => token,
            _ => panic!("Expected Boolean"),
        };
        assert_eq!(boolean, &expected);
    }
}

fn parse(input: &str) -> (String, usize, Vec<String>) {
    let lexer = Lexer::new(String::from(input));
    let mut parser = Parser::new(lexer);
    let program = parser.parse_program();
    (program.to_string(), program.statements.len(), parser.errors)
}

#[test]
fn round_trip_examples() {
    assert_eq!(parse("-a * b;").0, "((-a) * b)");
    assert_eq!(parse("a + b * c + d / e - f;").0, "(((a + (b * c)) + (d / e)) - f)");
    assert_eq!(
        parse("3 + 4 * 5 == 3 * 1 + 4 * 5;").0,
        "((3 + (4 * 5)) == ((3 * 1) + (4 * 5)))"
    );
    assert_eq!(parse("(5 + 5) * 2;").0, "((5 + 5) * 2)");
    assert_eq!(parse("2 / (5 + 5);").0, "(2 / (5 + 5))");
}

#[test]
fn let_and_return_carry_their_values() {
    let (text, count, errors) = parse("let x = 1 + 2 * 3; return a == b;");
    assert_eq!(text, "let x = (1 + (2 * 3));return (a == b);");
    assert_eq!(count, 2);
    assert!(errors.is_empty());
}

#[test]
fn let_value_and_name() {
    let lexer = Lexer::new(String::from("let answer = -42;"));
    let mut parser = Parser::new(lexer);
    let program = parser.parse_program();
    assert!(parser.errors.is_empty());
    match &program.statements[0] {
        Statement::Let(s) => {
            assert_eq!(s.name, Token::Identifier(String::from("answer")));
            assert_eq!(s.value.to_string(), "(-42)");
        }
        _ => panic!("Expected LetStatement"),
    }
}

#[test]
fn semicolons_are_optional() {
    let (text, count, errors) = parse("let a = 1 return 2 3");
    assert_eq!(text, "let a = 1;return 2;3");
    assert_eq!(count, 3);
    assert!(errors.is_empty());
}

#[test]
fn let_without_name_is_reported() {
    let (_, count, errors) = parse("let = 5;");
    assert!(!errors.is_empty());
    assert_eq!(errors[0], "expected next token to be an identifier, got = instead");
    assert!(count <= 2);
}

#[test]
fn let_without_assign_is_reported() {
    let (_, _, errors) = parse("let x 5;");
    assert_eq!(errors[0], "expected next token to be =, got 5 instead");
}

#[test]
fn missing_closing_parenthesis_is_reported() {
    let (text, count, errors) = parse("(1 + 2;");
    // the stray `;` is then taken for a statement of its own
    assert_eq!(
        errors,
        vec![
            String::from("expected next token to be ), got ; instead"),
            String::from("no prefix parse function for ;"),
        ]
    );
    assert_eq!(count, 0);
    assert_eq!(text, "");
}

#[test]
fn token_without_prefix_rule_is_reported() {
    let (_, count, errors) = parse("; x;");
    assert_eq!(errors, vec![String::from("no prefix parse function for ;")]);
    assert_eq!(count, 1);
    let (_, _, errors) = parse("let x = ;");
    assert_eq!(errors[0], "no prefix parse function for ;");
    let (_, _, errors) = parse("1 + @");
    assert_eq!(errors[0], "no prefix parse function for ILLEGAL");
    let (_, _, errors) = parse("return");
    assert_eq!(errors[0], "no prefix parse function for EOF");
}

#[test]
fn oversized_integer_is_reported() {
    let (_, count, errors) = parse("99999999999999999999;");
    assert_eq!(errors[0], "could not parse 99999999999999999999 as an integer");
    assert_eq!(errors.len(), 2);
    assert_eq!(count, 0);
    let big = isize::MAX.to_string() + ";";
    let (text, _, errors) = parse(&big);
    assert!(errors.is_empty());
    assert_eq!(text, isize::MAX.to_string());
}

#[test]
fn parsing_goes_on_after_a_bad_statement() {
    let (text, count, errors) = parse("let = 5; let y = 2;");
    assert!(!errors.is_empty());
    assert!(text.ends_with("let y = 2;"));
    assert!(count >= 1);
}

#[test]
fn empty_program() {
    let (text, count, errors) = parse("   ");
    assert_eq!(text, "");
    assert_eq!(count, 0);
    assert!(errors.is_empty());
}

#[test]
fn parsing_twice_gives_nothing_more() {
    let lexer = Lexer::new(String::from("a;"));
    let mut parser = Parser::new(lexer);
    assert_eq!(parser.parse_program().statements.len(), 1);
    assert_eq!(parser.parse_program().statements.len(), 0);
    assert!(parser.errors.is_empty());
}

#[test]
fn literal_values() {
    assert_eq!(monkey::parser::literal_value_of(&String::from("0")), Some(0));
    assert_eq!(monkey::parser::literal_value_of(&String::from("0042")), Some(42));
    assert_eq!(monkey::parser::literal_value_of(&String::from("")), None);
    assert_eq!(monkey::parser::literal_value_of(&String::from("4a")), None);
    assert_eq!(
        monkey::parser::literal_value_of(&(isize::MAX.to_string() + "0")),
        None
    );
}

#[test]
fn rendering_parses_back_to_itself() {
    for input in ["-a * b;", "a + b * c + d / e - f;", "!(true == x) != false;", "1 < 2 > 3;"] {
        let (text, _, errors) = parse(input);
        assert!(errors.is_empty());
        let (again, count, errors) = parse(&(text.clone() + ";"));
        assert!(errors.is_empty());
        assert_eq!(count, 1);
        assert_eq!(again, text);
    }
}

#[test]
fn equal_precedence_groups_to_the_left() {
    assert_eq!(parse("a - b - c;").0, "((a - b) - c)");
    assert_eq!(parse("a == b != c;").0, "((a == b) != c)");
    assert_eq!(parse("a < b * c;").0, "(a < (b * c))");
    assert_eq!(parse("a * b < c;").0, "((a * b) < c)");
}

#[test]
fn parentheses_override_precedence() {
    assert_eq!(parse("(a == b) * c;").0, "((a == b) * c)");
    assert_eq!(parse("a * (b == c);").0, "(a * (b == c))");
}
