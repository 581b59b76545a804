use monkey::ast::{
    Expression, InfixExpression, InfixOperator, LetStatement, PrefixExpression, PrefixOperator,
    Program, ReturnStatement, Statement,
};
use monkey::token::Token;

#[test]
fn test_display() {
    let program = Program {
        statements: vec![Statement::Let(LetStatement {
            name: Token::Identifier(String::from("myVar")),
            value: Expression::Identifier(String::from("anotherVar")),
        })],
    };

    assert_eq!(program.to_string(), "let myVar = anotherVar;");
}

#[test]
fn display_of_nested_expressions() {
    let expression = Expression::Infix(InfixExpression {
        left: Box::new(Expression::Prefix(PrefixExpression {
            operator: PrefixOperator::Minus,
            right: Box::new(Expression::IntegerLiteral(12)),
        })),
        operator: InfixOperator::NotEqual,
        right: Box::new(Expression::Boolean(false)),
    });
    assert_eq!(expression.to_string(), "((-12) != false)");
}

#[test]
fn display_of_statements_concatenates() {
    let program = Program {
        statements: vec![
            Statement::Return(ReturnStatement { value: Expression::IntegerLiteral(0) }),
            Statement::Let(LetStatement {
                name: Token::Identifier(String::from("a")),
                value: Expression::Boolean(true),
            }),
        ],
    };
    assert_eq!(program.to_string(), "return 0;let a = true;");
    assert_eq!(Program { statements: vec![] }.to_string(), "");
}

#[test]
fn integers_render_in_decimal() {
    assert_eq!(monkey::ast::integer_text(0), "0");
    assert_eq!(monkey::ast::integer_text(7), "7");
    assert_eq!(monkey::ast::integer_text(10), "10");
    assert_eq!(monkey::ast::integer_text(-42), "-42");
    assert_eq!(monkey::ast::integer_text(993322), "993322");
    assert_eq!(monkey::ast::integer_text(isize::MAX), isize::MAX.to_string());
    assert_eq!(monkey::ast::integer_text(isize::MIN), isize::MIN.to_string());
}

#[test]
fn operators_render() {
    assert_eq!(PrefixOperator::Bang.to_string(), "!");
    assert_eq!(InfixOperator::Slash.to_string(), "/");
    assert_eq!(InfixOperator::Equal.to_string(), "==");
    assert_eq!(InfixOperator::LessThan.to_string(), "<");
}
