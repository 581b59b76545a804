//! The syntax tree, its mathematical view, and its rendering as text.
use vstd::prelude::*;
use vstd::string::*;
use crate::token::{Tok, Token};

verus! {

/// A statement of a program.
#[derive(Debug)]
pub enum Statement {
    Let(LetStatement),
    Return(ReturnStatement),
    Expression(ExpressionStatement),
}

/// `let <name> = <value>;`
#[derive(Debug)]
pub struct LetStatement {
    pub name: Token,
    pub value: Expression,
}

/// `return <value>;`
#[derive(Debug)]
pub struct ReturnStatement {
    pub value: Expression,
}

#[derive(Clone, Copy, Debug, PartialEq, Eq, Structural)]
pub enum PrefixOperator {
    Bang,
    Minus,
}

#[derive(Debug, PartialEq)]
pub struct PrefixExpression {
    pub operator: PrefixOperator,
    pub right: Box<Expression>,
}

#[derive(Clone, Copy, Debug, PartialEq, Eq, Structural)]
pub enum InfixOperator {
    Plus,
    Minus,
    Asterisk,
    Slash,
    Equal,
    NotEqual,
    LessThan,
    GreaterThan,
}

#[derive(Debug, PartialEq)]
pub struct InfixExpression {
    pub left: Box<Expression>,
    pub operator: InfixOperator,
    pub right: Box<Expression>,
}

#[derive(Debug, PartialEq)]
pub enum Expression {
    Identifier(String),
    IntegerLiteral(isize),
    Prefix(PrefixExpression),
    Infix(InfixExpression),
    Boolean(bool),
}

/// An expression used as a statement.
#[derive(Debug)]
pub struct ExpressionStatement {
    pub expression: Expression,
}

/// The root of the tree: the statements in source order.
pub struct Program {
    pub statements: Vec<Statement>,
}

/// The view of an `Expression`.
pub enum ExprV {
    Ident(Seq<char>),
    Int(int),
    Bool(bool),
    Prefix(PrefixOperator, Box<ExprV>),
    Infix(Box<ExprV>, InfixOperator, Box<ExprV>),
}

/// The view of a `Statement`.
pub enum StmtV {
    Let(Tok, ExprV),
    Return(ExprV),
    Expr(ExprV),
}

impl View for Expression {
    type V = ExprV;

    open spec fn view(&self) -> ExprV
        decreases self,
    {
        match self {
            Expression::Identifier(s) => ExprV::Ident(s@),
            Expression::IntegerLiteral(n) => ExprV::Int(*n as int),
            Expression::Boolean(b) => ExprV::Bool(*b),
            Expression::Prefix(p) => ExprV::Prefix(p.operator, Box::new((*p.right).view())),
            Expression::Infix(i) => ExprV::Infix(
                Box::new((*i.left).view()),
                i.operator,
                Box::new((*i.right).view()),
            ),
        }
    }
}

impl View for Statement {
    type V = StmtV;

    open spec fn view(&self) -> StmtV {
        match self {
            Statement::Let(s) => StmtV::Let(s.name@, s.value@),
            Statement::Return(s) => StmtV::Return(s.value@),
            Statement::Expression(s) => StmtV::Expr(s.expression@),
        }
    }
}

impl View for Program {
    type V = Seq<StmtV>;

    open spec fn view(&self) -> Seq<StmtV> {
        self.statements@.map_values(|s: Statement| s@)
    }
}

/// The text of a decimal digit.
pub open spec fn digit_text(d: nat) -> Seq<char> {
    if d == 0 {
        "0"@
    } else if d == 1 {
        "1"@
    } else if d == 2 {
        "2"@
    } else if d == 3 {
        "3"@
    } else if d == 4 {
        "4"@
    } else if d == 5 {
        "5"@
    } else if d == 6 {
        "6"@
    } else if d == 7 {
        "7"@
    } else if d == 8 {
        "8"@
    } else {
        "9"@
    }
}

/// The decimal digits of `n`, without leading zeros.
pub open spec fn decimal(n: nat) -> Seq<char>
    decreases n,
{
    if n < 10 {
        digit_text(n)
    } else {
        decimal(n / 10) + digit_text(n % 10)
    }
}

/// An integer in decimal, with a leading `-` when it is negative.
pub open spec fn int_text(i: int) -> Seq<char> {
    if i < 0 {
        "-"@ + decimal((-i) as nat)
    } else {
        decimal(i as nat)
    }
}

pub open spec fn prefix_text(op: PrefixOperator) -> Seq<char> {
    match op {
        PrefixOperator::Bang => "!"@,
        PrefixOperator::Minus => "-"@,
    }
}

pub open spec fn infix_text(op: InfixOperator) -> Seq<char> {
    match op {
        InfixOperator::Plus => "+"@,
        InfixOperator::Minus => "-"@,
        InfixOperator::Asterisk => "*"@,
        InfixOperator::Slash => "/"@,
        InfixOperator::Equal => "=="@,
        InfixOperator::NotEqual => "!="@,
        InfixOperator::LessThan => "<"@,
        InfixOperator::GreaterThan => ">"@,
    }
}

/// The fully parenthesized text of an expression: `(op right)` for a prefix expression,
/// `(left op right)` for an infix one, literals as written.
pub open spec fn render_expr(e: ExprV) -> Seq<char>
    decreases e,
{
    match e {
        ExprV::Ident(s) => s,
        ExprV::Int(n) => int_text(n),
        ExprV::Bool(b) => if b {
            "true"@
        } else {
            "false"@
        },
        ExprV::Prefix(op, right) => "("@ + prefix_text(op) + render_expr(*right) + ")"@,
        ExprV::Infix(left, op, right) => "("@ + render_expr(*left) + " "@ + infix_text(op) + " "@
            + render_expr(*right) + ")"@,
    }
}

/// `let x = y;`, `return y;`, or the bare expression.
pub open spec fn render_stmt(s: StmtV) -> Seq<char> {
    match s {
        StmtV::Let(name, value) => "let "@ + name.text() + " = "@ + render_expr(value) + ";"@,
        StmtV::Return(value) => "return "@ + render_expr(value) + ";"@,
        StmtV::Expr(value) => render_expr(value),
    }
}

/// The statements' texts, one after the other.
pub open spec fn render_program(stmts: Seq<StmtV>) -> Seq<char>
    decreases stmts.len(),
{
    if stmts.len() == 0 {
        Seq::empty()
    } else {
        render_program(stmts.drop_last()) + render_stmt(stmts.last())
    }
}

fn digit_str(d: u8) -> (r: &'static str)
    requires
        d < 10,
    ensures
        r@ == digit_text(d as nat),
{
    if d == 0 {
        "0"
    } else if d == 1 {
        "1"
    } else if d == 2 {
        "2"
    } else if d == 3 {
        "3"
    } else if d == 4 {
        "4"
    } else if d == 5 {
        "5"
    } else if d == 6 {
        "6"
    } else if d == 7 {
        "7"
    } else if d == 8 {
        "8"
    } else {
        "9"
    }
}

/// Writes `n` in decimal.
pub fn integer_text(n: isize) -> (r: String)
    ensures
        r@ == int_text(n as int),
{
    let mut v: u128 = if n < 0 {
        (-(n as i128)) as u128
    } else {
        n as u128
    };
    let ghost m: nat = v as nat;
    let mut s = String::from_str(digit_str((v % 10) as u8));
    v = v / 10;
    while v > 0
        invariant
            v == 0 ==> s@ == decimal(m),
            v > 0 ==> decimal(m) == decimal(v as nat) + s@,
        decreases v,
    {
        let mut t = String::from_str(digit_str((v % 10) as u8));
        t.append(s.as_str());
        s = t;
        v = v / 10;
    }
    if n < 0 {
        let mut r = String::from_str("-");
        r.append(s.as_str());
        r
    } else {
        s
    }
}

impl PrefixOperator {
    pub fn to_string(&self) -> (r: String)
        ensures
            r@ == prefix_text(*self),
    {
        match self {
            PrefixOperator::Bang => String::from_str("!"),
            PrefixOperator::Minus => String::from_str("-"),
        }
    }
}

impl InfixOperator {
    pub fn to_string(&self) -> (r: String)
        ensures
            r@ == infix_text(*self),
    {
        match self {
            InfixOperator::Plus => String::from_str("+"),
            InfixOperator::Minus => String::from_str("-"),
            InfixOperator::Asterisk => String::from_str("*"),
            InfixOperator::Slash => String::from_str("/"),
            InfixOperator::Equal => String::from_str("=="),
            InfixOperator::NotEqual => String::from_str("!="),
            InfixOperator::LessThan => String::from_str("<"),
            InfixOperator::GreaterThan => String::from_str(">"),
        }
    }
}

impl Expression {
    /// The fully parenthesized text of this expression.
    pub fn to_string(&self) -> (r: String)
        ensures
            r@ == render_expr(self@),
        decreases self,
    {
        match self {
            Expression::Identifier(name) => name.clone(),
            Expression::IntegerLiteral(n) => integer_text(*n),
            Expression::Boolean(b) => if *b {
                String::from_str("true")
            } else {
                String::from_str("false")
            },
            Expression::Prefix(p) => {
                let mut r = String::from_str("(");
                r.append(p.operator.to_string().as_str());
                r.append(p.right.to_string().as_str());
                r.append(")");
                r
            },
            Expression::Infix(i) => {
                let mut r = String::from_str("(");
                r.append(i.left.to_string().as_str());
                r.append(" ");
                r.append(i.operator.to_string().as_str());
                r.append(" ");
                r.append(i.right.to_string().as_str());
                r.append(")");
                r
            },
        }
    }
}

impl LetStatement {
    pub fn to_string(&self) -> (r: String)
        ensures
            r@ == render_stmt(StmtV::Let(self.name@, self.value@)),
    {
        let mut r = String::from_str("let ");
        r.append(self.name.to_string().as_str());
        r.append(" = ");
        r.append(self.value.to_string().as_str());
        r.append(";");
        r
    }
}

impl ReturnStatement {
    pub fn to_string(&self) -> (r: String)
        ensures
            r@ == render_stmt(StmtV::Return(self.value@)),
    {
        let mut r = String::from_str("return ");
        r.append(self.value.to_string().as_str());
        r.append(";");
        r
    }
}

impl ExpressionStatement {
    pub fn to_string(&self) -> (r: String)
        ensures
            r@ == render_stmt(StmtV::Expr(self.expression@)),
    {
        self.expression.to_string()
    }
}

impl Statement {
    pub fn to_string(&self) -> (r: String)
        ensures
            r@ == render_stmt(self@),
    {
        match self {
            Statement::Let(s) => s.to_string(),
            Statement::Return(s) => s.to_string(),
            Statement::Expression(s) => s.to_string(),
        }
    }
}

impl Program {
    /// The statements' texts, concatenated in order.
    pub fn to_string(&self) -> (r: String)
        ensures
            r@ == render_program(self@),
    {
        let mut output = String::new();
        let mut i: usize = 0;
        while i < self.statements.len()
            invariant
                i <= self.statements@.len(),
                output@ == render_program(self@.take(i as int)),
            decreases self.statements@.len() - i,
        {
            let text = self.statements[i].to_string();
            proof {
                assert(self@.take(i + 1).drop_last() =~= self@.take(i as int));
            }
            output.append(text.as_str());
            i = i + 1;
        }
        proof {
            assert(self@.take(i as int) =~= self@);
        }
        output
    }
}

} // verus!
