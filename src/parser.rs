//! The parser: statements by recursive descent, expressions by precedence climbing.
use vstd::prelude::*;
use vstd::string::*;
use crate::ast::{
    ExprV, Expression, ExpressionStatement, InfixExpression, InfixOperator, LetStatement,
    PrefixExpression, PrefixOperator, Program, ReturnStatement, Statement, StmtV,
};
use crate::lexer::{lex_all, lemma_lex_all_shape, lemma_lex_all_step, Lexer};
use crate::token::{Tok, Token};

verus! {

/// Binding strength of operators, from weakest to strongest. `Call` is reserved for call
/// expressions, which no rule produces yet.
#[derive(Clone, Copy, Debug, PartialEq, Eq, Structural)]
pub enum Precedence {
    Lowest,
    Equals,
    LessGreater,
    Sum,
    Product,
    Prefix,
    Call,
}

/// The order of the precedence levels.
pub open spec fn rank(p: Precedence) -> nat {
    match p {
        Precedence::Lowest => 0,
        Precedence::Equals => 1,
        Precedence::LessGreater => 2,
        Precedence::Sum => 3,
        Precedence::Product => 4,
        Precedence::Prefix => 5,
        Precedence::Call => 6,
    }
}

/// The binding table: how strongly a token binds when it stands between two operands.
pub open spec fn precedence_of(t: Tok) -> Precedence {
    match t {
        Tok::Equal | Tok::NotEqual => Precedence::Equals,
        Tok::LessThan | Tok::GreaterThan => Precedence::LessGreater,
        Tok::Plus | Tok::Minus => Precedence::Sum,
        Tok::Asterisk | Tok::Slash => Precedence::Product,
        _ => Precedence::Lowest,
    }
}

/// The infix operator a token stands for, if any.
pub open spec fn infix_of(t: Tok) -> Option<InfixOperator> {
    match t {
        Tok::Plus => Some(InfixOperator::Plus),
        Tok::Minus => Some(InfixOperator::Minus),
        Tok::Asterisk => Some(InfixOperator::Asterisk),
        Tok::Slash => Some(InfixOperator::Slash),
        Tok::Equal => Some(InfixOperator::Equal),
        Tok::NotEqual => Some(InfixOperator::NotEqual),
        Tok::LessThan => Some(InfixOperator::LessThan),
        Tok::GreaterThan => Some(InfixOperator::GreaterThan),
        _ => None,
    }
}

/// The token at index `i` of a token list; past its end, the end marker.
pub open spec fn tok_at(toks: Seq<Tok>, i: int) -> Tok {
    if 0 <= i < toks.len() {
        toks[i]
    } else {
        Tok::Eof
    }
}

/// The value of a string of decimal digits (characters `0` to `9` have codes 48 to 57).
pub open spec fn digits_value(s: Seq<char>) -> int
    decreases s.len(),
{
    if s.len() == 0 {
        0
    } else {
        digits_value(s.drop_last()) * 10 + (s.last() as int - 48)
    }
}

/// Non-empty, and decimal digits only.
pub open spec fn is_digit_text(s: Seq<char>) -> bool {
    &&& s.len() > 0
    &&& forall|i: int| 0 <= i < s.len() ==> 48 <= #[trigger] (s[i] as int) <= 57
}

/// The value of an integer literal's text, if it is digits and fits in `isize`.
pub open spec fn literal_value(s: Seq<char>) -> Option<int> {
    if is_digit_text(s) && digits_value(s) <= isize::MAX {
        Some(digits_value(s))
    } else {
        None
    }
}

/// Diagnostic for a missing expected token.
pub open spec fn expected_message(expected: Seq<char>, found: Tok) -> Seq<char> {
    "expected next token to be "@ + expected + ", got "@ + found.text() + " instead"@
}

/// Diagnostic for a token that cannot start an expression.
pub open spec fn no_prefix_message(t: Tok) -> Seq<char> {
    "no prefix parse function for "@ + t.text()
}

/// Diagnostic for an integer literal that does not convert.
pub open spec fn bad_integer_message(text: Seq<char>) -> Seq<char> {
    "could not parse "@ + text + " as an integer"@
}

/// What parsing from a position gives: a value or a diagnostic, and the index of the
/// token the parser stands on afterwards.
pub type Parsed<T> = (Result<T, Seq<char>>, int);

/// A successful expression parse that ends at index `end`.
pub open spec fn parsed(e: ExprV, end: int) -> (Result<ExprV, Seq<char>>, int) {
    (Ok(e), end)
}

/// Parses an expression whose first token is at `i`, taking operators that bind more
/// strongly than `p`. The index returned is that of the expression's last token.
pub open spec fn parse_expr(toks: Seq<Tok>, i: int, p: Precedence) -> Parsed<ExprV>
    decreases toks.len() - i, 2int,
{
    let (first, j) = parse_prefix_rule(toks, i);
    match first {
        // the test always holds (lemma_parse_bounds); it shows termination
        Ok(left) => if i <= j < toks.len() {
            parse_infix_loop(toks, j, left, p)
        } else {
            (Ok(left), j)
        },
        Err(m) => (Err(m), j),
    }
}

/// The rule chosen by the token that starts an expression.
pub open spec fn parse_prefix_rule(toks: Seq<Tok>, i: int) -> Parsed<ExprV>
    decreases toks.len() - i, 1int,
{
    let t = tok_at(toks, i);
    if !(0 <= i < toks.len()) {
        (Err(no_prefix_message(t)), i)
    } else {
        match t {
            Tok::Ident(s) => (Ok(ExprV::Ident(s)), i),
            Tok::Int(s) => match literal_value(s) {
                Some(v) => (Ok(ExprV::Int(v)), i),
                None => (Err(bad_integer_message(s)), i),
            },
            Tok::True => (Ok(ExprV::Bool(true)), i),
            Tok::False => (Ok(ExprV::Bool(false)), i),
            Tok::Bang | Tok::Minus => {
                let op = if t is Bang {
                    PrefixOperator::Bang
                } else {
                    PrefixOperator::Minus
                };
                let (right, j) = parse_expr(toks, i + 1, Precedence::Prefix);
                match right {
                    Ok(r) => (Ok(ExprV::Prefix(op, Box::new(r))), j),
                    Err(m) => (Err(m), j),
                }
            },
            Tok::LParen => {
                let (inner, j) = parse_expr(toks, i + 1, Precedence::Lowest);
                match inner {
                    Ok(e) => if tok_at(toks, j + 1) is RParen {
                        (Ok(e), j + 1)
                    } else {
                        (Err(expected_message(")"@, tok_at(toks, j + 1))), j)
                    },
                    Err(m) => (Err(m), j),
                }
            },
            _ => (Err(no_prefix_message(t)), i),
        }
    }
}

/// Whether the token after `i` continues an expression parsed at precedence `p`.
pub open spec fn continues(toks: Seq<Tok>, i: int, p: Precedence) -> bool {
    let peek = tok_at(toks, i + 1);
    !(peek is Semicolon) && rank(p) < rank(precedence_of(peek))
}

/// Folds infix operators onto `left`, whose last token is at `i`, while the next token
/// binds more strongly than `p`. Each right operand is parsed at its operator's own
/// precedence, which makes chains of equal strength associate to the left.
pub open spec fn parse_infix_loop(toks: Seq<Tok>, i: int, left: ExprV, p: Precedence) -> Parsed<
    ExprV,
>
    decreases toks.len() - i, 0int,
{
    if continues(toks, i, p) && 0 <= i + 1 < toks.len() {
        let (r, j) = infix_step(toks, i + 1, left);
        match r {
            // the test always holds (lemma_parse_bounds); it shows termination
            Ok(e) => if i + 2 <= j < toks.len() {
                parse_infix_loop(toks, j, e, p)
            } else {
                (Ok(e), j)
            },
            Err(m) => (Err(m), j),
        }
    } else {
        (Ok(left), i)
    }
}

/// Applies the infix operator at `k` to `left`: parses the right operand at the
/// operator's own precedence and joins the two.
pub open spec fn infix_step(toks: Seq<Tok>, k: int, left: ExprV) -> Parsed<ExprV>
    decreases toks.len() - k, 1int,
{
    let op_tok = tok_at(toks, k);
    if 0 <= k < toks.len() {
        let (right, j) = parse_expr(toks, k + 1, precedence_of(op_tok));
        match right {
            Ok(r) => (Ok(ExprV::Infix(Box::new(left), infix_of(op_tok)->0, Box::new(r))), j),
            Err(m) => (Err(m), j),
        }
    } else {
        (Err(no_prefix_message(op_tok)), k)
    }
}

/// Steps over an optional `;` after the token at `j`.
pub open spec fn skip_semicolon(toks: Seq<Tok>, j: int) -> int {
    if tok_at(toks, j + 1) is Semicolon {
        j + 1
    } else {
        j
    }
}

/// Parses the statement whose first token is at `i`; the index returned is that of its
/// last token (its `;` when it has one).
pub open spec fn parse_stmt(toks: Seq<Tok>, i: int) -> Parsed<StmtV> {
    match tok_at(toks, i) {
        Tok::Let => if !(tok_at(toks, i + 1) is Ident) {
            (Err(expected_message("an identifier"@, tok_at(toks, i + 1))), i)
        } else if !(tok_at(toks, i + 2) is Assign) {
            (Err(expected_message("="@, tok_at(toks, i + 2))), i + 1)
        } else {
            let (value, j) = parse_expr(toks, i + 3, Precedence::Lowest);
            match value {
                Ok(v) => (Ok(StmtV::Let(tok_at(toks, i + 1), v)), skip_semicolon(toks, j)),
                Err(m) => (Err(m), j),
            }
        },
        Tok::Return => {
            let (value, j) = parse_expr(toks, i + 1, Precedence::Lowest);
            match value {
                Ok(v) => (Ok(StmtV::Return(v)), skip_semicolon(toks, j)),
                Err(m) => (Err(m), j),
            }
        },
        _ => {
            let (value, j) = parse_expr(toks, i, Precedence::Lowest);
            match value {
                Ok(v) => (Ok(StmtV::Expr(v)), skip_semicolon(toks, j)),
                Err(m) => (Err(m), j),
            }
        },
    }
}

/// Parses statements from `i` to the end marker: the statements that parsed, and a
/// diagnostic for each one that did not. After each statement, good or bad, parsing
/// goes on at the token after the one it stopped on.
pub open spec fn parse_stmts(toks: Seq<Tok>, i: int) -> (Seq<StmtV>, Seq<Seq<char>>)
    decreases toks.len() - i,
{
    if !(0 <= i < toks.len()) || tok_at(toks, i) is Eof {
        (Seq::empty(), Seq::empty())
    } else {
        let (r, j) = parse_stmt(toks, i);
        // the test always holds (lemma_parse_bounds); it shows termination
        let next = if i <= j < toks.len() {
            j + 1
        } else {
            toks.len() as int
        };
        let (stmts, diags) = parse_stmts(toks, next);
        match r {
            Ok(s) => (seq![s] + stmts, diags),
            Err(m) => (stmts, seq![m] + diags),
        }
    }
}

/// A token list as the tokenizer hands it out: it ends with the end marker.
pub open spec fn ends_with_eof(toks: Seq<Tok>) -> bool {
    toks.len() >= 1 && toks.last() is Eof
}

/// Where an expression parse stops: at or after where it starts, inside the token list.
pub proof fn lemma_parse_bounds(toks: Seq<Tok>, i: int, p: Precedence)
    requires
        ends_with_eof(toks),
        0 <= i < toks.len(),
    ensures
        i <= parse_expr(toks, i, p).1 < toks.len(),
    decreases toks.len() - i, 2int,
{
    lemma_prefix_bounds(toks, i);
    let (first, j) = parse_prefix_rule(toks, i);
    if first is Ok {
        lemma_loop_bounds(toks, j, first->Ok_0, p);
    }
}

proof fn lemma_prefix_bounds(toks: Seq<Tok>, i: int)
    requires
        ends_with_eof(toks),
        0 <= i < toks.len(),
    ensures
        i <= parse_prefix_rule(toks, i).1 < toks.len(),
    decreases toks.len() - i, 1int,
{
    let t = tok_at(toks, i);
    if t is Bang || t is Minus || t is LParen {
        assert(i + 1 < toks.len());
        lemma_parse_bounds(toks, i + 1, Precedence::Prefix);
        lemma_parse_bounds(toks, i + 1, Precedence::Lowest);
    }
}

proof fn lemma_loop_bounds(toks: Seq<Tok>, i: int, left: ExprV, p: Precedence)
    requires
        ends_with_eof(toks),
        0 <= i < toks.len(),
    ensures
        i <= parse_infix_loop(toks, i, left, p).1 < toks.len(),
    decreases toks.len() - i, 0int,
{
    if continues(toks, i, p) && 0 <= i + 1 < toks.len() {
        let op_tok = tok_at(toks, i + 1);
        assert(i + 2 < toks.len());
        lemma_parse_bounds(toks, i + 2, precedence_of(op_tok));
        let (r, j) = infix_step(toks, i + 1, left);
        if r is Ok {
            lemma_loop_bounds(toks, j, r->Ok_0, p);
        }
    }
}

/// Where a statement parse stops: at or after its first token, inside the token list.
pub proof fn lemma_stmt_bounds(toks: Seq<Tok>, i: int)
    requires
        ends_with_eof(toks),
        0 <= i < toks.len(),
    ensures
        i <= parse_stmt(toks, i).1 < toks.len(),
{
    match tok_at(toks, i) {
        Tok::Let => {
            if tok_at(toks, i + 1) is Ident && tok_at(toks, i + 2) is Assign {
                assert(i + 3 < toks.len());
                lemma_parse_bounds(toks, i + 3, Precedence::Lowest);
            }
        },
        Tok::Return => {
            assert(i + 1 < toks.len());
            lemma_parse_bounds(toks, i + 1, Precedence::Lowest);
        },
        _ => {
            lemma_parse_bounds(toks, i, Precedence::Lowest);
        },
    }
}

/// The tokens from index `k` on; past the end, the end marker alone.
pub open spec fn rest_from(toks: Seq<Tok>, k: int) -> Seq<Tok> {
    if 0 <= k < toks.len() {
        toks.skip(k)
    } else {
        seq![Tok::Eof]
    }
}

/// The view of an expression parse's result.
pub open spec fn expr_result(r: Result<Expression, String>) -> Result<ExprV, Seq<char>> {
    match r {
        Ok(e) => Ok(e@),
        Err(m) => Err(m@),
    }
}

/// The view of a statement parse's result.
pub open spec fn stmt_result(r: Result<Statement, String>) -> Result<StmtV, Seq<char>> {
    match r {
        Ok(s) => Ok(s@),
        Err(m) => Err(m@),
    }
}

impl Precedence {
    /// Whether `self` binds less strongly than `other`.
    pub fn lower_than(self, other: Precedence) -> (r: bool)
        ensures
            r == (rank(self) < rank(other)),
    {
        self.rank_value() < other.rank_value()
    }

    fn rank_value(self) -> (r: u8)
        ensures
            r == rank(self),
    {
        match self {
            Precedence::Lowest => 0,
            Precedence::Equals => 1,
            Precedence::LessGreater => 2,
            Precedence::Sum => 3,
            Precedence::Product => 4,
            Precedence::Prefix => 5,
            Precedence::Call => 6,
        }
    }
}

/// The value of an integer literal's text, if it is all digits and fits in `isize`.
pub fn literal_value_of(text: &String) -> (r: Option<isize>)
    ensures
        r matches Some(v) ==> literal_value(text@) == Some(v as int),
        r is None ==> literal_value(text@) is None,
{
    let n = text.as_str().unicode_len();
    if n == 0 {
        return None;
    }
    let mut acc: i128 = 0;
    let mut i: usize = 0;
    while i < n
        invariant
            n == text@.len(),
            i <= n,
            acc == digits_value(text@.take(i as int)),
            0 <= acc <= isize::MAX,
            forall|k: int| 0 <= k < i ==> 48 <= #[trigger] (text@[k] as int) <= 57,
        decreases n - i,
    {
        let c = text.as_str().get_char(i);
        let d = c as u32;
        if d < 48 || d > 57 {
            return None;
        }
        proof {
            assert(text@.take(i + 1).drop_last() =~= text@.take(i as int));
        }
        let next = acc * 10 + (d as i128 - 48);
        if next > isize::MAX as i128 {
            proof {
                if is_digit_text(text@) {
                    lemma_digits_value_grows(text@, i as int + 1);
                }
            }
            return None;
        }
        acc = next;
        i = i + 1;
    }
    proof {
        assert(text@.take(n as int) =~= text@);
    }
    Some(acc as isize)
}

/// A longer digit prefix is worth at least as much as a shorter one.
proof fn lemma_digits_value_grows(s: Seq<char>, k: int)
    requires
        0 <= k <= s.len(),
        forall|i: int| 0 <= i < s.len() ==> 48 <= #[trigger] (s[i] as int) <= 57,
    ensures
        digits_value(s.take(k)) <= digits_value(s),
    decreases s.len() - k,
{
    if k < s.len() {
        lemma_digits_value_grows(s, k + 1);
        assert(s.take(k + 1).drop_last() =~= s.take(k));
        lemma_digits_value_nonneg(s.take(k));
    } else {
        assert(s.take(k) =~= s);
    }
}

proof fn lemma_digits_value_nonneg(s: Seq<char>)
    requires
        forall|i: int| 0 <= i < s.len() ==> 48 <= #[trigger] (s[i] as int) <= 57,
    ensures
        digits_value(s) >= 0,
    decreases s.len(),
{
    if s.len() > 0 {
        lemma_digits_value_nonneg(s.drop_last());
    }
}

/// Parser state: the tokenizer, the current token and the one after it, and the
/// diagnostics recorded so far.
pub struct Parser {
    lexer: Lexer,
    current_token: Token,
    peek_token: Token,
    pub errors: Vec<String>,
    tokens: Ghost<Seq<Tok>>,
    index: Ghost<int>,
}

impl Parser {
    /// Every token the parser reads, from its first current token to the end marker.
    pub closed spec fn tokens(&self) -> Seq<Tok> {
        self.tokens@
    }

    /// Index in `tokens()` of the current token.
    pub closed spec fn index(&self) -> int {
        self.index@
    }

    pub closed spec fn wf(&self) -> bool {
        &&& self.lexer.wf()
        &&& ends_with_eof(self.tokens@)
        &&& 0 <= self.index@ <= self.tokens@.len()
        &&& self.current_token@ == tok_at(self.tokens@, self.index@)
        &&& self.peek_token@ == tok_at(self.tokens@, self.index@ + 1)
        &&& lex_all(self.lexer.source(), self.lexer.pos()) == rest_from(
            self.tokens@,
            self.index@ + 2,
        )
    }

    /// The texts of `errors`, in the order they were recorded.
    pub closed spec fn diagnostics(&self) -> Seq<Seq<char>> {
        self.errors@.map_values(|m: String| m@)
    }

    /// A parser over the tokens that `lexer` has still to hand out.
    pub fn new(lexer: Lexer) -> (r: Parser)
        requires
            lexer.wf(),
        ensures
            r.wf(),
            r.tokens() == lex_all(lexer.source(), lexer.pos()),
            r.index() == 0,
            r.diagnostics() == Seq::<Seq<char>>::empty(),
    {
        let mut lexer = lexer;
        let ghost src = lexer.source();
        let ghost toks = lex_all(src, lexer.pos());
        proof {
            lemma_lex_all_shape(src, lexer.pos());
            lemma_lex_all_step(src, lexer.pos());
        }
        let current_token = lexer.next_token();
        let ghost p1 = lexer.pos();
        proof {
            lemma_lex_all_step(src, p1);
        }
        let peek_token = lexer.next_token();
        proof {
            if !(current_token@ is Eof) && !(peek_token@ is Eof) {
                assert(toks.skip(2) =~= lex_all(src, lexer.pos()));
            }
        }
        Parser {
            lexer,
            current_token,
            peek_token,
            errors: Vec::new(),
            tokens: Ghost(toks),
            index: Ghost(0),
        }
    }

    /// Moves one token on: the peek token becomes current, and the tokenizer hands out
    /// the next peek token.
    fn next_token(&mut self)
        requires
            old(self).wf(),
            old(self).index() < old(self).tokens().len(),
        ensures
            final(self).wf(),
            final(self).tokens() == old(self).tokens(),
            final(self).index() == old(self).index() + 1,
            final(self).errors == old(self).errors,
    {
        let ghost toks = self.tokens@;
        let ghost k = self.index@;
        proof {
            lemma_lex_all_step(self.lexer.source(), self.lexer.pos());
        }
        let t = self.lexer.next_token();
        self.current_token = t;
        std::mem::swap(&mut self.current_token, &mut self.peek_token);
        self.index = Ghost(k + 1);
        proof {
            let rest = rest_from(toks, k + 2);
            if !(t@ is Eof) {
                assert(rest.len() >= 2);
                assert(rest[0] == t@);
                assert(toks[k + 2] == rest[0]);
                assert(toks.skip(k + 3) =~= rest.skip(1));
            } else {
                if 0 <= k + 2 < toks.len() {
                    assert(toks.skip(k + 2).len() == 1);
                    assert(toks[k + 2] == toks.skip(k + 2)[0]);
                }
            }
            assert(lex_all(self.lexer.source(), self.lexer.pos()) == rest_from(toks, k + 3));
        }
    }

    /// The diagnostic for a peek token that is not the one expected.
    fn peek_error(&self, expected: &str) -> (r: String)
        ensures
            r@ == expected_message(expected@, self.peek_token@),
    {
        let mut r = String::from_str("expected next token to be ");
        r.append(expected);
        r.append(", got ");
        r.append(self.peek_token.to_string().as_str());
        r.append(" instead");
        r
    }

    fn map_precedence(token: &Token) -> (r: Precedence)
        ensures
            r == precedence_of(token@),
    {
        match token {
            Token::Equal => Precedence::Equals,
            Token::NotEqual => Precedence::Equals,
            Token::LessThan => Precedence::LessGreater,
            Token::GreaterThan => Precedence::LessGreater,
            Token::Plus => Precedence::Sum,
            Token::Minus => Precedence::Sum,
            Token::Asterisk => Precedence::Product,
            Token::Slash => Precedence::Product,
            _ => Precedence::Lowest,
        }
    }

    fn peek_precedence(&self) -> (r: Precedence)
        ensures
            r == precedence_of(self.peek_token@),
    {
        Parser::map_precedence(&self.peek_token)
    }

    fn current_precedence(&self) -> (r: Precedence)
        ensures
            r == precedence_of(self.current_token@),
    {
        Parser::map_precedence(&self.current_token)
    }

    fn parse_identifier(&self) -> (r: Result<Expression, String>)
        requires
            self.wf(),
            0 <= self.index() < self.tokens().len(),
            self.current_token@ is Ident,
        ensures
            (expr_result(r), self.index()) == parse_prefix_rule(self.tokens(), self.index()),
    {
        match &self.current_token {
            Token::Identifier(name) => Ok(Expression::Identifier(name.clone())),
            _ => Err(String::from_str("expected an identifier")),
        }
    }

    fn parse_integer_literal(&self) -> (r: Result<Expression, String>)
        requires
            self.wf(),
            0 <= self.index() < self.tokens().len(),
            self.current_token@ is Int,
        ensures
            (expr_result(r), self.index()) == parse_prefix_rule(self.tokens(), self.index()),
    {
        match &self.current_token {
            Token::Int(text) => match literal_value_of(text) {
                Some(v) => Ok(Expression::IntegerLiteral(v)),
                None => {
                    let mut m = String::from_str("could not parse ");
                    m.append(text.as_str());
                    m.append(" as an integer");
                    Err(m)
                },
            },
            _ => Err(String::from_str("expected an integer")),
        }
    }

    /// `!x` or `-x`: the operand binds as strongly as a prefix operator.
    fn parse_prefix_expression(&mut self) -> (r: Result<Expression, String>)
        requires
            old(self).wf(),
            0 <= old(self).index() < old(self).tokens().len(),
            old(self).current_token@ is Bang || old(self).current_token@ is Minus,
        ensures
            final(self).wf(),
            final(self).tokens() == old(self).tokens(),
            final(self).errors == old(self).errors,
            (expr_result(r), final(self).index()) == parse_prefix_rule(
                old(self).tokens(),
                old(self).index(),
            ),
        decreases old(self).tokens().len() - old(self).index(), 1int,
    {
        let operator = match self.current_token {
            Token::Bang => PrefixOperator::Bang,
            _ => PrefixOperator::Minus,
        };
        self.next_token();
        let right = match self.parse_expression(Precedence::Prefix) {
            Ok(e) => e,
            Err(m) => return Err(m),
        };
        Ok(Expression::Prefix(PrefixExpression { operator, right: Box::new(right) }))
    }

    /// `( expression )`: inside the parentheses precedence starts again from the lowest.
    fn parse_grouped_expression(&mut self) -> (r: Result<Expression, String>)
        requires
            old(self).wf(),
            0 <= old(self).index() < old(self).tokens().len(),
            old(self).current_token@ is LParen,
        ensures
            final(self).wf(),
            final(self).tokens() == old(self).tokens(),
            final(self).errors == old(self).errors,
            (expr_result(r), final(self).index()) == parse_prefix_rule(
                old(self).tokens(),
                old(self).index(),
            ),
        decreases old(self).tokens().len() - old(self).index(), 1int,
    {
        self.next_token();
        let expression = match self.parse_expression(Precedence::Lowest) {
            Ok(e) => e,
            Err(m) => return Err(m),
        };
        if !matches!(self.peek_token, Token::RParen) {
            return Err(self.peek_error(")"));
        }
        self.next_token();
        Ok(expression)
    }

    /// Joins `left` and the right operand of the operator that is the current token.
    fn parse_infix_expression(&mut self, left: Box<Expression>) -> (r: Result<Expression, String>)
        requires
            old(self).wf(),
            0 <= old(self).index() < old(self).tokens().len(),
            infix_of(old(self).current_token@) is Some,
        ensures
            final(self).wf(),
            final(self).tokens() == old(self).tokens(),
            final(self).errors == old(self).errors,
            (expr_result(r), final(self).index()) == infix_step(
                old(self).tokens(),
                old(self).index(),
                (*left)@,
            ),
        decreases old(self).tokens().len() - old(self).index(), 1int,
    {
        let operator = match self.current_token {
            Token::Plus => InfixOperator::Plus,
            Token::Minus => InfixOperator::Minus,
            Token::Asterisk => InfixOperator::Asterisk,
            Token::Slash => InfixOperator::Slash,
            Token::Equal => InfixOperator::Equal,
            Token::NotEqual => InfixOperator::NotEqual,
            Token::LessThan => InfixOperator::LessThan,
            _ => InfixOperator::GreaterThan,
        };
        let precedence = self.current_precedence();
        self.next_token();
        let right = match self.parse_expression(precedence) {
            Ok(e) => e,
            Err(m) => return Err(m),
        };
        Ok(Expression::Infix(InfixExpression { left, operator, right: Box::new(right) }))
    }

    /// Parses an expression that starts at the current token, taking operators that bind
    /// more strongly than `precedence`; it stops on the expression's last token.
    fn parse_expression(&mut self, precedence: Precedence) -> (r: Result<Expression, String>)
        requires
            old(self).wf(),
            0 <= old(self).index() < old(self).tokens().len(),
        ensures
            final(self).wf(),
            final(self).tokens() == old(self).tokens(),
            final(self).errors == old(self).errors,
            (expr_result(r), final(self).index()) == parse_expr(
                old(self).tokens(),
                old(self).index(),
                precedence,
            ),
        decreases old(self).tokens().len() - old(self).index(), 2int,
    {
        let ghost toks = self.tokens@;
        let ghost start = self.index@;
        proof {
            lemma_prefix_bounds(toks, start);
        }
        let first = match self.current_token {
            Token::Bang | Token::Minus => self.parse_prefix_expression(),
            Token::False => Ok(Expression::Boolean(false)),
            Token::True => Ok(Expression::Boolean(true)),
            Token::Identifier(_) => self.parse_identifier(),
            Token::Int(_) => self.parse_integer_literal(),
            Token::LParen => self.parse_grouped_expression(),
            _ => {
                let mut m = String::from_str("no prefix parse function for ");
                m.append(self.current_token.to_string().as_str());
                Err(m)
            },
        };
        let mut result = match first {
            Ok(e) => e,
            Err(m) => return Err(m),
        };
        proof {
            lemma_loop_bounds(toks, self.index@, result@, precedence);
        }
        while !matches!(self.peek_token, Token::Semicolon) && precedence.lower_than(
            self.peek_precedence(),
        )
            invariant
                self.wf(),
                self.tokens() == toks,
                toks == old(self).tokens(),
                start == old(self).index(),
                self.errors == old(self).errors,
                start <= self.index() < toks.len(),
                parse_infix_loop(toks, self.index(), result@, precedence) == parse_expr(
                    toks,
                    start,
                    precedence,
                ),
            decreases toks.len() - self.index(),
        {
            let ghost i = self.index@;
            proof {
                assert(i + 2 < toks.len());
                lemma_parse_bounds(toks, i + 2, precedence_of(tok_at(toks, i + 1)));
            }
            self.next_token();
            result = match self.parse_infix_expression(Box::new(result)) {
                Ok(e) => e,
                Err(m) => return Err(m),
            };
            proof {
                lemma_loop_bounds(toks, self.index@, result@, precedence);
            }
        }
        Ok(result)
    }

    /// `let <identifier> = <expression>`, with an optional `;`.
    fn parse_let_statement(&mut self) -> (r: Result<Statement, String>)
        requires
            old(self).wf(),
            0 <= old(self).index() < old(self).tokens().len(),
            old(self).current_token@ is Let,
        ensures
            final(self).wf(),
            final(self).tokens() == old(self).tokens(),
            final(self).errors == old(self).errors,
            (stmt_result(r), final(self).index()) == parse_stmt(
                old(self).tokens(),
                old(self).index(),
            ),
    {
        let ghost toks = self.tokens@;
        let ghost i = self.index@;
        let name = match &self.peek_token {
            Token::Identifier(name) => name.clone(),
            _ => {
                return Err(self.peek_error("an identifier"));
            },
        };
        self.next_token();
        if !matches!(self.peek_token, Token::Assign) {
            return Err(self.peek_error("="));
        }
        self.next_token();
        self.next_token();
        proof {
            assert(i + 3 < toks.len());
        }
        let value = match self.parse_expression(Precedence::Lowest) {
            Ok(e) => e,
            Err(m) => return Err(m),
        };
        if matches!(self.peek_token, Token::Semicolon) {
            self.next_token();
        }
        Ok(Statement::Let(LetStatement { name: Token::Identifier(name), value }))
    }

    /// `return <expression>`, with an optional `;`.
    fn parse_return_statement(&mut self) -> (r: Result<Statement, String>)
        requires
            old(self).wf(),
            0 <= old(self).index() < old(self).tokens().len(),
            old(self).current_token@ is Return,
        ensures
            final(self).wf(),
            final(self).tokens() == old(self).tokens(),
            final(self).errors == old(self).errors,
            (stmt_result(r), final(self).index()) == parse_stmt(
                old(self).tokens(),
                old(self).index(),
            ),
    {
        let ghost toks = self.tokens@;
        let ghost i = self.index@;
        self.next_token();
        proof {
            assert(i + 1 < toks.len());
        }
        let value = match self.parse_expression(Precedence::Lowest) {
            Ok(e) => e,
            Err(m) => return Err(m),
        };
        if matches!(self.peek_token, Token::Semicolon) {
            self.next_token();
        }
        Ok(Statement::Return(ReturnStatement { value }))
    }

    /// An expression standing as a statement, with an optional `;`.
    fn parse_expression_statement(&mut self) -> (r: Result<Statement, String>)
        requires
            old(self).wf(),
            0 <= old(self).index() < old(self).tokens().len(),
            !(old(self).current_token@ is Let),
            !(old(self).current_token@ is Return),
        ensures
            final(self).wf(),
            final(self).tokens() == old(self).tokens(),
            final(self).errors == old(self).errors,
            (stmt_result(r), final(self).index()) == parse_stmt(
                old(self).tokens(),
                old(self).index(),
            ),
    {
        let expression = match self.parse_expression(Precedence::Lowest) {
            Ok(e) => e,
            Err(m) => return Err(m),
        };
        if matches!(self.peek_token, Token::Semicolon) {
            self.next_token();
        }
        Ok(Statement::Expression(ExpressionStatement { expression }))
    }

    fn parse_statement(&mut self) -> (r: Result<Statement, String>)
        requires
            old(self).wf(),
            0 <= old(self).index() < old(self).tokens().len(),
        ensures
            final(self).wf(),
            final(self).tokens() == old(self).tokens(),
            final(self).errors == old(self).errors,
            (stmt_result(r), final(self).index()) == parse_stmt(
                old(self).tokens(),
                old(self).index(),
            ),
    {
        match self.current_token {
            Token::Let => self.parse_let_statement(),
            Token::Return => self.parse_return_statement(),
            _ => self.parse_expression_statement(),
        }
    }

    /// Parses statements up to the end of the input. A statement that fails to parse is
    /// left out, its diagnostic is recorded, and parsing goes on after it.
    pub fn parse_program(&mut self) -> (program: Program)
        requires
            old(self).wf(),
        ensures
            final(self).wf(),
            final(self).tokens() == old(self).tokens(),
            program@ == parse_stmts(old(self).tokens(), old(self).index()).0,
            final(self).diagnostics() == old(self).diagnostics() + parse_stmts(
                old(self).tokens(),
                old(self).index(),
            ).1,
    {
        let ghost toks = self.tokens@;
        let ghost start = self.index@;
        let mut program = Program { statements: Vec::new() };
        proof {
            assert(program@ =~= Seq::<StmtV>::empty());
            assert(old(self).diagnostics() =~= self.diagnostics());
        }
        while !matches!(self.current_token, Token::EOF)
            invariant
                self.wf(),
                self.tokens() == toks,
                toks == old(self).tokens(),
                start == old(self).index(),
                0 <= self.index() <= toks.len(),
                program@ + parse_stmts(toks, self.index()).0 == parse_stmts(toks, start).0,
                self.diagnostics() + parse_stmts(toks, self.index()).1 == old(self).diagnostics()
                    + parse_stmts(toks, start).1,
            decreases toks.len() - self.index(),
        {
            let ghost i = self.index@;
            proof {
                assert(i < toks.len() - 1);
                lemma_stmt_bounds(toks, i);
            }
            let ghost before_s = program@;
            let ghost before_d = self.diagnostics();
            match self.parse_statement() {
                Ok(statement) => {
                    program.statements.push(statement);
                },
                Err(message) => {
                    self.errors.push(message);
                },
            }
            self.next_token();
            proof {
                let (r, j) = parse_stmt(toks, i);
                let rest = parse_stmts(toks, j + 1);
                if r is Ok {
                    assert(program@ =~= before_s.push(r->Ok_0));
                    assert(program@ + rest.0 =~= before_s + (seq![r->Ok_0] + rest.0));
                    assert(self.diagnostics() =~= before_d);
                } else {
                    assert(self.diagnostics() =~= before_d.push(r->Err_0));
                    assert(self.diagnostics() + rest.1 =~= before_d + (seq![r->Err_0] + rest.1));
                    assert(program@ =~= before_s);
                }
            }
        }
        proof {
            assert(program@ + Seq::<StmtV>::empty() =~= program@);
            assert(self.diagnostics() + Seq::<Seq<char>>::empty() =~= self.diagnostics());
        }
        program
    }
}

/// A `let` statement whose value is a valid expression followed by `;` parses to a `let`
/// statement named by exactly its identifier, with that value, and adds no diagnostic:
/// the rest of the program is parsed from the token after the `;`.
pub proof fn lemma_valid_let(toks: Seq<Tok>, i: int, name: Seq<char>)
    requires
        ends_with_eof(toks),
        0 <= i,
        tok_at(toks, i) is Let,
        tok_at(toks, i + 1) == Tok::Ident(name),
        tok_at(toks, i + 2) is Assign,
        parse_expr(toks, i + 3, Precedence::Lowest).0 is Ok,
        tok_at(toks, parse_expr(toks, i + 3, Precedence::Lowest).1 + 1) is Semicolon,
    ensures
        ({
            let (value, j) = parse_expr(toks, i + 3, Precedence::Lowest);
            &&& parse_stmt(toks, i) == (
            Ok::<StmtV, Seq<char>>(StmtV::Let(Tok::Ident(name), value->Ok_0)),
            j + 1,
            )
            &&& parse_stmts(toks, i).0 == seq![StmtV::Let(Tok::Ident(name), value->Ok_0)]
                + parse_stmts(toks, j + 2).0
            &&& parse_stmts(toks, i).1 == parse_stmts(toks, j + 2).1
        }),
{
    assert(i + 3 < toks.len());
    lemma_parse_bounds(toks, i + 3, Precedence::Lowest);
    lemma_stmt_bounds(toks, i);
}

/// A `return` statement whose value is a valid expression followed by `;` parses to a
/// `return` statement with that value, and adds no diagnostic.
pub proof fn lemma_valid_return(toks: Seq<Tok>, i: int)
    requires
        ends_with_eof(toks),
        0 <= i,
        tok_at(toks, i) is Return,
        parse_expr(toks, i + 1, Precedence::Lowest).0 is Ok,
        tok_at(toks, parse_expr(toks, i + 1, Precedence::Lowest).1 + 1) is Semicolon,
    ensures
        ({
            let (value, j) = parse_expr(toks, i + 1, Precedence::Lowest);
            &&& parse_stmt(toks, i) == (
            Ok::<StmtV, Seq<char>>(StmtV::Return(value->Ok_0)),
            j + 1,
            )
            &&& parse_stmts(toks, i).0 == seq![StmtV::Return(value->Ok_0)] + parse_stmts(
                toks,
                j + 2,
            ).0
            &&& parse_stmts(toks, i).1 == parse_stmts(toks, j + 2).1
        }),
{
    assert(i + 1 < toks.len());
    lemma_parse_bounds(toks, i + 1, Precedence::Lowest);
    lemma_stmt_bounds(toks, i);
}

/// The indices at which the statement loop, started at `i`, begins a statement.
pub open spec fn statement_starts(toks: Seq<Tok>, i: int) -> Seq<int>
    decreases toks.len() - i,
{
    if !(0 <= i < toks.len()) || tok_at(toks, i) is Eof {
        Seq::empty()
    } else {
        let j = parse_stmt(toks, i).1;
        let next = if i <= j < toks.len() {
            j + 1
        } else {
            toks.len() as int
        };
        seq![i] + statement_starts(toks, next)
    }
}

/// Malformed input is reported: for every statement of the program that fails to parse,
/// its diagnostic is among the program's diagnostics, which are therefore not empty.
pub proof fn lemma_malformed_is_reported(toks: Seq<Tok>, i: int, n: int)
    requires
        ends_with_eof(toks),
        0 <= n < statement_starts(toks, i).len(),
        parse_stmt(toks, statement_starts(toks, i)[n]).0 is Err,
    ensures
        parse_stmts(toks, i).1.len() > 0,
        parse_stmts(toks, i).1.contains(parse_stmt(toks, statement_starts(toks, i)[n]).0->Err_0),
    decreases toks.len() - i,
{
    lemma_stmt_bounds(toks, i);
    let (r, j) = parse_stmt(toks, i);
    let rest = parse_stmts(toks, j + 1).1;
    if n == 0 {
        assert(parse_stmts(toks, i).1[0] == r->Err_0);
    } else {
        lemma_malformed_is_reported(toks, j + 1, n - 1);
        let m = parse_stmt(toks, statement_starts(toks, i)[n]).0->Err_0;
        let k = choose|k: int| 0 <= k < rest.len() && rest[k] == m;
        if r is Err {
            assert(parse_stmts(toks, i).1[k + 1] == m);
        } else {
            assert(parse_stmts(toks, i).1[k] == m);
        }
    }
}

} // verus!
