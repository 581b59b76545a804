//! How operators group: by precedence, to the left among equals, and as parentheses say.
use vstd::prelude::*;
use crate::ast::{ExprV, InfixOperator};
use crate::parser::{
    continues, infix_step, literal_value, parse_expr, parse_infix_loop, parse_prefix_rule, parsed,
    precedence_of, rank, tok_at, Precedence,
};
use crate::roundtrip::infix_token;
use crate::token::Tok;

verus! {

/// The expression of a token that is an operand by itself: an identifier, a boolean, or
/// an integer literal that converts.
pub open spec fn single_operand(t: Tok) -> Option<ExprV> {
    match t {
        Tok::Ident(s) => Some(ExprV::Ident(s)),
        Tok::True => Some(ExprV::Bool(true)),
        Tok::False => Some(ExprV::Bool(false)),
        Tok::Int(s) => match literal_value(s) {
            Some(v) => Some(ExprV::Int(v)),
            None => None,
        },
        _ => None,
    }
}

/// Joins two expressions with an infix operator.
pub open spec fn infix(l: ExprV, op: InfixOperator, r: ExprV) -> ExprV {
    ExprV::Infix(Box::new(l), op, Box::new(r))
}

proof fn lemma_operand(toks: Seq<Tok>, k: int)
    requires
        0 <= k < toks.len(),
        single_operand(toks[k]) is Some,
    ensures
        parse_prefix_rule(toks, k) == parsed(single_operand(toks[k])->0, k),
{
}

proof fn lemma_operator(op: InfixOperator)
    ensures
        rank(precedence_of(infix_token(op))) > 0,
        !(infix_token(op) is Semicolon),
        crate::parser::infix_of(infix_token(op)) == Some(op),
{
}

/// Precedence and associativity: in `x op1 y op2 z;`, the first operator takes `y` when
/// it binds at least as strongly as the second (so equals associate to the left), and
/// the second takes `y` when it binds more strongly.
pub proof fn lemma_two_operators(x: Tok, op1: InfixOperator, y: Tok, op2: InfixOperator, z: Tok)
    requires
        single_operand(x) is Some,
        single_operand(y) is Some,
        single_operand(z) is Some,
    ensures
        ({
            let toks = seq![x, infix_token(op1), y, infix_token(op2), z, Tok::Semicolon, Tok::Eof];
            let (a, b, c) = (
                single_operand(x)->0,
                single_operand(y)->0,
                single_operand(z)->0,
            );
            let first_binds = rank(precedence_of(infix_token(op1))) >= rank(
                precedence_of(infix_token(op2)),
            );
            parse_expr(toks, 0, Precedence::Lowest) == parsed(
                if first_binds {
                    infix(infix(a, op1, b), op2, c)
                } else {
                    infix(a, op1, infix(b, op2, c))
                },
                4,
            )
        }),
{
    let toks = seq![x, infix_token(op1), y, infix_token(op2), z, Tok::Semicolon, Tok::Eof];
    let (a, b, c) = (single_operand(x)->0, single_operand(y)->0, single_operand(z)->0);
    let p1 = precedence_of(infix_token(op1));
    let p2 = precedence_of(infix_token(op2));
    lemma_operator(op1);
    lemma_operator(op2);
    lemma_operand(toks, 0);
    lemma_operand(toks, 2);
    lemma_operand(toks, 4);
    assert(tok_at(toks, 1) == infix_token(op1));
    assert(tok_at(toks, 3) == infix_token(op2));
    assert(tok_at(toks, 5) is Semicolon);
    assert(!continues(toks, 4, p2));
    assert(parse_expr(toks, 4, p2) == parsed(c, 4));
    if rank(p1) >= rank(p2) {
        assert(!continues(toks, 2, p1));
        assert(parse_expr(toks, 2, p1) == parsed(b, 2));
        assert(infix_step(toks, 1, a) == parsed(infix(a, op1, b), 2));
        let ab = infix(a, op1, b);
        let abc = infix(ab, op2, c);
        assert(infix_step(toks, 3, ab) == parsed(abc, 4));
        assert(parse_infix_loop(toks, 4, abc, Precedence::Lowest) == parsed(abc, 4));
        assert(parse_infix_loop(toks, 2, ab, Precedence::Lowest) == parsed(abc, 4));
        assert(parse_infix_loop(toks, 0, a, Precedence::Lowest) == parsed(abc, 4));
    } else {
        assert(continues(toks, 2, p1));
        assert(infix_step(toks, 3, b) == parsed(infix(b, op2, c), 4));
        let bc = infix(b, op2, c);
        assert(parse_infix_loop(toks, 4, bc, p1) == parsed(bc, 4));
        assert(parse_infix_loop(toks, 2, b, p1) == parsed(bc, 4));
        assert(parse_expr(toks, 2, p1) == parsed(bc, 4));
        let abc = infix(a, op1, bc);
        assert(infix_step(toks, 1, a) == parsed(abc, 4));
        assert(parse_infix_loop(toks, 4, abc, Precedence::Lowest) == parsed(abc, 4));
        assert(parse_infix_loop(toks, 0, a, Precedence::Lowest) == parsed(abc, 4));
    }
}

/// Parentheses override precedence, on the left: `(x op1 y) op2 z;` joins `x` and `y`
/// first, whatever the two operators are.
pub proof fn lemma_group_left(x: Tok, op1: InfixOperator, y: Tok, op2: InfixOperator, z: Tok)
    requires
        single_operand(x) is Some,
        single_operand(y) is Some,
        single_operand(z) is Some,
    ensures
        ({
            let toks = seq![
                Tok::LParen,
                x,
                infix_token(op1),
                y,
                Tok::RParen,
                infix_token(op2),
                z,
                Tok::Semicolon,
                Tok::Eof,
            ];
            let (a, b, c) = (
                single_operand(x)->0,
                single_operand(y)->0,
                single_operand(z)->0,
            );
            parse_expr(toks, 0, Precedence::Lowest) == parsed(infix(infix(a, op1, b), op2, c), 6)
        }),
{
    let toks = seq![
        Tok::LParen,
        x,
        infix_token(op1),
        y,
        Tok::RParen,
        infix_token(op2),
        z,
        Tok::Semicolon,
        Tok::Eof,
    ];
    let (a, b, c) = (single_operand(x)->0, single_operand(y)->0, single_operand(z)->0);
    let p1 = precedence_of(infix_token(op1));
    let p2 = precedence_of(infix_token(op2));
    lemma_operator(op1);
    lemma_operator(op2);
    lemma_operand(toks, 1);
    lemma_operand(toks, 3);
    lemma_operand(toks, 6);
    assert(tok_at(toks, 2) == infix_token(op1));
    assert(tok_at(toks, 4) is RParen);
    assert(tok_at(toks, 5) == infix_token(op2));
    assert(tok_at(toks, 7) is Semicolon);
    let ab = infix(a, op1, b);
    assert(parse_expr(toks, 3, p1) == parsed(b, 3));
    assert(infix_step(toks, 2, a) == parsed(ab, 3));
    assert(parse_infix_loop(toks, 3, ab, Precedence::Lowest) == parsed(ab, 3));
    assert(parse_infix_loop(toks, 1, a, Precedence::Lowest) == parsed(ab, 3));
    assert(parse_expr(toks, 1, Precedence::Lowest) == parsed(ab, 3));
    assert(parse_prefix_rule(toks, 0) == parsed(ab, 4));
    assert(parse_expr(toks, 6, p2) == parsed(c, 6));
    let abc = infix(ab, op2, c);
    assert(infix_step(toks, 5, ab) == parsed(abc, 6));
    assert(parse_infix_loop(toks, 6, abc, Precedence::Lowest) == parsed(abc, 6));
    assert(parse_infix_loop(toks, 4, ab, Precedence::Lowest) == parsed(abc, 6));
}

/// Parentheses override precedence, on the right: `x op1 (y op2 z);` joins `y` and `z`
/// first, whatever the two operators are.
pub proof fn lemma_group_right(x: Tok, op1: InfixOperator, y: Tok, op2: InfixOperator, z: Tok)
    requires
        single_operand(x) is Some,
        single_operand(y) is Some,
        single_operand(z) is Some,
    ensures
        ({
            let toks = seq![
                x,
                infix_token(op1),
                Tok::LParen,
                y,
                infix_token(op2),
                z,
                Tok::RParen,
                Tok::Semicolon,
                Tok::Eof,
            ];
            let (a, b, c) = (
                single_operand(x)->0,
                single_operand(y)->0,
                single_operand(z)->0,
            );
            parse_expr(toks, 0, Precedence::Lowest) == parsed(infix(a, op1, infix(b, op2, c)), 6)
        }),
{
    let toks = seq![
        x,
        infix_token(op1),
        Tok::LParen,
        y,
        infix_token(op2),
        z,
        Tok::RParen,
        Tok::Semicolon,
        Tok::Eof,
    ];
    let (a, b, c) = (single_operand(x)->0, single_operand(y)->0, single_operand(z)->0);
    let p1 = precedence_of(infix_token(op1));
    let p2 = precedence_of(infix_token(op2));
    lemma_operator(op1);
    lemma_operator(op2);
    lemma_operand(toks, 0);
    lemma_operand(toks, 3);
    lemma_operand(toks, 5);
    assert(tok_at(toks, 1) == infix_token(op1));
    assert(tok_at(toks, 2) is LParen);
    assert(tok_at(toks, 4) == infix_token(op2));
    assert(tok_at(toks, 6) is RParen);
    assert(tok_at(toks, 7) is Semicolon);
    let bc = infix(b, op2, c);
    assert(parse_expr(toks, 5, p2) == parsed(c, 5));
    assert(infix_step(toks, 4, b) == parsed(bc, 5));
    assert(parse_infix_loop(toks, 5, bc, Precedence::Lowest) == parsed(bc, 5));
    assert(parse_infix_loop(toks, 3, b, Precedence::Lowest) == parsed(bc, 5));
    assert(parse_expr(toks, 3, Precedence::Lowest) == parsed(bc, 5));
    assert(parse_prefix_rule(toks, 2) == parsed(bc, 6));
    assert(parse_infix_loop(toks, 6, bc, p1) == parsed(bc, 6));
    assert(parse_expr(toks, 2, p1) == parsed(bc, 6));
    let abc = infix(a, op1, bc);
    assert(infix_step(toks, 1, a) == parsed(abc, 6));
    assert(parse_infix_loop(toks, 6, abc, Precedence::Lowest) == parsed(abc, 6));
    assert(parse_infix_loop(toks, 0, a, Precedence::Lowest) == parsed(abc, 6));
}

} // verus!
