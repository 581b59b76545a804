//! The fully parenthesized form of an expression parses back to the same expression.
use vstd::prelude::*;
use crate::ast::{
    decimal, digit_text, infix_text, prefix_text, render_expr, render_program, ExprV, InfixOperator,
    PrefixOperator, StmtV,
};
use crate::lexer::{
    is_digit, is_letter, is_space, lemma_lex_all_step, lex_all, lex_one, number_end,
    single_token, skip_spaces, word_end, word_token, chars_of,
};
use crate::parser::{
    continues, digits_value, infix_of, infix_step, is_digit_text, literal_value, parse_expr,
    parse_infix_loop, parse_prefix_rule, parse_stmt, parse_stmts, parsed, precedence_of, rank,
    tok_at, Precedence,
};
use crate::token::Tok;

verus! {

pub open spec fn prefix_token(op: PrefixOperator) -> Tok {
    match op {
        PrefixOperator::Bang => Tok::Bang,
        PrefixOperator::Minus => Tok::Minus,
    }
}

pub open spec fn infix_token(op: InfixOperator) -> Tok {
    match op {
        InfixOperator::Plus => Tok::Plus,
        InfixOperator::Minus => Tok::Minus,
        InfixOperator::Asterisk => Tok::Asterisk,
        InfixOperator::Slash => Tok::Slash,
        InfixOperator::Equal => Tok::Equal,
        InfixOperator::NotEqual => Tok::NotEqual,
        InfixOperator::LessThan => Tok::LessThan,
        InfixOperator::GreaterThan => Tok::GreaterThan,
    }
}

/// The tokens of an expression as `render_expr` writes it: every prefix and infix
/// expression inside its own parentheses.
pub open spec fn expr_tokens(e: ExprV) -> Seq<Tok>
    decreases e,
{
    match e {
        ExprV::Ident(s) => seq![Tok::Ident(s)],
        ExprV::Int(n) => seq![Tok::Int(decimal(n as nat))],
        ExprV::Bool(b) => seq![
            if b {
                Tok::True
            } else {
                Tok::False
            },
        ],
        ExprV::Prefix(op, right) => seq![Tok::LParen, prefix_token(op)] + expr_tokens(*right)
            + seq![Tok::RParen],
        ExprV::Infix(left, op, right) => seq![Tok::LParen] + expr_tokens(*left) + seq![
            infix_token(op),
        ] + expr_tokens(*right) + seq![Tok::RParen],
    }
}

/// An expression the parser can produce: its integers are literals, so they are
/// non-negative and fit in `isize`.
pub open spec fn producible(e: ExprV) -> bool
    decreases e,
{
    match e {
        ExprV::Int(n) => 0 <= n <= isize::MAX,
        ExprV::Prefix(_, right) => producible(*right),
        ExprV::Infix(left, _, right) => producible(*left) && producible(*right),
        _ => true,
    }
}

proof fn lemma_digit_text(d: nat)
    requires
        d < 10,
    ensures
        digit_text(d).len() == 1,
        digit_text(d)[0] as int == 48 + d,
{
    reveal_strlit("0");
    reveal_strlit("1");
    reveal_strlit("2");
    reveal_strlit("3");
    reveal_strlit("4");
    reveal_strlit("5");
    reveal_strlit("6");
    reveal_strlit("7");
    reveal_strlit("8");
    reveal_strlit("9");
}

/// The decimal text of `n` is digits, and they are worth `n`.
pub proof fn lemma_decimal_value(n: nat)
    ensures
        is_digit_text(decimal(n)),
        digits_value(decimal(n)) == n,
    decreases n,
{
    lemma_digit_text(n % 10);
    if n < 10 {
        let s = decimal(n);
        assert(s.drop_last() =~= Seq::<char>::empty());
        assert(s.last() == s[0]);
        assert(digits_value(s.drop_last()) == 0);
        assert(digits_value(s) == digits_value(s.drop_last()) * 10 + (s.last() as int - 48));
    } else {
        lemma_decimal_value(n / 10);
        let s = decimal(n);
        assert(s.drop_last() =~= decimal(n / 10));
        assert(s.last() == digit_text(n % 10)[0]);
        assert((n / 10) * 10 + n % 10 == n) by (nonlinear_arith);
        assert(digits_value(s) == digits_value(s.drop_last()) * 10 + (s.last() as int - 48));
        assert forall|i: int| 0 <= i < s.len() implies 48 <= #[trigger] (s[i] as int) <= 57 by {
            if i < s.len() - 1 {
                assert(s[i] == decimal(n / 10)[i]);
            }
        }
    }
}

proof fn lemma_tokens_len(e: ExprV)
    ensures
        expr_tokens(e).len() >= 1,
    decreases e,
{
    match e {
        ExprV::Prefix(_, right) => lemma_tokens_len(*right),
        ExprV::Infix(left, _, right) => {
            lemma_tokens_len(*left);
            lemma_tokens_len(*right);
        },
        _ => {},
    }
}

/// Where the tokens of `e` stand at `i`, the rule chosen by their first token takes
/// exactly them and gives `e`.
proof fn lemma_primary_round_trip(toks: Seq<Tok>, i: int, e: ExprV)
    requires
        producible(e),
        0 <= i,
        i + expr_tokens(e).len() <= toks.len(),
        toks.subrange(i, i + expr_tokens(e).len()) == expr_tokens(e),
    ensures
        parse_prefix_rule(toks, i) == parsed(e, i + expr_tokens(e).len() - 1),
    decreases e,
{
    let n = expr_tokens(e).len() as int;
    assert(toks[i] == toks.subrange(i, i + n)[0]);
    match e {
        ExprV::Int(v) => {
            lemma_decimal_value(v as nat);
        },
        ExprV::Prefix(op, right) => {
            let r = *right;
            let nr = expr_tokens(r).len() as int;
            lemma_tokens_len(r);
            assert(toks.subrange(i + 2, i + 2 + nr) =~= expr_tokens(r)) by {
                assert forall|k: int| 0 <= k < nr implies toks.subrange(i + 2, i + 2 + nr)[k]
                    == expr_tokens(r)[k] by {
                    assert(toks.subrange(i, i + n)[k + 2] == expr_tokens(e)[k + 2]);
                }
            }
            assert(toks[i + 1] == toks.subrange(i, i + n)[1]);
            assert(toks[i + 2 + nr] == toks.subrange(i, i + n)[2 + nr]);
            lemma_primary_round_trip(toks, i + 2, r);
            let end = i + 2 + nr - 1;
            assert(!continues(toks, end, Precedence::Prefix));
            assert(!continues(toks, end, Precedence::Lowest));
            assert(parse_expr(toks, i + 2, Precedence::Prefix) == parsed(r, end));
            assert(parse_prefix_rule(toks, i + 1) == parsed(e, end));
            assert(parse_expr(toks, i + 1, Precedence::Lowest) == parsed(e, end));
        },
        ExprV::Infix(left, op, right) => {
            let l = *left;
            let r = *right;
            let nl = expr_tokens(l).len() as int;
            let nr = expr_tokens(r).len() as int;
            lemma_tokens_len(l);
            lemma_tokens_len(r);
            assert(toks.subrange(i + 1, i + 1 + nl) =~= expr_tokens(l)) by {
                assert forall|k: int| 0 <= k < nl implies toks.subrange(i + 1, i + 1 + nl)[k]
                    == expr_tokens(l)[k] by {
                    assert(toks.subrange(i, i + n)[k + 1] == expr_tokens(e)[k + 1]);
                }
            }
            assert(toks.subrange(i + 2 + nl, i + 2 + nl + nr) =~= expr_tokens(r)) by {
                assert forall|k: int| 0 <= k < nr implies toks.subrange(
                    i + 2 + nl,
                    i + 2 + nl + nr,
                )[k] == expr_tokens(r)[k] by {
                    assert(toks.subrange(i, i + n)[k + 2 + nl] == expr_tokens(e)[k + 2 + nl]);
                }
            }
            assert(toks[i + 1 + nl] == toks.subrange(i, i + n)[1 + nl]);
            assert(toks[i + 2 + nl + nr] == toks.subrange(i, i + n)[2 + nl + nr]);
            lemma_primary_round_trip(toks, i + 1, l);
            lemma_primary_round_trip(toks, i + 2 + nl, r);
            let op_tok = infix_token(op);
            let end_l = i + nl;
            let end_r = i + 1 + nl + nr;
            assert(infix_of(op_tok) == Some(op));
            assert(rank(precedence_of(op_tok)) > 0);
            assert(continues(toks, end_l, Precedence::Lowest));
            assert(!continues(toks, end_r, precedence_of(op_tok)));
            assert(!continues(toks, end_r, Precedence::Lowest));
            assert(parse_expr(toks, i + 2 + nl, precedence_of(op_tok)) == parsed(r, end_r));
            assert(parse_infix_loop(toks, end_r, e, Precedence::Lowest) == parsed(e, end_r));
            assert(infix_step(toks, end_l + 1, l) == parsed(e, end_r));
            assert(parse_infix_loop(toks, end_l, l, Precedence::Lowest) == parsed(e, end_r));
            assert(parse_expr(toks, i + 1, Precedence::Lowest) == parsed(e, end_r));
        },
        _ => {},
    }
}

/// Round trip: the fully parenthesized tokens of an expression the parser can produce
/// parse back to exactly that expression, at any precedence, as long as the token after
/// them does not continue the expression (a `;`, `)`, the end of input, ...).
pub proof fn lemma_round_trip(toks: Seq<Tok>, i: int, e: ExprV, p: Precedence)
    requires
        producible(e),
        0 <= i,
        i + expr_tokens(e).len() <= toks.len(),
        toks.subrange(i, i + expr_tokens(e).len()) == expr_tokens(e),
        !continues(toks, i + expr_tokens(e).len() - 1, p),
    ensures
        parse_expr(toks, i, p) == parsed(e, i + expr_tokens(e).len() - 1),
{
    lemma_tokens_len(e);
    lemma_primary_round_trip(toks, i, e);
}

/// The bytes of ASCII text.
pub open spec fn ascii_bytes(t: Seq<char>) -> Seq<u8> {
    t.map_values(|c: char| c as u8)
}

/// `t` stands in `input` at `pos`, one byte per character.
pub open spec fn text_at(input: Seq<u8>, pos: int, t: Seq<char>) -> bool {
    &&& 0 <= pos
    &&& pos + t.len() <= input.len()
    &&& forall|k: int| 0 <= k < t.len() ==> input[pos + k] == #[trigger] (t[k] as u8)
}

/// An expression whose rendering the tokenizer reads back token for token: integers
/// are non-negative and fit in `isize`, identifiers are words of letters that are no
/// keyword.
pub open spec fn readable(e: ExprV) -> bool
    decreases e,
{
    match e {
        ExprV::Ident(s) => {
            &&& s.len() > 0
            &&& forall|k: int| 0 <= k < s.len() ==> is_letter(#[trigger] (s[k] as u8))
            &&& word_token(ascii_bytes(s)) == Tok::Ident(s)
        },
        ExprV::Int(n) => 0 <= n <= isize::MAX,
        ExprV::Bool(_) => true,
        ExprV::Prefix(_, right) => readable(*right),
        ExprV::Infix(left, _, right) => readable(*left) && readable(*right),
    }
}

proof fn lemma_readable_is_producible(e: ExprV)
    requires
        readable(e),
    ensures
        producible(e),
    decreases e,
{
    match e {
        ExprV::Prefix(_, right) => lemma_readable_is_producible(*right),
        ExprV::Infix(left, _, right) => {
            lemma_readable_is_producible(*left);
            lemma_readable_is_producible(*right);
        },
        _ => {},
    }
}

/// A run of letters that ends before a non-letter is one word.
proof fn lemma_word_run(input: Seq<u8>, p: nat, e: nat)
    requires
        p <= e <= input.len(),
        forall|k: int| p <= k < e ==> is_letter(#[trigger] input[k]),
        e < input.len() ==> !is_letter(input[e as int]),
    ensures
        word_end(input, p) == e,
    decreases e - p,
{
    if p < e {
        lemma_word_run(input, p + 1, e);
    }
}

/// A run of digits that ends before a non-digit is one number.
proof fn lemma_number_run(input: Seq<u8>, p: nat, e: nat)
    requires
        p <= e <= input.len(),
        forall|k: int| p <= k < e ==> is_digit(#[trigger] input[k]),
        e < input.len() ==> !is_digit(input[e as int]),
    ensures
        number_end(input, p) == e,
    decreases e - p,
{
    if p < e {
        lemma_number_run(input, p + 1, e);
    }
}

/// A blank is skipped.
proof fn lemma_lex_blank(input: Seq<u8>, q: nat)
    requires
        q < input.len(),
        is_space(input[q as int]),
    ensures
        lex_all(input, q) == lex_all(input, q + 1),
{
    assert(skip_spaces(input, q) == skip_spaces(input, q + 1));
    assert(lex_one(input, q) == lex_one(input, q + 1));
}

/// A token that is not the end marker, followed by the rest of the list.
proof fn lemma_lex_token(input: Seq<u8>, q: nat, t: Tok, next: nat)
    requires
        q <= input.len(),
        lex_one(input, q) == (t, next),
        !(t is Eof),
    ensures
        lex_all(input, q) == seq![t] + lex_all(input, next),
{
    lemma_lex_all_step(input, q);
}

/// The text of the infix operator standing at `q`, before a blank, is its token.
proof fn lemma_lex_infix(input: Seq<u8>, q: nat, op: InfixOperator)
    requires
        text_at(input, q as int, infix_text(op)),
        q + infix_text(op).len() < input.len(),
        input[q + infix_text(op).len() as int] == ' ' as u8,
    ensures
        lex_all(input, q) == seq![infix_token(op)] + lex_all(input, q + infix_text(op).len()),
{
    reveal_strlit("+");
    reveal_strlit("-");
    reveal_strlit("*");
    reveal_strlit("/");
    reveal_strlit("==");
    reveal_strlit("!=");
    reveal_strlit("<");
    reveal_strlit(">");
    let t = infix_text(op);
    let p = q as int;
    assert(input[p + 0] == t[0] as u8);
    if t.len() == 2 {
        assert(input[p + 1] == t[1] as u8);
    }
    assert(lex_one(input, q) == (infix_token(op), q + t.len()));
    lemma_lex_token(input, q, infix_token(op), q + t.len());
}

/// The first character of a rendering: a parenthesis, a letter or a digit.
proof fn lemma_render_first(e: ExprV)
    requires
        readable(e),
    ensures
        render_expr(e).len() > 0,
        render_expr(e)[0] == '(' || is_letter(render_expr(e)[0] as u8) || is_digit(
            render_expr(e)[0] as u8,
        ),
    decreases e,
{
    reveal_strlit("(");
    reveal_strlit("true");
    reveal_strlit("false");
    match e {
        ExprV::Int(n) => {
            lemma_decimal_value(n as nat);
        },
        _ => {},
    }
}

/// The condition on what follows a rendering: neither a letter nor a digit.
pub open spec fn ends_word(input: Seq<u8>, q: int) -> bool {
    q < input.len() ==> !is_letter(input[q]) && !is_digit(input[q])
}

/// A literal or an identifier is one token.
proof fn lemma_lex_atom(input: Seq<u8>, pos: nat, e: ExprV)
    requires
        readable(e),
        e is Ident || e is Int || e is Bool,
        text_at(input, pos as int, render_expr(e)),
        ends_word(input, pos + render_expr(e).len() as int),
    ensures
        lex_all(input, pos) == expr_tokens(e) + lex_all(input, pos + render_expr(e).len()),
{
    let t = render_expr(e);
    let m = t.len() as int;
    let p = pos as int;
    let end = (p + m) as nat;
    lemma_render_first(e);
    assert(input[p + 0] == t[0] as u8);
    match e {
        ExprV::Ident(s) => {
            assert(input.subrange(p, p + m) =~= ascii_bytes(s));
            assert forall|k: int| p <= k < p + m implies is_letter(#[trigger] input[k]) by {
                assert(input[p + (k - p)] == s[k - p] as u8);
            }
            lemma_word_run(input, pos, end);
            lemma_lex_token(input, pos, Tok::Ident(s), end);
        },
        ExprV::Int(n) => {
            lemma_decimal_value(n as nat);
            assert forall|k: int| p <= k < p + m implies is_digit(#[trigger] input[k]) by {
                assert(input[p + (k - p)] == t[k - p] as u8);
            }
            lemma_number_run(input, pos, end);
            assert(chars_of(input.subrange(p, p + m)) =~= t) by {
                assert forall|k: int| 0 <= k < m implies #[trigger] chars_of(
                    input.subrange(p, p + m),
                )[k] == t[k] by {
                    assert(input[p + k] == t[k] as u8);
                }
            }
            lemma_lex_token(input, pos, Tok::Int(t), end);
        },
        ExprV::Bool(b) => {
            reveal_strlit("true");
            reveal_strlit("false");
            assert forall|k: int| p <= k < p + m implies is_letter(#[trigger] input[k]) by {
                assert(input[p + (k - p)] == t[k - p] as u8);
            }
            lemma_word_run(input, pos, end);
            let w = input.subrange(p, p + m);
            assert forall|k: int| 0 <= k < m implies w[k] == t[k] as u8 by {
                assert(input[p + k] == t[k] as u8);
            }
            if b {
                assert(w =~= seq!['t' as u8, 'r' as u8, 'u' as u8, 'e' as u8]);
            } else {
                assert(w =~= seq!['f' as u8, 'a' as u8, 'l' as u8, 's' as u8, 'e' as u8]);
            }
            lemma_lex_token(input, pos, expr_tokens(e)[0], end);
            assert(expr_tokens(e) =~= seq![expr_tokens(e)[0]]);
        },
        _ => {},
    }
}

/// Where `(op right)` is written at `pos`: the places of its parts.
proof fn lemma_prefix_layout(input: Seq<u8>, pos: int, op: PrefixOperator, r: ExprV)
    requires
        text_at(input, pos, render_expr(ExprV::Prefix(op, Box::new(r)))),
    ensures
        text_at(input, pos + 2, render_expr(r)),
        input[pos] == '(' as u8,
        input[pos + 1] == prefix_text(op)[0] as u8,
        input[pos + 2 + render_expr(r).len()] == ')' as u8,
{
    reveal_strlit("(");
    reveal_strlit(")");
    reveal_strlit("!");
    reveal_strlit("-");
    let t = render_expr(ExprV::Prefix(op, Box::new(r)));
    let rt = render_expr(r);
    assert(t =~= "("@ + prefix_text(op) + rt + ")"@);
    assert forall|k: int| 0 <= k < rt.len() implies input[pos + 2 + k] == #[trigger] (
    rt[k] as u8) by {
        assert(input[pos + (k + 2)] == t[k + 2] as u8);
    }
    assert(input[pos + 0] == t[0] as u8);
    assert(input[pos + 1] == t[1] as u8);
    assert(input[pos + (2 + rt.len())] == t[2 + rt.len() as int] as u8);
}

/// The tokens of `(op right)`, given those of `right`.
proof fn lemma_prefix_tokens(input: Seq<u8>, pos: nat, op: PrefixOperator, r: ExprV)
    requires
        readable(r),
        text_at(input, pos as int, render_expr(ExprV::Prefix(op, Box::new(r)))),
        lex_all(input, pos + 2) == expr_tokens(r) + lex_all(input, pos + 2 + render_expr(r).len()),
    ensures
        lex_all(input, pos) == expr_tokens(ExprV::Prefix(op, Box::new(r))) + lex_all(
            input,
            pos + render_expr(ExprV::Prefix(op, Box::new(r))).len(),
        ),
{
    reveal_strlit("(");
    reveal_strlit(")");
    reveal_strlit("!");
    reveal_strlit("-");
    let e = ExprV::Prefix(op, Box::new(r));
    let p = pos as int;
    let rt = render_expr(r);
    lemma_prefix_layout(input, p, op, r);
    lemma_render_first(r);
    assert(input[p + 2 + 0] == rt[0] as u8);
    lemma_lex_token(input, pos, Tok::LParen, pos + 1);
    lemma_lex_token(input, pos + 1, prefix_token(op), pos + 2);
    let close = (p + 2 + rt.len()) as nat;
    lemma_lex_token(input, close, Tok::RParen, close + 1);
    assert(render_expr(e).len() == rt.len() + 3);
    assert(lex_all(input, pos) =~= expr_tokens(e) + lex_all(input, pos + render_expr(e).len()));
}

/// Where `(left op right)` is written at `pos`: the places of its parts.
proof fn lemma_infix_layout(input: Seq<u8>, pos: int, l: ExprV, op: InfixOperator, r: ExprV)
    requires
        text_at(input, pos, render_expr(ExprV::Infix(Box::new(l), op, Box::new(r)))),
    ensures
        ({
            let b = pos + 1 + render_expr(l).len();
            let c = b + 1 + infix_text(op).len();
            let d = c + 1 + render_expr(r).len();
            &&& text_at(input, pos + 1, render_expr(l))
            &&& text_at(input, b + 1, infix_text(op))
            &&& text_at(input, c + 1, render_expr(r))
            &&& input[pos] == '(' as u8
            &&& input[b] == ' ' as u8
            &&& input[c] == ' ' as u8
            &&& input[d] == ')' as u8
            &&& render_expr(ExprV::Infix(Box::new(l), op, Box::new(r))).len() == d + 1 - pos
        }),
{
    reveal_strlit("(");
    reveal_strlit(")");
    reveal_strlit(" ");
    let t = render_expr(ExprV::Infix(Box::new(l), op, Box::new(r)));
    let lt = render_expr(l);
    let rt = render_expr(r);
    let ot = infix_text(op);
    assert(t =~= "("@ + lt + " "@ + ot + " "@ + rt + ")"@);
    let b = pos + 1 + lt.len();
    let c = b + 1 + ot.len();
    let d = c + 1 + rt.len();
    assert forall|k: int| 0 <= k < lt.len() implies input[pos + 1 + k] == #[trigger] (
    lt[k] as u8) by {
        assert(input[pos + (k + 1)] == t[k + 1] as u8);
    }
    assert forall|k: int| 0 <= k < ot.len() implies input[b + 1 + k] == #[trigger] (
    ot[k] as u8) by {
        assert(input[pos + (b + 1 + k - pos)] == t[b + 1 + k - pos] as u8);
    }
    assert forall|k: int| 0 <= k < rt.len() implies input[c + 1 + k] == #[trigger] (
    rt[k] as u8) by {
        assert(input[pos + (c + 1 + k - pos)] == t[c + 1 + k - pos] as u8);
    }
    assert(input[pos + 0] == t[0] as u8);
    assert(input[pos + (b - pos)] == t[b - pos] as u8);
    assert(input[pos + (c - pos)] == t[c - pos] as u8);
    assert(input[pos + (d - pos)] == t[d - pos] as u8);
}

/// The tokens of `(left op right)`, given those of `left` and `right`.
proof fn lemma_infix_tokens(input: Seq<u8>, pos: nat, l: ExprV, op: InfixOperator, r: ExprV)
    requires
        text_at(input, pos as int, render_expr(ExprV::Infix(Box::new(l), op, Box::new(r)))),
        lex_all(input, pos + 1) == expr_tokens(l) + lex_all(input, pos + 1 + render_expr(l).len()),
        lex_all(input, pos + 3 + render_expr(l).len() + infix_text(op).len()) == expr_tokens(r)
            + lex_all(
            input,
            pos + 3 + render_expr(l).len() + infix_text(op).len() + render_expr(r).len(),
        ),
    ensures
        lex_all(input, pos) == expr_tokens(ExprV::Infix(Box::new(l), op, Box::new(r))) + lex_all(
            input,
            pos + render_expr(ExprV::Infix(Box::new(l), op, Box::new(r))).len(),
        ),
{
    let e = ExprV::Infix(Box::new(l), op, Box::new(r));
    let p = pos as int;
    lemma_infix_layout(input, p, l, op, r);
    let b = p + 1 + render_expr(l).len();
    let c = b + 1 + infix_text(op).len();
    let d = c + 1 + render_expr(r).len();
    lemma_lex_token(input, pos, Tok::LParen, pos + 1);
    lemma_lex_blank(input, b as nat);
    lemma_lex_infix(input, (b + 1) as nat, op);
    lemma_lex_blank(input, c as nat);
    lemma_lex_token(input, d as nat, Tok::RParen, (d + 1) as nat);
    assert(lex_all(input, pos) =~= expr_tokens(e) + lex_all(input, pos + render_expr(e).len()));
}

/// The tokenizer reads the rendering of a readable expression, followed by neither a
/// letter nor a digit, as that expression's tokens.
pub proof fn lemma_lex_rendered(input: Seq<u8>, pos: nat, e: ExprV)
    requires
        readable(e),
        text_at(input, pos as int, render_expr(e)),
        ends_word(input, pos + render_expr(e).len() as int),
    ensures
        lex_all(input, pos) == expr_tokens(e) + lex_all(input, pos + render_expr(e).len()),
    decreases e,
{
    match e {
        ExprV::Prefix(op, right) => {
            let r = *right;
            lemma_prefix_layout(input, pos as int, op, r);
            reveal_strlit(")");
            lemma_lex_rendered(input, pos + 2, r);
            lemma_prefix_tokens(input, pos, op, r);
        },
        ExprV::Infix(left, op, right) => {
            let l = *left;
            let r = *right;
            lemma_infix_layout(input, pos as int, l, op, r);
            lemma_lex_rendered(input, pos + 1, l);
            lemma_lex_rendered(input, pos + 3 + render_expr(l).len() + infix_text(op).len(), r);
            lemma_infix_tokens(input, pos, l, op, r);
        },
        _ => lemma_lex_atom(input, pos, e),
    }
}

proof fn lemma_first_token(e: ExprV)
    ensures
        expr_tokens(e).len() > 0,
        expr_tokens(e)[0] is LParen || expr_tokens(e)[0] is Ident || expr_tokens(e)[0] is Int
            || expr_tokens(e)[0] is True || expr_tokens(e)[0] is False,
{
}

/// Round trip through text: the rendering of a readable expression, written as a
/// statement with its `;`, tokenizes and parses back to exactly that expression with no
/// diagnostic, so rendering the parsed program gives the same text again.
pub proof fn lemma_text_round_trip(e: ExprV)
    requires
        readable(e),
    ensures
        ({
            let toks = lex_all(ascii_bytes(render_expr(e) + ";"@), 0);
            &&& parse_stmts(toks, 0) == (seq![StmtV::Expr(e)], Seq::<Seq<char>>::empty())
            &&& render_program(parse_stmts(toks, 0).0) == render_expr(e)
        }),
{
    reveal_strlit(";");
    let t = render_expr(e);
    let m = t.len();
    let src = ascii_bytes(t + ";"@);
    assert(text_at(src, 0, t)) by {
        assert forall|k: int| 0 <= k < t.len() implies src[0 + k] == #[trigger] (t[k] as u8) by {
            assert((t + ";"@)[k] == t[k]);
        }
    }
    assert(src[m as int] == ';' as u8);
    lemma_lex_rendered(src, 0, e);
    lemma_lex_token(src, m, Tok::Semicolon, m + 1);
    lemma_lex_all_step(src, m + 1);
    let toks = lex_all(src, 0);
    let et = expr_tokens(e);
    let n = et.len() as int;
    assert(toks =~= et + seq![Tok::Semicolon, Tok::Eof]);
    assert(toks.subrange(0, n) =~= et);
    lemma_readable_is_producible(e);
    lemma_first_token(e);
    lemma_round_trip(toks, 0, e, Precedence::Lowest);
    assert(tok_at(toks, 0) == et[0]);
    assert(parse_stmt(toks, 0) == (Ok::<StmtV, Seq<char>>(StmtV::Expr(e)), n));
    assert(parse_stmts(toks, n + 1) == (Seq::<StmtV>::empty(), Seq::<Seq<char>>::empty()));
    assert(parse_stmts(toks, 0).0 =~= seq![StmtV::Expr(e)]);
    assert(parse_stmts(toks, 0).1 =~= Seq::<Seq<char>>::empty());
    let prog = seq![StmtV::Expr(e)];
    assert(prog.drop_last() =~= Seq::<StmtV>::empty());
    assert(render_program(prog) =~= render_program(prog.drop_last()) + render_expr(e));
    assert(render_program(prog) =~= render_expr(e));
    assert(parse_stmts(toks, 0) == (prog, Seq::<Seq<char>>::empty()));
}

} // verus!
