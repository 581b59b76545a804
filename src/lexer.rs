//! The tokenizer: turns a byte buffer into tokens, one on each request.
use vstd::prelude::*;
use vstd::string::*;
use vstd::utf8::encode_utf8;
use crate::token::{Tok, Token};

verus! {

/// Space, tab, newline and carriage return.
pub open spec fn is_space(b: u8) -> bool {
    b == ' ' as u8 || b == '\t' as u8 || b == '\n' as u8 || b == '\r' as u8
}

/// An ASCII letter (`a`-`z`, `A`-`Z`) or an underscore.
pub open spec fn is_letter(b: u8) -> bool {
    ('a' as u8 <= b <= 'z' as u8) || ('A' as u8 <= b <= 'Z' as u8) || b == '_' as u8
}

/// `0`-`9`.
pub open spec fn is_digit(b: u8) -> bool {
    '0' as u8 <= b <= '9' as u8
}

/// The characters of ASCII bytes.
pub open spec fn chars_of(bytes: Seq<u8>) -> Seq<char> {
    bytes.map_values(|b: u8| b as char)
}

/// First position at or after `pos` that does not hold whitespace.
pub open spec fn skip_spaces(input: Seq<u8>, pos: nat) -> nat
    decreases input.len() - pos,
{
    if pos < input.len() && is_space(input[pos as int]) {
        skip_spaces(input, pos + 1)
    } else {
        pos
    }
}

/// End of the maximal run of letters that starts at `pos`.
pub open spec fn word_end(input: Seq<u8>, pos: nat) -> nat
    decreases input.len() - pos,
{
    if pos < input.len() && is_letter(input[pos as int]) {
        word_end(input, pos + 1)
    } else {
        pos
    }
}

/// End of the maximal run of digits that starts at `pos`.
pub open spec fn number_end(input: Seq<u8>, pos: nat) -> nat
    decreases input.len() - pos,
{
    if pos < input.len() && is_digit(input[pos as int]) {
        number_end(input, pos + 1)
    } else {
        pos
    }
}

/// A keyword, or an identifier, for a word of letters.
pub open spec fn word_token(word: Seq<u8>) -> Tok {
    if word == seq!['f' as u8, 'n' as u8] {
        Tok::Function
    } else if word == seq!['l' as u8, 'e' as u8, 't' as u8] {
        Tok::Let
    } else if word == seq!['i' as u8, 'f' as u8] {
        Tok::If
    } else if word == seq!['e' as u8, 'l' as u8, 's' as u8, 'e' as u8] {
        Tok::Else
    } else if word == seq!['r' as u8, 'e' as u8, 't' as u8, 'u' as u8, 'r' as u8, 'n' as u8] {
        Tok::Return
    } else if word == seq!['t' as u8, 'r' as u8, 'u' as u8, 'e' as u8] {
        Tok::True
    } else if word == seq!['f' as u8, 'a' as u8, 'l' as u8, 's' as u8, 'e' as u8] {
        Tok::False
    } else {
        Tok::Ident(chars_of(word))
    }
}

/// The token of a byte that stands alone (illegal if it is no operator or delimiter).
pub open spec fn single_token(b: u8) -> Tok {
    if b == '+' as u8 {
        Tok::Plus
    } else if b == '-' as u8 {
        Tok::Minus
    } else if b == '*' as u8 {
        Tok::Asterisk
    } else if b == '/' as u8 {
        Tok::Slash
    } else if b == '<' as u8 {
        Tok::LessThan
    } else if b == '>' as u8 {
        Tok::GreaterThan
    } else if b == ';' as u8 {
        Tok::Semicolon
    } else if b == '(' as u8 {
        Tok::LParen
    } else if b == ')' as u8 {
        Tok::RParen
    } else if b == ',' as u8 {
        Tok::Comma
    } else if b == '{' as u8 {
        Tok::LBrace
    } else if b == '}' as u8 {
        Tok::RBrace
    } else {
        Tok::Illegal
    }
}

/// The token that starts at the first non-blank position at or after `pos`,
/// and the position just after it.
pub open spec fn lex_one(input: Seq<u8>, pos: nat) -> (Tok, nat) {
    let p = skip_spaces(input, pos);
    if p >= input.len() {
        (Tok::Eof, p)
    } else {
        let b = input[p as int];
        if is_letter(b) {
            let e = word_end(input, p);
            (word_token(input.subrange(p as int, e as int)), e)
        } else if is_digit(b) {
            let e = number_end(input, p);
            (Tok::Int(chars_of(input.subrange(p as int, e as int))), e)
        } else if b == '=' as u8 {
            if p + 1 < input.len() && input[p + 1int] == '=' as u8 {
                (Tok::Equal, p + 2)
            } else {
                (Tok::Assign, p + 1)
            }
        } else if b == '!' as u8 {
            if p + 1 < input.len() && input[p + 1int] == '=' as u8 {
                (Tok::NotEqual, p + 2)
            } else {
                (Tok::Bang, p + 1)
            }
        } else {
            (single_token(b), p + 1)
        }
    }
}

pub proof fn lemma_skip_spaces(input: Seq<u8>, pos: nat)
    ensures
        pos <= skip_spaces(input, pos),
        pos <= input.len() ==> skip_spaces(input, pos) <= input.len(),
        skip_spaces(input, pos) < input.len() ==> !is_space(input[skip_spaces(input, pos) as int]),
    decreases input.len() - pos,
{
    if pos < input.len() && is_space(input[pos as int]) {
        lemma_skip_spaces(input, pos + 1);
    }
}

proof fn lemma_word_end(input: Seq<u8>, pos: nat)
    requires
        pos <= input.len(),
    ensures
        pos <= word_end(input, pos) <= input.len(),
        forall|i: int| pos <= i < word_end(input, pos) ==> is_letter(#[trigger] input[i]),
    decreases input.len() - pos,
{
    if pos < input.len() && is_letter(input[pos as int]) {
        lemma_word_end(input, pos + 1);
    }
}

proof fn lemma_number_end(input: Seq<u8>, pos: nat)
    requires
        pos <= input.len(),
    ensures
        pos <= number_end(input, pos) <= input.len(),
        forall|i: int| pos <= i < number_end(input, pos) ==> is_digit(#[trigger] input[i]),
    decreases input.len() - pos,
{
    if pos < input.len() && is_digit(input[pos as int]) {
        lemma_number_end(input, pos + 1);
    }
}

/// Every token but the end marker consumes input; the end marker leaves the position
/// at the end of the input.
pub proof fn lemma_lex_one_progress(input: Seq<u8>, pos: nat)
    requires
        pos <= input.len(),
    ensures
        lex_one(input, pos).1 <= input.len(),
        lex_one(input, pos).0 is Eof ==> lex_one(input, pos).1 == input.len(),
        !(lex_one(input, pos).0 is Eof) ==> pos < lex_one(input, pos).1,
{
    lemma_skip_spaces(input, pos);
    let p = skip_spaces(input, pos);
    if p < input.len() {
        lemma_word_end(input, p);
        lemma_number_end(input, p);
        let b = input[p as int];
        if is_letter(b) {
            lemma_word_end(input, p + 1);
            assert(word_end(input, p) > p);
            let w = input.subrange(p as int, word_end(input, p) as int);
            assert(word_token(w) != Tok::Eof);
        } else if is_digit(b) {
            lemma_number_end(input, p + 1);
            assert(number_end(input, p) > p);
        } else {
            assert(single_token(b) != Tok::Eof);
        }
    }
}

/// Once the input is used up, asking for another token gives the end marker again and
/// moves nothing.
pub proof fn lemma_end_of_input_is_stable(input: Seq<u8>, pos: nat)
    requires
        pos <= input.len(),
        lex_one(input, pos).0 is Eof,
    ensures
        lex_one(input, lex_one(input, pos).1) == lex_one(input, pos),
{
    lemma_lex_one_progress(input, pos);
}

/// The byte at `pos`, if there is one.
pub open spec fn byte_at(input: Seq<u8>, pos: nat) -> Option<u8> {
    if pos < input.len() {
        Some(input[pos as int])
    } else {
        None
    }
}

fn is_space_byte(b: u8) -> (r: bool)
    ensures
        r == is_space(b),
{
    b == ' ' as u8 || b == '\t' as u8 || b == '\n' as u8 || b == '\r' as u8
}

fn is_letter_byte(b: u8) -> (r: bool)
    ensures
        r == is_letter(b),
{
    ('a' as u8 <= b && b <= 'z' as u8) || ('A' as u8 <= b && b <= 'Z' as u8) || b == '_' as u8
}

fn is_digit_byte(b: u8) -> (r: bool)
    ensures
        r == is_digit(b),
{
    '0' as u8 <= b && b <= '9' as u8
}

/// Relies on `String::from_utf8_lossy`: bytes that are valid UTF-8 (here: ASCII) come
/// back unchanged, each ASCII byte as the character of the same code.
#[verifier::external_body]
fn ascii_text(bytes: &Vec<u8>) -> (r: String)
    requires
        forall|i: int| 0 <= i < bytes@.len() ==> #[trigger] bytes@[i] < 128,
    ensures
        r@ == chars_of(bytes@),
{
    String::from_utf8_lossy(bytes.as_slice()).into_owned()
}

/// The keyword spelled by `word`, or else an identifier.
fn word_token_of(word: Vec<u8>) -> (r: Token)
    requires
        forall|i: int| 0 <= i < word@.len() ==> is_letter(#[trigger] word@[i]),
    ensures
        r@ == word_token(word@),
{
    let n = word.len();
    if n == 2 && word[0] == 'f' as u8 && word[1] == 'n' as u8 {
        assert(word@ =~= seq!['f' as u8, 'n' as u8]);
        Token::Function
    } else if n == 3 && word[0] == 'l' as u8 && word[1] == 'e' as u8 && word[2] == 't' as u8 {
        assert(word@ =~= seq!['l' as u8, 'e' as u8, 't' as u8]);
        Token::Let
    } else if n == 2 && word[0] == 'i' as u8 && word[1] == 'f' as u8 {
        assert(word@ =~= seq!['i' as u8, 'f' as u8]);
        Token::If
    } else if n == 4 && word[0] == 'e' as u8 && word[1] == 'l' as u8 && word[2] == 's' as u8
        && word[3] == 'e' as u8 {
        assert(word@ =~= seq!['e' as u8, 'l' as u8, 's' as u8, 'e' as u8]);
        Token::Else
    } else if n == 6 && word[0] == 'r' as u8 && word[1] == 'e' as u8 && word[2] == 't' as u8
        && word[3] == 'u' as u8 && word[4] == 'r' as u8 && word[5] == 'n' as u8 {
        assert(word@ =~= seq!['r' as u8, 'e' as u8, 't' as u8, 'u' as u8, 'r' as u8, 'n' as u8]);
        Token::Return
    } else if n == 4 && word[0] == 't' as u8 && word[1] == 'r' as u8 && word[2] == 'u' as u8
        && word[3] == 'e' as u8 {
        assert(word@ =~= seq!['t' as u8, 'r' as u8, 'u' as u8, 'e' as u8]);
        Token::True
    } else if n == 5 && word[0] == 'f' as u8 && word[1] == 'a' as u8 && word[2] == 'l' as u8
        && word[3] == 's' as u8 && word[4] == 'e' as u8 {
        assert(word@ =~= seq!['f' as u8, 'a' as u8, 'l' as u8, 's' as u8, 'e' as u8]);
        Token::False
    } else {
        Token::Identifier(ascii_text(&word))
    }
}

/// All tokens from `pos` on, up to and including the end marker.
pub open spec fn lex_all(input: Seq<u8>, pos: nat) -> Seq<Tok>
    decreases input.len() - pos,
{
    if pos > input.len() {
        seq![Tok::Eof]
    } else {
        let (t, next) = lex_one(input, pos);
        proof {
            lemma_lex_one_progress(input, pos);
        }
        if t is Eof {
            seq![Tok::Eof]
        } else {
            seq![t] + lex_all(input, next)
        }
    }
}

/// The token list is never empty, ends with the end marker, and holds it nowhere else.
pub proof fn lemma_lex_all_shape(input: Seq<u8>, pos: nat)
    ensures
        lex_all(input, pos).len() >= 1,
        lex_all(input, pos).last() is Eof,
        forall|k: int|
            0 <= k < lex_all(input, pos).len() - 1 ==> !(#[trigger] lex_all(input, pos)[k] is Eof),
    decreases input.len() - pos,
{
    if pos <= input.len() {
        lemma_lex_one_progress(input, pos);
        let (t, next) = lex_one(input, pos);
        if !(t is Eof) {
            lemma_lex_all_shape(input, next);
            let rest = lex_all(input, next);
            let all = lex_all(input, pos);
            assert forall|k: int| 0 <= k < all.len() - 1 implies !(#[trigger] all[k] is Eof) by {
                if k > 0 {
                    assert(all[k] == rest[k - 1]);
                }
            }
        }
    }
}

/// One step of the token list, as the tokenizer takes it.
pub proof fn lemma_lex_all_step(input: Seq<u8>, pos: nat)
    requires
        pos <= input.len(),
    ensures
        lex_one(input, pos).1 <= input.len(),
        lex_one(input, pos).0 is Eof ==> lex_all(input, pos) == seq![Tok::Eof] && lex_one(
            input,
            pos,
        ).1 == input.len() && lex_all(input, lex_one(input, pos).1) == seq![Tok::Eof],
        !(lex_one(input, pos).0 is Eof) ==> lex_all(input, pos) == seq![lex_one(input, pos).0]
            + lex_all(input, lex_one(input, pos).1),
{
    lemma_lex_one_progress(input, pos);
    if lex_one(input, pos).0 is Eof {
        lemma_lex_one_progress(input, input.len());
    }
}

/// Byte buffer and cursor of the tokenizer.
pub struct Lexer {
    input: Vec<u8>,
    position: usize,
}

impl Lexer {
    /// The bytes being tokenized.
    pub closed spec fn source(&self) -> Seq<u8> {
        self.input@
    }

    /// The cursor: the position of the next byte to be read.
    pub closed spec fn pos(&self) -> nat {
        self.position as nat
    }

    pub open spec fn wf(&self) -> bool {
        self.pos() <= self.source().len()
    }

    pub fn new(input: String) -> (r: Lexer)
        ensures
            r.wf(),
            r.source() == encode_utf8(input@),
            r.pos() == 0,
    {
        Lexer { input: input.as_str().as_bytes_vec(), position: 0 }
    }

    /// Hands out the next token and moves the cursor past it. At the end of the input
    /// this is the end marker, and the cursor stays where it is.
    pub fn next_token(&mut self) -> (r: Token)
        requires
            old(self).wf(),
        ensures
            final(self).wf(),
            final(self).source() == old(self).source(),
            (r@, final(self).pos()) == lex_one(old(self).source(), old(self).pos()),
            old(self).pos() == old(self).source().len() ==> r@ == Tok::Eof && final(self).pos()
                == old(self).pos(),
    {
        proof {
            lemma_skip_spaces(self.source(), self.pos());
        }
        self.skip_whitespace();
        let token = match self.current_char() {
            Some(61) => match self.peek_char() {
                Some(61) => {
                    self.advance();
                    Token::Equal
                },
                _ => Token::Assign,
            },
            Some(33) => match self.peek_char() {
                Some(61) => {
                    self.advance();
                    Token::NotEqual
                },
                _ => Token::Bang,
            },
            Some(43) => Token::Plus,  // '+'
            Some(45) => Token::Minus,  // '-'
            Some(42) => Token::Asterisk,  // '*'
            Some(47) => Token::Slash,  // '/'
            Some(60) => Token::LessThan,  // '<'
            Some(62) => Token::GreaterThan,  // '>'
            Some(59) => Token::Semicolon,  // ';'
            Some(40) => Token::LParen,  // '('
            Some(41) => Token::RParen,  // ')'
            Some(44) => Token::Comma,  // ','
            Some(123) => Token::LBrace,  // '{'
            Some(125) => Token::RBrace,  // '}'
            Some(c) => {
                if is_letter_byte(c) {
                    let word = self.read_identifier();
                    return word_token_of(word);
                } else if is_digit_byte(c) {
                    let number = self.read_number();
                    return Token::Int(number);
                } else {
                    Token::Illegal
                }
            },
            None => {
                return Token::EOF;
            },
        };
        self.advance();
        token
    }

    fn advance(&mut self)
        requires
            old(self).pos() < old(self).source().len(),
        ensures
            final(self).source() == old(self).source(),
            final(self).pos() == old(self).pos() + 1,
    {
        let _ = self.input.len();
        self.position = self.position + 1;
    }

    fn current_char(&self) -> (r: Option<u8>)
        requires
            self.wf(),
        ensures
            r == byte_at(self.source(), self.pos()),
    {
        self.char_at(self.position)
    }

    fn peek_char(&self) -> (r: Option<u8>)
        requires
            self.wf(),
        ensures
            r == byte_at(self.source(), self.pos() + 1),
    {
        if self.position >= self.input.len() {
            None
        } else {
            self.char_at(self.position + 1)
        }
    }

    fn char_at(&self, position: usize) -> (r: Option<u8>)
        ensures
            r == byte_at(self.source(), position as nat),
    {
        if position >= self.input.len() {
            None
        } else {
            Some(self.input[position])
        }
    }

    fn skip_whitespace(&mut self)
        requires
            old(self).wf(),
        ensures
            final(self).wf(),
            final(self).source() == old(self).source(),
            final(self).pos() == skip_spaces(old(self).source(), old(self).pos()),
    {
        let ghost start = self.pos();
        while self.position < self.input.len() && is_space_byte(self.input[self.position])
            invariant
                self.wf(),
                self.source() == old(self).source(),
                skip_spaces(self.source(), self.pos()) == skip_spaces(self.source(), start),
            decreases self.source().len() - self.pos(),
        {
            self.advance();
        }
    }

    /// Reads the run of letters at the cursor.
    fn read_identifier(&mut self) -> (r: Vec<u8>)
        requires
            old(self).wf(),
        ensures
            final(self).wf(),
            final(self).source() == old(self).source(),
            final(self).pos() == word_end(old(self).source(), old(self).pos()),
            r@ == old(self).source().subrange(old(self).pos() as int, final(self).pos() as int),
            forall|i: int| 0 <= i < r@.len() ==> is_letter(#[trigger] r@[i]),
    {
        let mut word: Vec<u8> = Vec::new();
        let ghost start = self.pos();
        while self.position < self.input.len() && is_letter_byte(self.input[self.position])
            invariant
                self.wf(),
                self.source() == old(self).source(),
                start <= self.pos(),
                word_end(self.source(), self.pos()) == word_end(self.source(), start),
                word@ == self.source().subrange(start as int, self.pos() as int),
                forall|i: int| 0 <= i < word@.len() ==> is_letter(#[trigger] word@[i]),
            decreases self.source().len() - self.pos(),
        {
            word.push(self.input[self.position]);
            self.advance();
            proof {
                assert(word@ =~= self.source().subrange(start as int, self.pos() as int));
            }
        }
        word
    }

    /// Reads the run of digits at the cursor.
    fn read_number(&mut self) -> (r: String)
        requires
            old(self).wf(),
            old(self).pos() < old(self).source().len(),
            is_digit(old(self).source()[old(self).pos() as int]),
        ensures
            final(self).wf(),
            final(self).source() == old(self).source(),
            final(self).pos() == number_end(old(self).source(), old(self).pos()),
            r@ == chars_of(
                old(self).source().subrange(old(self).pos() as int, final(self).pos() as int),
            ),
    {
        let mut digits: Vec<u8> = Vec::new();
        let ghost start = self.pos();
        while self.position < self.input.len() && is_digit_byte(self.input[self.position])
            invariant
                self.wf(),
                self.source() == old(self).source(),
                start <= self.pos(),
                number_end(self.source(), self.pos()) == number_end(self.source(), start),
                digits@ == self.source().subrange(start as int, self.pos() as int),
                forall|i: int| 0 <= i < digits@.len() ==> is_digit(#[trigger] digits@[i]),
            decreases self.source().len() - self.pos(),
        {
            digits.push(self.input[self.position]);
            self.advance();
            proof {
                assert(digits@ =~= self.source().subrange(start as int, self.pos() as int));
            }
        }
        ascii_text(&digits)
    }
}

} // verus!
