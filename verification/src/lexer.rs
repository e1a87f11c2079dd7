//! Lexing: source text to a stream of symbolic tokens.
//!
//! Eight characters are significant (`+ - > < . , [ ]`); space, newline and
//! tab are skipped; any other byte stops the lexer with an error naming the
//! byte's offset and its character.

use vstd::prelude::*;
use vstd::string::StringSliceAdditionalSpecFns;

verus! {

/// One symbolic operation of the source language.
#[derive(Debug, PartialEq, Eq, Structural, Clone, Copy)]
pub enum Token {
    Less,
    Greater,
    Plus,
    Minus,
    Period,
    Comma,
    LBracket,
    RBracket,
}

/// Lexing failure: an unrecognized character, with its byte offset.
#[derive(Debug, PartialEq, Eq, Structural, Clone, Copy)]
pub enum LexError {
    InvalidChar(usize, char),
}

/// Is `b` one of the eight significant source bytes?
pub open spec fn is_significant(b: u8) -> bool {
    ||| b == ('+' as u8)
    ||| b == ('-' as u8)
    ||| b == ('>' as u8)
    ||| b == ('<' as u8)
    ||| b == ('.' as u8)
    ||| b == (',' as u8)
    ||| b == ('[' as u8)
    ||| b == (']' as u8)
}

/// Is `b` skipped as whitespace?
pub open spec fn is_blank(b: u8) -> bool {
    b == (' ' as u8) || b == ('\n' as u8) || b == ('\t' as u8)
}

/// The token a significant byte stands for.
pub open spec fn token_of(b: u8) -> Token {
    if b == ('+' as u8) {
        Token::Plus
    } else if b == ('-' as u8) {
        Token::Minus
    } else if b == ('>' as u8) {
        Token::Less
    } else if b == ('<' as u8) {
        Token::Greater
    } else if b == ('.' as u8) {
        Token::Period
    } else if b == (',' as u8) {
        Token::Comma
    } else if b == ('[' as u8) {
        Token::LBracket
    } else {
        Token::RBracket
    }
}

/// What lexing yields from offset `pos` on, with the tokens `acc` already
/// produced: the remaining bytes either extend `acc` or stop at the first
/// unrecognized byte.
pub open spec fn lex_bytes_from(s: Seq<u8>, pos: int, acc: Seq<Token>) -> Result<
    Seq<Token>,
    LexError,
>
    decreases s.len() - pos,
{
    if pos < 0 || pos >= s.len() {
        Ok(acc)
    } else if is_significant(s[pos]) {
        lex_bytes_from(s, pos + 1, acc.push(token_of(s[pos])))
    } else if is_blank(s[pos]) {
        lex_bytes_from(s, pos + 1, acc)
    } else {
        Err(LexError::InvalidChar(pos as usize, s[pos] as char))
    }
}

/// What lexing yields on the whole byte sequence `s`.
pub open spec fn lex_spec(s: Seq<u8>) -> Result<Seq<Token>, LexError> {
    lex_bytes_from(s, 0, Seq::empty())
}

/// How many significant bytes `s` holds from offset `pos` on.
pub open spec fn significant_count(s: Seq<u8>, pos: int) -> int
    decreases s.len() - pos,
{
    if pos < 0 || pos >= s.len() {
        0
    } else {
        (if is_significant(s[pos]) {
            1int
        } else {
            0int
        }) + significant_count(s, pos + 1)
    }
}

proof fn lemma_lex_ok_from(s: Seq<u8>, pos: int, acc: Seq<Token>)
    requires
        0 <= pos <= s.len(),
        forall|i: int| pos <= i < s.len() ==> is_significant(s[i]) || is_blank(s[i]),
    ensures
        lex_bytes_from(s, pos, acc) matches Ok(tokens) && tokens.len() == acc.len()
            + significant_count(s, pos),
    decreases s.len() - pos,
{
    if pos < s.len() {
        if is_significant(s[pos]) {
            lemma_lex_ok_from(s, pos + 1, acc.push(token_of(s[pos])));
        } else {
            lemma_lex_ok_from(s, pos + 1, acc);
        }
    }
}

/// Law: on input made only of significant and whitespace bytes, lexing
/// succeeds, and yields exactly one token per significant byte.
pub proof fn lemma_lex_succeeds_on_clean_input(s: Seq<u8>)
    requires
        forall|i: int| 0 <= i < s.len() ==> is_significant(s[i]) || is_blank(s[i]),
    ensures
        lex_spec(s) matches Ok(tokens) && tokens.len() == significant_count(s, 0),
{
    lemma_lex_ok_from(s, 0, Seq::empty());
}

proof fn lemma_lex_err_from(s: Seq<u8>, pos: int, acc: Seq<Token>, j: int)
    requires
        s.len() <= usize::MAX,
        0 <= pos <= j < s.len(),
        !is_significant(s[j]) && !is_blank(s[j]),
        forall|i: int| pos <= i < j ==> is_significant(s[i]) || is_blank(s[i]),
    ensures
        lex_bytes_from(s, pos, acc) == Err::<Seq<Token>, LexError>(
            LexError::InvalidChar(j as usize, s[j] as char),
        ),
    decreases s.len() - pos,
{
    if pos < j {
        if is_significant(s[pos]) {
            lemma_lex_err_from(s, pos + 1, acc.push(token_of(s[pos])), j);
        } else {
            lemma_lex_err_from(s, pos + 1, acc, j);
        }
    }
}

/// Law: on input whose first byte that is neither significant nor whitespace
/// stands at offset `j`, lexing fails and reports exactly that offset and that
/// byte's character.
pub proof fn lemma_lex_reports_first_invalid(s: Seq<u8>, j: int)
    requires
        s.len() <= usize::MAX,
        0 <= j < s.len(),
        !is_significant(s[j]) && !is_blank(s[j]),
        forall|i: int| 0 <= i < j ==> is_significant(s[i]) || is_blank(s[i]),
    ensures
        lex_spec(s) == Err::<Seq<Token>, LexError>(
            LexError::InvalidChar(j as usize, s[j] as char),
        ),
{
    lemma_lex_err_from(s, 0, Seq::empty(), j);
}

/// Turn source text into tokens, or report the first unrecognized character.
pub fn lex(code: &str) -> (r: Result<Vec<Token>, LexError>)
    ensures
        match r {
            Ok(tokens) => lex_spec(code.spec_bytes()) == Ok::<Seq<Token>, LexError>(tokens@),
            Err(e) => lex_spec(code.spec_bytes()) == Err::<Seq<Token>, LexError>(e),
        },
{
    let input = code.as_bytes();
    let mut pos: usize = 0;
    let mut tokens: Vec<Token> = Vec::new();

    while pos < input.len()
        invariant
            pos <= input.len(),
            input@ == code.spec_bytes(),
            lex_bytes_from(input@, 0, Seq::empty()) == lex_bytes_from(
                input@,
                pos as int,
                tokens@,
            ),
        decreases input.len() - pos,
    {
        let b = input[pos];
        if b == ('+' as u8) {
            tokens.push(Token::Plus);
            pos += 1;
        } else if b == ('-' as u8) {
            tokens.push(Token::Minus);
            pos += 1;
        } else if b == ('>' as u8) {
            tokens.push(Token::Less);
            pos += 1;
        } else if b == ('<' as u8) {
            tokens.push(Token::Greater);
            pos += 1;
        } else if b == ('.' as u8) {
            tokens.push(Token::Period);
            pos += 1;
        } else if b == (',' as u8) {
            tokens.push(Token::Comma);
            pos += 1;
        } else if b == ('[' as u8) {
            tokens.push(Token::LBracket);
            pos += 1;
        } else if b == (']' as u8) {
            tokens.push(Token::RBracket);
            pos += 1;
        } else if b == (' ' as u8) || b == ('\n' as u8) || b == ('\t' as u8) {
            pos += 1;
        } else {
            return Err(LexError::InvalidChar(pos, b as char));
        }
    }
    Ok(tokens)
}

} // verus!
