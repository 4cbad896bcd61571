//! The scanner and its recognizers, with the model they are proved against.
//!
//! Input is taken as a sequence of characters and a position into it; each
//! recognizer looks only at the character at that position and after, and
//! reports the position just past what it consumed.

use vstd::prelude::*;
use crate::chars::{char_is_digit, char_is_white_space, digit_value, is_digit, is_white_space};
use crate::text::{chars_of, span_text};
use crate::token::{Diagnostic, DiagnosticView, Token};

verus! {

/// Length of the run of digits that starts at `pos`.
pub open spec fn digit_run(s: Seq<char>, pos: int) -> nat
    decreases s.len() - pos,
{
    if 0 <= pos < s.len() && is_digit(s[pos]) {
        1 + digit_run(s, pos + 1)
    } else {
        0
    }
}

/// Length of the run of non-whitespace characters that starts at `pos`.
pub open spec fn symbol_run(s: Seq<char>, pos: int) -> nat
    decreases s.len() - pos,
{
    if 0 <= pos < s.len() && !is_white_space(s[pos]) {
        1 + symbol_run(s, pos + 1)
    } else {
        0
    }
}

/// The value of a string of decimal digits, most significant first.
pub open spec fn digits_value(d: Seq<char>) -> int
    decreases d.len(),
{
    if d.len() == 0 {
        0
    } else {
        10 * digits_value(d.drop_last()) + digit_value(d.last())
    }
}

/// The operator that a single character stands for, if any.
pub open spec fn operator_token(c: char) -> Option<Token> {
    if c == '+' {
        Some(Token::Plus)
    } else if c == '-' {
        Some(Token::Subtract)
    } else if c == '*' {
        Some(Token::Multiply)
    } else if c == '/' {
        Some(Token::Divide)
    } else if c == '%' {
        Some(Token::Modulus)
    } else if c == '=' {
        Some(Token::Assign)
    } else {
        None
    }
}

/// Puts `ts` in front of the tokens of a successful outcome.
pub open spec fn prepend(ts: Seq<Token>, r: Result<Seq<Token>, DiagnosticView>) -> Result<
    Seq<Token>,
    DiagnosticView,
> {
    match r {
        Ok(rest) => Ok(ts + rest),
        Err(d) => Err(d),
    }
}

/// The outcome of scanning `s` from `pos` to its end: at each position the
/// recognizers are tried in the order digits, whitespace, operators; the
/// first position where none matches ends the scan with a diagnostic.
pub open spec fn lex_from(s: Seq<char>, pos: int) -> Result<Seq<Token>, DiagnosticView>
    decreases s.len() - pos via lex_from_decreases
{
    if pos < 0 || pos >= s.len() {
        Ok(Seq::empty())
    } else if is_digit(s[pos]) {
        let end = pos + 1 + digit_run(s, pos + 1);
        let digits = s.subrange(pos, end);
        if digits_value(digits) > i32::MAX {
            Err(DiagnosticView::IntegerOverflow(digits))
        } else {
            prepend(seq![Token::Num(digits_value(digits) as i32)], lex_from(s, end))
        }
    } else if is_white_space(s[pos]) {
        lex_from(s, pos + 1)
    } else if operator_token(s[pos]) is Some {
        prepend(seq![operator_token(s[pos])->0], lex_from(s, pos + 1))
    } else {
        Err(DiagnosticView::UnrecognizedSymbol(s.subrange(pos, pos + 1 + symbol_run(s, pos + 1))))
    }
}

#[via_fn]
proof fn lex_from_decreases(s: Seq<char>, pos: int) {
    if 0 <= pos < s.len() {
        lemma_digit_run_bound(s, pos + 1);
    }
}

/// A run of digits does not reach past the end of the input.
pub proof fn lemma_digit_run_bound(s: Seq<char>, pos: int)
    requires
        0 <= pos <= s.len(),
    ensures
        pos + digit_run(s, pos) <= s.len(),
    decreases s.len() - pos,
{
    if pos < s.len() {
        lemma_digit_run_bound(s, pos + 1);
    }
}

/// The outcome of scanning the whole of `s`.
pub open spec fn lex_spec(s: Seq<char>) -> Result<Seq<Token>, DiagnosticView> {
    lex_from(s, 0)
}

/// What the integer-literal recognizer found.
#[derive(Debug, Clone, PartialEq, Eq)]
pub enum NumberMatch {
    /// The input does not start with a digit.
    NoMatch,
    /// A run of digits with this value, ending at this position.
    Number(i32, usize),
    /// A run of digits, ending at this position, whose value exceeds `i32::MAX`.
    OutOfRange(usize),
}

/// Whitespace recognizer: consumes one whitespace character at `pos`.
pub fn lex_space(code: &[char], pos: usize) -> (r: Option<usize>)
    requires
        pos <= code@.len(),
    ensures
        r == (if pos < code@.len() && is_white_space(code@[pos as int]) {
            Some((pos + 1) as usize)
        } else {
            None::<usize>
        }),
{
    if pos < code.len() && char_is_white_space(code[pos]) {
        Some(pos + 1)
    } else {
        None
    }
}

/// The operator token for `c`, one entry per operator character.
pub fn operator_of(c: char) -> (r: Option<Token>)
    ensures
        r == operator_token(c),
{
    match c {
        '+' => Some(Token::Plus),
        '-' => Some(Token::Subtract),
        '*' => Some(Token::Multiply),
        '/' => Some(Token::Divide),
        '%' => Some(Token::Modulus),
        '=' => Some(Token::Assign),
        _ => None,
    }
}

proof fn lemma_digit_run_step(s: Seq<char>, pos: int)
    requires
        0 <= pos < s.len(),
        is_digit(s[pos]),
    ensures
        digit_run(s, pos) == 1 + digit_run(s, pos + 1),
{
}

proof fn lemma_digits_value_push(s: Seq<char>, lo: int, hi: int)
    requires
        0 <= lo <= hi < s.len(),
    ensures
        digits_value(s.subrange(lo, hi + 1)) == 10 * digits_value(s.subrange(lo, hi))
            + digit_value(s[hi]),
{
    assert(s.subrange(lo, hi + 1).drop_last() =~= s.subrange(lo, hi));
}

/// Integer-literal recognizer: consumes the longest run of digits at `pos`
/// and reads it as a decimal number.
pub fn lex_number(code: &[char], pos: usize) -> (r: NumberMatch)
    requires
        pos <= code@.len(),
    ensures
        !(pos < code@.len() && is_digit(code@[pos as int])) ==> r == NumberMatch::NoMatch,
        pos < code@.len() && is_digit(code@[pos as int]) ==> {
            let end = pos + digit_run(code@, pos as int);
            let v = digits_value(code@.subrange(pos as int, end));
            &&& v <= i32::MAX ==> r == NumberMatch::Number(v as i32, end as usize)
            &&& v > i32::MAX ==> r == NumberMatch::OutOfRange(end as usize)
        },
{
    if !(pos < code.len() && char_is_digit(code[pos])) {
        return NumberMatch::NoMatch;
    }
    let mut i: usize = pos;
    let mut value: i32 = 0;
    let mut overflow: bool = false;
    while i < code.len() && char_is_digit(code[i])
        invariant
            pos <= i <= code@.len(),
            digit_run(code@, pos as int) == (i - pos) + digit_run(code@, i as int),
            !overflow ==> value as int == digits_value(code@.subrange(pos as int, i as int)),
            !overflow ==> value >= 0,
            overflow ==> digits_value(code@.subrange(pos as int, i as int)) > i32::MAX,
        decreases code@.len() - i,
    {
        proof {
            lemma_digit_run_step(code@, i as int);
            lemma_digits_value_push(code@, pos as int, i as int);
        }
        let d: i64 = (code[i] as u32 - '0' as u32) as i64;
        if !overflow {
            let next: i64 = value as i64 * 10 + d;
            if next > i32::MAX as i64 {
                overflow = true;
            } else {
                value = next as i32;
            }
        }
        i = i + 1;
    }
    if overflow {
        NumberMatch::OutOfRange(i)
    } else {
        NumberMatch::Number(value, i)
    }
}

/// Invalid-span finder: the character at `pos` and the run of
/// non-whitespace characters that follows it, as quoted in a diagnostic.
pub fn invalid_symbol(code: &[char], pos: usize) -> (r: String)
    requires
        pos < code@.len(),
    ensures
        r@ == code@.subrange(pos as int, pos + 1 + symbol_run(code@, pos + 1)),
{
    let n = code.len();
    let mut i: usize = pos + 1;
    while i < n && !char_is_white_space(code[i])
        invariant
            pos < i <= code@.len(),
            n == code@.len(),
            symbol_run(code@, pos + 1) == (i - pos - 1) + symbol_run(code@, i as int),
        decreases code@.len() - i,
    {
        i = i + 1;
    }
    span_text(code, pos, i)
}

/// The outcome that a scan's result stands for.
pub open spec fn outcome(r: Result<Vec<Token>, Diagnostic>) -> Result<Seq<Token>, DiagnosticView> {
    match r {
        Ok(ts) => Ok(ts@),
        Err(d) => Err(d@),
    }
}

proof fn lemma_prepend_append(a: Seq<Token>, b: Seq<Token>, r: Result<Seq<Token>, DiagnosticView>)
    ensures
        prepend(a, prepend(b, r)) == prepend(a + b, r),
{
    if let Ok(rest) = r {
        assert(a + (b + rest) =~= (a + b) + rest);
    }
}

/// Scans `code` into tokens, or fails with a diagnostic for the first
/// span that no recognizer accepts.
pub fn lex(code: &str) -> (r: Result<Vec<Token>, Diagnostic>)
    ensures
        outcome(r) == lex_spec(code@),
{
    let s = chars_of(code);
    let mut tokens: Vec<Token> = Vec::new();
    let mut pos: usize = 0;
    while pos < s.len()
        invariant
            pos <= s@.len(),
            s@ == code@,
            lex_spec(code@) == prepend(tokens@, lex_from(s@, pos as int)),
        decreases s@.len() - pos,
    {
        let ghost before = tokens@;
        proof {
            lemma_digit_run_bound(s@, pos as int);
            if is_digit(s@[pos as int]) {
                lemma_digit_run_step(s@, pos as int);
            }
        }
        match lex_number(s.as_slice(), pos) {
            NumberMatch::Number(v, end) => {
                proof {
                    assert(lex_from(s@, pos as int) == prepend(seq![Token::Num(v)], lex_from(s@, end as int)));
                    lemma_prepend_append(before, seq![Token::Num(v)], lex_from(s@, end as int));
                }
                tokens.push(Token::Num(v));
                assert(tokens@ =~= before + seq![Token::Num(v)]);
                pos = end;
                continue ;
            },
            NumberMatch::OutOfRange(end) => {
                return Err(Diagnostic::IntegerOverflow(span_text(s.as_slice(), pos, end)));
            },
            NumberMatch::NoMatch => {},
        }
        if let Some(next) = lex_space(s.as_slice(), pos) {
            pos = next;
            continue ;
        }
        if let Some(t) = operator_of(s[pos]) {
            proof {
                lemma_prepend_append(before, seq![t], lex_from(s@, pos + 1));
            }
            tokens.push(t);
            assert(tokens@ =~= before + seq![t]);
            pos = pos + 1;
            continue ;
        }
        return Err(Diagnostic::UnrecognizedSymbol(invalid_symbol(s.as_slice(), pos)));
    }
    proof {
        assert(tokens@ + Seq::<Token>::empty() =~= tokens@);
    }
    Ok(tokens)
}

} // verus!
