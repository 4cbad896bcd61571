//! Properties of the scanner over all inputs, proved against its model.

use vstd::prelude::*;
use crate::chars::{digit_value, is_digit, is_white_space};
use crate::scanner::{
    digit_run, digits_value, lemma_digit_run_bound, lex_from, lex_spec, operator_token, prepend,
    symbol_run,
};
use crate::token::{DiagnosticView, Token};

verus! {

/// Over `[i, k)` every character is a digit, and the run stops at `k`: then
/// the digit run from `i` is exactly `k - i` long.
proof fn lemma_digit_run_exact(s: Seq<char>, i: int, k: int)
    requires
        0 <= i <= k <= s.len(),
        forall|j: int| i <= j < k ==> is_digit(#[trigger] s[j]),
        k == s.len() || !is_digit(s[k]),
    ensures
        digit_run(s, i) == k - i,
    decreases k - i,
{
    if i < k {
        lemma_digit_run_exact(s, i + 1, k);
    }
}

/// A string of digits has a non-negative value.
proof fn lemma_digits_value_nonneg(d: Seq<char>)
    requires
        forall|j: int| 0 <= j < d.len() ==> is_digit(#[trigger] d[j]),
    ensures
        digits_value(d) >= 0,
    decreases d.len(),
{
    if d.len() > 0 {
        lemma_digits_value_nonneg(d.drop_last());
    }
}

/// A non-empty string of digits whose value fits in `i32` scans to exactly
/// one number token carrying that value.
pub proof fn lemma_digits_scan_to_number(d: Seq<char>)
    requires
        d.len() > 0,
        forall|j: int| 0 <= j < d.len() ==> is_digit(#[trigger] d[j]),
        digits_value(d) <= i32::MAX,
    ensures
        lex_spec(d) == Ok::<Seq<Token>, DiagnosticView>(
            seq![Token::Num(digits_value(d) as i32)],
        ),
{
    lemma_digits_value_nonneg(d);
    lemma_digit_run_exact(d, 1, d.len() as int);
    assert(lex_from(d, d.len() as int) == Ok::<Seq<Token>, DiagnosticView>(
        Seq::empty(),
    ));
    assert(d.subrange(0, d.len() as int) =~= d);
    assert(seq![Token::Num(digits_value(d) as i32)] + Seq::<Token>::empty() =~= seq![
        Token::Num(digits_value(d) as i32),
    ]);
}

/// The characters of a digit run are digits, and the run stops at the end
/// of the input or at a non-digit.
proof fn lemma_digit_run_facts(s: Seq<char>, pos: int)
    requires
        0 <= pos <= s.len(),
    ensures
        forall|j: int| pos <= j < pos + digit_run(s, pos) ==> is_digit(#[trigger] s[j]),
        pos + digit_run(s, pos) == s.len() || !is_digit(s[pos + digit_run(s, pos)]),
    decreases s.len() - pos,
{
    if pos < s.len() && is_digit(s[pos]) {
        lemma_digit_run_facts(s, pos + 1);
    }
}

/// A character of the language: a digit, whitespace or an operator.
pub open spec fn in_alphabet(c: char) -> bool {
    is_digit(c) || is_white_space(c) || operator_token(c) is Some
}

/// A run of digits starts at `i`.
pub open spec fn starts_run(s: Seq<char>, i: int) -> bool {
    0 <= i < s.len() && is_digit(s[i]) && (i == 0 || !is_digit(s[i - 1]))
}

/// Every run of digits in `s` that starts before `k` denotes a value that
/// fits in `i32`.
pub open spec fn runs_fit(s: Seq<char>, k: int) -> bool {
    forall|i: int|
        0 <= i < k && #[trigger] starts_run(s, i) ==> digits_value(
            s.subrange(i, i + digit_run(s, i)),
        ) <= i32::MAX
}

/// The spans of text that the scanner consumes from `pos` on, one per
/// recognizer match: a run of digits, one whitespace character, or one
/// other character.
pub open spec fn lexemes_from(s: Seq<char>, pos: int) -> Seq<Seq<char>>
    decreases s.len() - pos via lexemes_from_decreases
{
    if pos < 0 || pos >= s.len() {
        Seq::empty()
    } else if is_digit(s[pos]) {
        let end = pos + 1 + digit_run(s, pos + 1);
        seq![s.subrange(pos, end)] + lexemes_from(s, end)
    } else {
        seq![s.subrange(pos, pos + 1)] + lexemes_from(s, pos + 1)
    }
}

#[via_fn]
proof fn lexemes_from_decreases(s: Seq<char>, pos: int) {
    if 0 <= pos < s.len() {
        lemma_digit_run_bound(s, pos + 1);
    }
}

/// A span that one recognizer match consumes: one whitespace character, one
/// operator character, or a non-empty run of digits.
pub open spec fn is_lexeme(p: Seq<char>) -> bool {
    ||| p.len() == 1 && is_white_space(p[0])
    ||| p.len() == 1 && operator_token(p[0]) is Some
    ||| p.len() >= 1 && forall|j: int| 0 <= j < p.len() ==> is_digit(#[trigger] p[j])
}

/// The token that a span stands for.
pub open spec fn token_of_lexeme(p: Seq<char>) -> Token {
    if is_digit(p[0]) {
        Token::Num(digits_value(p) as i32)
    } else {
        operator_token(p[0])->0
    }
}

/// The tokens that a sequence of spans stands for, whitespace left out.
pub open spec fn tokens_of(ps: Seq<Seq<char>>) -> Seq<Token>
    decreases ps.len(),
{
    if ps.len() == 0 {
        Seq::empty()
    } else if ps[0].len() == 1 && is_white_space(ps[0][0]) {
        tokens_of(ps.drop_first())
    } else {
        seq![token_of_lexeme(ps[0])] + tokens_of(ps.drop_first())
    }
}

proof fn lemma_reconstructs_from(s: Seq<char>, pos: int)
    requires
        0 <= pos <= s.len(),
        forall|i: int| 0 <= i < s.len() ==> in_alphabet(#[trigger] s[i]),
        runs_fit(s, s.len() as int),
        pos < s.len() && is_digit(s[pos]) ==> starts_run(s, pos),
    ensures
        lex_from(s, pos) == Ok::<Seq<Token>, DiagnosticView>(
            tokens_of(lexemes_from(s, pos)),
        ),
        lexemes_from(s, pos).flatten() == s.subrange(pos, s.len() as int),
        forall|i: int|
            0 <= i < lexemes_from(s, pos).len() ==> is_lexeme(#[trigger] lexemes_from(s, pos)[i]),
    decreases s.len() - pos,
{
    let ps = lexemes_from(s, pos);
    if pos == s.len() {
        assert(s.subrange(pos, s.len() as int) =~= Seq::<char>::empty());
    } else {
        let next = if is_digit(s[pos]) {
            pos + 1 + digit_run(s, pos + 1)
        } else {
            pos + 1
        };
        lemma_digit_run_bound(s, pos + 1);
        lemma_digit_run_facts(s, pos + 1);
        lemma_reconstructs_from(s, next);
        let rest = lexemes_from(s, next);
        let p = s.subrange(pos, next);
        assert(ps == seq![p] + rest);
        assert(ps.first() == p);
        assert(ps.drop_first() =~= rest);
        assert(p + s.subrange(next, s.len() as int) =~= s.subrange(pos, s.len() as int));
        assert forall|i: int| 0 <= i < ps.len() implies is_lexeme(#[trigger] ps[i]) by {
            if i > 0 {
                assert(ps[i] == rest[i - 1]);
            }
        }
        if is_digit(s[pos]) {
            assert(starts_run(s, pos));
            assert(digit_run(s, pos) == 1 + digit_run(s, pos + 1));
            lemma_digits_value_nonneg(p);
        }
    }
}

/// Scanning text made only of digits, whitespace and operator characters,
/// whose digit runs all fit in `i32`, succeeds; the spans it consumes,
/// concatenated, give back the text exactly; each span is one whitespace
/// character, one operator character or a run of digits; and the tokens are
/// those of the non-whitespace spans, in order.
pub proof fn lemma_scan_reconstructs(s: Seq<char>)
    requires
        forall|i: int| 0 <= i < s.len() ==> in_alphabet(#[trigger] s[i]),
        runs_fit(s, s.len() as int),
    ensures
        lex_spec(s) == Ok::<Seq<Token>, DiagnosticView>(
            tokens_of(lexemes_from(s, 0)),
        ),
        lexemes_from(s, 0).flatten() == s,
        forall|i: int|
            0 <= i < lexemes_from(s, 0).len() ==> is_lexeme(#[trigger] lexemes_from(s, 0)[i]),
{
    lemma_reconstructs_from(s, 0);
    assert(s.subrange(0, s.len() as int) =~= s);
}

proof fn lemma_fails_from(s: Seq<char>, pos: int, k: int)
    requires
        0 <= pos <= k < s.len(),
        forall|i: int| 0 <= i < k ==> in_alphabet(#[trigger] s[i]),
        !in_alphabet(s[k]),
        is_digit(s[pos]) ==> starts_run(s, pos),
    ensures
        lex_from(s, pos) is Err,
        runs_fit(s, k) ==> lex_from(s, pos) == Err::<Seq<Token>, DiagnosticView>(
            DiagnosticView::UnrecognizedSymbol(s.subrange(k, k + 1 + symbol_run(s, k + 1))),
        ),
    decreases k - pos,
{
    if pos < k {
        let next = if is_digit(s[pos]) {
            pos + 1 + digit_run(s, pos + 1)
        } else {
            pos + 1
        };
        lemma_digit_run_facts(s, pos + 1);
        if next > k {
            assert(is_digit(s[k]));
        }
        if is_digit(s[pos]) {
            assert(starts_run(s, pos));
            assert(digit_run(s, pos) == 1 + digit_run(s, pos + 1));
        }
        if next < k {
            lemma_fails_from(s, next, k);
        }
    }
}

/// Scanning text that holds a character outside the language fails. Where
/// the runs of digits before the first such character all fit in `i32`, it
/// fails with an unrecognized-symbol diagnostic whose span starts at that
/// character and runs up to the next whitespace or the end of the text.
pub proof fn lemma_foreign_character_fails(s: Seq<char>, k: int)
    requires
        0 <= k < s.len(),
        forall|i: int| 0 <= i < k ==> in_alphabet(#[trigger] s[i]),
        !in_alphabet(s[k]),
    ensures
        lex_spec(s) is Err,
        runs_fit(s, k) ==> lex_spec(s) == Err::<Seq<Token>, DiagnosticView>(
            DiagnosticView::UnrecognizedSymbol(s.subrange(k, k + 1 + symbol_run(s, k + 1))),
        ),
{
    lemma_fails_from(s, 0, k);
}

/// The digit character for `d`, which is below ten.
pub open spec fn digit_char(d: nat) -> char {
    if d == 0 {
        '0'
    } else if d == 1 {
        '1'
    } else if d == 2 {
        '2'
    } else if d == 3 {
        '3'
    } else if d == 4 {
        '4'
    } else if d == 5 {
        '5'
    } else if d == 6 {
        '6'
    } else if d == 7 {
        '7'
    } else if d == 8 {
        '8'
    } else {
        '9'
    }
}

/// The decimal digits of `n`, most significant first, without leading zeros.
pub open spec fn decimal(n: nat) -> Seq<char>
    decreases n,
{
    if n < 10 {
        seq![digit_char(n)]
    } else {
        decimal(n / 10).push(digit_char(n % 10))
    }
}

/// The shortest text that scans back to `t`: the decimal digits of a
/// number, the character of an operator. Tokens that no recognizer
/// produces have no text.
pub open spec fn token_text(t: Token) -> Seq<char> {
    match t {
        Token::Plus => seq!['+'],
        Token::Subtract => seq!['-'],
        Token::Multiply => seq!['*'],
        Token::Divide => seq!['/'],
        Token::Modulus => seq!['%'],
        Token::Assign => seq!['='],
        Token::Num(v) => decimal(v as nat),
        _ => Seq::empty(),
    }
}

/// The tokens written out as text, each followed by one space.
pub open spec fn render(ts: Seq<Token>) -> Seq<char>
    decreases ts.len(),
{
    if ts.len() == 0 {
        Seq::empty()
    } else {
        token_text(ts[0]) + seq![' '] + render(ts.drop_first())
    }
}

/// A token that the recognizers can produce: a non-negative number or an
/// operator.
pub open spec fn scannable(t: Token) -> bool {
    match t {
        Token::Num(v) => v >= 0,
        Token::Plus | Token::Subtract | Token::Multiply | Token::Divide | Token::Modulus
        | Token::Assign => true,
        _ => false,
    }
}

proof fn lemma_digit_char(d: nat)
    requires
        d < 10,
    ensures
        is_digit(digit_char(d)),
        digit_value(digit_char(d)) == d,
{
}

proof fn lemma_symbol_run_bound(s: Seq<char>, pos: int)
    requires
        0 <= pos <= s.len(),
    ensures
        pos + symbol_run(s, pos) <= s.len(),
    decreases s.len() - pos,
{
    if pos < s.len() {
        lemma_symbol_run_bound(s, pos + 1);
    }
}

proof fn lemma_decimal(n: nat)
    ensures
        decimal(n).len() >= 1,
        forall|j: int| 0 <= j < decimal(n).len() ==> is_digit(#[trigger] decimal(n)[j]),
        digits_value(decimal(n)) == n,
    decreases n,
{
    if n >= 10 {
        lemma_decimal(n / 10);
        lemma_digit_char(n % 10);
        assert(decimal(n).drop_last() =~= decimal(n / 10));
        assert(decimal(n).last() == digit_char(n % 10));
        assert(digits_value(decimal(n)) == 10 * digits_value(decimal(n / 10)) + digit_value(
            digit_char(n % 10),
        ));
        assert(n == 10 * (n / 10) + n % 10);
    } else {
        lemma_digit_char(n);
        assert(decimal(n).drop_last() =~= Seq::<char>::empty());
        assert(digits_value(Seq::<char>::empty()) == 0);
        assert(digits_value(decimal(n)) == 10 * digits_value(decimal(n).drop_last()) + digit_value(
            decimal(n).last(),
        ));
    }
}

proof fn lemma_scan_yields_scannable(s: Seq<char>, pos: int)
    requires
        lex_from(s, pos) is Ok,
    ensures
        forall|i: int|
            0 <= i < (lex_from(s, pos)->Ok_0).len() ==> scannable(
                #[trigger] (lex_from(s, pos)->Ok_0)[i],
            ),
    decreases s.len() - pos,
{
    if 0 <= pos < s.len() {
        if is_digit(s[pos]) {
            let end = pos + 1 + digit_run(s, pos + 1);
            lemma_digit_run_bound(s, pos + 1);
            lemma_digit_run_facts(s, pos);
            assert(digit_run(s, pos) == 1 + digit_run(s, pos + 1));
            let digits = s.subrange(pos, end);
            if digits_value(digits) <= i32::MAX {
                lemma_scan_yields_scannable(s, end);
                lemma_digits_value_nonneg(digits);
            }
        } else if is_white_space(s[pos]) {
            lemma_scan_yields_scannable(s, pos + 1);
        } else if operator_token(s[pos]) is Some {
            lemma_scan_yields_scannable(s, pos + 1);
        }
    }
}

proof fn lemma_runs_shift(a: Seq<char>, b: Seq<char>, i: int)
    requires
        0 <= i <= b.len(),
    ensures
        digit_run(a + b, a.len() + i) == digit_run(b, i),
        symbol_run(a + b, a.len() + i) == symbol_run(b, i),
    decreases b.len() - i,
{
    if i < b.len() {
        lemma_runs_shift(a, b, i + 1);
    }
}

proof fn lemma_scan_shift(a: Seq<char>, b: Seq<char>, i: int)
    requires
        0 <= i <= b.len(),
    ensures
        lex_from(a + b, a.len() + i) == lex_from(b, i),
    decreases b.len() - i,
{
    if i < b.len() {
        let s = a + b;
        let p = a.len() + i;
        lemma_runs_shift(a, b, i + 1);
        lemma_digit_run_bound(b, i + 1);
        let end = i + 1 + digit_run(b, i + 1);
        assert(s[p] == b[i]);
        if is_digit(b[i]) {
            lemma_scan_shift(a, b, end);
            assert(s.subrange(p, a.len() + end) =~= b.subrange(i, end));
        } else if is_white_space(b[i]) || operator_token(b[i]) is Some {
            lemma_scan_shift(a, b, i + 1);
        } else {
            lemma_symbol_run_bound(b, i + 1);
            assert(s.subrange(p, p + 1 + symbol_run(b, i + 1)) =~= b.subrange(
                i,
                i + 1 + symbol_run(b, i + 1),
            ));
        }
    }
}

proof fn lemma_render_scans_back(ts: Seq<Token>)
    requires
        forall|i: int| 0 <= i < ts.len() ==> scannable(#[trigger] ts[i]),
    ensures
        lex_spec(render(ts)) == Ok::<Seq<Token>, DiagnosticView>(ts),
    decreases ts.len(),
{
    if ts.len() == 0 {
        assert(ts =~= Seq::<Token>::empty());
    } else {
        let t = ts[0];
        let rest = ts.drop_first();
        assert forall|i: int| 0 <= i < rest.len() implies scannable(#[trigger] rest[i]) by {
            assert(rest[i] == ts[i + 1]);
        }
        lemma_render_scans_back(rest);
        let a = token_text(t) + seq![' '];
        let b = render(rest);
        let s = a + b;
        assert(render(ts) == s);
        lemma_scan_shift(a, b, 0);
        let n = token_text(t).len() as int;
        if let Token::Num(v) = t {
            lemma_decimal(v as nat);
            assert forall|j: int| 1 <= j < n implies is_digit(#[trigger] s[j]) by {
                assert(s[j] == decimal(v as nat)[j]);
            }
            assert(s[n] == ' ');
            lemma_digit_run_exact(s, 1, n);
            assert(s.subrange(0, n) =~= decimal(v as nat));
            assert(lex_from(s, n) == lex_from(s, n + 1));
        } else {
            assert(s[0] == token_text(t)[0]);
            assert(s[1] == ' ');
            assert(lex_from(s, 1) == lex_from(s, 2));
        }
        assert(seq![t] + rest =~= ts);
    }
}

/// Writing out the tokens of a successful scan, separated by spaces, and
/// scanning that text again gives the same tokens.
pub proof fn lemma_rescan_rendered(s: Seq<char>)
    requires
        lex_spec(s) is Ok,
    ensures
        lex_spec(render(lex_spec(s)->Ok_0)) == lex_spec(s),
{
    lemma_scan_yields_scannable(s, 0);
    lemma_render_scans_back(lex_spec(s)->Ok_0);
}

} // verus!
