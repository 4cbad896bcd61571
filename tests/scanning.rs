use lexer::scanner::{invalid_symbol, lex, lex_number, lex_space, operator_of, NumberMatch};
use lexer::text::{chars_of, span_text};
use lexer::token::{Diagnostic, Token};

fn chars(s: &str) -> Vec<char> {
    s.chars().collect()
}

#[test]
fn empty_input_scans_to_nothing() {
    assert_eq!(lex(""), Ok(vec![]));
}

#[test]
fn numbers_around_plus() {
    assert_eq!(lex("12+34"), Ok(vec![Token::Num(12), Token::Plus, Token::Num(34)]));
}

#[test]
fn whitespace_is_discarded() {
    assert_eq!(lex("  7  *  8 "), Ok(vec![Token::Num(7), Token::Multiply, Token::Num(8)]));
}

#[test]
fn leading_zeros_keep_the_value() {
    assert_eq!(lex("007"), Ok(vec![Token::Num(7)]));
}

#[test]
fn ampersand_is_unrecognized() {
    assert_eq!(lex("3 & 4"), Err(Diagnostic::UnrecognizedSymbol("&".to_string())));
}

#[test]
fn unrecognized_span_runs_to_whitespace() {
    assert_eq!(lex("3 &x+ 4"), Err(Diagnostic::UnrecognizedSymbol("&x+".to_string())));
    assert_eq!(lex("1+a"), Err(Diagnostic::UnrecognizedSymbol("a".to_string())));
}

#[test]
fn unrecognized_non_ascii_character() {
    assert_eq!(lex("3 é4 5"), Err(Diagnostic::UnrecognizedSymbol("é4".to_string())));
}

#[test]
fn all_operators_in_order() {
    assert_eq!(
        lex("+-*/%="),
        Ok(vec![
            Token::Plus,
            Token::Subtract,
            Token::Multiply,
            Token::Divide,
            Token::Modulus,
            Token::Assign,
        ])
    );
}

#[test]
fn largest_number_fits() {
    assert_eq!(lex("2147483647"), Ok(vec![Token::Num(i32::MAX)]));
    assert_eq!(lex("0"), Ok(vec![Token::Num(0)]));
    assert_eq!(lex("000"), Ok(vec![Token::Num(0)]));
}

#[test]
fn number_past_i32_overflows() {
    assert_eq!(lex("2147483648"), Err(Diagnostic::IntegerOverflow("2147483648".to_string())));
    assert_eq!(
        lex("1 + 99999999999999999999 & 3"),
        Err(Diagnostic::IntegerOverflow("99999999999999999999".to_string()))
    );
}

#[test]
fn minus_is_not_part_of_a_number() {
    assert_eq!(lex("-5"), Ok(vec![Token::Subtract, Token::Num(5)]));
}

#[test]
fn unicode_whitespace_separates_numbers() {
    assert_eq!(
        lex("1\u{3000}2\t3\n4\u{a0}5\u{2028}6"),
        Ok(vec![
            Token::Num(1),
            Token::Num(2),
            Token::Num(3),
            Token::Num(4),
            Token::Num(5),
            Token::Num(6),
        ])
    );
}

#[test]
fn alphabet_text_reconstructs() {
    let tokens = lex(" 10 =3%07\t/ 2 ").unwrap();
    assert_eq!(
        tokens,
        vec![
            Token::Num(10),
            Token::Assign,
            Token::Num(3),
            Token::Modulus,
            Token::Num(7),
            Token::Divide,
            Token::Num(2),
        ]
    );
}

#[test]
fn rescanning_rendered_tokens_is_stable() {
    let first = lex("007*  12-=3").unwrap();
    let rendered = "7 * 12 - = 3 ";
    assert_eq!(lex(rendered).unwrap(), first);
}

#[test]
fn space_recognizer_takes_one_character() {
    let code = chars("  x");
    assert_eq!(lex_space(&code, 0), Some(1));
    assert_eq!(lex_space(&code, 1), Some(2));
    assert_eq!(lex_space(&code, 2), None);
    assert_eq!(lex_space(&code, 3), None);
}

#[test]
fn number_recognizer_takes_longest_run() {
    let code = chars("12a345");
    assert_eq!(lex_number(&code, 0), NumberMatch::Number(12, 2));
    assert_eq!(lex_number(&code, 1), NumberMatch::Number(2, 2));
    assert_eq!(lex_number(&code, 2), NumberMatch::NoMatch);
    assert_eq!(lex_number(&code, 3), NumberMatch::Number(345, 6));
    assert_eq!(lex_number(&code, 6), NumberMatch::NoMatch);
}

#[test]
fn number_recognizer_reports_out_of_range() {
    let code = chars("99999999999 1");
    assert_eq!(lex_number(&code, 0), NumberMatch::OutOfRange(11));
    assert_eq!(lex_number(&code, 12), NumberMatch::Number(1, 13));
}

#[test]
fn operator_table() {
    assert_eq!(operator_of('+'), Some(Token::Plus));
    assert_eq!(operator_of('-'), Some(Token::Subtract));
    assert_eq!(operator_of('*'), Some(Token::Multiply));
    assert_eq!(operator_of('/'), Some(Token::Divide));
    assert_eq!(operator_of('%'), Some(Token::Modulus));
    assert_eq!(operator_of('='), Some(Token::Assign));
    assert_eq!(operator_of('&'), None);
    assert_eq!(operator_of('1'), None);
}

#[test]
fn invalid_span_stops_at_whitespace() {
    let code = chars("1 #ab c");
    assert_eq!(invalid_symbol(&code, 2), "#ab".to_string());
    let code = chars("@@");
    assert_eq!(invalid_symbol(&code, 0), "@@".to_string());
}

#[test]
fn characters_and_spans() {
    assert_eq!(chars_of("aé 1"), vec!['a', 'é', ' ', '1']);
    assert_eq!(chars_of(""), Vec::<char>::new());
    let code = chars("héllo");
    assert_eq!(span_text(&code, 1, 4), "éll".to_string());
    assert_eq!(span_text(&code, 2, 2), String::new());
}
