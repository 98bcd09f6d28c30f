use caldi::eval::{eval, literals_fit};
use caldi::lexer::{Lexer, Token, TokenKind};
use caldi::parser::{ErrorKind, Parser, TokenKindAt};
use caldi::render::render_error;
use caldi::value::{Rat, Value};

/// Displays a value the way the interactive front end does: integers
/// plainly, rationals through their floating-point quotient.
fn value_to_string(v: Value) -> String {
    match v {
        Value::Integer(i) => i.to_string(),
        Value::Float(r) => (r.num as f64 / r.den as f64).to_string(),
    }
}

fn evals_to(source: &str, expected: String) {
    let v = eval(source.as_bytes()).unwrap();
    assert_eq!(value_to_string(v), expected, "input: {source}");
}

#[test]
fn ops_in_letters() {
    evals_to("minus 3", (-3).to_string());
    evals_to("negative 3", (-3).to_string());
    evals_to("2 plus 2 times 3 minus 1 over 2 minus negative 5", (12.5).to_string());
}

#[test]
fn unaries() {
    evals_to("-2", (-2).to_string());
    evals_to("--2", (2).to_string());
    evals_to("+2", (2).to_string());
    evals_to("-+-2", (2).to_string());
    evals_to("--+-2", (-2).to_string());
}

#[test]
fn sums() {
    evals_to("3 + 2", (5).to_string());
    evals_to("3 + 3.", (6).to_string());
    evals_to("3 - 2 / 6", (2.6666666666666665).to_string());
    evals_to("75 + 100", (175).to_string());
    evals_to("75 - 100", (-25).to_string());
    evals_to("75 + 1000 - 100", (975).to_string());
    evals_to("1000 + 75 - 100", (975).to_string());
}

#[test]
fn products() {
    evals_to("3 * 2", (6).to_string());
    evals_to("89 * 34", (3026).to_string());
    evals_to("89 * 34 * 23 * 199", (13850002).to_string());
    evals_to("9 / 2", (4.5).to_string());
    evals_to("256 * 9 / 2", (1152).to_string());
}

#[test]
fn pemdas() {
    evals_to("9 * 2 / 3 + 6 - 4 + 2", (10).to_string());
    evals_to("2 + 2 / 2 - - 2", (5).to_string());
    evals_to("2 + 2 * 3 - 1 / 2 - - 5", (12.5).to_string());
    evals_to("3 - 1 / 2 - 5", (-2.5).to_string());
    evals_to("-3 - 1 / 2 - 5", (-8.5).to_string());
}

#[test]
fn errors() {
    for source in ["* 2", "/ 2", "2 + * 2"] {
        let err = eval(source.as_bytes()).unwrap_err();
        let first = render_error(err, source.as_bytes());
        let second = render_error(err, source.as_bytes());
        assert_eq!(first, second);
        assert!(String::from_utf8(first).unwrap().starts_with(source));
    }
    assert_eq!(
        String::from_utf8(render_error(
            eval(b"* 2").unwrap_err(),
            b"* 2",
        ))
        .unwrap(),
        "* 2\n\u{21b3} unexpected token Times at position 0",
    );
    assert_eq!(
        String::from_utf8(render_error(
            eval(b"/ 2").unwrap_err(),
            b"/ 2",
        ))
        .unwrap(),
        "/ 2\n\u{21b3} unexpected token Over at position 0",
    );
    assert_eq!(
        String::from_utf8(render_error(
            eval(b"2 + * 2").unwrap_err(),
            b"2 + * 2",
        ))
        .unwrap(),
        "2 + * 2\n    \u{21b3} unexpected token Times at position 4",
    );
}

#[test]
fn integer_results_stay_integers() {
    // Integer-only expressions without division keep the integer kind.
    assert_eq!(eval(b"2 + 3 * 4 - 1").unwrap(), Value::Integer(13));
    assert_eq!(eval(b"7 - 2 - 1").unwrap(), Value::Integer(4));
}

#[test]
fn division_always_yields_float() {
    // Even an exact integer quotient comes back as a rational.
    assert_eq!(eval(b"9 / 2").unwrap(), Value::Float(Rat { num: 9, den: 2 }));
    match eval(b"4 / 2").unwrap() {
        Value::Float(r) => assert_eq!(r.num as f64 / r.den as f64, 2.0),
        Value::Integer(_) => panic!("integer quotient must still be a float"),
    }
    evals_to("9 / 2", (4.5).to_string());
}

#[test]
fn word_forms_match_symbols() {
    for (words, symbols) in [
        ("2 plus 3", "2 + 3"),
        ("2 minus 3", "2 - 3"),
        ("2 negative 3", "2 - 3"),
        ("2 times 3", "2 * 3"),
        ("2 x 3", "2 * 3"),
        ("2 multiplied by 3", "2 * 3"),
        ("2 over 3", "2 / 3"),
        ("2 divided by 3", "2 / 3"),
    ] {
        assert_eq!(
            eval(words.as_bytes()).unwrap(),
            eval(symbols.as_bytes()).unwrap(),
            "{words} vs {symbols}"
        );
    }
}

#[test]
fn filler_words_are_skipped() {
    evals_to("hey caldi two plus two 2 plus 2", (4).to_string());
    evals_to("what is 6 times 7", (42).to_string());
}

#[test]
fn division_by_zero_follows_float_conventions() {
    assert_eq!(eval(b"1 / 0").unwrap(), Value::Float(Rat { num: 1, den: 0 }));
    assert_eq!(eval(b"-1 / 0").unwrap(), Value::Float(Rat { num: -1, den: 0 }));
    assert_eq!(eval(b"0 / 0").unwrap(), Value::Float(Rat { num: 0, den: 0 }));
    assert_eq!(value_to_string(eval(b"1 / 0").unwrap()), (1.0f64 / 0.0f64).to_string());
    assert_eq!(value_to_string(eval(b"0 / 0").unwrap()), (0.0f64 / 0.0f64).to_string());
}

#[test]
fn unexpected_end_points_past_the_input() {
    assert_eq!(eval(b"2 +").unwrap_err(), ErrorKind::UnexpectedEnd { at: 3 });
    assert_eq!(eval(b"").unwrap_err(), ErrorKind::UnexpectedEnd { at: 0 });
    assert_eq!(
        String::from_utf8(render_error(eval(b"2 +").unwrap_err(), b"2 +")).unwrap(),
        "2 +\n   \u{21b3} unexpected end of expression encountered at position 3",
    );
}

#[test]
fn error_values_carry_kind_and_offset() {
    assert_eq!(
        eval(b"* 2").unwrap_err(),
        ErrorKind::UnexpectedToken {
            token: TokenKindAt { position: 0, kind: TokenKind::Times },
        },
    );
    assert_eq!(
        eval(b"/ 2").unwrap_err(),
        ErrorKind::UnexpectedToken {
            token: TokenKindAt { position: 0, kind: TokenKind::Over },
        },
    );
}

#[test]
fn tokenizer_splits_and_positions() {
    let tokens = Lexer::new(b"2 plus 2").tokenize();
    assert_eq!(
        tokens,
        vec![
            Token { start: 0, len: 1, kind: TokenKind::Integer },
            Token { start: 2, len: 5, kind: TokenKind::Plus },
            Token { start: 7, len: 1, kind: TokenKind::Integer },
            Token { start: 8, len: 0, kind: TokenKind::Eof },
        ],
    );
    let tokens = Lexer::new(b"1.5?").tokenize();
    assert_eq!(
        tokens,
        vec![
            Token { start: 0, len: 3, kind: TokenKind::Float },
            Token { start: 3, len: 1, kind: TokenKind::Illegal },
            Token { start: 4, len: 0, kind: TokenKind::Eof },
        ],
    );
    // An unmatched word run splits into one token per word, each at its
    // own offset.
    let tokens = Lexer::new(b"hey times").tokenize();
    assert_eq!(
        tokens,
        vec![
            Token { start: 0, len: 3, kind: TokenKind::Ident },
            Token { start: 4, len: 5, kind: TokenKind::Times },
            Token { start: 9, len: 0, kind: TokenKind::Eof },
        ],
    );
}

#[test]
fn fractional_literals_are_exact() {
    assert_eq!(eval(b"2.5").unwrap(), Value::Float(Rat { num: 25, den: 10 }));
    assert_eq!(eval(b"3.").unwrap(), Value::Float(Rat { num: 3, den: 1 }));
    evals_to("2.5 + 2.5", (5).to_string());
    // Exact rational arithmetic: a sum of tenths is exactly three tenths.
    evals_to("0.1 + 0.2", (0.3).to_string());
}

#[test]
fn literal_bounds_are_detected() {
    assert!(literals_fit(b"9223372036854775807"));
    assert!(!literals_fit(b"9223372036854775808"));
    assert!(!literals_fit(b"1 + 99999999999999999999"));
    assert!(literals_fit(b"2 plus 2 and anything * else /"));
    assert!(literals_fit(b"1.000000000000000002"));
    assert!(!literals_fit(b"1.0000000000000000002"));
    assert_eq!(eval(b"9223372036854775807").unwrap(), Value::Integer(i64::MAX));
}

#[test]
fn surplus_tokens_are_ignored() {
    // A complete expression followed by more tokens keeps its value.
    assert_eq!(eval(b"2 3").unwrap(), Value::Integer(2));
    assert_eq!(eval(b"2 + 3 4").unwrap(), Value::Integer(5));
}

#[test]
fn parser_is_reusable_per_input() {
    let mut p = Parser::new(b"1 + 2");
    assert!(p.parse().is_ok());
    let mut q = Parser::new(b"* 1");
    assert!(q.parse().is_err());
}
