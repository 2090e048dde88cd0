use json_parser::grammar::{boolean_at, key_at, member_at, null_at, value_at};
use json_parser::lexical::{byte_at, is_whitespace, literal, skip_whitespace};
use json_parser::number::{digits_end, finite, number_end, number_from};
use json_parser::string::{content_at, escapable_at, hex_at, normal_at, string_at};
use json_parser::{
    boolean, escapable, key, normal, null, ErrorKind, Frame, JsonValue, ParseError, Production,
};

fn failure(kind: ErrorKind, offset: usize, context: Vec<Frame>) -> ParseError {
    ParseError { kind, offset, context }
}

fn frame(production: Production, offset: usize) -> Frame {
    Frame { production, offset }
}

#[test]
fn whitespace_is_skipped() {
    assert_eq!(skip_whitespace(b" \t\r\nx ", 0), 4);
    assert_eq!(skip_whitespace(b" \t\r\nx ", 2), 4);
    assert_eq!(skip_whitespace(b"x ", 0), 0);
    assert_eq!(skip_whitespace(b"  ", 0), 2);
    assert_eq!(skip_whitespace(b"", 0), 0);
    assert_eq!(skip_whitespace(b"  ", 5), 5);
    assert_eq!(skip_whitespace(b"\x0b\x0c ", 0), 0);
    for b in 0..=255u8 {
        assert_eq!(is_whitespace(b), b == b' ' || b == b'\t' || b == b'\n' || b == b'\r');
    }
}

#[test]
fn literal_matches_exactly() {
    assert_eq!(literal(b"null", 0, b"null"), Ok(4));
    assert_eq!(literal(b"xnullx", 1, b"null"), Ok(5));
    assert_eq!(literal(b"nul", 0, b"null"), Err(failure(ErrorKind::TagMismatch, 0, vec![])));
    assert_eq!(literal(b"nuLl", 0, b"null"), Err(failure(ErrorKind::TagMismatch, 0, vec![])));
    assert_eq!(literal(b"null", 1, b"null"), Err(failure(ErrorKind::TagMismatch, 1, vec![])));
    assert_eq!(literal(b"null", 9, b"null"), Err(failure(ErrorKind::TagMismatch, 9, vec![])));
    assert_eq!(literal(b"abc", 3, b""), Ok(3));
    assert_eq!(literal(b"abc", 4, b""), Err(failure(ErrorKind::TagMismatch, 4, vec![])));
    assert!(byte_at(b"a:b", 1, b':'));
    assert!(!byte_at(b"a:b", 0, b':'));
    assert!(!byte_at(b"a:b", 3, b':'));
}

#[test]
fn ordinary_run() {
    assert_eq!(normal_at(b"abc\"d", 0), Ok(3));
    assert_eq!(normal_at(b"abc\\d", 1), Ok(3));
    assert_eq!(normal_at(b"abc", 0), Ok(3));
    assert_eq!(normal_at(b"ab\x1fc", 0), Ok(2));
    assert_eq!(normal_at(b"ab\x7fc", 0), Ok(2));
    assert_eq!(normal_at("h\u{e9}\u{1f600}\"".as_bytes(), 0), Ok(7));
    assert_eq!(normal_at(b"\"ab", 1), Ok(3));
}

#[test]
fn ordinary_run_is_not_empty() {
    assert_eq!(normal_at(b"\"abc", 0), Err(failure(ErrorKind::TagMismatch, 0, vec![])));
    assert_eq!(normal_at(b"a\\n", 1), Err(failure(ErrorKind::TagMismatch, 1, vec![])));
    assert_eq!(normal_at(b"a\nb", 1), Err(failure(ErrorKind::TagMismatch, 1, vec![])));
    assert_eq!(normal_at(b"a\x7fb", 1), Err(failure(ErrorKind::TagMismatch, 1, vec![])));
    assert_eq!(normal_at(b"", 0), Err(failure(ErrorKind::TagMismatch, 0, vec![])));
    assert_eq!(normal_at(b"ab", 2), Err(failure(ErrorKind::TagMismatch, 2, vec![])));
    assert_eq!(normal_at(b"ab", 9), Err(failure(ErrorKind::TagMismatch, 9, vec![])));
}

#[test]
fn ordinary_run_of_a_text() {
    assert_eq!(normal("abc\"d"), Ok(("\"d", "abc")));
    assert_eq!(normal("abc\\n"), Ok(("\\n", "abc")));
    assert_eq!(normal("abc"), Ok(("", "abc")));
    assert_eq!(normal("h\u{e9}\u{1f600}\ttab"), Ok(("\ttab", "h\u{e9}\u{1f600}")));
    for text in ["", "\"abc", "\\abc", "\nabc", "\u{7f}abc", "\u{0}"] {
        assert_eq!(normal(text), Err(failure(ErrorKind::TagMismatch, 0, vec![])));
    }
}

#[test]
fn productions_of_a_text() {
    assert_eq!(escapable("nabc"), Ok(("abc", "n")));
    assert_eq!(escapable("\"x"), Ok(("x", "\"")));
    assert_eq!(escapable("u00e9!"), Ok(("!", "u00e9")));
    assert_eq!(
        escapable("x"),
        Err(failure(ErrorKind::EscapeError, 0, vec![frame(Production::Escaped, 0)]))
    );
    assert_eq!(
        escapable("u00g9"),
        Err(failure(
            ErrorKind::HexDigitError,
            3,
            vec![frame(Production::HexString, 0), frame(Production::Escaped, 0)]
        ))
    );
    assert_eq!(boolean("true,"), Ok((",", true)));
    assert_eq!(boolean("falsehood"), Ok(("hood", false)));
    assert_eq!(boolean(" true"), Err(failure(ErrorKind::TagMismatch, 0, vec![])));
    assert_eq!(boolean("True"), Err(failure(ErrorKind::TagMismatch, 0, vec![])));
    assert_eq!(null("null]"), Ok(("]", JsonValue::Null)));
    assert_eq!(null("nul"), Err(failure(ErrorKind::TagMismatch, 0, vec![])));
    assert_eq!(key(" \"k\" : 1"), Ok((": 1", "k")));
    assert_eq!(key("\"a\\nb\"\t\n:"), Ok((":", "a\\nb")));
    assert_eq!(key("\"\":"), Ok((":", "")));
    assert_eq!(
        key("  k"),
        Err(failure(ErrorKind::TagMismatch, 2, vec![frame(Production::Str, 2)]))
    );
}

#[test]
fn escape_tokens() {
    for token in ["\"", "\\", "/", "b", "f", "n", "r", "t"] {
        assert_eq!(escapable_at(token.as_bytes(), 0), Ok(1));
    }
    assert_eq!(escapable_at(b"u00fF!", 0), Ok(5));
    assert_eq!(hex_at(b"xu00fF", 1), Ok(6));
    for token in ["a", "x", "U1234", "0", " ", ""] {
        assert_eq!(
            escapable_at(token.as_bytes(), 0),
            Err(failure(ErrorKind::EscapeError, 0, vec![frame(Production::Escaped, 0)]))
        );
    }
    assert_eq!(
        escapable_at(b"u12", 0),
        Err(failure(
            ErrorKind::HexDigitError,
            3,
            vec![frame(Production::HexString, 0), frame(Production::Escaped, 0)]
        ))
    );
    assert_eq!(
        hex_at(b"u123G", 0),
        Err(failure(ErrorKind::HexDigitError, 4, vec![frame(Production::HexString, 0)]))
    );
    assert_eq!(
        hex_at(b"", 0),
        Err(failure(ErrorKind::TagMismatch, 0, vec![frame(Production::HexString, 0)]))
    );
}

#[test]
fn content_and_literal_positions() {
    assert_eq!(content_at(b"ab\\ncd\"x", 0), Ok(6));
    assert_eq!(content_at(b"\"x", 0), Ok(0));
    assert_eq!(content_at(b"", 0), Ok(0));
    assert_eq!(content_at(b"a\\u0041b", 0), Ok(8));
    assert_eq!(string_at(b"x\"ab\"y", 1), Ok(5));
    assert_eq!(string_at(b"\"\"\"", 0), Ok(2));
    assert_eq!(
        string_at(b"x\"ab", 1),
        Err(failure(ErrorKind::UnterminatedLiteral, 4, vec![frame(Production::Str, 1)]))
    );
}

#[test]
fn keywords() {
    assert_eq!(boolean_at(b"true", 0), Ok((true, 4)));
    assert_eq!(boolean_at(b"false", 0), Ok((false, 5)));
    assert_eq!(boolean_at(b" truefalse", 5), Ok((false, 10)));
    assert_eq!(null_at(b"null", 0), Ok(4));
    for word in ["True", "TRUE", "tru", "fals", "False", "nul", "Null", "NULL", "t", ""] {
        assert_eq!(
            boolean_at(word.as_bytes(), 0),
            Err(failure(ErrorKind::TagMismatch, 0, vec![]))
        );
        assert_eq!(null_at(word.as_bytes(), 0), Err(failure(ErrorKind::TagMismatch, 0, vec![])));
    }
}

#[test]
fn number_scan() {
    assert_eq!(digits_end(b"123a", 0), 3);
    assert_eq!(digits_end(b"a123", 0), 0);
    assert_eq!(digits_end(b"12", 5), 5);
    for (text, len) in [
        ("0", 1),
        ("-0", 2),
        ("12.50", 5),
        ("1e5", 3),
        ("1E+5", 4),
        ("1e-05", 5),
        ("-1.5e3x", 6),
        ("1.", 1),
        ("1.e5", 1),
        ("1e", 1),
        ("1e+", 1),
        ("1.5.5", 3),
        ("-", 0),
        ("--1", 0),
        ("+1", 0),
        (".5", 0),
        ("e5", 0),
        ("", 0),
        ("x", 0),
    ] {
        assert_eq!(number_end(text.as_bytes(), 0), len, "{}", text);
    }
    assert_eq!(number_end(b"ab12cd", 2), 4);
}

#[test]
fn conversion_outcome_is_judged() {
    let one = 1.0f64.to_bits();
    assert_eq!(number_from(Some(("", one)), 3), Ok(one));
    assert_eq!(
        number_from(Some(("x", one)), 3),
        Err(failure(ErrorKind::NumberFormatError, 3, vec![]))
    );
    assert_eq!(number_from(None, 3), Err(failure(ErrorKind::NumberFormatError, 3, vec![])));
    for bits in [f64::INFINITY.to_bits(), f64::NEG_INFINITY.to_bits(), f64::NAN.to_bits()] {
        assert!(!finite(bits));
        assert_eq!(
            number_from(Some(("", bits)), 0),
            Err(failure(ErrorKind::NumberFormatError, 0, vec![]))
        );
    }
    for x in [0.0f64, -0.0, 1.5, f64::MAX, f64::MIN, f64::MIN_POSITIVE, 5e-324] {
        assert!(finite(x.to_bits()));
        assert_eq!(number_from(Some(("", x.to_bits())), 0), Ok(x.to_bits()));
    }
}

#[test]
fn keys_and_members() {
    assert_eq!(key_at(" \"k\" : 1", 0), Ok((String::from("k"), 5)));
    assert_eq!(key_at("{\"\":1}", 1), Ok((String::new(), 3)));
    assert_eq!(
        key_at(" k", 0),
        Err(failure(ErrorKind::TagMismatch, 1, vec![frame(Production::Str, 1)]))
    );
    assert_eq!(
        member_at(" \"k\" : [null] ,", 0),
        Ok((String::from("k"), JsonValue::Array(vec![JsonValue::Null]), 14))
    );
    assert_eq!(member_at("\"k\" 1", 0), Err(failure(ErrorKind::TagMismatch, 4, vec![])));
    assert_eq!(
        member_at("\"k\":x", 0),
        Err(failure(ErrorKind::TagMismatch, 4, vec![frame(Production::Value, 4)]))
    );
}

#[test]
fn value_from_a_position() {
    assert_eq!(value_at("[1, true ]", 3), Ok((JsonValue::Boolean(true), 9)));
    assert_eq!(value_at("x  null", 1), Ok((JsonValue::Null, 7)));
    assert_eq!(
        value_at("abc", 3),
        Err(failure(ErrorKind::TagMismatch, 3, vec![frame(Production::Value, 3)]))
    );
    assert_eq!(
        value_at("abc", 7),
        Err(failure(ErrorKind::TagMismatch, 7, vec![frame(Production::Value, 7)]))
    );
}
