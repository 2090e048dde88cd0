use json_parser::number::number_at;
use json_parser::{
    array, object, parse, parse_str, root, string, value, ErrorKind, Frame, JsonValue, ParseError,
    Production,
};

fn frame(production: Production, offset: usize) -> Frame {
    Frame { production, offset }
}

fn failure(kind: ErrorKind, offset: usize, context: Vec<Frame>) -> ParseError {
    ParseError { kind, offset, context }
}

#[test]
fn tag_mismatch() {
    assert_eq!(
        array("x"),
        Err(failure(ErrorKind::TagMismatch, 0, vec![frame(Production::Array, 0)]))
    );
    assert_eq!(
        object("[]"),
        Err(failure(ErrorKind::TagMismatch, 0, vec![frame(Production::Object, 0)]))
    );
    assert_eq!(
        string("abc"),
        Err(failure(ErrorKind::TagMismatch, 0, vec![frame(Production::Str, 0)]))
    );
    assert_eq!(
        value("  tru"),
        Err(failure(ErrorKind::TagMismatch, 2, vec![frame(Production::Value, 0)]))
    );
    assert_eq!(
        value(""),
        Err(failure(ErrorKind::TagMismatch, 0, vec![frame(Production::Value, 0)]))
    );
    assert_eq!(
        root("xyz"),
        Err(failure(ErrorKind::TagMismatch, 0, vec![frame(Production::Array, 0)]))
    );
    assert_eq!(
        root(""),
        Err(failure(ErrorKind::TagMismatch, 0, vec![frame(Production::Array, 0)]))
    );
}

#[test]
fn missing_colon() {
    assert_eq!(
        parse(r#"{"a" 1}"#),
        Err(failure(ErrorKind::TagMismatch, 5, vec![frame(Production::Object, 0)]))
    );
}

#[test]
fn missing_closing_bracket() {
    assert_eq!(
        parse("[1, 2"),
        Err(failure(ErrorKind::TagMismatch, 5, vec![frame(Production::Array, 0)]))
    );
    assert_eq!(
        parse("[1 2]"),
        Err(failure(ErrorKind::TagMismatch, 3, vec![frame(Production::Array, 0)]))
    );
    assert_eq!(
        parse(r#"{"a": 1"#),
        Err(failure(ErrorKind::TagMismatch, 7, vec![frame(Production::Object, 0)]))
    );
}

#[test]
fn trailing_comma() {
    assert_eq!(
        parse("[1,]"),
        Err(failure(
            ErrorKind::TagMismatch,
            3,
            vec![frame(Production::Value, 3), frame(Production::Array, 0)]
        ))
    );
    assert_eq!(
        parse(r#"{"a":1,}"#),
        Err(failure(
            ErrorKind::TagMismatch,
            7,
            vec![frame(Production::Str, 7), frame(Production::Object, 0)]
        ))
    );
}

#[test]
fn whitespace_is_no_empty_list() {
    assert_eq!(
        parse("[ ]"),
        Err(failure(
            ErrorKind::TagMismatch,
            2,
            vec![frame(Production::Value, 1), frame(Production::Array, 0)]
        ))
    );
    assert_eq!(
        parse("{ }"),
        Err(failure(
            ErrorKind::TagMismatch,
            2,
            vec![frame(Production::Str, 2), frame(Production::Object, 0)]
        ))
    );
}

#[test]
fn malformed_element() {
    let input = r#"[1, {"a": tru}]"#;
    let e = parse(input).unwrap_err();
    assert_eq!((e.kind, e.offset), (ErrorKind::TagMismatch, 10));
    assert_eq!(&input[e.offset..], "tru}]");
    assert_eq!(
        e.context,
        vec![
            frame(Production::Value, 9),
            frame(Production::Object, 4),
            frame(Production::Value, 3),
            frame(Production::Array, 0)
        ]
    );
}

#[test]
fn escape_error() {
    assert_eq!(
        string(r#""a\x""#),
        Err(failure(
            ErrorKind::EscapeError,
            3,
            vec![frame(Production::Escaped, 3), frame(Production::Str, 0)]
        ))
    );
    assert_eq!(
        string("\"a\\"),
        Err(failure(
            ErrorKind::EscapeError,
            3,
            vec![frame(Production::Escaped, 3), frame(Production::Str, 0)]
        ))
    );
    assert_eq!(parse_str("\"abcd"), Err(failure(ErrorKind::EscapeError, 0, vec![])));
    assert_eq!(parse_str("\nabcd"), Err(failure(ErrorKind::EscapeError, 0, vec![])));
    assert_eq!(
        string("\"\n\""),
        Err(failure(ErrorKind::EscapeError, 1, vec![frame(Production::Str, 0)]))
    );
}

#[test]
fn unterminated_literal() {
    assert_eq!(
        string("\"abc"),
        Err(failure(ErrorKind::UnterminatedLiteral, 4, vec![frame(Production::Str, 0)]))
    );
    assert_eq!(
        string("\""),
        Err(failure(ErrorKind::UnterminatedLiteral, 1, vec![frame(Production::Str, 0)]))
    );
    assert_eq!(
        parse("[\"abc"),
        Err(failure(
            ErrorKind::UnterminatedLiteral,
            5,
            vec![
                frame(Production::Str, 1),
                frame(Production::Value, 1),
                frame(Production::Array, 0)
            ]
        ))
    );
}

#[test]
fn control_character_in_literal() {
    assert_eq!(
        string("\"ab\ncd\""),
        Err(failure(ErrorKind::TagMismatch, 3, vec![frame(Production::Str, 0)]))
    );
    assert_eq!(
        string("\"ab\u{7f}\""),
        Err(failure(ErrorKind::TagMismatch, 3, vec![frame(Production::Str, 0)]))
    );
    assert_eq!(parse_str("ab\tcd"), Ok(("\tcd", "ab")));
}

#[test]
fn number_format_error() {
    assert_eq!(number_at("-x", 0), Err(failure(ErrorKind::NumberFormatError, 1, vec![])));
    assert_eq!(number_at("x", 0), Err(failure(ErrorKind::NumberFormatError, 0, vec![])));
    assert_eq!(number_at("", 0), Err(failure(ErrorKind::NumberFormatError, 0, vec![])));
    assert_eq!(number_at("12", 2), Err(failure(ErrorKind::NumberFormatError, 2, vec![])));
    assert_eq!(number_at("12", 7), Err(failure(ErrorKind::NumberFormatError, 7, vec![])));
    assert_eq!(number_at("+1", 0), Err(failure(ErrorKind::NumberFormatError, 0, vec![])));
    assert_eq!(number_at(".5", 0), Err(failure(ErrorKind::NumberFormatError, 0, vec![])));
    assert_eq!(number_at("a12b", 1), Ok((12.0f64.to_bits(), 3)));
    assert_eq!(
        parse("[-]"),
        Err(failure(
            ErrorKind::NumberFormatError,
            2,
            vec![frame(Production::Value, 1), frame(Production::Array, 0)]
        ))
    );
}

#[test]
fn number_that_is_not_finite() {
    assert_eq!(number_at("1e999", 0), Err(failure(ErrorKind::NumberFormatError, 5, vec![])));
    assert_eq!(number_at("-1e999", 0), Err(failure(ErrorKind::NumberFormatError, 6, vec![])));
    assert_eq!(
        parse("[1e999]"),
        Err(failure(
            ErrorKind::NumberFormatError,
            6,
            vec![frame(Production::Value, 1), frame(Production::Array, 0)]
        ))
    );
    assert_eq!(number_at("1e308", 0), Ok((1e308f64.to_bits(), 5)));
    assert_eq!(number_at("1e-999", 0), Ok((0.0f64.to_bits(), 6)));
}

#[test]
fn words_for_numbers_are_no_values() {
    for word in ["NaN", "nan", "inf", "Infinity", "-inf", "+1", ".5"] {
        let e = value(word).unwrap_err();
        assert!(matches!(e.kind, ErrorKind::TagMismatch | ErrorKind::NumberFormatError));
        assert!(parse(&format!("[{}]", word)).is_err());
    }
}

#[test]
fn failure_offsets_cut_the_input() {
    for input in [
        "",
        "x",
        "[",
        "{",
        "[1,",
        "{\"a\"",
        "{\"a\":",
        "[\"\\u12",
        "[\"h\u{e9}llo",
        "[\"h\u{e9}\\x\"]",
        "{\"\u{1f600}\" 1}",
        "[tru]",
        "[-]",
        "[1e999]",
        "[\"a\nb\"]",
        " \u{e9}",
    ] {
        let e = parse(input).unwrap_err();
        assert!(input.is_char_boundary(e.offset));
        for f in e.context.iter() {
            assert!(f.offset <= e.offset);
            assert!(input.is_char_boundary(f.offset));
        }
    }
}

#[test]
fn labels() {
    assert_eq!(Production::Str.label(), "string");
    assert_eq!(Production::Object.label(), "object");
    assert_eq!(Production::Array.label(), "array");
    assert_eq!(Production::Value.label(), "value");
    assert_eq!(Production::HexString.label(), "hex string");
    assert_eq!(Production::Escaped.label(), "escaped");
}

#[test]
fn furthest_failure_is_kept() {
    let near = || failure(ErrorKind::TagMismatch, 3, vec![]);
    let far = || failure(ErrorKind::EscapeError, 5, vec![]);
    let tie = || failure(ErrorKind::HexDigitError, 5, vec![]);
    assert_eq!(near().furthest(far()), far());
    assert_eq!(far().furthest(near()), far());
    assert_eq!(far().furthest(tie()), tie());
    assert_eq!(tie().furthest(far()), far());
    assert_eq!(
        ParseError::new(ErrorKind::TagMismatch, 4)
            .within(Production::Str, 2)
            .within(Production::Value, 1),
        failure(
            ErrorKind::TagMismatch,
            4,
            vec![frame(Production::Str, 2), frame(Production::Value, 1)]
        )
    );
}

#[test]
fn text_beyond_ascii() {
    assert_eq!(string("\"h\u{e9}llo\" x"), Ok((" x", "h\u{e9}llo")));
    let (rest, v) = value("[\"\u{1f600}\", \"\u{4e2d}\u{6587}\"]\u{a0}").unwrap();
    assert_eq!(rest, "\u{a0}");
    assert_eq!(
        v,
        JsonValue::Array(vec![
            JsonValue::Str(String::from("\u{1f600}")),
            JsonValue::Str(String::from("\u{4e2d}\u{6587}"))
        ])
    );
    let (_, members) = object("{\"cl\u{e9}\":\"\u{e9}\"}").unwrap();
    assert_eq!(members, vec![(String::from("cl\u{e9}"), JsonValue::Str(String::from("\u{e9}")))]);
}

#[test]
fn lookup_by_key() {
    let v = parse(r#"{"a": 1, "b": {"c": [true]}, "a": null, "": "empty"}"#).unwrap();
    assert_eq!(v.get("a"), Some(&JsonValue::Null));
    assert_eq!(v.get(""), Some(&JsonValue::Str(String::from("empty"))));
    assert_eq!(v.get("c"), None);
    let b = v.get("b").unwrap();
    assert_eq!(b.get("c"), Some(&JsonValue::Array(vec![JsonValue::Boolean(true)])));
    assert_eq!(JsonValue::Null.get("a"), None);
    assert_eq!(JsonValue::Array(vec![]).get("a"), None);
    let twice = JsonValue::Object(vec![
        (String::from("k"), JsonValue::Boolean(false)),
        (String::from("k"), JsonValue::Boolean(true)),
    ]);
    assert_eq!(twice.get("k"), Some(&JsonValue::Boolean(true)));
}

#[test]
fn unread_input() {
    let input = "\"abcd";
    let e = parse_str(input).unwrap_err();
    assert_eq!(e.unread(input), Some("\"abcd"));
    let input = "[\"h\u{e9}\\x\"]";
    let e = parse(input).unwrap_err();
    assert_eq!(e.kind, ErrorKind::EscapeError);
    assert_eq!(e.unread(input), Some("x\"]"));
    let input = "[1, 2";
    let e = root(input).unwrap_err();
    assert_eq!(e.unread(input), Some(""));
    let elsewhere = ParseError::new(ErrorKind::TagMismatch, 2);
    assert_eq!(elsewhere.unread("h\u{e9}llo"), None);
    assert_eq!(elsewhere.unread("h"), None);
    assert_eq!(elsewhere.unread("hello"), Some("llo"));
}

#[test]
fn kind_labels() {
    assert_eq!(ErrorKind::TagMismatch.label(), "tag mismatch");
    assert_eq!(ErrorKind::EscapeError.label(), "escape error");
    assert_eq!(ErrorKind::HexDigitError.label(), "hex digit error");
    assert_eq!(ErrorKind::UnterminatedLiteral.label(), "unterminated literal");
    assert_eq!(ErrorKind::NumberFormatError.label(), "number format error");
    assert_eq!(ErrorKind::UnexpectedTopLevelScalar.label(), "unexpected top-level scalar");
    assert_eq!(ErrorKind::TrailingInput.label(), "trailing input");
}
