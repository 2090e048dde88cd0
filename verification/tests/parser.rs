use json_parser::{
    array, object, parse, parse_hex, parse_str, root, string, value, ErrorKind, Frame, JsonValue,
    ParseError, Production,
};
use std::collections::HashMap;

/// A value with numbers as doubles and objects as hash maps.
#[derive(Debug, PartialEq)]
enum Tree {
    Str(String),
    Boolean(bool),
    Null,
    Num(f64),
    Array(Vec<Tree>),
    Object(HashMap<String, Tree>),
}

fn tree(v: JsonValue) -> Tree {
    match v {
        JsonValue::Str(s) => Tree::Str(s),
        JsonValue::Boolean(b) => Tree::Boolean(b),
        JsonValue::Null => Tree::Null,
        JsonValue::Num(bits) => Tree::Num(f64::from_bits(bits)),
        JsonValue::Array(items) => Tree::Array(items.into_iter().map(tree).collect()),
        JsonValue::Object(members) => {
            Tree::Object(members.into_iter().map(|(k, v)| (k, tree(v))).collect())
        }
    }
}

fn trees(items: Vec<JsonValue>) -> Vec<Tree> {
    items.into_iter().map(tree).collect()
}

fn mapping(members: Vec<(String, JsonValue)>) -> HashMap<String, Tree> {
    members.into_iter().map(|(k, v)| (k, tree(v))).collect()
}

fn text(s: &str) -> Tree {
    Tree::Str(String::from(s))
}

fn dict(members: Vec<(&str, Tree)>) -> Tree {
    Tree::Object(members.into_iter().map(|(k, v)| (String::from(k), v)).collect())
}

fn read_value(i: &str) -> Result<(&str, Tree), ParseError> {
    value(i).map(|(rest, v)| (rest, tree(v)))
}

fn read_root(i: &str) -> Result<(&str, Tree), ParseError> {
    root(i).map(|(rest, v)| (rest, tree(v)))
}

fn read_all(i: &str) -> Result<Tree, ParseError> {
    parse(i).map(tree)
}

fn frame(production: Production, offset: usize) -> Frame {
    Frame { production, offset }
}

#[test]
fn test_parse_string() {
    assert_eq!(string(r#""hello""#), Ok(("", "hello")));
    assert_eq!(string(r#""he\rllo""#), Ok(("", r"he\rllo")));
    assert_eq!(string(r#""he\tllo""#), Ok(("", r"he\tllo")));
    assert_eq!(string(r#""he\u1234""#), Ok(("", r"he\u1234")));
    assert_eq!(string(r#""""#), Ok(("", "")));
}

#[test]
fn test_array() {
    let v: Vec<Tree> = vec![];
    assert_eq!(array("[]").map(|(rest, items)| (rest, trees(items))), Ok(("", v)));
    assert_eq!(
        array(r#"["abc"   , null, true,  false]"#).map(|(rest, items)| (rest, trees(items))),
        Ok((
            "",
            vec![
                Tree::Str(String::from("abc")),
                Tree::Null,
                Tree::Boolean(true),
                Tree::Boolean(false)
            ]
        ))
    );
}

#[test]
fn test_object() {
    assert_eq!(
        object(r#"{}"#).map(|(rest, members)| (rest, mapping(members))),
        Ok(("", HashMap::new()))
    );
    let mut hash = HashMap::new();
    hash.insert(String::from("key"), Tree::Str(String::from("val")));
    hash.insert(
        String::from("arr"),
        Tree::Array(vec![Tree::Boolean(true), Tree::Boolean(false), Tree::Null]),
    );
    assert_eq!(
        object(r#"{"key": "val"  , "arr" :    [true, false, null]}"#)
            .map(|(rest, members)| (rest, mapping(members))),
        Ok(("", hash))
    );
}

#[test]
fn test_value() {
    assert_eq!(read_value("true"), Ok(("", Tree::Boolean(true))));
    assert_eq!(read_value("false"), Ok(("", Tree::Boolean(false))));
    assert_eq!(read_value("null"), Ok(("", Tree::Null)));
    assert_eq!(
        read_value(r#""\b\\\"\f\n\r\n\t\u1234""#),
        Ok(("", Tree::Str(String::from("\\b\\\\\\\"\\f\\n\\r\\n\\t\\u1234"))))
    );
    assert_eq!(
        read_value(r#"["abc", true, false, null]"#),
        Ok((
            "",
            Tree::Array(vec![
                Tree::Str(String::from("abc")),
                Tree::Boolean(true),
                Tree::Boolean(false),
                Tree::Null
            ])
        ))
    );
    let hashmap = vec![
        (String::from("key"), Tree::Str(String::from("val"))),
        (String::from("arr"), Tree::Array(vec![])),
    ]
    .into_iter()
    .collect();
    assert_eq!(read_value(r#"{"key": "val", "arr": []}"#), Ok(("", Tree::Object(hashmap))))
}

#[test]
fn test_parse_str() {
    assert_eq!(parse_str(r#"\u1234"#), Ok(("", r#"\u1234"#)));
    assert_eq!(
        parse_str(r#"\b\\\"\f\n\r\n\t\u1234"#),
        Ok(("", r#"\b\\\"\f\n\r\n\t\u1234"#))
    );
    let input = r#""abcd"#;
    let e = parse_str(input).unwrap_err();
    assert_eq!((&input[e.offset..], e.kind), ("\"abcd", ErrorKind::EscapeError));
}

#[test]
fn test_parse_hex() {
    assert_eq!(parse_hex(r#"u1234"#), Ok(("", r#"u1234"#)));
    assert_eq!(parse_hex(r#"u12346"#), Ok(("6", r#"u1234"#)));
    let input = r#"u1g34"#;
    let e = parse_hex(input).unwrap_err();
    assert_eq!(e.context, vec![frame(Production::HexString, 0)]);
    assert_eq!((&input[e.context[0].offset..], e.kind), (r#"u1g34"#, ErrorKind::HexDigitError));
    assert_eq!(&input[e.offset..], "g34");
}

#[test]
fn empty_array_document() {
    assert_eq!(read_all("[]"), Ok(Tree::Array(vec![])));
    assert_eq!(read_root("[]"), Ok(("", Tree::Array(vec![]))));
}

#[test]
fn array_document_keeps_order() {
    assert_eq!(
        read_all(r#"["abc", null, true, false]"#),
        Ok(Tree::Array(vec![text("abc"), Tree::Null, Tree::Boolean(true), Tree::Boolean(false)]))
    );
}

#[test]
fn object_document() {
    assert_eq!(
        read_all(r#"{"key": "val", "arr": []}"#),
        Ok(dict(vec![("key", text("val")), ("arr", Tree::Array(vec![]))]))
    );
}

#[test]
fn escapes_stay_raw() {
    assert_eq!(string(r#""he\rllo""#), Ok(("", "he\\rllo")));
    assert_eq!(read_value(r#""he\\rllo""#), Ok(("", text("he\\\\rllo"))));
    assert_eq!(read_all(r#"["a\nb"]"#), Ok(Tree::Array(vec![text("a\\nb")])));
    assert_eq!(read_all(r#"["\/\"\\"]"#), Ok(Tree::Array(vec![text(r#"\/\"\\"#)])));
}

#[test]
fn top_level_scalar_is_refused() {
    assert_eq!(read_value("42"), Ok(("", Tree::Num(42.0))));
    let expected = ParseError {
        kind: ErrorKind::UnexpectedTopLevelScalar,
        offset: 0,
        context: vec![],
    };
    assert_eq!(parse("42"), Err(expected));
    for scalar in [r#""hello""#, "true", "false", "null", "-1.5e3", "  7 "] {
        assert!(value(scalar).is_ok());
        let at = scalar.len() - scalar.trim_start().len();
        let e = root(scalar).unwrap_err();
        assert_eq!((e.kind, e.offset), (ErrorKind::UnexpectedTopLevelScalar, at));
        assert_eq!(parse(scalar), Err(e));
    }
}

#[test]
fn stray_digit_before_key() {
    let input = r#"{ 1"hello": "world" }"#;
    let e = parse(input).unwrap_err();
    assert_eq!(e.kind, ErrorKind::TagMismatch);
    assert_eq!(e.offset, 2);
    assert_eq!(&input[e.offset..], r#"1"hello": "world" }"#);
    assert_eq!(e.context, vec![frame(Production::Str, 2), frame(Production::Object, 0)]);
    assert_eq!(root(input), Err(e));
}

#[test]
fn stray_digit_before_nested_key() {
    let input = "  { \"a\"\t: 42,
    \"b\": [ \"x\", \"y\", 12 ] ,
    \"c\": { 1\"hello\" : \"world\"
    }
    } ";
    let stray = input.find("1\"hello").unwrap();
    let inner = input.rfind('{').unwrap();
    let e = root(input).unwrap_err();
    assert_eq!((e.kind, e.offset), (ErrorKind::TagMismatch, stray));
    assert_eq!(
        e.context,
        vec![
            frame(Production::Str, stray),
            frame(Production::Object, inner),
            frame(Production::Value, input.find("\"c\":").unwrap() + 4),
            frame(Production::Object, 2),
        ]
    );
}

#[test]
fn sample_document() {
    let input = "  { \"a\"\t: 42,
    \"b\": [ \"x\", \"y\", 12 ] ,
    \"c\": { \"hello\" : \"world\"
    }
    } ";
    assert_eq!(
        read_root(input),
        Ok((
            "",
            dict(vec![
                ("a", Tree::Num(42.0)),
                ("b", Tree::Array(vec![text("x"), text("y"), Tree::Num(12.0)])),
                ("c", dict(vec![("hello", text("world"))])),
            ])
        ))
    );
}

#[test]
fn later_key_wins() {
    assert_eq!(read_all(r#"{"a":1,"a":2}"#), Ok(dict(vec![("a", Tree::Num(2.0))])));
    let (_, members) = object(r#"{"a":1,"b":true,"a":2,"b":null,"a":3}"#).unwrap();
    assert_eq!(members.len(), 2);
    assert_eq!(
        mapping(members),
        vec![(String::from("a"), Tree::Num(3.0)), (String::from("b"), Tree::Null)]
            .into_iter()
            .collect()
    );
}

#[test]
fn malformed_hex_escape() {
    let input = r#""\u12g4""#;
    let e = string(input).unwrap_err();
    assert_eq!((e.kind, e.offset), (ErrorKind::HexDigitError, 5));
    assert_eq!(&input[e.offset..], "g4\"");
    assert_eq!(
        e.context,
        vec![
            frame(Production::HexString, 2),
            frame(Production::Escaped, 2),
            frame(Production::Str, 0)
        ]
    );
    assert_eq!(string(r#""\u1234""#), Ok(("", r"\u1234")));
    assert_eq!(string(r#""\uabCD""#), Ok(("", r"\uabCD")));
    let through_value = value(input).unwrap_err();
    assert_eq!((through_value.kind, through_value.offset), (ErrorKind::HexDigitError, 5));
}

#[test]
fn hex_escape_wants_digits_only() {
    let e = string(r#""\uuuuu""#).unwrap_err();
    assert_eq!((e.kind, e.offset), (ErrorKind::HexDigitError, 3));
    let e = string(r#""\u12"#).unwrap_err();
    assert_eq!((e.kind, e.offset), (ErrorKind::HexDigitError, 5));
    let e = parse_hex("x1234").unwrap_err();
    assert_eq!((e.kind, e.offset), (ErrorKind::TagMismatch, 0));
}

#[test]
fn raw_text_reparses() {
    for literal in [
        r#""""#,
        r#""hello""#,
        r#""he\rllo""#,
        r#""\b\\\"\f\n\r\n\t\u1234""#,
        r#""\\""#,
        r#""a\"b" and more"#,
    ] {
        let (_, raw) = string(literal).unwrap();
        let again = format!("\"{}\"", raw);
        assert_eq!(string(&again), Ok(("", raw)));
    }
}

#[test]
fn whole_documents_are_read() {
    let documents = [
        ("[]", Tree::Array(vec![])),
        (" \t\r\n[]\n", Tree::Array(vec![])),
        ("{}", dict(vec![])),
        ("[[],[[]],{}]", Tree::Array(vec![
            Tree::Array(vec![]),
            Tree::Array(vec![Tree::Array(vec![])]),
            dict(vec![]),
        ])),
        (
            " { \"k\" : [ 1 , \"two\" , { \"three\" : null } ] , \"e\" : \"\" } ",
            dict(vec![
                ("k", Tree::Array(vec![
                    Tree::Num(1.0),
                    text("two"),
                    dict(vec![("three", Tree::Null)]),
                ])),
                ("e", text("")),
            ]),
        ),
    ];
    for (document, expected) in documents {
        assert_eq!(read_root(document), Ok(("", tree_copy(&expected))));
        assert_eq!(read_all(document), Ok(expected));
    }
}

fn tree_copy(t: &Tree) -> Tree {
    match t {
        Tree::Str(s) => Tree::Str(s.clone()),
        Tree::Boolean(b) => Tree::Boolean(*b),
        Tree::Null => Tree::Null,
        Tree::Num(x) => Tree::Num(*x),
        Tree::Array(items) => Tree::Array(items.iter().map(tree_copy).collect()),
        Tree::Object(members) => {
            Tree::Object(members.iter().map(|(k, v)| (k.clone(), tree_copy(v))).collect())
        }
    }
}

#[test]
fn number_is_converted() {
    assert_eq!(read_value("42"), Ok(("", Tree::Num(42.0))));
    assert_eq!(read_value("-12.5e+3 "), Ok(("", Tree::Num(-12500.0))));
    assert_eq!(read_value("11e-1"), Ok(("", Tree::Num(1.1))));
    assert_eq!(read_value("123E-02,"), Ok((",", Tree::Num(1.23))));
    assert_eq!(read_value("0.25x"), Ok(("x", Tree::Num(0.25))));
    assert_eq!(read_value("007"), Ok(("", Tree::Num(7.0))));
    assert_eq!(read_value("-0"), Ok(("", Tree::Num(-0.0))));
    assert_eq!(value("-0").unwrap().1, JsonValue::Num((-0.0f64).to_bits()));
    assert_eq!(value("0").unwrap().1, JsonValue::Num(0));
}

#[test]
fn number_takes_the_longest_literal() {
    assert_eq!(read_value("1.x"), Ok((".x", Tree::Num(1.0))));
    assert_eq!(read_value("1e"), Ok(("e", Tree::Num(1.0))));
    assert_eq!(read_value("1e+"), Ok(("e+", Tree::Num(1.0))));
    assert_eq!(read_value("1.5e-x"), Ok(("e-x", Tree::Num(1.5))));
    assert_eq!(read_value("2E5.5"), Ok((".5", Tree::Num(200000.0))));
    assert_eq!(read_value("1-2"), Ok(("-2", Tree::Num(1.0))));
}

#[test]
fn root_hands_back_the_rest() {
    assert_eq!(read_root(" [] x"), Ok(("x", Tree::Array(vec![]))));
    assert_eq!(read_root("{}{}"), Ok(("{}", dict(vec![]))));
    assert_eq!(read_root("[1]  ,"), Ok((",", Tree::Array(vec![Tree::Num(1.0)]))));
}

#[test]
fn trailing_input_is_refused() {
    assert_eq!(
        parse(" [] x"),
        Err(ParseError { kind: ErrorKind::TrailingInput, offset: 4, context: vec![] })
    );
    assert_eq!(
        parse("{}{}"),
        Err(ParseError { kind: ErrorKind::TrailingInput, offset: 2, context: vec![] })
    );
    assert_eq!(read_all(" [] \n"), Ok(Tree::Array(vec![])));
}

#[test]
fn nested_documents() {
    let depth = 64;
    let mut input = "[".repeat(depth);
    input.push_str(&"]".repeat(depth));
    let mut expected = Tree::Array(vec![]);
    for _ in 1..depth {
        expected = Tree::Array(vec![expected]);
    }
    assert_eq!(read_all(&input), Ok(expected));

    let mut input = String::new();
    for _ in 0..depth {
        input.push_str("{\"k\": ");
    }
    input.push_str("null");
    input.push_str(&" }".repeat(depth));
    let mut expected = Tree::Null;
    for _ in 0..depth {
        expected = dict(vec![("k", expected)]);
    }
    assert_eq!(read_all(&input), Ok(expected));

    let open = "[".repeat(depth);
    let e = parse(&open).unwrap_err();
    assert_eq!((e.kind, e.offset), (ErrorKind::TagMismatch, depth));
    assert_eq!(e.context.len(), 2 * depth - 1);
}

#[test]
fn long_lists() {
    let n = 5000;
    let items: Vec<String> = (0..n).map(|k| k.to_string()).collect();
    let input = format!("[{}]", items.join(" , "));
    let expected = Tree::Array((0..n).map(|k| Tree::Num(k as f64)).collect());
    assert_eq!(read_all(&input), Ok(expected));

    let members: Vec<String> = (0..n).map(|k| format!("\"k{}\": {}", k % 100, k)).collect();
    let input = format!("{{{}}}", members.join(","));
    let (rest, got) = object(&input).unwrap();
    assert_eq!(rest, "");
    assert_eq!(got.len(), 100);
    let map = mapping(got);
    for k in 0..100 {
        assert_eq!(map[&format!("k{}", k)], Tree::Num((n - 100 + k) as f64));
    }
}
