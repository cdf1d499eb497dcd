use namegen_convert::json;
use namegen_convert::json::{parse, Value};

fn err(text: &str) -> String {
    match parse(text) {
        Ok(v) => panic!("expected an error, got {:?}", v),
        Err(m) => m,
    }
}

#[test]
fn json_reads_nested_values_in_order() {
    let v = parse(" {\"b\": [1, true, null], \"a\": \"x\"} ").unwrap();
    let members = v.as_object().unwrap();
    assert_eq!(members.len(), 2);
    assert_eq!(members[0].0, "b");
    assert_eq!(members[1].0, "a");
    assert_eq!(members[1].1.as_str(), Some("x"));
    let items = members[0].1.as_array().unwrap();
    assert_eq!(items.len(), 3);
    assert_eq!(items[0].as_number(), Some("1"));
    assert!(matches!(items[1], Value::Bool(true)));
    assert!(matches!(items[2], Value::Null));
}

#[test]
fn json_accessors_refuse_other_kinds() {
    let v = parse("[\"s\"]").unwrap();
    assert!(v.as_object().is_none());
    assert!(v.as_str().is_none());
    assert!(v.as_number().is_none());
    let s = &v.as_array().unwrap()[0];
    assert!(s.as_array().is_none());
    assert_eq!(s.as_str(), Some("s"));
}

#[test]
fn json_keeps_number_text_as_written() {
    let v = parse("[-0.5e+3, 2.0, 10]").unwrap();
    let items = v.as_array().unwrap();
    assert_eq!(items[0].as_number(), Some("-0.5e+3"));
    assert_eq!(items[1].as_number(), Some("2.0"));
    assert_eq!(items[2].as_number(), Some("10"));
}

#[test]
fn json_decodes_escapes() {
    let v = parse("\"a\\\"b\\\\c\\/d\\n\\t\\r\\b\\f\\u00e9\"").unwrap();
    assert_eq!(v.as_str(), Some("a\"b\\c/d\n\t\r\u{8}\u{c}\u{e9}"));
}

#[test]
fn json_surrogate_escape_becomes_replacement_character() {
    let v = parse("\"\\ud800\"").unwrap();
    assert_eq!(v.as_str(), Some("\u{fffd}"));
}

#[test]
fn json_unicode_escape_with_plus_sign_is_read_as_hex() {
    let v = parse("\"\\u+041\"").unwrap();
    assert_eq!(v.as_str(), Some("A"));
}

#[test]
fn json_error_messages() {
    assert_eq!(err(""), "unexpected end of input");
    assert_eq!(err("   "), "unexpected end of input");
    assert_eq!(err("1 2"), "unexpected trailing content at position 2");
    assert_eq!(err("?"), "unexpected character '?' at position 0");
    assert_eq!(err("tru"), "invalid literal at position 0");
    assert_eq!(err("{1}"), "expected string key at position 1");
    assert_eq!(err("{\"a\" 1}"), "expected ':' at position 5");
    assert_eq!(err("{\"a\":1 2}"), "expected ',' or '}' at position 7");
    assert_eq!(err("[1 2]"), "expected ',' or ']' at position 3");
    assert_eq!(err("\"\\x\""), "invalid escape sequence at position 2");
    assert_eq!(err("\"abc"), "unterminated string");
    assert_eq!(err("\"\\u12\""), "truncated unicode escape");
    assert_eq!(err("\"\\uzzzz\""), "invalid unicode escape 'zzzz'");
    assert_eq!(err("-"), "invalid number '-'");
    assert_eq!(err("1e"), "invalid number '1e'");
    assert_eq!(err("[1,]"), "unexpected character ']' at position 3");
}

#[test]
fn json_writes_indented_text() {
    let v = parse("{\"k\": [1, {}], \"e\": [], \"s\": \"q\\\"\\u0001\"}").unwrap();
    assert_eq!(
        json::write(&v),
        "{\n  \"k\": [\n    1,\n    {}\n  ],\n  \"e\": [],\n  \"s\": \"q\\\"\\u0001\"\n}"
    );
}

#[test]
fn json_round_trip_on_a_nested_value() {
    let text = "{\"a\": [1.5, -2, \"x\\ny\", {\"b\": null, \"c\": [true, false]}], \"\u{e9}\": \"\\u001f\"}";
    let v = parse(text).unwrap();
    let written = json::write(&v);
    let again = parse(&written).unwrap();
    assert_eq!(json::write(&again), written);
    let with_newline = format!("{}\n", written);
    assert_eq!(json::write(&parse(&with_newline).unwrap()), written);
}
