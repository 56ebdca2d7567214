use lib::{JsonValue, Parser, parse_json};

fn err(s: &str) -> String {
    match parse_json(s) {
        Err(e) => e,
        Ok(v) => panic!("expected an error for {:?}, got {:?}", s, v),
    }
}

fn string_of(v: &JsonValue) -> &str {
    match v {
        JsonValue::Str(s) => s.as_str(),
        other => panic!("not a string: {:?}", other),
    }
}

#[test]
fn reads_a_plain_string() {
    let v = parse_json("\"hello\"").unwrap();
    assert_eq!(string_of(&v), "hello");
}

#[test]
fn reads_escape_sequences() {
    let v = parse_json(r#""a\nb\tc\rd\"e\\f\/g""#).unwrap();
    assert_eq!(string_of(&v), "a\nb\tc\rd\"e\\f/g");
}

#[test]
fn keeps_unknown_escapes_with_their_backslash() {
    let v = parse_json(r#""\q\u0041""#).unwrap();
    assert_eq!(string_of(&v), "\\q\\u0041");
}

#[test]
fn reads_null_with_spaces_between_letters() {
    assert!(matches!(parse_json("null").unwrap(), JsonValue::Null));
    assert!(matches!(parse_json(" n u\tl\nl").unwrap(), JsonValue::Null));
}

#[test]
fn reads_empty_array_and_object() {
    match parse_json(" [ ] ").unwrap() {
        JsonValue::Array(items) => assert!(items.is_empty()),
        other => panic!("{:?}", other),
    }
    match parse_json("{\n}").unwrap() {
        JsonValue::Object(pairs) => assert!(pairs.is_empty()),
        other => panic!("{:?}", other),
    }
}

#[test]
fn reads_nested_values_in_order() {
    let v = parse_json(r#"{"a": ["x", null, {"b": "y"}], "c": "z"}"#).unwrap();
    match v {
        JsonValue::Object(pairs) => {
            assert_eq!(pairs.len(), 2);
            assert_eq!(pairs[0].0, "a");
            match &pairs[0].1 {
                JsonValue::Array(items) => {
                    assert_eq!(items.len(), 3);
                    assert_eq!(string_of(&items[0]), "x");
                    assert!(matches!(items[1], JsonValue::Null));
                    match &items[2] {
                        JsonValue::Object(inner) => {
                            assert_eq!(inner.len(), 1);
                            assert_eq!(inner[0].0, "b");
                            assert_eq!(string_of(&inner[0].1), "y");
                        }
                        other => panic!("{:?}", other),
                    }
                }
                other => panic!("{:?}", other),
            }
            assert_eq!(pairs[1].0, "c");
            assert_eq!(string_of(&pairs[1].1), "z");
        }
        other => panic!("{:?}", other),
    }
}

#[test]
fn ignores_what_follows_the_value() {
    match parse_json("[] and more").unwrap() {
        JsonValue::Array(items) => assert!(items.is_empty()),
        other => panic!("{:?}", other),
    }
}

#[test]
fn reports_end_of_input() {
    assert_eq!(err(""), "unexpected EOF");
    assert_eq!(err("   "), "unexpected EOF");
}

#[test]
fn reports_an_unexpected_character() {
    assert_eq!(err("x"), "unexpected char 'x'");
    assert_eq!(err("[1]"), "unexpected char '1'");
    assert_eq!(err("[\"a\",]"), "unexpected char ']'");
}

#[test]
fn reports_a_missing_separator() {
    assert_eq!(err("[\"a\" \"b\"]"), "expected ',' or ']' in array");
    assert_eq!(err("[\"a\""), "expected ',' or ']' in array");
    assert_eq!(err("{\"a\": null"), "expected ',' or '}' in object");
    assert_eq!(err("{\"a\": null ]"), "expected ',' or '}' in object");
}

#[test]
fn reports_an_expected_character() {
    assert_eq!(err("{\"a\" null}"), "expected ':' got 'n'");
    assert_eq!(err("{1: null}"), "expected '\"' got '1'");
    assert_eq!(err("{\"a\""), "expected ':' got EOF");
    assert_eq!(err("nul"), "expected 'l' got EOF");
    assert_eq!(err("nulx"), "expected 'l' got 'x'");
}

#[test]
fn reports_broken_strings() {
    assert_eq!(err("\"abc"), "unterminated string");
    assert_eq!(err("\"ab\\"), "unexpected EOF in escape");
}

#[test]
fn reader_steps_through_characters() {
    let mut p = Parser::new("ab");
    assert_eq!(p.peek(), Some('a'));
    assert_eq!(p.next(), Some('a'));
    assert_eq!(p.peek(), Some('b'));
    assert_eq!(p.next(), Some('b'));
    assert_eq!(p.next(), None);
    assert_eq!(p.pos, 3);
    assert_eq!(p.peek(), None);
}

#[test]
fn reader_skips_whitespace_and_expects() {
    let mut p = Parser::new(" \t\r\n\x0Cx y");
    p.skip_ws();
    assert_eq!(p.pos, 5);
    assert_eq!(p.expect('x'), Ok(()));
    assert_eq!(p.expect('z'), Err("expected 'z' got 'y'".to_string()));
    assert_eq!(p.pos, 8);
    assert_eq!(p.expect('z'), Err("expected 'z' got EOF".to_string()));
}

#[test]
fn reader_reads_strings_arrays_objects() {
    let mut p = Parser::new("  \"k\" [\"v\"] {\"a\": null}");
    assert_eq!(p.parse_string(), Ok("k".to_string()));
    assert_eq!(p.pos, 5);
    match p.parse_array().unwrap() {
        JsonValue::Array(items) => {
            assert_eq!(items.len(), 1);
            assert_eq!(string_of(&items[0]), "v");
        }
        other => panic!("{:?}", other),
    }
    match p.parse_value().unwrap() {
        JsonValue::Object(pairs) => {
            assert_eq!(pairs.len(), 1);
            assert_eq!(pairs[0].0, "a");
        }
        other => panic!("{:?}", other),
    }
    let mut q = Parser::new("x");
    assert_eq!(q.parse_object().unwrap_err(), "expected '{' got 'x'");
}
