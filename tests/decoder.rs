use rust_toonify::decoder::decode;
use rust_toonify::types::{object_get, Number, ToonValue};
use rust_toonify::ToonError;

fn num(n: i64) -> ToonValue {
    ToonValue::Number(Number::integer(n))
}

fn text(s: &str) -> ToonValue {
    ToonValue::String(s.to_string())
}

#[test]
fn test_parse_primitive() {
    assert_eq!(decode("null").unwrap(), ToonValue::Null);
    assert_eq!(decode("true").unwrap(), ToonValue::Bool(true));
    assert_eq!(decode("false").unwrap(), ToonValue::Bool(false));
    assert_eq!(decode("42").unwrap(), num(42));
    assert_eq!(decode("3.14").unwrap(), ToonValue::Number(Number::decimal(314, -2)));
    assert_eq!(decode("\"hello\"").unwrap(), text("hello"));
}

#[test]
fn test_parse_array() {
    assert_eq!(decode("[]").unwrap(), ToonValue::Array(vec![]));
    assert_eq!(decode("[1, 2, 3]").unwrap(), ToonValue::Array(vec![num(1), num(2), num(3)]));
    assert_eq!(
        decode("[\"a\", \"b\", \"c\"]").unwrap(),
        ToonValue::Array(vec![text("a"), text("b"), text("c")])
    );
}

#[test]
fn test_parse_object() {
    assert_eq!(decode("{}").unwrap(), ToonValue::Object(vec![]));

    let expected = vec![("a".to_string(), num(1)), ("b".to_string(), num(2))];
    let result = decode("{\"a\": 1, \"b\": 2}").unwrap();
    assert_eq!(result, ToonValue::Object(expected));

    let expected = vec![("a".to_string(), num(1)), ("b".to_string(), num(2))];
    let result = decode("{a: 1, b: 2}").unwrap();
    assert_eq!(result, ToonValue::Object(expected));
}

#[test]
fn test_parse_nested() {
    let input = r#"{
            "name": "John",
            "age": 30,
            "address": {
                "street": "123 Main St",
                "city": "Anytown"
            },
            "hobbies": ["reading", "swimming", "coding"]
        }"#;

    let result = decode(input);
    assert!(result.is_ok());

    if let Ok(ToonValue::Object(obj)) = result {
        assert_eq!(object_get(&obj, "name"), Some(&text("John")));
        assert_eq!(object_get(&obj, "age"), Some(&num(30)));

        if let Some(ToonValue::Object(address)) = object_get(&obj, "address") {
            assert_eq!(object_get(address, "street"), Some(&text("123 Main St")));
            assert_eq!(object_get(address, "city"), Some(&text("Anytown")));
        } else {
            panic!("Expected address to be an object");
        }

        if let Some(ToonValue::Array(hobbies)) = object_get(&obj, "hobbies") {
            assert_eq!(hobbies.len(), 3);
            assert_eq!(hobbies[0], text("reading"));
            assert_eq!(hobbies[1], text("swimming"));
            assert_eq!(hobbies[2], text("coding"));
        } else {
            panic!("Expected hobbies to be an array");
        }
    } else {
        panic!("Expected root to be an object");
    }
}

#[test]
fn bare_and_quoted_keys_decode_alike() {
    assert_eq!(decode("{a: 1, b: 2}").unwrap(), decode("{\"a\": 1, \"b\": 2}").unwrap());
}

#[test]
fn empty_collections_decode() {
    assert_eq!(decode("[]").unwrap(), ToonValue::Array(vec![]));
    assert_eq!(decode("{}").unwrap(), ToonValue::Object(vec![]));
    assert_eq!(decode("  [ ]  ").unwrap(), ToonValue::Array(vec![]));
    assert_eq!(decode("{\n}").unwrap(), ToonValue::Object(vec![]));
}

#[test]
fn integer_literal_decodes_to_a_whole_number() {
    assert_eq!(decode("42").unwrap(), num(42));
    assert_eq!(decode("-0").unwrap(), num(0));
    assert_eq!(decode("4.20e1").unwrap(), num(42));
    assert_eq!(decode("1E+3").unwrap(), num(1000));
    assert_eq!(decode("-2.5e-3").unwrap(), ToonValue::Number(Number::decimal(-25, -4)));
    assert_eq!(decode("007").unwrap(), num(7));
    assert_eq!(decode(".5"), Err(ToonError::InvalidFormat("Unexpected character '.' at line 1, column 1".to_string())));
}

#[test]
fn truncated_object_fails_at_end_of_input() {
    match decode("{a: 1,") {
        Err(ToonError::InvalidFormat(msg)) => assert!(msg.contains("end of input"), "{}", msg),
        other => panic!("unexpected {:?}", other),
    }
}

#[test]
fn format_errors() {
    assert!(matches!(decode(""), Err(ToonError::InvalidFormat(_))));
    assert!(matches!(decode("   "), Err(ToonError::InvalidFormat(_))));
    assert!(matches!(decode("1."), Err(ToonError::InvalidFormat(_))));
    assert!(matches!(decode("1e"), Err(ToonError::InvalidFormat(_))));
    assert!(matches!(decode("[1 2]"), Err(ToonError::InvalidFormat(_))));
    assert!(matches!(decode("[1,"), Err(ToonError::InvalidFormat(_))));
    assert!(matches!(decode("{a 1}"), Err(ToonError::InvalidFormat(_))));
    assert!(matches!(decode("{1: 2}"), Err(ToonError::InvalidFormat(_))));
    assert!(matches!(decode("\"open"), Err(ToonError::InvalidFormat(_))));
    assert!(matches!(decode("@"), Err(ToonError::InvalidFormat(_))));
}

#[test]
fn value_errors() {
    assert!(matches!(decode("\"\\q\""), Err(ToonError::Deserialization(_))));
    assert!(matches!(decode("\"\\u12\""), Err(ToonError::Deserialization(_))));
    assert!(matches!(decode("1e9999999999"), Err(ToonError::Deserialization(_))));
    assert!(matches!(decode("1e401"), Err(ToonError::Deserialization(_))));
    assert_eq!(decode("1e400").unwrap(), ToonValue::Number(Number { negative: false, digits: vec![1], exponent: 400 }));
}

#[test]
fn identifiers_in_value_position() {
    assert_eq!(decode("nullable").unwrap(), text("nullable"));
    assert_eq!(decode("truth").unwrap(), text("truth"));
    assert_eq!(decode("[null, hello-world]").unwrap(), ToonValue::Array(vec![ToonValue::Null, text("hello-world")]));
}

#[test]
fn keyword_spelled_keys_stay_text() {
    let v = decode("{true: 1, null: x}").unwrap();
    assert_eq!(
        v,
        ToonValue::Object(vec![("true".to_string(), num(1)), ("null".to_string(), text("x"))])
    );
}

#[test]
fn later_duplicate_key_wins() {
    let v = decode("{a: 1, b: 2, a: 3}").unwrap();
    assert_eq!(v, ToonValue::Object(vec![("a".to_string(), num(3)), ("b".to_string(), num(2))]));
}

#[test]
fn string_escapes_decode() {
    assert_eq!(decode("\"a\\nb\\u0041\\\\\"").unwrap(), text("a\nbA\\"));
    assert_eq!(decode("\"\\\"\"").unwrap(), text("\""));
}

#[test]
fn unicode_whitespace_between_tokens() {
    assert_eq!(
        decode("\u{3000}[1,\u{a0}2 ]\u{2028}").unwrap(),
        ToonValue::Array(vec![num(1), num(2)])
    );
}

#[test]
fn text_after_the_value_is_refused() {
    assert!(matches!(decode("1 2"), Err(ToonError::InvalidFormat(_))));
    assert!(matches!(decode("a: 1\nb: 2"), Err(ToonError::InvalidFormat(_))));
    assert!(matches!(decode("[1] trailing"), Err(ToonError::InvalidFormat(_))));
    assert_eq!(decode("  [1]  \n").unwrap(), ToonValue::Array(vec![num(1)]));
}

#[test]
fn number_needs_a_digit_before_point_or_exponent() {
    assert!(matches!(decode("-.5"), Err(ToonError::InvalidFormat(_))));
    assert!(matches!(decode("-"), Err(ToonError::InvalidFormat(_))));
    assert!(matches!(decode("-e5"), Err(ToonError::InvalidFormat(_))));
    assert!(matches!(decode("[-]"), Err(ToonError::InvalidFormat(_))));
}

#[test]
fn unexpected_character_is_named() {
    assert_eq!(
        decode("@"),
        Err(ToonError::InvalidFormat("Unexpected character '@' at line 1, column 1".to_string()))
    );
    assert_eq!(
        decode("[1,\n @]"),
        Err(ToonError::InvalidFormat("Unexpected character '@' at line 2, column 3".to_string()))
    );
}

#[test]
fn nested_structures_decode() {
    let v = decode("{list: [1, {x: [true, null]}], \"k k\": \"v\"}").unwrap();
    assert_eq!(
        v,
        ToonValue::Object(vec![
            (
                "list".to_string(),
                ToonValue::Array(vec![
                    num(1),
                    ToonValue::Object(vec![(
                        "x".to_string(),
                        ToonValue::Array(vec![ToonValue::Bool(true), ToonValue::Null])
                    )])
                ])
            ),
            ("k k".to_string(), text("v")),
        ])
    );
}
