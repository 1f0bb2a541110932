use rust_toonify::decoder::decode;
use rust_toonify::encoder::{encode, encode_with_options};
use rust_toonify::types::{EncodeOptions, Number, ToonValue};

fn num(n: i64) -> ToonValue {
    ToonValue::Number(Number::integer(n))
}

fn text(s: &str) -> ToonValue {
    ToonValue::String(s.to_string())
}

fn record(id: i64, name: Option<&str>) -> ToonValue {
    let mut e = vec![("id".to_string(), num(id))];
    if let Some(n) = name {
        e.push(("name".to_string(), text(n)));
    }
    ToonValue::Object(e)
}

#[test]
fn test_encode_primitive() {
    assert_eq!(encode(&ToonValue::Null).unwrap(), "null");
    assert_eq!(encode(&ToonValue::Bool(true)).unwrap(), "true");
    assert_eq!(encode(&ToonValue::Bool(false)).unwrap(), "false");
    assert_eq!(encode(&num(42)).unwrap(), "42");
    assert_eq!(encode(&ToonValue::Number(Number::decimal(314, -2))).unwrap(), "3.14");
    assert_eq!(encode(&text("hello")).unwrap(), "hello");
}

#[test]
fn test_encode_array() {
    let arr = ToonValue::Array(vec![num(1), num(2), num(3)]);
    assert_eq!(encode(&arr).unwrap(), "[1, 2, 3]");
}

#[test]
fn test_encode_object() {
    let obj = ToonValue::Object(vec![("a".to_string(), num(1)), ("b".to_string(), text("test"))]);
    let result = encode(&obj).unwrap();
    assert_eq!(result, "a: 1\nb: test");
}

#[test]
fn test_encode_tabular_array() {
    let arr = ToonValue::Array(vec![record(1, Some("Alice")), record(2, Some("Bob"))]);

    let result = encode(&arr).unwrap();
    assert_eq!(result, "[id, name]\n1, Alice\n2, Bob");
}

#[test]
fn tabular_header_is_sorted() {
    let a = ToonValue::Array(vec![
        ToonValue::Object(vec![("name".to_string(), text("Alice")), ("id".to_string(), num(1))]),
        ToonValue::Object(vec![("id".to_string(), num(2)), ("name".to_string(), text("Bob"))]),
    ]);
    assert_eq!(encode(&a).unwrap(), "[id, name]\n1, Alice\n2, Bob");
}

#[test]
fn tabular_header_quotes_only_what_needs_it() {
    let a = ToonValue::Array(vec![
        ToonValue::Object(vec![("full name".to_string(), text("A")), ("id".to_string(), num(1))]),
        ToonValue::Object(vec![("id".to_string(), num(2)), ("full name".to_string(), text("B"))]),
    ]);
    assert_eq!(encode(&a).unwrap(), "[\"full name\", id]\nA, 1\nB, 2");
}

#[test]
fn record_missing_a_field_is_not_tabular() {
    let arr = ToonValue::Array(vec![record(1, Some("Alice")), record(2, Some("Bob")), record(3, None)]);
    assert_eq!(
        encode(&arr).unwrap(),
        "[\n  {id: 1, name: Alice},\n  {id: 2, name: Bob},\n  {id: 3}\n]"
    );
}

#[test]
fn empty_collections_encode_as_literals() {
    assert_eq!(encode(&ToonValue::Array(vec![])).unwrap(), "[]");
    assert_eq!(encode(&ToonValue::Object(vec![])).unwrap(), "{}");
    assert_eq!(encode(&decode("[]").unwrap()).unwrap(), "[]");
    assert_eq!(encode(&decode("{}").unwrap()).unwrap(), "{}");
}

#[test]
fn whole_number_encodes_without_point() {
    assert_eq!(decode("42").unwrap(), num(42));
    assert_eq!(encode(&num(42)).unwrap(), "42");
    assert_eq!(encode(&decode("42.000").unwrap()).unwrap(), "42");
}

#[test]
fn strings_are_quoted_only_when_needed() {
    assert_eq!(encode(&text("")).unwrap(), "\"\"");
    assert_eq!(encode(&text("null")).unwrap(), "\"null\"");
    assert_eq!(encode(&text("9lives")).unwrap(), "\"9lives\"");
    assert_eq!(encode(&text("a b")).unwrap(), "\"a b\"");
    assert_eq!(encode(&text("line\nbreak")).unwrap(), "\"line\\nbreak\"");
    assert_eq!(encode(&text("snake_case.v-2")).unwrap(), "snake_case.v-2");
}

#[test]
fn nested_layouts() {
    let v = ToonValue::Object(vec![
        ("list".to_string(), ToonValue::Array(vec![num(1), ToonValue::Array(vec![num(2)])])),
        ("inner".to_string(), ToonValue::Object(vec![("k k".to_string(), ToonValue::Null)])),
        ("none".to_string(), ToonValue::Array(vec![])),
    ]);
    assert_eq!(encode(&v).unwrap(), "list: [1, [2]]\ninner: {\"k k\": null}\nnone: []");
}

#[test]
fn top_level_mixed_array_uses_indent() {
    let v = ToonValue::Array(vec![num(1), ToonValue::Array(vec![num(2), num(3)])]);
    assert_eq!(encode(&v).unwrap(), "[\n  1,\n  [2, 3]\n]");
    let opts = EncodeOptions::new().indent(4);
    assert_eq!(encode_with_options(&v, &opts).unwrap(), "[\n    1,\n    [2, 3]\n]");
}

#[test]
fn canonical_values_survive_a_round_trip() {
    let values = vec![
        ToonValue::Null,
        ToonValue::Bool(true),
        num(-12),
        ToonValue::Number(Number::decimal(-25, -4)),
        text("word"),
        ToonValue::Array(vec![num(1), text("x"), ToonValue::Object(vec![("k".to_string(), ToonValue::Bool(false))])]),
        ToonValue::Array(vec![ToonValue::Array(vec![]), ToonValue::Object(vec![])]),
    ];
    for v in values {
        let t = encode(&v).unwrap();
        assert_eq!(decode(&t).unwrap(), v, "{}", t);
    }
}
