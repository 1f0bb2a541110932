use rust_toonify::types::{object_get, EncodeOptions, Number, ToonValue};

#[test]
fn test_toon_value_display() {
    assert_eq!(ToonValue::Null.to_display_string(), "null");
    assert_eq!(ToonValue::Bool(true).to_display_string(), "true");
    assert_eq!(ToonValue::Bool(false).to_display_string(), "false");
    assert_eq!(ToonValue::Number(Number::integer(42)).to_display_string(), "42");
    assert_eq!(ToonValue::Number(Number::decimal(314, -2)).to_display_string(), "3.14");
    assert_eq!(
        ToonValue::String("hello".to_string()).to_display_string(),
        "\"hello\""
    );
    assert_eq!(
        ToonValue::String("qu\"ote".to_string()).to_display_string(),
        "\"qu\\\"ote\""
    );

    let array = ToonValue::Array(vec![
        ToonValue::Number(Number::integer(1)),
        ToonValue::Number(Number::integer(2)),
        ToonValue::Number(Number::integer(3)),
    ]);
    assert_eq!(array.to_display_string(), "[1, 2, 3]");

    let obj = ToonValue::Object(vec![
        ("a".to_string(), ToonValue::Number(Number::integer(1))),
        ("b".to_string(), ToonValue::Number(Number::integer(2))),
    ]);
    let s = obj.to_display_string();
    assert!(s == "{\"a\": 1, \"b\": 2}" || s == "{\"b\": 2, \"a\": 1}");
}

#[test]
fn test_as_methods() {
    let null = ToonValue::Null;
    assert!(null.is_null());
    assert_eq!(null.as_bool(), None);

    let bool_val = ToonValue::Bool(true);
    assert_eq!(bool_val.as_bool(), Some(true));

    let num = ToonValue::Number(Number::integer(42));
    assert_eq!(num.as_number(), Some(&Number::integer(42)));

    let s = ToonValue::String("test".to_string());
    assert_eq!(s.as_str(), Some("test"));

    let arr = ToonValue::Array(vec![ToonValue::Number(Number::integer(1))]);
    assert_eq!(arr.as_array().map(|a| a.len()), Some(1));

    let obj = ToonValue::Object(vec![(
        "key".to_string(),
        ToonValue::String("value".to_string()),
    )]);
    assert_eq!(obj.as_object().map(|m| m.len()), Some(1));
}

#[test]
fn accessors_answer_none_on_other_shapes() {
    let mut v = ToonValue::Bool(false);
    assert!(!v.is_null());
    assert_eq!(v.as_number(), None);
    assert_eq!(v.as_str(), None);
    assert!(v.as_array().is_none());
    assert!(v.as_object().is_none());
    assert!(v.as_str_mut().is_none());
    assert!(v.as_array_mut().is_none());
    assert!(v.as_object_mut().is_none());
    assert!(v.is_primitive());
    assert!(!ToonValue::Array(vec![]).is_primitive());
    assert!(!ToonValue::Object(vec![]).is_primitive());
}

#[test]
fn mutable_accessors_change_the_value() {
    let mut s = ToonValue::String("a".to_string());
    s.as_str_mut().unwrap().push('b');
    assert_eq!(s, ToonValue::String("ab".to_string()));

    let mut a = ToonValue::Array(vec![]);
    a.as_array_mut().unwrap().push(ToonValue::Null);
    assert_eq!(a, ToonValue::Array(vec![ToonValue::Null]));

    let mut o = ToonValue::Object(vec![]);
    o.as_object_mut().unwrap().push(("k".to_string(), ToonValue::Bool(true)));
    let entries = o.as_object().unwrap();
    assert_eq!(object_get(entries, "k"), Some(&ToonValue::Bool(true)));
    assert_eq!(object_get(entries, "x"), None);
}

#[test]
fn display_escapes_like_rust() {
    let v = ToonValue::Array(vec![
        ToonValue::String("tab\t".to_string()),
        ToonValue::Object(vec![("k\n".to_string(), ToonValue::Null)]),
    ]);
    assert_eq!(v.to_display_string(), "[\"tab\\t\", {\"k\\n\": null}]");
}

#[test]
fn encode_options_builders() {
    let o = EncodeOptions::new();
    assert!(!o.pretty);
    assert_eq!(o.indent, 2);
    assert!(!o.escape_non_ascii);
    let o = o.pretty(true).indent(4).escape_non_ascii(true);
    assert!(o.pretty);
    assert_eq!(o.indent, 4);
    assert!(o.escape_non_ascii);
    let d = EncodeOptions::default();
    assert_eq!(d.indent, 2);
}

#[test]
fn display_escaping_agrees_with_std() {
    let mut s = String::new();
    for c in (0..0x3000u32).step_by(7).filter_map(char::from_u32) {
        s.push(c);
    }
    s.push_str("\t\r\n'\"\\\u{10FFFF}\u{1F600}");
    let v = ToonValue::String(s.clone());
    assert_eq!(v.to_display_string(), format!("\"{}\"", s.escape_default()));
}
