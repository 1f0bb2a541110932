use rust_toonify::types::Number;
use rust_toonify::utils::{escape_str, format_number, is_valid_ident, needs_quotes, unescape_str};

#[test]
fn test_escape_str() {
    assert_eq!(escape_str("hello"), "hello");
    assert_eq!(escape_str("hello\nworld"), "hello\\nworld");
    assert_eq!(escape_str("qu\"ote"), "qu\\\"ote");
    assert_eq!(escape_str("back\\slash"), "back\\\\slash");
}

#[test]
fn test_unescape_str() {
    assert_eq!(unescape_str("hello").unwrap(), "hello");
    assert_eq!(unescape_str("hello\\nworld").unwrap(), "hello\nworld");
    assert_eq!(unescape_str("qu\\\"ote").unwrap(), "qu\"ote");
    assert_eq!(unescape_str("back\\\\\\\\slash").unwrap(), "back\\\\slash");
    assert_eq!(unescape_str("unicode\\u0041").unwrap(), "unicodeA");

    assert!(unescape_str("invalid\\u04").is_err());
    assert!(unescape_str("invalid\\u000g").is_err());
}

#[test]
fn test_needs_quotes() {
    assert!(!needs_quotes("hello"));
    assert!(!needs_quotes("hello_world"));
    assert!(!needs_quotes("hello-world"));
    assert!(!needs_quotes("hello.world"));
    assert!(!needs_quotes("h123"));

    assert!(needs_quotes(""));
    assert!(needs_quotes("123"));
    assert!(needs_quotes("hello world"));
    assert!(needs_quotes("hello\nworld"));
    assert!(needs_quotes("true"));
    assert!(needs_quotes("false"));
    assert!(needs_quotes("null"));
    assert!(needs_quotes("inf"));
}

#[test]
fn test_format_number() {
    assert_eq!(format_number(&Number::integer(42)), "42");
    assert_eq!(format_number(&Number::decimal(314, -2)), "3.14");
    assert_eq!(format_number(&Number::integer(2)), "2");
    assert_eq!(format_number(&Number::integer(0)), "0");
    assert_eq!(format_number(&Number::decimal(12300, -4)), "1.23");
}

#[test]
fn format_number_places_the_point() {
    assert_eq!(format_number(&Number::decimal(-5, -3)), "-0.005");
    assert_eq!(format_number(&Number::decimal(12, 3)), "12000");
    assert_eq!(format_number(&Number::decimal(-1205, -1)), "-120.5");
    assert_eq!(format_number(&Number::decimal(100, -2)), "1");
}

#[test]
fn number_text_has_no_needless_characters() {
    for n in [Number::decimal(1500, -3), Number::decimal(-70, -1), Number::decimal(9, -9)] {
        let t = format_number(&n);
        assert!(!t.ends_with('0') && !t.ends_with('.'), "{}", t);
    }
    for n in [Number::decimal(4000, -2), Number::integer(-17), Number::decimal(3, 4)] {
        assert!(!format_number(&n).contains('.'));
    }
}

#[test]
fn decimal_is_canonical() {
    let n = Number::decimal(12300, -4);
    assert_eq!(n.digits, vec![1, 2, 3]);
    assert_eq!(n.exponent, -2);
    assert!(!n.negative);
    assert_eq!(Number::decimal(0, -7), Number::zero());
    assert_eq!(Number::decimal(i64::MIN, 0).digits.len(), 19);
}

#[test]
fn reserved_and_odd_tokens_are_quoted() {
    assert!(needs_quotes("nan"));
    assert!(needs_quotes("infinity"));
    assert!(needs_quotes("-inf"));
    assert!(needs_quotes("_x-y.z") == false);
    assert!(needs_quotes("über") == false);
    assert!(needs_quotes("a b"));
    assert!(needs_quotes("True") == false);
}

#[test]
fn identifiers() {
    assert!(is_valid_ident("_a1"));
    assert!(!is_valid_ident("1a"));
    assert!(!is_valid_ident(""));
    assert!(is_valid_ident("a.b-c"));
}

#[test]
fn escape_then_unescape_gives_the_text_back() {
    for s in ["plain", "tab\there", "nul\0byte", "bell\u{7}", "quote\"back\\", "\u{8}\u{c}\r\n", "\u{1b}[0m", "é\u{85}"] {
        assert_eq!(unescape_str(&escape_str(s)).unwrap(), s);
    }
}

#[test]
fn escape_writes_control_characters_as_hex() {
    assert_eq!(escape_str("\u{1}"), "\\u0001");
    assert_eq!(escape_str("\u{7f}"), "\\u007f");
    assert_eq!(escape_str("\0"), "\\0");
}

#[test]
fn unescape_long_form_and_errors() {
    assert_eq!(unescape_str("\\U0001F600").unwrap(), "\u{1F600}");
    assert_eq!(unescape_str("a\\/b\\0").unwrap(), "a/b\0");
    assert!(unescape_str("\\ud800").is_err());
    assert!(unescape_str("\\U00110000").is_err());
    assert!(unescape_str("\\q").is_err());
    assert!(unescape_str("trailing\\").is_err());
}

#[test]
fn whitespace_class_agrees_with_std() {
    for c in (0..=0x10FFFFu32).filter_map(char::from_u32) {
        assert_eq!(rust_toonify::utils::is_unicode_whitespace(c), c.is_whitespace(), "{:?}", c);
    }
    assert!(rust_toonify::utils::is_whitespace('\r'));
    assert!(!rust_toonify::utils::is_whitespace('\u{b}'));
}

#[test]
fn escape_class_and_control_class() {
    assert!(rust_toonify::utils::needs_escape('"'));
    assert!(rust_toonify::utils::needs_escape('\u{c}'));
    assert!(!rust_toonify::utils::needs_escape('\u{1}'));
    assert!(rust_toonify::utils::is_control('\u{9f}'));
    assert!(!rust_toonify::utils::is_control('\u{a0}'));
}
