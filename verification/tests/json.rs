//! Parsing, comparing and printing JSON.
use miniraft::json::error::{Error, Kind, UnicodeError};
use miniraft::json::{Number, Object, Parser, Value};

/// Helper to run the parser and extract the String variant.
///
/// Panics if the result is not a [`Value::String`] or if parsing fails.
fn parse_string(input: &str) -> String {
    let mut parser = Parser::new(input.as_bytes());
    let val = parser.parse().expect("Failed to parse");
    match val {
        Value::String(s) => s,
        _ => panic!("Expected Value::String, got {:?}", val),
    }
}

/// Helper to expect a specific error type.
fn parse_err(input: &[u8]) -> Error {
    let mut parser = Parser::new(input);
    parser.parse().expect_err("Expected error but got success")
}

// ==========================================
// Basic value tests
// ==========================================

#[test]
fn test_parse_value_with_empty_input() {
    let err = parse_err(b"");
    match err {
        Error {
            kind: Kind::UnexpectedEOF,
            ..
        } => {}
        _ => panic!("Wrong error type: {:?}", err),
    }
}

// ==========================================
// Basic String Tests
// ==========================================

#[test]
fn test_empty_string() {
    assert_eq!(parse_string(r#""""#), "");
}

#[test]
fn test_simple_ascii() {
    assert_eq!(parse_string(r#""hello world""#), "hello world");
}

#[test]
fn test_alphanumeric() {
    assert_eq!(parse_string(r#""abc123XYZ""#), "abc123XYZ");
}

#[test]
fn test_whitespace_around_string() {
    assert_eq!(parse_string("   \"trimmed\""), "trimmed");
    assert_eq!(parse_string("\n\t \"trimmed\""), "trimmed");
}

// ==========================================
// Escape Sequence Tests
// ==========================================

#[test]
fn test_quote_escape() {
    assert_eq!(parse_string(r#""foo\"bar""#), r#"foo"bar"#);
}

#[test]
fn test_backslash_escape() {
    assert_eq!(parse_string(r#""C:\\Path""#), r#"C:\Path"#);
}

#[test]
fn test_forward_slash_escape() {
    assert_eq!(parse_string(r#""\/""#), "/");
}

#[test]
fn test_control_char_escapes() {
    assert_eq!(parse_string(r#""\b""#), "\x08"); // Backspace
    assert_eq!(parse_string(r#""\f""#), "\x0C"); // Form feed
    assert_eq!(parse_string(r#""\n""#), "\n"); // Newline
    assert_eq!(parse_string(r#""\r""#), "\r"); // Carriage return
    assert_eq!(parse_string(r#""\t""#), "\t"); // Tab
}

#[test]
fn test_mixed_escapes() {
    assert_eq!(
        parse_string(r#""Line1\nLine2\tTabbed""#),
        "Line1\nLine2\tTabbed"
    );
}

// ==========================================
// Unicode & Hex Tests
// ==========================================

#[test]
fn test_basic_unicode_escape() {
    // \u0041 is 'A'
    assert_eq!(parse_string(r#""\u0041""#), "A");
    // \u00A9 is Copyright symbol
    assert_eq!(parse_string(r#""\u00A9""#), "©");
}

#[test]
fn test_raw_utf8_input() {
    // 2 code points
    assert!("é".len() == 2);
    assert_eq!(parse_string(r#""José""#), "José");

    // 3 code points
    assert!("⌣".len() == 3);
    assert_eq!(parse_string(r#""⌣""#), "⌣");

    // 4 code points
    assert!("🔥".len() == 4);
    assert_eq!(parse_string(r#""🔥""#), "🔥");
}

#[test]
fn test_utf8_invalid_start_byte_in_string() {
    let input = b"\"\xFF\"";

    let err = parse_err(input);
    match err {
        Error {
            kind: Kind::UnicodeError(UnicodeError::InvalidUTF8Start(0xFF)),
            ..
        } => {}
        _ => panic!("Wrong error type: {:?}", err),
    }
}

#[test]
fn test_utf8_invalid_continuation_byte_in_string() {
    // 0xC3 starts a 2-byte sequence (expects 1 continuation), but followed by space.
    let input = b"\"\xC3 \"";

    let err = parse_err(input);
    match err {
        Error {
            kind: Kind::UnicodeError(UnicodeError::InvalidUTF8(_)),
            ..
        } => {}
        _ => panic!("Wrong error type: {:?}", err),
    }
}

#[test]
fn test_utf8_invalid_start_byte_inside_string() {
    // 0xE2 starts a 3-byte sequence, 0x82 is a valid continuation, but 0xC0 is a
    // START byte (for 2-byte seq), not a continuation
    let input = b"\"\xE2\x82\xC0 \"";

    let err = parse_err(input);
    match err {
        Error {
            kind: Kind::UnicodeError(UnicodeError::InvalidUTF8(_)),
            ..
        } => {}
        _ => panic!("Wrong error type: {:?}", err),
    }
}

#[test]
fn test_utf8_deny_overlong_encoding() {
    // More bytes than necessary should be rejected
    let input = b"\"\xC0\xAF \"";

    let err = parse_err(input);
    match err {
        Error {
            kind: Kind::UnicodeError(UnicodeError::InvalidUTF8(_)),
            ..
        } => {}
        _ => panic!("Wrong error type: {:?}", err),
    }
}

#[test]
fn test_utf8_premature_end_in_string() {
    // Starts 4-byte sequence but ends right away
    let input = b"\"\xF0\"";

    let err = parse_err(input);
    match err {
        Error {
            kind: Kind::UnexpectedEOF,
            ..
        } => {}
        _ => panic!("Wrong error type: {:?}", err),
    }
}

#[test]
fn test_surrogate_pairs() {
    // G-Clef (U+1D11E) represented as surrogate pair \uD834\uDD1E
    assert_eq!(parse_string(r#""\ud834\udd1e""#), "𝄞");
    assert_eq!(parse_string(r#""\uD834\uDD1E""#), "𝄞");

    // Emoji (Grinning Face 😀 U+1F600) -> \uD83D\uDE00
    assert_eq!(parse_string(r#""\ud83d\ude00""#), "😀");
}

#[test]
fn test_mixed_unicode_escapes_and_chars() {
    // "A" + Heart (escape) + "B"
    assert_eq!(parse_string(r#""A\u2764B""#), "A❤B");
}

#[test]
fn test_consecutive_unicode_escapes() {
    assert_eq!(parse_string(r#""\u0041\u0042\u0043""#), "ABC");
}

#[test]
fn test_mixed_string() {
    // Tests everything there can be in a string.
    assert_eq!(
        parse_string(r#" " \u0041 \u2764 🔥 \ud834\udd1e \uD834\uDD1E " "#),
        " A ❤ 🔥 𝄞 𝄞 "
    );
}

// ==========================================
// Error Handling Tests
// ==========================================

#[test]
fn test_err_unexpected_eof_no_end_quote() {
    let err = parse_err(b"\"unclosed");
    match err {
        Error {
            kind: Kind::UnexpectedEOF,
            ..
        } => {}
        _ => panic!("Wrong error type: {:?}", err),
    }
}

#[test]
fn test_err_invalid_escape_char() {
    // \a is not a valid JSON escape
    let err = parse_err(br#""\a""#);
    match err {
        Error {
            kind: Kind::InvalidEscapeSequence(b),
            ..
        } => assert_eq!(b, b'a'),
        _ => panic!("Wrong error type: {:?}", err),
    }
}

#[test]
fn test_err_invalid_hex_digit() {
    // 'z' is not hex
    let err = parse_err(br#""\u123z""#);
    match err {
        Error {
            kind: Kind::InvalidHexCharacter(c),
            ..
        } => assert_eq!(c, 'z'),
        _ => panic!("Wrong error type: {:?}", err),
    }
}

#[test]
fn test_err_invalid_hex_length() {
    // Ends prematurely
    let err = parse_err(br#""\u12""#);
    match err {
        Error {
            kind: Kind::InvalidHexCharacter(c),
            ..
        } => assert_eq!(c, '"'),
        _ => panic!("Wrong error type: {:?}", err),
    }
}

#[test]
fn test_err_unpaired_surrogate() {
    // High surrogate \uD800 without a following Low surrogate
    let err = parse_err(br#""\ud800""#);
    match err {
        Error {
            kind: Kind::UnexpectedEOF,
            ..
        } => {}
        _ => panic!("Wrong error type: {:?}", err),
    }
}

#[test]
fn test_err_high_surrogate_followed_by_literal() {
    let err = parse_err(br#""\ud800a""#);
    match err {
        Error {
            kind: Kind::UnicodeError(UnicodeError::UnpairedHighSurrogate(0xD800)),
            ..
        } => {}
        _ => panic!("Expected UnpairedUnicodeSurrogate, got {:?}", err),
    }
}

#[test]
fn test_err_high_surrogate_followed_by_wrong_escape() {
    let err = parse_err(br#""\ud800\n""#);
    match err {
        Error {
            kind: Kind::UnicodeError(UnicodeError::UnpairedHighSurrogate(0xD800)),
            ..
        } => {}
        _ => panic!("Expected UnpairedUnicodeSurrogate, got {:?}", err),
    }
}

#[test]
fn test_err_double_high_surrogate() {
    // Need pairs of (high, low), (high, high) is invalid
    let err = parse_err(br#""\ud800\ud800""#);
    match err {
        Error {
            kind: Kind::UnicodeError(UnicodeError::InvalidUTF16(_)),
            ..
        } => {}
        _ => panic!("Expected InvalidUTF16 error, got {:?}", err),
    }
}

#[test]
fn test_err_high_surrogate_followed_by_invalid_utf16() {
    // Escape is valid code point, but it's not in the low surrogate rang
    let err = parse_err(br#""\ud800\u1234""#);
    match err {
        Error {
            kind: Kind::UnicodeError(UnicodeError::InvalidUTF16(_)),
            ..
        } => {}
        _ => panic!("Expected InvalidUTF16 error, got {:?}", err),
    }
}

#[test]
fn test_err_orphaned_low_surrogate() {
    let err = parse_err(br#""\udd1e""#);
    match err {
        Error {
            kind: Kind::UnicodeError(UnicodeError::UnpairedLowSurrogate(0xDD1E)),
            ..
        } => {}
        _ => panic!("Expected UnicodeError, got {:?}", err),
    }
}

// ==========================================
// Object Helpers
// ==========================================

/// Helper to parse input directly into a map.
fn parse_object(input: &str) -> Object {
    let mut parser = Parser::new(input.as_bytes());
    match parser.parse().expect("Failed to parse object") {
        Value::Object(map) => map,
        val => panic!("Expected Value::Object, got {:?}", val),
    }
}

/// Helper to check if a value in the map exists and is a specific string.
fn assert_is_string(map: &Object, key: &str, expected: &str) {
    match map.get(key) {
        Some(Value::String(s)) => assert_eq!(s, expected),
        Some(v) => panic!("Key '{}' exists but is not a string. Got: {:?}", key, v),
        None => panic!("Key '{}' not found in map", key),
    }
}

// ==========================================
// Object Tests
// ==========================================

#[test]
fn test_empty_object() {
    let map = parse_object("{}");
    assert!(map.len() == 0);
}

#[test]
fn test_empty_object_with_whitespace() {
    let map = parse_object("  {   }  ");
    assert!(map.len() == 0);
}

#[test]
fn test_simple_object() {
    let map = parse_object(r#"{"foo": "bar"}"#);
    assert_eq!(map.len(), 1);
    assert_is_string(&map, "foo", "bar");
}

#[test]
fn test_object_multiple_keys() {
    let map = parse_object(r#"{"name": "Alice", "city": "Wonderland"}"#);
    assert_eq!(map.len(), 2);
    assert_is_string(&map, "name", "Alice");
    assert_is_string(&map, "city", "Wonderland");
}

#[test]
fn test_object_whitespace_variations() {
    // Lots of spaces around colons and commas
    let map = parse_object(r#"{ "a" : "b" , "c" : "d" }"#);
    assert_eq!(map.len(), 2);
    assert_is_string(&map, "a", "b");
    assert_is_string(&map, "c", "d");
}

#[test]
fn test_unicode_keys() {
    let map = parse_object(r#"{"🔥": "fire", "key": "🔑"}"#);
    assert_eq!(map.len(), 2);
    assert_is_string(&map, "🔥", "fire");
    assert_is_string(&map, "key", "🔑");
}

#[test]
fn test_nested_object() {
    let map = parse_object(r#"{"outer": {"inner": "value"}}"#);

    // Unwrap the nested object
    let inner_val = map.get("outer").expect("outer key missing");
    match inner_val {
        Value::Object(inner_map) => {
            assert_is_string(inner_map, "inner", "value");
        }
        _ => panic!("Expected nested object, got {:?}", inner_val),
    }
}

#[test]
fn test_deeply_nested_object() {
    let input = r#"
    {
        "level1": {
            "level2": {
                "level3": "found_me"
            }
        }
    }"#;
    let map = parse_object(input);

    if let Some(Value::Object(l2)) = map.get("level1") {
        if let Some(Value::Object(l3)) = l2.get("level2") {
            assert_is_string(l3, "level3", "found_me");
            return;
        }
    }
    panic!("Deep structure not parsed correctly");
}

// ==========================================
// Object Error Handling Tests
// ==========================================

#[test]
fn test_err_object_trailing_comma() {
    // Trailing commas are not allowed in standard JSON
    let err = parse_err(br#"{"a": "b",}"#);
    match err {
        Error {
            kind: Kind::InvalidByte { byte: b'}', .. },
            ..
        } => {}
        _ => panic!("Expected InvalidByte or EOF, got {:?}", err),
    }
}

#[test]
fn test_err_object_missing_colon() {
    let err = parse_err(br#"{"key" "value"}"#);
    match err {
        Error {
            kind: Kind::InvalidByte { byte: b'"', .. },
            ..
        } => {}
        _ => panic!("Wrong error type: {:?}", err),
    }
}

#[test]
fn test_err_object_missing_comma() {
    let err = parse_err(br#"{"a": "b" "c": "d"}"#);
    match err {
        Error {
            kind: Kind::InvalidByte { byte: b'"', .. },
            ..
        } => {}
        _ => panic!("Wrong error type: {:?}", err),
    }
}

#[test]
fn test_err_object_key_must_be_string() {
    // Keys must be strings.
    let err = parse_err(br#"{ 1: "b" }"#);
    match err {
        Error {
            kind: Kind::InvalidByte { byte: b'1', .. },
            ..
        } => {}
        _ => panic!("Wrong error type: {:?}", err),
    }
}

// ==========================================
// Array Helpers
// ==========================================

/// Helper to parse input directly into a Vec.
fn parse_array(input: &str) -> Vec<Value> {
    let mut parser = Parser::new(input.as_bytes());
    match parser.parse().expect("Failed to parse array") {
        Value::Array(vec) => vec,
        val => panic!("Expected Value::Array, got {:?}", val),
    }
}

/// Helper to assert an item in a slice is a specific string
fn assert_array_string(arr: &[Value], index: usize, expected: &str) {
    match &arr[index] {
        Value::String(s) => assert_eq!(s, expected),
        val => panic!("Expected String at index {}, got {:?}", index, val),
    }
}

// ==========================================
// Array Tests
// ==========================================

#[test]
fn test_empty_array() {
    let arr = parse_array("[]");
    assert!(arr.is_empty());
}

#[test]
fn test_empty_array_with_whitespace() {
    let arr = parse_array("  [ \n\t ]  ");
    assert!(arr.is_empty());
}

#[test]
fn test_simple_string_array() {
    let arr = parse_array(r#"[ "a", "b", "c" ]"#);
    assert_eq!(arr.len(), 3);
    assert_array_string(&arr, 0, "a");
    assert_array_string(&arr, 1, "b");
    assert_array_string(&arr, 2, "c");
}

#[test]
fn test_array_whitespace_variations() {
    // Spaces around elements, commas, brackets
    let arr = parse_array(r#"[ "one" , "two" ,"three" ]"#);
    assert_eq!(arr.len(), 3);
    assert_array_string(&arr, 0, "one");
    assert_array_string(&arr, 1, "two");
    assert_array_string(&arr, 2, "three");
}

#[test]
fn test_nested_arrays() {
    let arr = parse_array(r#"[ ["x"], [] ]"#);
    assert_eq!(arr.len(), 2);

    // Check first element is ["x"]
    match &arr[0] {
        Value::Array(inner) => {
            assert_eq!(inner.len(), 1);
            assert_array_string(inner, 0, "x");
        }
        _ => panic!("Expected inner array at index 0"),
    }

    // Check second element is []
    match &arr[1] {
        Value::Array(inner) => assert!(inner.is_empty()),
        _ => panic!("Expected inner array at index 1"),
    }
}

#[test]
fn test_array_of_objects() {
    let arr = parse_array(r#"[ {"name": "A"}, {"name": "B"} ]"#);
    assert_eq!(arr.len(), 2);

    match &arr[0] {
        Value::Object(map) => assert_is_string(map, "name", "A"),
        _ => panic!("Expected object at index 0"),
    }

    match &arr[1] {
        Value::Object(map) => assert_is_string(map, "name", "B"),
        _ => panic!("Expected object at index 1"),
    }
}

#[test]
fn test_mixed_array() {
    let arr = parse_array(r#"[ "start", {"key": "val"}, ["end"] ]"#);
    assert_eq!(arr.len(), 3);

    assert_array_string(&arr, 0, "start");

    match &arr[1] {
        Value::Object(map) => assert_is_string(map, "key", "val"),
        _ => panic!("Index 1 incorrect"),
    }

    match &arr[2] {
        Value::Array(inner) => assert_array_string(inner, 0, "end"),
        _ => panic!("Index 2 incorrect"),
    }
}

#[test]
fn test_object_containing_array() {
    let map = parse_object(r#"{ "tags": ["rust", "json"] }"#);

    match map.get("tags") {
        Some(Value::Array(arr)) => {
            assert_eq!(arr.len(), 2);
            assert_array_string(arr, 0, "rust");
            assert_array_string(arr, 1, "json");
        }
        val => panic!("Expected array for key 'tags', got {:?}", val),
    }
}

// ==========================================
// Array Error Handling Tests
// ==========================================

#[test]
fn test_err_array_missing_comma() {
    let err = parse_err(br#"[ "a" "b" ]"#);
    match err {
        Error {
            kind: Kind::InvalidByte { byte: b'"', reason },
            ..
        } => {
            assert!(reason.contains("need ] or ,"));
        }
        _ => panic!("Wrong error type: {:?}", err),
    }
}

#[test]
fn test_err_array_unclosed() {
    let err = parse_err(br#"[ "open" "#);
    match err {
        Error {
            kind: Kind::UnexpectedEOF,
            ..
        } => {}
        _ => panic!("Wrong error type: {:?}", err),
    }
}

#[test]
fn test_err_array_trailing_comma() {
    let err = parse_err(br#"[ "a", ]"#);
    match err {
        Error {
            kind: Kind::InvalidByte { byte: b']', reason },
            ..
        } => {
            assert!(reason.contains("looking for beginning of value"));
        }
        _ => panic!("Wrong error type: {:?}", err),
    }
}

// ==========================================
// Boolean Helpers
// ==========================================

/// Helper to parse input directly into a bool.
fn parse_bool(input: &str) -> bool {
    let mut parser = Parser::new(input.as_bytes());
    match parser.parse().expect("Failed to parse bool") {
        Value::Bool(b) => b,
        val => panic!("Expected Value::Bool, got {:?}", val),
    }
}

/// Helper to assert an item in a slice is a specific bool
fn assert_array_bool(arr: &[Value], index: usize, expected: bool) {
    match &arr[index] {
        Value::Bool(b) => assert_eq!(*b, expected),
        val => panic!("Expected Bool at index {}, got {:?}", index, val),
    }
}

/// Helper to check if a value in the map exists and is a specific bool
fn assert_is_bool(map: &Object, key: &str, expected: bool) {
    match map.get(key) {
        Some(Value::Bool(b)) => assert_eq!(*b, expected),
        Some(v) => panic!("Key '{}' exists but is not a bool. Got: {:?}", key, v),
        None => panic!("Key '{}' not found in map", key),
    }
}

// ==========================================
// Boolean Tests
// ==========================================

#[test]
fn test_bool_true() {
    assert!(parse_bool("true"));
}

#[test]
fn test_bool_false() {
    assert!(!parse_bool("false"));
}

#[test]
fn test_bool_whitespace() {
    assert!(parse_bool("  true  "));
    assert!(!parse_bool("\n\tfalse"));
}

#[test]
fn test_array_of_bools() {
    let arr = parse_array("[true, false, true]");
    assert_eq!(arr.len(), 3);
    assert_array_bool(&arr, 0, true);
    assert_array_bool(&arr, 1, false);
    assert_array_bool(&arr, 2, true);
}

#[test]
fn test_object_with_bools() {
    let map = parse_object(r#"{ "is_admin": true, "deleted": false }"#);
    assert_is_bool(&map, "is_admin", true);
    assert_is_bool(&map, "deleted", false);
}

#[test]
fn test_mixed_types_with_bool() {
    let arr = parse_array(r#"[ "start", true, {"flag": false}, [true] ]"#);

    assert_eq!(arr.len(), 4);

    assert_array_string(&arr, 0, "start");

    assert_array_bool(&arr, 1, true);

    match &arr[2] {
        Value::Object(map) => assert_is_bool(map, "flag", false),
        _ => panic!("Index 2 incorrect"),
    }

    match &arr[3] {
        Value::Array(inner) => assert_array_bool(inner, 0, true),
        _ => panic!("Index 3 incorrect"),
    }
}

// ==========================================
// Boolean Error Handling Tests
// ==========================================

#[test]
fn test_err_bool_typo_true() {
    let err = parse_err(b"trus");
    match err {
        Error {
            kind: Kind::InvalidByte { byte: b's', reason },
            ..
        } => {
            assert!(reason.contains("expected e"));
            assert!(reason.contains("scanning boolean"));
        }
        _ => panic!("Wrong error type: {:?}", err),
    }
}

#[test]
fn test_err_bool_typo_false() {
    let err = parse_err(b"falze");
    match err {
        Error {
            kind: Kind::InvalidByte { byte: b'z', reason },
            ..
        } => {
            assert!(reason.contains("expected s"));
        }
        _ => panic!("Wrong error type: {:?}", err),
    }
}

#[test]
fn test_err_bool_incomplete() {
    let err = parse_err(b"fal");
    match err {
        Error {
            kind: Kind::UnexpectedEOF,
            ..
        } => {}
        _ => panic!("Wrong error type: {:?}", err),
    }
}

#[test]
fn test_err_bool_case_sensitive() {
    let err = parse_err(b"True");
    match err {
        Error {
            kind: Kind::InvalidByte { byte: b'T', reason },
            ..
        } => {
            assert!(reason.contains("looking for beginning of value"));
        }
        _ => panic!("Wrong error type: {:?}", err),
    }
}

// ==========================================
// Null Helpers
// ==========================================

/// Helper to ensure input parses specifically to Value::Null.
fn parse_null(input: &str) {
    let mut parser = Parser::new(input.as_bytes());
    let val = parser.parse().expect("Failed to parse null");
    match val {
        Value::Null => {} // OK
        _ => panic!("Expected Value::Null, got {:?}", val),
    }
}

/// Helper to assert an item in a slice is Value::Null
fn assert_array_null(arr: &[Value], index: usize) {
    match &arr[index] {
        Value::Null => {}
        val => panic!("Expected Null at index {}, got {:?}", index, val),
    }
}

/// Helper to check if a value in the map exists and is Value::Null
fn assert_is_null(map: &Object, key: &str) {
    match map.get(key) {
        Some(Value::Null) => {}
        Some(v) => panic!("Key '{}' exists but is not Null. Got: {:?}", key, v),
        None => panic!("Key '{}' not found in map", key),
    }
}

// ==========================================
// Null Tests
// ==========================================

#[test]
fn test_null_basic() {
    parse_null("null");
}

#[test]
fn test_null_whitespace() {
    parse_null("  null  ");
    parse_null("\n\tnull");
}

#[test]
fn test_array_of_nulls() {
    let arr = parse_array("[null, null, null]");
    assert_eq!(arr.len(), 3);
    assert_array_null(&arr, 0);
    assert_array_null(&arr, 1);
    assert_array_null(&arr, 2);
}

#[test]
fn test_mixed_array_with_null() {
    let arr = parse_array(r#"[ "s", null, true ]"#);
    assert_eq!(arr.len(), 3);
    assert_array_string(&arr, 0, "s");
    assert_array_null(&arr, 1);
    assert_array_bool(&arr, 2, true);
}

#[test]
fn test_object_with_null() {
    let map = parse_object(r#"{ "empty_val": null, "defined": true }"#);
    assert_is_null(&map, "empty_val");
    assert_is_bool(&map, "defined", true);
}

#[test]
fn test_deep_null() {
    let map = parse_object(r#"{ "a": [ { "b": null } ] }"#);
    if let Value::Array(arr) = map.get("a").unwrap() {
        if let Value::Object(inner) = &arr[0] {
            assert_is_null(inner, "b");
            return;
        }
    }
    panic!("Structure mismatch");
}

// ==========================================
// Null Error Handling Tests
// ==========================================

#[test]
fn test_err_null_typo() {
    let err = parse_err(b"nil");
    match err {
        Error {
            kind: Kind::InvalidByte { byte: b'i', .. },
            ..
        } => {}
        _ => panic!("Wrong error type: {:?}", err),
    }
}

#[test]
fn test_err_null_typo_end() {
    let err = parse_err(b"nulL");
    match err {
        Error {
            kind: Kind::InvalidByte { byte: b'L', .. },
            ..
        } => {}
        _ => panic!("Wrong error type: {:?}", err),
    }
}

#[test]
fn test_err_null_incomplete() {
    let err = parse_err(b"nu");
    match err {
        Error {
            kind: Kind::UnexpectedEOF,
            ..
        } => {}
        _ => panic!("Wrong error type: {:?}", err),
    }
}

#[test]
fn test_err_null_case_sensitive() {
    let err = parse_err(b"Null");
    match err {
        Error {
            kind: Kind::InvalidByte { byte: b'N', reason },
            ..
        } => {
            assert!(reason.contains("looking for beginning of value"));
        }
        _ => panic!("Wrong error type: {:?}", err),
    }
}

// ==========================================
// Number Helpers
// ==========================================

/// Helper to extract a Number variant.
fn parse_number(input: &str) -> Number {
    let mut parser = Parser::new(input.as_bytes());
    match parser.parse().expect("Failed to parse number") {
        Value::Number(n) => n,
        val => panic!("Expected Value::Number, got {:?}", val),
    }
}

// ==========================================
// Number Tests
// ==========================================

#[test]
fn test_number_integer() {
    let n = parse_number("42");
    let i: i64 = n.try_into().unwrap();
    assert_eq!(i, 42);
}

#[test]
fn test_number_negative_integer() {
    let n = parse_number("-123");
    let i: i64 = n.try_into().unwrap();
    assert_eq!(i, -123);
}

#[test]
fn test_number_zero() {
    let n = parse_number("0");
    let i: i64 = n.try_into().unwrap();
    assert_eq!(i, 0);
}

#[test]
fn test_number_negative_zero() {
    let n = parse_number("-0");
    let f: f64 = n.0.parse().unwrap();
    assert_eq!(f, 0.0);
    assert!(f.is_sign_negative()); // Rust floats preserve sign of zero
}

#[test]
fn test_number_simple_float() {
    let n = parse_number("12.345");
    let f: f64 = n.0.parse().unwrap();
    assert_eq!(f, 12.345);
}

#[test]
fn test_number_negative_float() {
    let n = parse_number("-987.654");
    let f: f64 = n.0.parse().unwrap();
    assert_eq!(f, -987.654);
}

#[test]
fn test_number_scientific_lowercase_e() {
    let n = parse_number("12e3");
    let f: f64 = n.0.parse().unwrap();
    assert_eq!(f, 12000.0);
}

#[test]
fn test_number_scientific_uppercase_e() {
    let n = parse_number("12E3");
    let f: f64 = n.0.parse().unwrap();
    assert_eq!(f, 12000.0);
}

#[test]
fn test_number_scientific_positive() {
    let n = parse_number("1.5e+2");
    let f: f64 = n.0.parse().unwrap();
    assert_eq!(f, 150.0);
}

#[test]
fn test_number_scientific_positive_multiple_digits() {
    let n = parse_number("1.5e+11");
    let f: f64 = n.0.parse().unwrap();
    assert_eq!(f, 150000000000.0);
}

#[test]
fn test_number_scientific_negative() {
    let n = parse_number("1234e-2");
    let f: f64 = n.0.parse().unwrap();
    assert!((f - 12.34).abs() < f64::EPSILON);
}

#[test]
fn test_number_combination() {
    // Combination of negative, zeroes, decimal, and negative exponent
    let n = parse_number("-1203.4506e-3");
    let f: f64 = n.0.parse().unwrap();
    assert!((f - -1.2034506).abs() < f64::EPSILON);
}

#[test]
fn test_number_u64_conversion() {
    let n = parse_number("9000");
    let u: u64 = n.try_into().unwrap();
    assert_eq!(u, 9000);
}

#[test]
fn test_number_conversion_errors() {
    let n = parse_number("-5");
    let res: Result<u64, _> = n.try_into();
    assert!(res.is_err());

    let n2 = parse_number("12.34");
    let res2: Result<i64, _> = n2.try_into();
    assert!(res2.is_err());
}

#[test]
fn test_array_of_numbers() {
    let arr = parse_array("[ 0, -100, 3.41, 1e5 ]");
    assert_eq!(arr.len(), 4);

    if let Value::Number(ref n) = arr[2] {
        let f: f64 = n.0.parse().unwrap();
        assert_eq!(f, 3.41);
    } else {
        panic!("Expected number at index 2");
    }
}

#[test]
fn test_object_with_numbers() {
    let map = parse_object(r#"{ "id": 123, "score": 99.9 }"#);

    match map.get("id") {
        Some(Value::Number(n)) => {
            let i: i64 = n.try_into().unwrap();
            assert_eq!(i, 123);
        }
        _ => panic!("Expected number for id"),
    }
}

// ==========================================
// Number Error Handling Tests
// ==========================================

#[test]
fn test_err_number_leading_zero() {
    let err = parse_err(b"01");
    match err {
        Error {
            kind: Kind::InvalidByte { byte: b'1', .. },
            ..
        } => {}
        _ => panic!("Wrong error type: {:?}", err),
    }
}

#[test]
fn test_err_number_incomplete_exponent() {
    // "1e" is invalid. Must have digits.
    let err = parse_err(b"1e");
    match err {
        Error {
            kind: Kind::UnexpectedEOF,
            ..
        } => {}
        _ => panic!("Wrong error type: {:?}", err),
    }
}

#[test]
fn test_err_number_exponent_sign_no_digits() {
    let err = parse_err(b"1e+");
    match err {
        Error {
            kind: Kind::UnexpectedEOF,
            ..
        } => {}
        _ => panic!("Wrong error type: {:?}", err),
    }
}

#[test]
fn test_err_number_exponent_with_invalid_char() {
    let err = parse_err(b"1eA");
    match err {
        Error {
            kind: Kind::InvalidByte { byte: b'A', .. },
            ..
        } => {}
        _ => panic!("Wrong error type: {:?}", err),
    }
}

#[test]
fn test_err_number_exponent_positive_with_invalid_char() {
    let err = parse_err(b"1e+A");
    match err {
        Error {
            kind: Kind::InvalidByte { byte: b'A', .. },
            ..
        } => {}
        _ => panic!("Wrong error type: {:?}", err),
    }
}

#[test]
fn test_err_number_double_negative() {
    let err = parse_err(b"--1");
    match err {
        Error {
            kind: Kind::InvalidByte { byte: b'-', reason },
            ..
        } => {
            assert!(reason.contains("expected digit"));
        }
        _ => panic!("Wrong error type: {:?}", err),
    }
}

// ==========================================
// Number equality
// ==========================================

/// Whether two texts read as equal doubles, if both read as doubles.
fn doubles(l: &str, r: &str) -> Option<bool> {
    match (l.parse::<f64>(), r.parse::<f64>()) {
        (Ok(l), Ok(r)) => Some(l == r),
        _ => None,
    }
}

fn same(l: &Number, r: &Number) -> bool {
    l.eq_given(r, doubles(&l.0, &r.0))
}

// Helper to make the tests cleaner
fn num(input: &str) -> Number {
    Number(input.to_string())
}

#[test]
fn test_basic_equality() {
    assert!(same(&num("10"), &num("10")));
    assert!(same(&num("0"), &num("0")));
    assert!(!same(&num("10"), &num("11")));
}

#[test]
fn test_cross_type_equality() {
    // Integers and floats are equal
    assert!(same(&num("1"), &num("1.0")));
    assert!(same(&num("1"), &num("1.00000")));
    assert!(same(&num("0"), &num("0.0")));
    assert!(same(&num("-0"), &num("0")));
    assert!(same(&num("-0.0"), &num("0")));
}

#[test]
fn test_signed_integers() {
    // These will fail the unsigned check and fall through to signed
    assert!(same(&num("-5"), &num("-5")));
    assert!(same(&num("-5"), &num("-5.0"))); // Falls through to float
    assert!(!same(&num("-5"), &num("5")));
}

#[test]
fn test_scientific_notation() {
    // These fall through to float
    assert!(same(&num("100"), &num("1e2")));
    assert!(same(&num("100"), &num("1.0e2")));
    assert!(same(&num("0.01"), &num("1e-2")));

    // Complex casing (JSON allows e or E)
    assert!(same(&num("500"), &num("5E2")));
}

#[test]
fn test_precision_boundaries() {
    // 1. Fits in u64 - Exact comparison
    assert_eq!(u64::MAX, 18446744073709551615);
    let max_u64 = u64::MAX.to_string();
    let max_u64_minus_1 = (u64::MAX - 1).to_string();
    assert!(same(&num(&max_u64), &num(&max_u64)));
    assert!(!same(&num(&max_u64), &num(&max_u64_minus_1)));

    // 2. Fits in i64, negative - Exact comparison
    assert_eq!(i64::MIN, -9223372036854775808);
    let min_i64 = i64::MIN.to_string();
    assert!(same(&num(&min_i64), &num(&min_i64)));
}

#[test]
fn test_large_number_precision_loss() {
    // This test documents the behavior of the implementation falling back to f64.
    // These numbers are much larger than u64::MAX. In f64 representation, they
    // don't have enough precision to distinguish a difference of 1 at this scale.

    let huge_a = "1000000000000000000000000000001";
    let huge_b = "1000000000000000000000000000002";

    // They are strictly NOT equal strings, but the equality implementation will say
    // they are because of f64 fallback.
    assert!(same(&num(huge_a), &num(huge_b)));
}

#[test]
fn test_number_special_ieee_strings_comparison() {
    // Parsed as floats but never equal as per spec. This can't actually occur in
    // JSON.
    assert!(!same(&num("NaN"), &num("NaN")));

    // Also can't occur in JSON.
    assert!(same(&num("inf"), &num("inf")));

    // "Proof" that above is parsed as floats; arbitrary strings fall through and
    // are unequal.
    assert!(!same(&num("NaN"), &num("null")));
    assert!(!same(&num("abc"), &num("def")));
}

// ==========================================
// Printing tests
// ==========================================

#[test]
fn test_print_string() {
    let val = Value::String("hello world 🔥".into());

    let expected = r#""hello world 🔥""#;
    assert_eq!(val.to_string(), expected);
}

#[test]
fn test_print_string_escaping() {
    let val = Value::String("hello\nworld\t \"foo\" \\ \x00 \x07 ".into());

    let expected = r#""hello\nworld\t \"foo\" \\ \u0000 \u0007 ""#;
    assert_eq!(val.to_string(), expected);
}

#[test]
fn test_print_bool() {
    let val = Value::Bool(true);

    let expected = "true";
    assert_eq!(val.to_string(), expected);

    let val = Value::Bool(false);

    let expected = "false";
    assert_eq!(val.to_string(), expected);
}

#[test]
fn test_print_null() {
    let val = Value::Null;

    let expected = "null";
    assert_eq!(val.to_string(), expected);
}

#[test]
fn test_print_number() {
    let val = Value::Number(Number("123.2".into()));

    let expected = "123.2";
    assert_eq!(val.to_string(), expected);

    let val = Value::Number(Number("-0".into()));

    let expected = "-0";
    assert_eq!(val.to_string(), expected);
}

#[test]
fn test_print_array() {
    // Single element
    let val = Value::Array(vec![Value::String("foo".into())]);

    let expected = r#"["foo"]"#;
    assert_eq!(val.to_string(), expected);

    // Multiple elements
    let val = Value::Array(vec![
        Value::String("foo".into()),
        Value::String("bar".into()),
        Value::String("baz".into()),
    ]);

    let expected = r#"["foo", "bar", "baz"]"#;
    assert_eq!(val.to_string(), expected);
}

#[test]
fn test_print_object() {
    // Single element
    let mut map = Object::new();
    map.insert("foo".into(), Value::String("bar".into()));
    let val = Value::Object(map);

    let expected = r#"{"foo": "bar"}"#;
    assert_eq!(val.to_string(), expected);

    // Multiple elements
    let mut map = Object::new();
    map.insert("foo".into(), Value::String("bar".into()));
    map.insert("baz".into(), Value::String("qux".into()));
    let val = Value::Object(map);

    // Key order is indeterministic
    let expected1 = r#"{"foo": "bar", "baz": "qux"}"#;
    let expected2 = r#"{"baz": "qux", "foo": "bar"}"#;
    let s = val.to_string();

    assert!(s == expected1 || s == expected2);
}

// ==========================================
// "Integration" tests
// ==========================================

#[test]
fn test_complex_integration() {
    // A complex JSON object exercising all parsers.
    let json_input = r#"
    {
        "id": 12345,
        "title": "Complex \u2764 Data",
        "is_active": true,
        "deleted": false,
        "meta": {
            "created_at": "2023-10-27T10:00:00Z",
            "counts": [ 1, 2, 3 ],
            "empty_map": {}
        },
        "values": [
            null,
            -0.5,
            1.23e+4,
            "escaped\nline"
        ],
        "empty_list": []
    }
    "#;

    // Manually build the expected tree
    let mut meta_map = Object::new();
    meta_map.insert(
        "created_at".to_string(),
        Value::String("2023-10-27T10:00:00Z".to_string()),
    );
    meta_map.insert(
        "counts".to_string(),
        Value::Array(vec![
            Value::Number(Number("1".to_string())),
            Value::Number(Number("2".to_string())),
            Value::Number(Number("3".to_string())),
        ]),
    );
    meta_map.insert("empty_map".to_string(), Value::Object(Object::new()));

    let values_list = vec![
        Value::Null,
        Value::Number(Number("-0.5".to_string())),
        Value::Number(Number("1.23e+4".to_string())), // Matches input string exactly
        Value::String("escaped\nline".to_string()),
    ];

    let mut root_map = Object::new();
    root_map.insert("id".to_string(), Value::Number(Number("12345".to_string())));
    root_map.insert(
        "title".to_string(),
        Value::String("Complex ❤ Data".to_string()), // \u2764 parsed to char
    );
    root_map.insert("is_active".to_string(), Value::Bool(true));
    root_map.insert("deleted".to_string(), Value::Bool(false));
    root_map.insert("meta".to_string(), Value::Object(meta_map));
    root_map.insert("values".to_string(), Value::Array(values_list));
    root_map.insert("empty_list".to_string(), Value::Array(vec![]));

    let expected = Value::Object(root_map);

    let mut parser = Parser::new(json_input.as_bytes());
    let result = parser.parse().expect("Should parse complex JSON");

    // Uses (partial) equality impl
    assert!(result.eq_by(&expected, &doubles));
}

#[test]
fn printed_keys_parse_back() {
    let odd = "a\": null, \"b";
    let mut one = Object::new();
    one.insert(odd.to_string(), Value::Null);
    let one = Value::Object(one);
    assert_eq!(one.to_string(), r#"{"a\": null, \"b": null}"#);
    let mut two = Object::new();
    two.insert("a".to_string(), Value::Null);
    two.insert("b".to_string(), Value::Null);
    let two = Value::Object(two);
    assert_eq!(two.to_string(), r#"{"a": null, "b": null}"#);
    for v in [one, two] {
        let back = Parser::new(v.to_string().as_bytes()).parse().unwrap();
        assert!(back.eq_by(&v, &doubles));
    }
    let keys = parse_object("{\"\\\\ \\n \\u0001\": 1}");
    assert_eq!(Value::Object(keys).to_string(), r#"{"\\ \n \u0001": 1}"#);
}

#[test]
fn documents_cut_short_end_too_early() {
    let whole = "  {\"a\": [1.5, -2e+7, true, null], \"\\u00e9\\n\": \"\\ud83d\\ude00 \u{e9}\"}".as_bytes();
    assert!(Parser::new(whole).parse().is_ok());
    for n in 0..whole.len() {
        let err = parse_err(&whole[..n]);
        assert!(matches!(err.kind, Kind::UnexpectedEOF), "{n}: {err:?}");
        assert!(err.pos <= n);
    }
    // Numbers may end anywhere behind a digit
    assert!(Parser::new(b"12").parse().is_ok());
    assert!(matches!(parse_err(b"12.").kind, Kind::UnexpectedEOF));
    // How deep things go is known before what comes next
    let deep = [vec![b'['; 256], vec![b']'; 256]].concat();
    assert!(Parser::new(&deep).parse().is_ok());
    assert!(matches!(parse_err(&deep[..255]).kind, Kind::UnexpectedEOF));
    assert!(matches!(parse_err(&deep[..256]), Error { kind: Kind::NestingTooDeep(_), pos: 256 }));
    // Behind a colon, nothing mends it
    let colon = [vec![b'['; 255], b"{\"a\":".to_vec()].concat();
    for more in ["", "]", "}", "1", " "] {
        let err = parse_err(&[&colon[..], more.as_bytes()].concat());
        assert!(matches!(err, Error { kind: Kind::NestingTooDeep(_), pos: 260 }));
    }
}

#[test]
fn errors_are_about_what_is_in_front() {
    let bad: [&[u8]; 9] = [
        b"[1, oops]",
        b"{\"a\" 1}",
        b"\"\\x\"",
        b"\"\\u12g4\"",
        b"\"\\ud800\\u0041\"",
        b"\"\xff\"",
        b"01 ",
        b"[1 2]",
        b"null null",
    ];
    for data in bad {
        let err = parse_err(data);
        assert!(err.pos <= data.len());
        let seen = data.len().min(err.pos + 1);
        for more in ["", "]", "\"}", " 17"] {
            let other = [&data[..seen], more.as_bytes()].concat();
            let same = parse_err(&other);
            assert_eq!(same.pos, err.pos);
            assert_eq!(same.to_string(), err.to_string());
        }
    }
}

#[test]
fn exponents_are_read_with_a_small_letter() {
    for (written, read) in [("1E5", "1e5"), ("-0.25E+7", "-0.25e+7"), ("3E-2", "3e-2"), ("1e5", "1e5"), ("10", "10")] {
        let v = Value::Array(vec![Value::Number(Number(written.to_string()))]);
        assert_eq!(v.to_string(), format!("[{written}]"));
        let back = Parser::new(v.to_string().as_bytes()).parse().unwrap();
        assert_eq!(back.to_string(), format!("[{read}]"));
        assert!(back.eq_by(&v, &doubles));
    }
}
