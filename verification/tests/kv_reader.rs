use srcrs::kv::char_reader::ReadChar;
use srcrs::kv::reader::{KeyValues, ReaderError, Value};

fn string_matches(val: &Value, expected: &str) -> bool {
    match val {
        Value::String(v) => v == expected,
        _ => false,
    }
}

#[test]
fn reader_single_kv() {
    let object = KeyValues::from_io(r#"key "val""#.as_bytes()).unwrap();

    assert!(string_matches(object.get("key").unwrap(), "val"));
}

#[test]
fn reader_double_kv() {
    let kv = r#"
        key1 val1
        "key2" "val2"
        "#
    .as_bytes();

    let object = KeyValues::from_io(kv).unwrap();

    assert!(string_matches(object.get("key1").unwrap(), "val1"));
    assert!(string_matches(object.get("key2").unwrap(), "val2"));
}

#[test]
fn reader_compound_kv() {
    let kv = r#"
        comp {
            key1 val1
            key2 val2
        }
        "#
    .as_bytes();

    let object = KeyValues::from_io(kv).unwrap();

    match object.get("comp").unwrap() {
        Value::Object(comp) => {
            assert!(string_matches(comp.get("key1").unwrap(), "val1"));
            assert!(string_matches(comp.get("key2").unwrap(), "val2"));
        }
        _ => panic!(),
    }
}

#[test]
fn nested_object_lookup() {
    let object = KeyValues::from_io(r#"a { b c }"#.as_bytes()).unwrap();

    match object.get("a").unwrap() {
        Value::Object(inner) => {
            assert!(string_matches(inner.get("b").unwrap(), "c"));
        }
        _ => panic!(),
    }
}

#[test]
fn duplicate_key_last_write_wins() {
    let object = KeyValues::from_io("k 1\nk 2".as_bytes()).unwrap();

    assert!(string_matches(object.get("k").unwrap(), "2"));
}

#[test]
fn flag_visibility() {
    let object = KeyValues::from_io(r#"k v [flag]"#.as_bytes()).unwrap();

    let active = vec!["flag".to_string()];
    let inactive: Vec<String> = vec![];

    assert!(string_matches(object.get_with_flags("k", &active).unwrap(), "v"));
    assert!(object.get_with_flags("k", &inactive).is_none());
    assert!(string_matches(object.get("k").unwrap(), "v"));
}

#[test]
fn negated_flag_visibility() {
    let object = KeyValues::from_io(r#"k v [!flag]"#.as_bytes()).unwrap();

    let active = vec!["flag".to_string()];
    let inactive: Vec<String> = vec![];

    assert!(object.get_with_flags("k", &active).is_none());
    assert!(string_matches(object.get_with_flags("k", &inactive).unwrap(), "v"));
}

#[test]
fn comment_line_ignored() {
    let with_comment = KeyValues::from_io("// whole line\nk v".as_bytes()).unwrap();
    let without_comment = KeyValues::from_io("k v".as_bytes()).unwrap();

    assert_eq!(with_comment, without_comment);
    assert!(string_matches(with_comment.get("k").unwrap(), "v"));
}

#[test]
fn unquoted_escapes_are_literal() {
    let object = KeyValues::from_io(r#"k \{v\}"#.as_bytes()).unwrap();

    assert!(string_matches(object.get("k").unwrap(), "{v}"));
}

#[test]
fn quoted_backslashes_stay_verbatim() {
    let object = KeyValues::from_io(r#"k "\{v\}""#.as_bytes()).unwrap();

    assert!(string_matches(object.get("k").unwrap(), r#"\{v\}"#));
}

#[test]
fn quoted_preserves_whitespace_and_structure() {
    let object = KeyValues::from_io(r#"k "a { b // }""#.as_bytes()).unwrap();

    assert!(string_matches(object.get("k").unwrap(), "a { b // }"));
}

#[test]
fn round_trip_flat() {
    let first = KeyValues::from_io(r#"key "val" other thing"#.as_bytes()).unwrap();
    let text = first.to_kv_text();
    let second = KeyValues::from_io(text.as_slice()).unwrap();

    assert_eq!(first, second);
}

#[test]
fn round_trip_nested_with_flags() {
    let kv = r#"
        a {
            b c
            d { e "f g" }
        }
        h "" [flag]
        i j [!other]
        k \{w\}
        "#
    .as_bytes();

    let first = KeyValues::from_io(kv).unwrap();
    let text = first.to_kv_text();
    let second = KeyValues::from_io(text.as_slice()).unwrap();

    assert_eq!(first, second);
}

#[test]
fn round_trip_twice_is_stable() {
    let kv = r#"x { y z } q "s p a c e s""#.as_bytes();

    let first = KeyValues::from_io(kv).unwrap();
    let text1 = first.to_kv_text();
    let second = KeyValues::from_io(text1.as_slice()).unwrap();
    let text2 = second.to_kv_text();

    assert_eq!(text1, text2);
}

#[test]
fn empty_flag_name() {
    let object = KeyValues::from_io(r#"k v []"#.as_bytes()).unwrap();

    let empty_name = vec!["".to_string()];
    let inactive: Vec<String> = vec![];

    assert!(string_matches(object.get_with_flags("k", &empty_name).unwrap(), "v"));
    assert!(object.get_with_flags("k", &inactive).is_none());
}

#[test]
fn entry_order_does_not_change_lookup() {
    let a = KeyValues::from_io("x 1\ny 2\nz 3".as_bytes()).unwrap();
    let b = KeyValues::from_io("z 3\nx 1\ny 2".as_bytes()).unwrap();

    for key in ["x", "y", "z", "absent"] {
        assert_eq!(a.get(key), b.get(key));
    }
}

#[test]
fn missing_key_is_none() {
    let object = KeyValues::from_io(r#"k v"#.as_bytes()).unwrap();

    assert!(object.get("absent").is_none());
}

#[test]
fn unterminated_quote_is_error() {
    let err = KeyValues::from_io(r#"k "unclosed"#.as_bytes()).unwrap_err();

    assert_eq!(err, ReaderError::UnexpectedEof);
}

#[test]
fn unterminated_flag_is_error() {
    let err = KeyValues::from_io(r#"k v [fl"#.as_bytes()).unwrap_err();

    assert_eq!(err, ReaderError::UnexpectedEof);
}

#[test]
fn missing_value_is_error() {
    let err = KeyValues::from_io(r#"k"#.as_bytes()).unwrap_err();

    assert_eq!(err, ReaderError::InvalidChar(ReadChar::Eof));
}

#[test]
fn block_as_key_is_error() {
    let err = KeyValues::from_io(r#"{ a b }"#.as_bytes()).unwrap_err();

    assert_eq!(err, ReaderError::InvalidChar(ReadChar::Normal('{')));
}

#[test]
fn unclosed_block_is_error() {
    let err = KeyValues::from_io(r#"a { b c"#.as_bytes()).unwrap_err();

    assert_eq!(err, ReaderError::UnexpectedEof);
}

#[test]
fn trailing_backslash_is_literal() {
    let object = KeyValues::from_io(r"k v\".as_bytes()).unwrap();

    assert!(string_matches(object.get("k").unwrap(), r"v\"));
}

#[test]
fn bare_negate_is_error() {
    let err = KeyValues::from_io(r#"a!b"#.as_bytes()).unwrap_err();

    assert_eq!(err, ReaderError::InvalidChar(ReadChar::Normal('!')));
}

#[test]
fn bare_close_flag_is_error() {
    let err = KeyValues::from_io(r#"k v]"#.as_bytes()).unwrap_err();

    assert_eq!(err, ReaderError::InvalidChar(ReadChar::Normal(']')));
}

#[test]
fn escaped_structural_stays_text() {
    let object = KeyValues::from_io(r"k a\]b\!c".as_bytes()).unwrap();

    assert!(string_matches(object.get("k").unwrap(), "a]b!c"));
}

#[test]
fn empty_input_is_empty_object() {
    let object = KeyValues::from_io(r#""#.as_bytes()).unwrap();

    assert!(object.get("anything").is_none());
}
