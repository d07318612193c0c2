//! D-Bus signatures.

use bluewire::dbus::value::{alignment, complete_types, type_length, Value};

#[test]
fn complete_types_splits_concatenations() {
    assert_eq!(complete_types("sa{sv}u"), vec!["s", "a{sv}", "u"]);
    assert_eq!(complete_types("ay"), vec!["ay"]);
    assert_eq!(complete_types(""), Vec::<String>::new());
    // The GetManagedObjects reply type — nested arrays of dicts.
    assert_eq!(complete_types("a{oa{sa{sv}}}"), vec!["a{oa{sa{sv}}}"]);
    assert_eq!(complete_types("(is)(bb)"), vec!["(is)", "(bb)"]);
}

#[test]
fn nested_brackets_are_balanced_not_counted() {
    assert_eq!(type_length(b"a{sa{sv}}"), Some(9));
    assert_eq!(type_length(b"((ii)(ss))x"), Some(10));
    // Unbalanced input must not panic or over-read.
    assert_eq!(type_length(b"(is"), None);
    assert_eq!(type_length(b""), None);
}

#[test]
fn alignments_match_the_specification() {
    for (code, want) in [
        (b'y', 1),
        (b'b', 4),
        (b'n', 2),
        (b'q', 2),
        (b'i', 4),
        (b'u', 4),
        (b'x', 8),
        (b't', 8),
        (b'd', 8),
        (b's', 4),
        (b'o', 4),
        (b'g', 1),
        (b'a', 4),
        (b'(', 8),
        (b'{', 8),
        (b'v', 1),
        (b'h', 4),
    ] {
        assert_eq!(alignment(code), want, "alignment of {}", code as char);
    }
}

#[test]
fn signatures_round_trip_through_values() {
    assert_eq!(Value::Str("x".into()).signature(), "s");
    assert_eq!(Value::bytes(&[1, 2]).signature(), "ay");
    assert_eq!(Value::string_array(vec!["a".into()]).signature(), "as");
    assert_eq!(
        Value::dict(vec![("k".into(), Value::Uint32(1))]).signature(),
        "a{sv}"
    );
    assert_eq!(
        Value::Struct(vec![Value::Str("a".into()), Value::Uint32(2)]).signature(),
        "(su)"
    );
}

#[test]
fn accessors_peel_variants() {
    // BlueZ returns every property wrapped in a variant.
    let wrapped = Value::Variant(Box::new(Value::Str("Pixel".into())));
    assert_eq!(wrapped.as_str(), Some("Pixel"));

    let nested = Value::Variant(Box::new(Value::Variant(Box::new(Value::Bool(true)))));
    assert_eq!(nested.as_bool(), Some(true));

    let map = Value::dict(vec![("Name".into(), Value::Str("Pixel".into()))]);
    assert_eq!(map.get("Name").unwrap().as_str(), Some("Pixel"));
    assert_eq!(map.get("Missing"), None);
}

#[test]
fn byte_arrays_collect() {
    let v = Value::bytes(&[0xDE, 0xAD]);
    assert_eq!(v.as_bytes(), Some(vec![0xDE, 0xAD]));
    // A non-byte array is not bytes.
    assert_eq!(Value::string_array(vec!["a".into()]).as_bytes(), None);
}

#[test]
fn numbers_widen_only_where_they_fit() {
    assert_eq!(Value::Uint16(7).as_u64(), Some(7));
    assert_eq!(Value::Int16(-7).as_u64(), None);
    assert_eq!(Value::Int16(-7).as_i64(), Some(-7));
    assert_eq!(Value::Uint64(7).as_i64(), None);
    assert_eq!(Value::Variant(Box::new(Value::Byte(9))).as_i64(), Some(9));
}

#[test]
fn strings_are_collected_and_others_skipped() {
    let v = Value::Array {
        element: "v".into(),
        items: vec![
            Value::Variant(Box::new(Value::Str("a".into()))),
            Value::Uint32(1),
            Value::ObjectPath("/b".into()),
        ],
    };
    assert_eq!(v.as_strings(), vec!["a".to_string(), "/b".to_string()]);
    assert!(Value::Uint32(1).as_strings().is_empty());
}

#[test]
fn the_first_matching_key_wins() {
    let v = Value::dict(vec![
        ("k".into(), Value::Uint32(1)),
        ("k".into(), Value::Uint32(2)),
    ]);
    assert_eq!(v.get("k"), Some(Value::Variant(Box::new(Value::Uint32(1)))));
}

#[test]
fn text_values_show_as_their_characters() {
    assert_eq!(Value::Str("hello".to_string()).to_string(), "hello");
    assert_eq!(
        Value::Variant(Box::new(Value::ObjectPath("/org/bluez".to_string()))).to_string(),
        "/org/bluez"
    );
}

#[test]
fn other_values_show_in_their_debug_form() {
    let v = Value::Byte(7);
    assert_eq!(v.to_string(), format!("{v:?}"));
    let wrapped = Value::Variant(Box::new(Value::Bool(true)));
    assert_eq!(wrapped.to_string(), format!("{:?}", Value::Bool(true)));
}
