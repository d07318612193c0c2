//! D-Bus marshalling: values to bytes and back.

use bluewire::dbus::codec::{CodecError, Decoder, Encoder};
use bluewire::dbus::value::Value;

/// Encode then decode, and require the value to survive unchanged.
fn round_trip(v: Value) {
    let sig = v.signature();
    let mut enc = Encoder::new();
    enc.value(&v);
    let bytes = enc.finish();
    let mut dec = Decoder::new(&bytes, true);
    let got = dec.value(&sig).expect("decode failed");
    assert_eq!(got, v, "round trip changed the value (signature {sig})");
    assert_eq!(
        dec.remaining(),
        0,
        "decoder left {} bytes unread",
        dec.remaining()
    );
}

#[test]
fn scalars_round_trip() {
    round_trip(Value::Byte(0xAB));
    round_trip(Value::Bool(true));
    round_trip(Value::Bool(false));
    round_trip(Value::Int16(-2));
    round_trip(Value::Uint16(65535));
    round_trip(Value::Int32(-70000));
    round_trip(Value::Uint32(4_000_000_000));
    round_trip(Value::Int64(-1));
    round_trip(Value::Uint64(u64::MAX));
    round_trip(Value::Double((-0.5f64).to_bits()));
}

#[test]
fn strings_round_trip_including_empty_and_utf8() {
    round_trip(Value::Str(String::new()));
    round_trip(Value::Str("org.bluez".into()));
    round_trip(Value::Str("naïve ☕".into()));
    round_trip(Value::ObjectPath("/org/bluez/hci0".into()));
    round_trip(Value::Signature("a{sv}".into()));
}

#[test]
fn containers_round_trip() {
    round_trip(Value::bytes(&[]));
    round_trip(Value::bytes(&[1, 2, 3]));
    round_trip(Value::string_array(vec!["a".into(), "bb".into()]));
    round_trip(Value::Struct(vec![
        Value::Uint32(1),
        Value::Str("x".into()),
    ]));
    round_trip(Value::Variant(Box::new(Value::Str("v".into()))));
    round_trip(Value::dict(vec![
        ("Powered".into(), Value::Bool(true)),
        ("Address".into(), Value::Str("AA:BB:CC:DD:EE:FF".into())),
    ]));
}

#[test]
fn the_get_managed_objects_shape_round_trips() {
    // `a{oa{sa{sv}}}` is the reply this crate leans on hardest.
    let managed = Value::Array {
        element: "{oa{sa{sv}}}".into(),
        items: vec![Value::DictEntry(
            Box::new(Value::ObjectPath("/org/bluez/hci0/dev_AA_BB".into())),
            Box::new(Value::Array {
                element: "{sa{sv}}".into(),
                items: vec![Value::DictEntry(
                    Box::new(Value::Str("org.bluez.Device1".into())),
                    Box::new(Value::dict(vec![
                        ("Name".into(), Value::Str("Pixel".into())),
                        ("RSSI".into(), Value::Int16(-42)),
                        (
                            "UUIDs".into(),
                            Value::string_array(
                                vec!["0000180f-0000-1000-8000-00805f9b34fb".into()],
                            ),
                        ),
                    ])),
                )],
            }),
        )],
    };
    round_trip(managed.clone());

    // …and navigating it gives the values back.
    let ifaces = managed.get("/org/bluez/hci0/dev_AA_BB").unwrap();
    let props = ifaces.get("org.bluez.Device1").unwrap();
    assert_eq!(props.get("Name").unwrap().as_str(), Some("Pixel"));
    assert_eq!(props.get("RSSI").unwrap().as_i64(), Some(-42));
}

#[test]
fn alignment_padding_is_inserted_between_values() {
    // byte then uint32: the u32 must start at offset 4, not 1.
    let mut enc = Encoder::new();
    enc.body(&[Value::Byte(1), Value::Uint32(2)]);
    let bytes = enc.finish();
    assert_eq!(bytes.len(), 8, "expected 1 byte + 3 pad + 4");
    assert_eq!(&bytes[1..4], &[0, 0, 0], "padding must be zero");

    let mut dec = Decoder::new(&bytes, true);
    assert_eq!(
        dec.body("yu").unwrap(),
        vec![Value::Byte(1), Value::Uint32(2)]
    );
}

#[test]
fn struct_elements_are_eight_aligned() {
    // A byte then a struct: the struct starts at 8.
    let mut enc = Encoder::new();
    enc.body(&[Value::Byte(1), Value::Struct(vec![Value::Byte(2)])]);
    let bytes = enc.finish();
    assert_eq!(bytes.len(), 9);
    assert_eq!(bytes[8], 2);
}

#[test]
fn empty_arrays_keep_their_element_type() {
    let empty = Value::Array {
        element: "{sv}".into(),
        items: vec![],
    };
    round_trip(empty.clone());
    assert_eq!(empty.signature(), "a{sv}");
}

#[test]
fn big_endian_messages_decode() {
    // The bus may speak either byte order; only the decoder must cope.
    let bytes = [0x00, 0x00, 0x00, 0x2A];
    let mut dec = Decoder::new(&bytes, false);
    assert_eq!(dec.value("u").unwrap(), Value::Uint32(42));
}

#[test]
fn a_truncated_buffer_errors_rather_than_panicking() {
    let mut dec = Decoder::new(&[1, 2], true);
    assert!(matches!(dec.value("u"), Err(CodecError::Truncated { .. })));
}

#[test]
fn an_oversized_string_length_errors() {
    // Claims 0xFFFFFFFF bytes of string in a 4-byte buffer.
    let bytes = [0xFF, 0xFF, 0xFF, 0xFF];
    let mut dec = Decoder::new(&bytes, true);
    assert!(matches!(dec.value("s"), Err(CodecError::Truncated { .. })));
}

#[test]
fn an_oversized_array_length_errors() {
    let bytes = [0xFF, 0xFF, 0xFF, 0x7F];
    let mut dec = Decoder::new(&bytes, true);
    assert!(matches!(dec.value("ay"), Err(CodecError::Truncated { .. })));
}

#[test]
fn a_bad_type_code_errors() {
    let mut dec = Decoder::new(&[0], true);
    assert!(matches!(dec.value("Z"), Err(CodecError::BadTypeCode('Z'))));
    assert!(matches!(
        Decoder::new(&[0], true).value(""),
        Err(CodecError::BadSignature(_))
    ));
}

#[test]
fn a_variant_carrying_a_bad_signature_errors() {
    let mut enc = Encoder::new();
    enc.signature("a"); // "a" alone is not a complete type
    let bytes = enc.finish();
    let mut dec = Decoder::new(&bytes, true);
    assert!(matches!(dec.value("v"), Err(CodecError::BadSignature(_))));
}

#[test]
fn invalid_utf8_in_a_string_errors() {
    let mut bytes = vec![2, 0, 0, 0, 0xFF, 0xFE, 0];
    bytes.truncate(7);
    let mut dec = Decoder::new(&bytes, true);
    assert!(matches!(dec.value("s"), Err(CodecError::BadUtf8)));
}

#[test]
fn an_array_of_empty_structs_is_an_error_not_a_hang() {
    // Four bytes of array, then elements that take no room: they can never
    // add up to the length.
    let bytes = [8, 0, 0, 0, 0, 0, 0, 0, 1, 2, 3, 4, 5, 6, 7, 8];
    let mut dec = Decoder::new(&bytes, true);
    assert!(matches!(dec.value("a()"), Err(CodecError::BadArrayLength(8))));
}

#[test]
fn an_array_that_overshoots_its_length_errors() {
    // Length 2, but each element is a four-byte integer.
    let bytes = [2, 0, 0, 0, 1, 0, 0, 0];
    let mut dec = Decoder::new(&bytes, true);
    assert!(matches!(dec.value("au"), Err(CodecError::BadArrayLength(2))));
}

#[test]
fn a_dict_entry_needs_two_types() {
    let bytes = [0u8; 8];
    assert!(matches!(
        Decoder::new(&bytes, true).value("{s}"),
        Err(CodecError::BadSignature(_))
    ));
    assert!(matches!(
        Decoder::new(&bytes, true).value("("),
        Err(CodecError::BadSignature(_))
    ));
}

#[test]
fn the_exact_bytes_of_a_string_and_an_array() {
    let mut enc = Encoder::new();
    enc.value(&Value::Str("ab".into()));
    assert_eq!(enc.finish(), vec![2, 0, 0, 0, b'a', b'b', 0]);

    // Length 4 counts only the element: the pad to 8 is not part of it.
    let mut enc = Encoder::new();
    enc.value(&Value::Array { element: "t".into(), items: vec![Value::Uint64(7)] });
    assert_eq!(
        enc.finish(),
        vec![8, 0, 0, 0, 0, 0, 0, 0, 7, 0, 0, 0, 0, 0, 0, 0]
    );
}

#[test]
fn empty_structures_round_trip_outside_arrays() {
    round_trip(Value::Struct(vec![]));
    round_trip(Value::Struct(vec![Value::Uint32(7), Value::Struct(vec![])]));
    round_trip(Value::Variant(Box::new(Value::Struct(vec![]))));
    round_trip(Value::Array {
        element: "()".into(),
        items: vec![],
    });
}

#[test]
fn a_body_round_trips_through_its_signature() {
    let body = vec![
        Value::Str("org.bluez.Device1".into()),
        Value::dict(vec![("RSSI".to_string(), Value::Int16(-52))]),
        Value::string_array(vec!["Name".to_string()]),
    ];
    let mut sig = String::new();
    for v in &body {
        sig.push_str(&v.signature());
    }
    let mut enc = Encoder::new();
    enc.body(&body);
    let bytes = enc.finish();
    let mut dec = Decoder::new(&bytes, true);
    let got = dec.body(&sig).expect("decode failed");
    assert_eq!(got, body);
    assert_eq!(dec.remaining(), 0);
}
