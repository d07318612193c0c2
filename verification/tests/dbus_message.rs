//! D-Bus message framing.

use bluewire::dbus::message::{Message, MessageType};
use bluewire::dbus::value::Value;

#[test]
fn a_method_call_round_trips() {
    let call = Message::call(
        "org.bluez",
        "/org/bluez/hci0",
        "org.freedesktop.DBus.Properties",
        "Get",
    )
    .with_body(vec![
        Value::Str("org.bluez.Adapter1".into()),
        Value::Str("Powered".into()),
    ]);

    let bytes = call.serialize(7);
    assert_eq!(
        Message::framed_length(&bytes),
        Some(bytes.len()),
        "framing disagrees"
    );

    let back = Message::parse(&bytes).unwrap();
    assert_eq!(back.message_type, MessageType::MethodCall);
    assert_eq!(back.serial, 7);
    assert_eq!(back.destination.as_deref(), Some("org.bluez"));
    assert_eq!(back.path.as_deref(), Some("/org/bluez/hci0"));
    assert_eq!(
        back.interface.as_deref(),
        Some("org.freedesktop.DBus.Properties")
    );
    assert_eq!(back.member.as_deref(), Some("Get"));
    assert_eq!(back.body.len(), 2);
    assert_eq!(back.arg(1).unwrap().as_str(), Some("Powered"));
}

#[test]
fn a_body_less_message_round_trips() {
    let m = Message::call(
        "org.freedesktop.DBus",
        "/org/freedesktop/DBus",
        "org.freedesktop.DBus",
        "Hello",
    );
    let bytes = m.serialize(1);
    assert_eq!(Message::framed_length(&bytes), Some(bytes.len()));
    let back = Message::parse(&bytes).unwrap();
    assert!(back.body.is_empty());
    assert_eq!(back.member.as_deref(), Some("Hello"));
}

#[test]
fn an_error_reply_round_trips() {
    let call = Message::call("org.bluez", "/", "org.bluez.Adapter1", "StartDiscovery");
    let mut call = call;
    call.serial = 42;
    call.sender = Some(":1.5".into());

    let err = Message::error_to(&call, "org.bluez.Error.NotReady", "adapter is down");
    let bytes = err.serialize(9);
    let back = Message::parse(&bytes).unwrap();
    assert_eq!(back.message_type, MessageType::Error);
    assert_eq!(back.reply_serial, Some(42));
    assert_eq!(back.error_name.as_deref(), Some("org.bluez.Error.NotReady"));
    assert_eq!(back.error_text().as_deref(), Some("adapter is down"));
    assert_eq!(back.destination.as_deref(), Some(":1.5"));
}

#[test]
fn a_signal_with_a_nested_body_round_trips() {
    // PropertiesChanged is the shape every notification arrives in.
    let sig = Message::signal(
        "/org/bluez/hci0/dev_AA/service0001/char0002",
        "org.freedesktop.DBus.Properties",
        "PropertiesChanged",
    )
    .with_body(vec![
        Value::Str("org.bluez.GattCharacteristic1".into()),
        Value::dict(vec![("Value".into(), Value::bytes(&[0x5B]))]),
        Value::string_array(vec![]),
    ]);

    let bytes = sig.serialize(3);
    assert_eq!(Message::framed_length(&bytes), Some(bytes.len()));
    let back = Message::parse(&bytes).unwrap();
    assert_eq!(back.message_type, MessageType::Signal);
    let changed = back.arg(1).unwrap();
    assert_eq!(changed.get("Value").unwrap().as_bytes(), Some(vec![0x5B]));
}

#[test]
fn a_truncated_message_errors_rather_than_panicking() {
    let m = Message::call("a", "/b", "c", "d").with_body(vec![Value::Str("x".into())]);
    let bytes = m.serialize(1);
    for cut in 0..bytes.len() {
        // Every prefix must be an error, never a panic.
        let _ = Message::parse(&bytes[..cut]);
    }
}

#[test]
fn serial_is_taken_from_the_argument_not_the_struct() {
    // The connection assigns serials, so the field on the struct is ignored.
    let m = Message::call("a", "/b", "c", "d");
    assert_eq!(Message::parse(&m.serialize(99)).unwrap().serial, 99);
}

#[test]
fn a_reply_goes_back_to_the_sender() {
    let mut call = Message::call("org.example", "/", "org.example.I", "M");
    call.serial = 5;
    call.sender = Some(":1.9".into());
    let reply = Message::reply_to(&call).with_body(vec![Value::Uint32(3)]);
    assert_eq!(reply.message_type, MessageType::MethodReturn);
    assert_eq!(reply.reply_serial, Some(5));
    assert_eq!(reply.destination.as_deref(), Some(":1.9"));
    assert_eq!(reply.signature(), "u");
    let back = Message::parse(&reply.serialize(6)).unwrap();
    assert_eq!(back.body, vec![Value::Uint32(3)]);
    assert_eq!(back.reply_serial, Some(5));
}

#[test]
fn the_fixed_header_is_exact() {
    let bytes = Message::signal("/p", "i.f", "m").serialize(0x01020304);
    assert_eq!(&bytes[0..4], &[b'l', 4, 0, 1]);
    assert_eq!(&bytes[4..8], &[0, 0, 0, 0], "no body");
    assert_eq!(&bytes[8..12], &[4, 3, 2, 1]);
    assert_eq!(bytes.len() % 8, 0);
}

#[test]
fn an_unknown_message_type_is_refused() {
    let mut bytes = Message::signal("/p", "i.f", "m").serialize(1);
    bytes[1] = 7;
    assert!(Message::parse(&bytes).is_err());
    assert!(Message::parse(&[0u8; 8]).is_err());
}
