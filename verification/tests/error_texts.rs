//! What errors and values say in words.

use bluewire::att::AttError;
use bluewire::dbus::codec::CodecError;
use bluewire::dbus::connection::Error as BusError;
use bluewire::dbus::value::Value;
use bluewire::gatt::Error as GattError;

#[test]
fn codec_errors_in_words() {
    assert_eq!(
        CodecError::Truncated { wanted: 12, available: 3 }.to_string(),
        "message truncated: wanted 12 bytes, 3 available"
    );
    assert_eq!(CodecError::BadTypeCode('Z').to_string(), "unknown D-Bus type code 'Z'");
    assert_eq!(CodecError::BadTypeCode('\n').to_string(), "unknown D-Bus type code '\\n'");
    assert_eq!(CodecError::BadSignature("a{".to_string()).to_string(), "malformed signature \"a{\"");
    assert_eq!(CodecError::BadUtf8.to_string(), "string field was not valid UTF-8");
    assert_eq!(
        CodecError::BadArrayLength(7).to_string(),
        "array length 7 is not a whole number of elements"
    );
}

#[test]
fn bus_errors_in_words() {
    assert_eq!(BusError::Io("gone".into()).to_string(), "D-Bus I/O error: gone");
    assert_eq!(BusError::Auth("no".into()).to_string(), "D-Bus authentication failed: no");
    assert_eq!(
        BusError::Codec(CodecError::BadUtf8).to_string(),
        "D-Bus protocol error: string field was not valid UTF-8"
    );
    assert_eq!(
        BusError::Call { name: "org.bluez.Error.Failed".into(), message: "busy".into() }.to_string(),
        "org.bluez.Error.Failed: busy"
    );
    assert_eq!(BusError::Timeout.to_string(), "D-Bus call timed out");
    assert_eq!(BusError::Disconnected.to_string(), "D-Bus connection closed");
    assert_eq!(BusError::BadAddress("x".into()).to_string(), "unusable D-Bus address: x");
}

#[test]
fn gatt_errors_in_words() {
    assert_eq!(GattError::Io("could not bind".into()).to_string(), "could not bind");
    assert_eq!(
        GattError::Att(AttError(0x0A)).to_string(),
        "the peer refused: attribute not found (0x0a)"
    );
    assert_eq!(GattError::Timeout.to_string(), "the peer did not answer");
    assert_eq!(GattError::Disconnected.to_string(), "the link dropped");
    assert_eq!(GattError::Protocol("short".into()).to_string(), "protocol error: short");
}

#[test]
fn values_in_words() {
    assert_eq!(Value::Str("hello".into()).to_string(), "hello");
    assert_eq!(Value::ObjectPath("/org/bluez".into()).to_string(), "/org/bluez");
    assert_eq!(Value::Variant(Box::new(Value::Signature("a{sv}".into()))).to_string(), "a{sv}");
    assert_eq!(Value::Uint32(3).to_string(), "Uint32(3)");
}
