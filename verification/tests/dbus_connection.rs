//! Routing inbound messages, answering calls, and authenticating.

use bluewire::dbus::connection::{
    auth_lines, endpoints, line_byte, reply_for, route, sasl_reply, serves, starts_with, trim,
    Endpoint, Error, Route, SaslReply,
};
use bluewire::dbus::message::{Message, MessageType, FLAG_NO_REPLY_EXPECTED};
use bluewire::dbus::value::Value;

fn call_from(sender: &str, serial: u32) -> Message {
    let mut m = Message::call("org.example", "/org/example/app/service0", "org.example.I", "Do");
    m.sender = Some(sender.to_string());
    m.serial = serial;
    m
}

#[test]
fn replies_go_to_the_call_they_answer() {
    let call = call_from(":1.7", 42);
    match route(Message::reply_to(&call)) {
        Route::Reply { serial: 42, outcome: Ok(m) } => {
            assert_eq!(m.message_type, MessageType::MethodReturn)
        }
        other => panic!("unexpected {other:?}"),
    }
    match route(Message::error_to(&call, "org.bluez.Error.Failed", "no")) {
        Route::Reply { serial: 42, outcome: Err(Error::Call { name, message }) } => {
            assert_eq!(name, "org.bluez.Error.Failed");
            assert_eq!(message, "no");
        }
        other => panic!("unexpected {other:?}"),
    }
    // A reply naming no call has nowhere to go.
    let mut stray = Message::reply_to(&call);
    stray.reply_serial = None;
    assert!(matches!(route(stray), Route::Dropped));
}

#[test]
fn signals_and_calls_are_routed_by_kind() {
    let signal = Message::signal("/", "org.freedesktop.DBus", "NameAcquired");
    assert!(matches!(route(signal), Route::Signal(_)));
    assert!(matches!(route(call_from(":1.1", 1)), Route::Call(_)));
}

#[test]
fn an_object_serves_its_own_path_and_everything_below() {
    assert!(serves("/org/example/app", "/org/example/app"));
    assert!(serves("/org/example/app", "/org/example/app/service0/char1"));
    assert!(!serves("/org/example/app", "/org/example/application"));
    assert!(!serves("/org/example/app", "/org/example"));
}

#[test]
fn a_call_is_answered_with_what_its_handler_gave() {
    let call = call_from(":1.9", 5);
    let reply = reply_for(&call, Some(Ok(vec![Value::Uint32(3)]))).unwrap();
    assert_eq!(reply.message_type, MessageType::MethodReturn);
    assert_eq!(reply.reply_serial, Some(5));
    assert_eq!(reply.destination.as_deref(), Some(":1.9"));
    assert_eq!(reply.body, vec![Value::Uint32(3)]);

    let refusal = ("org.bluez.Error.NotPermitted".to_string(), "read-only".to_string());
    let reply = reply_for(&call, Some(Err(refusal))).unwrap();
    assert_eq!(reply.message_type, MessageType::Error);
    assert_eq!(reply.error_name.as_deref(), Some("org.bluez.Error.NotPermitted"));
    assert_eq!(reply.error_text().as_deref(), Some("read-only"));
}

#[test]
fn a_call_to_nothing_is_an_unknown_object() {
    let call = call_from(":1.9", 6);
    let reply = reply_for(&call, None).unwrap();
    assert_eq!(
        reply.error_name.as_deref(),
        Some("org.freedesktop.DBus.Error.UnknownObject")
    );
    assert_eq!(
        reply.error_text().as_deref(),
        Some("no object at /org/example/app/service0")
    );
}

#[test]
fn a_call_that_wants_no_reply_gets_none() {
    let mut call = call_from(":1.9", 7);
    call.flags = FLAG_NO_REPLY_EXPECTED;
    assert!(reply_for(&call, Some(Ok(vec![]))).is_none());
    assert!(reply_for(&call, None).is_none());
}

#[test]
fn external_authentication_names_the_user_in_hex_digits() {
    let lines = auth_lines(1000);
    assert_eq!(lines[0], "AUTH EXTERNAL 31303030\r\n");
    assert_eq!(lines[1], "AUTH ANONYMOUS\r\n");
    assert_eq!(auth_lines(0)[0], "AUTH EXTERNAL 30\r\n");
}

#[test]
fn authentication_replies_are_read_by_their_start() {
    assert_eq!(sasl_reply("OK 1234deadbeef"), SaslReply::Accepted);
    assert_eq!(sasl_reply("REJECTED EXTERNAL ANONYMOUS"), SaslReply::Rejected);
    assert_eq!(sasl_reply("ERROR"), SaslReply::Failed);
    assert_eq!(sasl_reply(""), SaslReply::Failed);
    assert!(starts_with("OK", "OK"));
    assert!(!starts_with("O", "OK"));
}

#[test]
fn a_reply_line_ends_at_a_line_feed_and_drops_carriage_returns() {
    let mut line = Vec::new();
    for &b in b"OK 12\r" {
        assert!(!line_byte(&mut line, b));
    }
    assert!(line_byte(&mut line, b'\n'));
    assert_eq!(line, b"OK 12");
}

#[test]
fn a_bus_address_names_its_unix_sockets_in_order() {
    assert_eq!(
        endpoints("unix:path=/run/dbus/system_bus_socket"),
        vec![Endpoint::Path("/run/dbus/system_bus_socket".to_string())]
    );
    assert_eq!(
        endpoints(" tcp:host=x,port=1; unix:abstract=/tmp/dbus-abc,guid=123 ;unix:path=/a,path=/b"),
        vec![
            Endpoint::Abstract("/tmp/dbus-abc".to_string()),
            Endpoint::Path("/a".to_string()),
            Endpoint::Path("/b".to_string()),
        ]
    );
    assert!(endpoints("").is_empty());
    assert!(endpoints("unix:guid=1;;").is_empty());
}

#[test]
fn trimming_drops_unicode_white_space_at_both_ends() {
    assert_eq!(trim("  a b \t\n"), "a b");
    assert_eq!(trim("\u{3000}x\u{85}"), "x");
    assert_eq!(trim(" \r "), "");
    assert_eq!(trim("\u{200b}x"), "\u{200b}x");
    for s in [" x ", "\u{a0}y\u{2029}", "\u{1680}\u{2000}z\u{202f}\u{205f}"] {
        assert_eq!(trim(s), s.trim());
    }
}
