//! Property flags and the discovery filter, as BlueZ spells them.

use bluewire::bluez::discovery::discovery_filter;
use bluewire::bluez::flags::PropertyFlags;
use bluewire::dbus::value::Value;

fn names(list: &[&str]) -> Vec<String> {
    list.iter().map(|s| s.to_string()).collect()
}

#[test]
fn each_flag_string_sets_its_property() {
    let f = PropertyFlags::from_names(&names(&["read", "notify", "write-without-response"]));
    assert!(f.read && f.notify && f.write_without_response);
    assert!(!f.write && !f.indicate && !f.broadcast);
    let f = PropertyFlags::from_names(&names(&[
        "broadcast",
        "write",
        "indicate",
        "authenticated-signed-writes",
        "extended-properties",
        "reliable-write",
        "writable-auxiliaries",
    ]));
    assert!(f.broadcast && f.write && f.indicate && f.authenticated_signed_writes);
    assert!(f.extended_properties && f.reliable_write && f.writable_auxiliaries);
    assert!(!f.read && !f.notify_encryption_required);
}

#[test]
fn either_encryption_spelling_sets_the_requirement() {
    let f = PropertyFlags::from_names(&names(&["encrypt-authenticated-notify", "encrypt-indicate"]));
    assert!(f.notify_encryption_required && f.indicate_encryption_required);
    assert!(!f.notify && !f.indicate);
}

#[test]
fn unknown_names_are_ignored() {
    let f = PropertyFlags::from_names(&names(&["secure-read", "authorize"]));
    assert_eq!(f, PropertyFlags::from_names(&Vec::new()));
}

#[test]
fn the_discovery_filter_asks_for_le_and_the_wanted_services() {
    let bare = discovery_filter(Vec::new(), false);
    assert_eq!(
        bare,
        Value::dict(vec![
            ("Transport".to_string(), Value::Str("le".into())),
            ("DuplicateData".to_string(), Value::Bool(false)),
        ])
    );
    let narrowed = discovery_filter(vec!["180d".to_string()], true);
    assert_eq!(
        narrowed,
        Value::dict(vec![
            ("Transport".to_string(), Value::Str("le".into())),
            (
                "UUIDs".to_string(),
                Value::string_array(vec!["180d".to_string()])
            ),
            ("DuplicateData".to_string(), Value::Bool(true)),
        ])
    );
}
