//! BlueZ object paths.

use bluewire::bluez::{adapter_path, choose_adapter, device_of, is_child};

#[test]
fn a_services_owner_is_its_parent_path() {
    assert_eq!(
        device_of("/org/bluez/hci0/dev_AA_BB_CC_DD_EE_FF/service001c"),
        Some("/org/bluez/hci0/dev_AA_BB_CC_DD_EE_FF")
    );
    // A path with no parent is reported as such rather than guessed at,
    // so a malformed signal cannot be attributed to some other device.
    assert_eq!(device_of("/service001c"), None);
    assert_eq!(device_of("service001c"), None);
    assert_eq!(device_of(""), None);
}

#[test]
fn object_paths_encode_the_gatt_hierarchy() {
    // BlueZ has no "parent" property; the path *is* the relationship.
    let device = "/org/bluez/hci0/dev_AA_BB_CC_DD_EE_FF";
    let service = format!("{device}/service0010");
    let characteristic = format!("{service}/char0011");
    assert!(characteristic.starts_with(&format!("{service}/")));
    assert!(service.starts_with(&format!("{device}/")));
}

#[test]
fn an_adapter_is_named_by_short_name_or_path() {
    assert_eq!(adapter_path("hci1"), "/org/bluez/hci1");
    assert_eq!(adapter_path("/org/bluez/hci0"), "/org/bluez/hci0");
}

#[test]
fn a_reload_keeps_the_chosen_adapter_while_it_exists() {
    let adapters = vec!["/org/bluez/hci0".to_string(), "/org/bluez/hci1".to_string()];
    // The current adapter stays, whatever else is asked for.
    assert_eq!(
        choose_adapter(&adapters, Some("/org/bluez/hci1".to_string()), Some("hci0")),
        Some("/org/bluez/hci1".to_string())
    );
    // Gone: the one asked for by name, if there is one.
    assert_eq!(
        choose_adapter(&adapters, Some("/org/bluez/hci9".to_string()), Some("hci1")),
        Some("/org/bluez/hci1".to_string())
    );
    // Otherwise the first, which sorts to hci0.
    assert_eq!(
        choose_adapter(&adapters, None, Some("hci7")),
        Some("/org/bluez/hci0".to_string())
    );
    assert_eq!(choose_adapter(&vec![], Some("/org/bluez/hci0".to_string()), None), None);
}

#[test]
fn children_lie_below_their_parent_path() {
    let device = "/org/bluez/hci0/dev_AA_BB_CC_DD_EE_FF";
    assert!(is_child(&format!("{device}/service0010"), device));
    assert!(is_child(&format!("{device}/service0010/char0011"), device));
    assert!(!is_child(device, device));
    assert!(!is_child("/org/bluez/hci0/dev_AA_BB_CC_DD_EE_FF0/service0010", device));
    assert!(!is_child("/org/bluez", device));
}
