//! What BlueZ's signals mean for the tree and its listeners.

use bluewire::bluez::signals::{signal_events, tree_change, Event, TreeChange};
use bluewire::bluez::tree::Tree;
use bluewire::dbus::message::Message;
use bluewire::dbus::value::Value;

const DEVICE: &str = "/org/bluez/hci0/dev_AA_BB_CC_DD_EE_FF";

fn interfaces_added(path: &str, interfaces: Vec<(String, Value)>) -> Message {
    Message::signal("/", "org.freedesktop.DBus.ObjectManager", "InterfacesAdded").with_body(vec![
        Value::ObjectPath(path.to_string()),
        Value::dict(interfaces),
    ])
}

fn interfaces_removed(path: &str, names: Vec<String>) -> Message {
    Message::signal("/", "org.freedesktop.DBus.ObjectManager", "InterfacesRemoved").with_body(
        vec![Value::ObjectPath(path.to_string()), Value::string_array(names)],
    )
}

fn properties_changed(path: &str, interface: &str, changed: Vec<(String, Value)>) -> Message {
    Message::signal(path, "org.freedesktop.DBus.Properties", "PropertiesChanged").with_body(vec![
        Value::Str(interface.to_string()),
        Value::dict(changed),
        Value::string_array(vec![]),
    ])
}

fn find<'a>(entries: &'a [(String, Value)], key: &str) -> Option<&'a Value> {
    entries.iter().find(|(k, _)| k == key).map(|(_, v)| v)
}

#[test]
fn a_device_appearing_is_a_sighting_with_its_properties() {
    let props = Value::dict(vec![("RSSI".to_string(), Value::Int16(-60))]);
    let m = interfaces_added(DEVICE, vec![("org.bluez.Device1".to_string(), props)]);
    let events = signal_events(&m);
    assert_eq!(events.len(), 1);
    match &events[0] {
        Event::DeviceSeen { path, properties } => {
            assert_eq!(&**path, DEVICE);
            assert_eq!(properties.len(), 1);
            assert_eq!(find(properties, "RSSI").unwrap().as_i64(), Some(-60));
        }
        other => panic!("unexpected {other:?}"),
    }
}

#[test]
fn a_service_appearing_changes_its_devices_services() {
    let service = format!("{DEVICE}/service0010");
    let m = interfaces_added(
        &service,
        vec![("org.bluez.GattService1".to_string(), Value::dict(vec![]))],
    );
    let events = signal_events(&m);
    assert_eq!(events.len(), 1);
    match &events[0] {
        Event::ServicesChanged { path } => assert_eq!(&**path, DEVICE),
        other => panic!("unexpected {other:?}"),
    }
}

#[test]
fn a_device_going_is_a_removal() {
    let m = interfaces_removed(DEVICE, vec!["org.bluez.Device1".to_string()]);
    let events = signal_events(&m);
    assert_eq!(events.len(), 1);
    assert!(matches!(&events[0], Event::DeviceRemoved { path } if &**path == DEVICE));
}

#[test]
fn losing_another_interface_is_no_removal() {
    let m = interfaces_removed(DEVICE, vec!["org.bluez.Battery1".to_string()]);
    assert!(signal_events(&m).is_empty());
}

#[test]
fn a_service_going_changes_its_devices_services_and_removes_no_device() {
    let service = format!("{DEVICE}/service0010");
    let m = interfaces_removed(&service, vec!["org.bluez.GattService1".to_string()]);
    let events = signal_events(&m);
    assert_eq!(events.len(), 1);
    assert!(matches!(&events[0], Event::ServicesChanged { path } if &**path == DEVICE));
}

#[test]
fn device_property_changes_come_in_order() {
    let m = properties_changed(
        DEVICE,
        "org.bluez.Device1",
        vec![
            ("Connected".to_string(), Value::Variant(Box::new(Value::Bool(true)))),
            ("ServicesResolved".to_string(), Value::Variant(Box::new(Value::Bool(true)))),
            ("RSSI".to_string(), Value::Variant(Box::new(Value::Int16(-40)))),
        ],
    );
    let events = signal_events(&m);
    assert_eq!(events.len(), 3);
    assert!(matches!(&events[0], Event::Connected { path } if &**path == DEVICE));
    assert!(matches!(&events[1], Event::ServicesResolved { .. }));
    match &events[2] {
        Event::DeviceSeen { properties, .. } => assert_eq!(properties.len(), 3),
        other => panic!("unexpected {other:?}"),
    }
}

#[test]
fn a_disconnection_is_reported() {
    let m = properties_changed(
        DEVICE,
        "org.bluez.Device1",
        vec![("Connected".to_string(), Value::Variant(Box::new(Value::Bool(false))))],
    );
    let events = signal_events(&m);
    assert_eq!(events.len(), 1);
    assert!(matches!(&events[0], Event::Disconnected { .. }));
}

#[test]
fn a_characteristic_value_is_a_notification() {
    let ch = format!("{DEVICE}/service0010/char0011");
    let m = properties_changed(
        &ch,
        "org.bluez.GattCharacteristic1",
        vec![("Value".to_string(), Value::Variant(Box::new(Value::bytes(&[0x5B, 0x01]))))],
    );
    let events = signal_events(&m);
    assert_eq!(events.len(), 1);
    match &events[0] {
        Event::CharacteristicValue { path, value } => {
            assert_eq!(&**path, ch.as_str());
            assert_eq!(value, &vec![0x5B, 0x01]);
        }
        other => panic!("unexpected {other:?}"),
    }
}

#[test]
fn the_adapter_powering_down_is_reported() {
    let m = properties_changed(
        "/org/bluez/hci0",
        "org.bluez.Adapter1",
        vec![("Powered".to_string(), Value::Variant(Box::new(Value::Bool(false))))],
    );
    let events = signal_events(&m);
    assert_eq!(events.len(), 1);
    assert!(matches!(
        &events[0],
        Event::AdapterChanged { powered: false, present: true }
    ));
}

#[test]
fn other_signals_mean_nothing() {
    let m = Message::signal("/", "org.freedesktop.DBus", "NameOwnerChanged");
    assert!(signal_events(&m).is_empty());
    assert!(matches!(tree_change(&m), TreeChange::Unchanged));
    // A signal missing its arguments is ignored too.
    let bare = Message::signal("/", "org.freedesktop.DBus.ObjectManager", "InterfacesAdded");
    assert!(signal_events(&bare).is_empty());
    assert!(matches!(tree_change(&bare), TreeChange::Unchanged));
}

#[test]
fn additions_carry_each_interfaces_properties() {
    let props = Value::dict(vec![("Name".to_string(), Value::Str("tag".into()))]);
    let m = interfaces_added(DEVICE, vec![("org.bluez.Device1".to_string(), props)]);
    match tree_change(&m) {
        TreeChange::Added { path, interfaces } => {
            assert_eq!(path, DEVICE);
            assert_eq!(interfaces.len(), 1);
            assert_eq!(interfaces[0].0, "org.bluez.Device1");
            assert_eq!(find(&interfaces[0].1, "Name").unwrap().as_str(), Some("tag"));
        }
        other => panic!("unexpected {other:?}"),
    }
}

#[test]
fn property_changes_carry_what_was_set_and_forgotten() {
    let m = Message::signal(DEVICE, "org.freedesktop.DBus.Properties", "PropertiesChanged")
        .with_body(vec![
            Value::Str("org.bluez.Device1".into()),
            Value::dict(vec![("RSSI".to_string(), Value::Int16(-70))]),
            Value::string_array(vec!["TxPower".to_string()]),
        ]);
    match tree_change(&m) {
        TreeChange::Changed { path, interface, changed, invalidated } => {
            assert_eq!(path, DEVICE);
            assert_eq!(interface, "org.bluez.Device1");
            assert_eq!(changed.len(), 1);
            assert_eq!(invalidated, vec!["TxPower".to_string()]);
        }
        other => panic!("unexpected {other:?}"),
    }
}

#[test]
fn removals_carry_the_interface_names() {
    let m = interfaces_removed(DEVICE, vec!["org.bluez.Device1".to_string()]);
    match tree_change(&m) {
        TreeChange::Removed { path, names } => {
            assert_eq!(path, DEVICE);
            assert_eq!(names, vec!["org.bluez.Device1".to_string()]);
        }
        other => panic!("unexpected {other:?}"),
    }
}

#[test]
fn as_map_keeps_the_last_value_of_a_repeated_key() {
    let d = Value::dict(vec![
        ("k".to_string(), Value::Uint32(1)),
        ("j".to_string(), Value::Uint32(2)),
        ("k".to_string(), Value::Uint32(3)),
    ]);
    let m = d.as_map();
    assert_eq!(m.len(), 2);
    assert_eq!(find(&m, "k").unwrap().as_u64(), Some(3));
    assert_eq!(find(&m, "j").unwrap().as_u64(), Some(2));
    assert!(Value::Uint32(1).as_map().is_empty());
}

#[test]
fn the_tree_mirrors_what_the_signals_say() {
    let mut tree = Tree::new();
    let props = Value::dict(vec![
        ("Name".to_string(), Value::Str("tag".into())),
        ("RSSI".to_string(), Value::Int16(-60)),
    ]);
    let events = tree.on_signal(&interfaces_added(
        DEVICE,
        vec![("org.bluez.Device1".to_string(), props)],
    ));
    assert_eq!(events.len(), 1);
    assert_eq!(tree.paths_with("org.bluez.Device1"), vec![DEVICE.to_string()]);
    assert_eq!(
        tree.property(DEVICE, "org.bluez.Device1", "Name").unwrap().as_str(),
        Some("tag")
    );

    // A change sets what it names and forgets what it invalidates.
    let m = Message::signal(DEVICE, "org.freedesktop.DBus.Properties", "PropertiesChanged")
        .with_body(vec![
            Value::Str("org.bluez.Device1".into()),
            Value::dict(vec![("Connected".to_string(), Value::Bool(true))]),
            Value::string_array(vec!["RSSI".to_string()]),
        ]);
    let events = tree.on_signal(&m);
    assert!(matches!(&events[0], Event::Connected { .. }));
    assert_eq!(
        tree.property(DEVICE, "org.bluez.Device1", "Connected").unwrap().as_bool(),
        Some(true)
    );
    assert!(tree.property(DEVICE, "org.bluez.Device1", "RSSI").is_none());
    assert_eq!(
        tree.property(DEVICE, "org.bluez.Device1", "Name").unwrap().as_str(),
        Some("tag")
    );

    // A service below the device is one of its children.
    let service = format!("{DEVICE}/service0010");
    tree.on_signal(&interfaces_added(
        &service,
        vec![("org.bluez.GattService1".to_string(), Value::dict(vec![]))],
    ));
    assert_eq!(tree.children_with(DEVICE, "org.bluez.GattService1"), vec![service.clone()]);
    assert!(tree.children_with(&service, "org.bluez.GattService1").is_empty());

    // Removing the last interface drops the object, and says so.
    let events = tree.on_signal(&interfaces_removed(DEVICE, vec!["org.bluez.Device1".to_string()]));
    assert!(matches!(&events[0], Event::DeviceRemoved { .. }));
    assert!(tree.paths_with("org.bluez.Device1").is_empty());
    assert!(tree.property(DEVICE, "org.bluez.Device1", "Name").is_none());
    let events = tree.on_signal(&interfaces_removed(
        &service,
        vec!["org.bluez.GattService1".to_string()],
    ));
    // The service's object goes from the tree, but it was no device.
    assert_eq!(events.len(), 1);
    assert!(matches!(&events[0], Event::ServicesChanged { path } if &**path == DEVICE));
    assert!(tree.property(&service, "org.bluez.GattService1", "UUID").is_none());
}

#[test]
fn the_tree_can_be_read_whole() {
    let device = Value::dict(vec![("Address".to_string(), Value::Str("AA:BB".into()))]);
    let adapter = Value::dict(vec![("Powered".to_string(), Value::Bool(true))]);
    let objects = Value::Array {
        element: "{oa{sa{sv}}}".into(),
        items: vec![
            Value::DictEntry(
                Box::new(Value::ObjectPath("/org/bluez/hci0".into())),
                Box::new(Value::Array {
                    element: "{sa{sv}}".into(),
                    items: vec![Value::DictEntry(
                        Box::new(Value::Str("org.bluez.Adapter1".into())),
                        Box::new(adapter),
                    )],
                }),
            ),
            Value::DictEntry(
                Box::new(Value::ObjectPath(DEVICE.into())),
                Box::new(Value::Array {
                    element: "{sa{sv}}".into(),
                    items: vec![Value::DictEntry(
                        Box::new(Value::Str("org.bluez.Device1".into())),
                        Box::new(device),
                    )],
                }),
            ),
        ],
    };
    let tree = Tree::from_managed(&objects);
    assert_eq!(tree.paths_with("org.bluez.Adapter1"), vec!["/org/bluez/hci0".to_string()]);
    assert_eq!(
        tree.property("/org/bluez/hci0", "org.bluez.Adapter1", "Powered").unwrap().as_bool(),
        Some(true)
    );
    assert_eq!(
        tree.property(DEVICE, "org.bluez.Device1", "Address").unwrap().as_str(),
        Some("AA:BB")
    );
    assert!(tree.property(DEVICE, "org.bluez.Adapter1", "Powered").is_none());
}
