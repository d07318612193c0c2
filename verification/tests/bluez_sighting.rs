//! Reading an advertisement off a device object's properties.

use bluewire::bluez::sighting::{merged_properties, Sighting};
use bluewire::bluez::tree::Tree;
use bluewire::dbus::message::Message;
use bluewire::dbus::value::Value;

const DEVICE: &str = "/org/bluez/hci0/dev_AA_BB_CC_DD_EE_FF";

fn s(t: &str) -> String {
    t.to_string()
}

fn entry(k: Value, v: Value) -> Value {
    Value::DictEntry(Box::new(k), Box::new(v))
}

fn full() -> Vec<(String, Value)> {
    vec![
        (s("Address"), Value::Str(s("AA:BB:CC:DD:EE:FF"))),
        (s("Name"), Value::Str(s("tag"))),
        (s("Alias"), Value::Str(s("alias"))),
        (s("TxPower"), Value::Int16(-8)),
        (s("Appearance"), Value::Uint16(0x0341)),
        (s("RSSI"), Value::Int16(-60)),
        (s("UUIDs"), Value::string_array(vec![s("0000180d-0000-1000-8000-00805f9b34fb")])),
        (
            s("ManufacturerData"),
            Value::Array {
                element: s("{qv}"),
                items: vec![
                    entry(Value::Uint16(0x004c), Value::Variant(Box::new(Value::bytes(&[1, 2])))),
                    entry(Value::Str(s("not a company")), Value::bytes(&[3])),
                    entry(Value::Uint16(0x0006), Value::Variant(Box::new(Value::Uint32(5)))),
                ],
            },
        ),
        (
            s("ServiceData"),
            Value::Array {
                element: s("{sv}"),
                items: vec![
                    entry(Value::Str(s("180d")), Value::Variant(Box::new(Value::bytes(&[9])))),
                    entry(Value::Str(s("180f")), Value::Variant(Box::new(Value::Bool(true)))),
                ],
            },
        ),
    ]
}

#[test]
fn a_sighting_reads_every_advertised_field() {
    let sighting = Sighting::from_properties(&full()).unwrap();
    assert_eq!(sighting.address, "AA:BB:CC:DD:EE:FF");
    assert_eq!(sighting.local_name.as_deref(), Some("tag"));
    assert_eq!(sighting.tx_power, Some(-8));
    assert_eq!(sighting.appearance, Some(0x0341));
    assert_eq!(sighting.rssi, -60);
    assert_eq!(sighting.service_uuids, vec![s("0000180d-0000-1000-8000-00805f9b34fb")]);
    assert_eq!(sighting.manufacturer_data, vec![(0x004c, vec![1, 2])]);
    assert_eq!(sighting.service_data, vec![(s("180d"), vec![9])]);
}

#[test]
fn a_sighting_falls_back_to_the_alias_and_a_silent_rssi() {
    let props = vec![
        (s("Address"), Value::Variant(Box::new(Value::Str(s("11:22:33:44:55:66"))))),
        (s("Alias"), Value::Str(s("alias"))),
    ];
    let sighting = Sighting::from_properties(&props).unwrap();
    assert_eq!(sighting.local_name.as_deref(), Some("alias"));
    assert_eq!(sighting.rssi, 127);
    assert_eq!(sighting.tx_power, None);
    assert_eq!(sighting.appearance, None);
    assert!(sighting.service_uuids.is_empty());
    assert!(sighting.manufacturer_data.is_empty());
    assert!(sighting.service_data.is_empty());
}

#[test]
fn a_name_that_is_not_text_hides_the_alias() {
    let props = vec![
        (s("Address"), Value::Str(s("11:22:33:44:55:66"))),
        (s("Name"), Value::Uint32(7)),
        (s("Alias"), Value::Str(s("alias"))),
    ];
    assert_eq!(Sighting::from_properties(&props).unwrap().local_name, None);
}

#[test]
fn no_address_is_no_sighting() {
    assert!(Sighting::from_properties(&vec![(s("Name"), Value::Str(s("tag")))]).is_none());
    assert!(Sighting::from_properties(&vec![(s("Address"), Value::Uint32(1))]).is_none());
}

#[test]
fn a_later_manufacturer_entry_is_kept_after_an_earlier() {
    let props = vec![
        (s("Address"), Value::Str(s("11:22:33:44:55:66"))),
        (
            s("ManufacturerData"),
            Value::Array {
                element: s("{qv}"),
                items: vec![
                    entry(Value::Uint16(7), Value::bytes(&[1])),
                    entry(Value::Uint16(7), Value::bytes(&[2])),
                ],
            },
        ),
    ];
    let sighting = Sighting::from_properties(&props).unwrap();
    assert_eq!(sighting.manufacturer_data, vec![(7, vec![1]), (7, vec![2])]);
}

#[test]
fn changes_are_laid_over_what_was_known() {
    let base = vec![(s("Address"), Value::Str(s("A"))), (s("RSSI"), Value::Int16(-70))];
    let changes = vec![(s("RSSI"), Value::Int16(-40)), (s("Name"), Value::Str(s("tag")))];
    let merged = merged_properties(base, &changes);
    assert_eq!(merged.len(), 3);
    let rssi = merged.iter().find(|(k, _)| k == "RSSI").unwrap();
    assert_eq!(rssi.1, Value::Int16(-40));
    let address = merged.iter().find(|(k, _)| k == "Address").unwrap();
    assert_eq!(address.1, Value::Str(s("A")));
    assert!(merged.iter().any(|(k, _)| k == "Name"));
}

#[test]
fn the_tree_gives_an_interfaces_properties() {
    let mut tree = Tree::new();
    let added = Message::signal("/", "org.freedesktop.DBus.ObjectManager", "InterfacesAdded")
        .with_body(vec![
            Value::ObjectPath(DEVICE.to_string()),
            Value::dict(vec![(
                s("org.bluez.Device1"),
                Value::dict(vec![(s("Address"), Value::Str(s("AA:BB:CC:DD:EE:FF")))]),
            )]),
        ]);
    tree.on_signal(&added);
    let props = tree.interface_properties(DEVICE, "org.bluez.Device1");
    assert_eq!(props.len(), 1);
    assert_eq!(props[0].0, "Address");
    assert_eq!(props[0].1.as_str(), Some("AA:BB:CC:DD:EE:FF"));
    assert!(tree.interface_properties(DEVICE, "org.bluez.Adapter1").is_empty());
    assert!(tree.interface_properties("/nowhere", "org.bluez.Device1").is_empty());
    // A sighting of the cached device, with a fresh RSSI laid over it.
    let merged = merged_properties(props, &vec![(s("RSSI"), Value::Int16(-50))]);
    let sighting = Sighting::from_properties(&merged).unwrap();
    assert_eq!(sighting.address, "AA:BB:CC:DD:EE:FF");
    assert_eq!(sighting.rssi, -50);
}

fn added(path: &str, interface: &str, props: Vec<(String, Value)>) -> Message {
    Message::signal("/", "org.freedesktop.DBus.ObjectManager", "InterfacesAdded").with_body(vec![
        Value::ObjectPath(path.to_string()),
        Value::dict(vec![(interface.to_string(), Value::dict(props))]),
    ])
}

#[test]
fn children_come_with_their_uuids() {
    let mut tree = Tree::new();
    let service = format!("{DEVICE}/service0010");
    tree.on_signal(&added(&service, "org.bluez.GattService1", vec![(s("UUID"), Value::Str(s("180d")))]));
    tree.on_signal(&added(
        &format!("{service}/char0011"),
        "org.bluez.GattCharacteristic1",
        vec![(s("UUID"), Value::Str(s("2a37")))],
    ));
    tree.on_signal(&added(
        &format!("{service}/char0014"),
        "org.bluez.GattCharacteristic1",
        vec![(s("Flags"), Value::string_array(vec![s("read")]))],
    ));
    let children = tree.children_with_uuids(&service, "org.bluez.GattCharacteristic1");
    assert_eq!(children, vec![(format!("{service}/char0011"), s("2a37"))]);
}

#[test]
fn included_services_are_resolved_by_path() {
    let mut tree = Tree::new();
    let outer = format!("{DEVICE}/service0010");
    let inner = format!("{DEVICE}/service0020");
    tree.on_signal(&added(&inner, "org.bluez.GattService1", vec![(s("UUID"), Value::Str(s("180f")))]));
    tree.on_signal(&added(
        &outer,
        "org.bluez.GattService1",
        vec![
            (s("UUID"), Value::Str(s("180d"))),
            (
                s("Includes"),
                Value::Array {
                    element: s("o"),
                    items: vec![
                        Value::ObjectPath(inner.clone()),
                        Value::ObjectPath(format!("{DEVICE}/service0030")),
                    ],
                },
            ),
        ],
    ));
    assert_eq!(tree.included_services(&outer), vec![(inner.clone(), s("180f"))]);
    assert!(tree.included_services(&inner).is_empty());
}

#[test]
fn an_adapter_is_described_from_the_tree() {
    let mut tree = Tree::new();
    tree.on_signal(&added(
        "/org/bluez/hci0",
        "org.bluez.Adapter1",
        vec![
            (s("Alias"), Value::Str(s("laptop"))),
            (s("Address"), Value::Str(s("00:11:22:33:44:55"))),
            (s("Powered"), Value::Bool(true)),
        ],
    ));
    let a = tree.adapter_record("/org/bluez/hci0", Some("/org/bluez/hci0"));
    assert_eq!(a.id, "hci0");
    assert_eq!(a.name.as_deref(), Some("laptop"));
    assert_eq!(a.address.as_deref(), Some("00:11:22:33:44:55"));
    assert!(a.powered && a.is_default);
    let b = tree.adapter_record("/org/bluez/hci1", Some("/org/bluez/hci0"));
    assert_eq!(b.id, "hci1");
    assert!(b.name.is_none() && b.address.is_none() && !b.powered && !b.is_default);
}
