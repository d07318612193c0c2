use bluewire::att::AttError;
use bluewire::dbus::message::Message;
use bluewire::dbus::value::Value;
use bluewire::peripheral::handler::{
    classify, request_offset, written_bytes, AnswerOnce, Call, Handling, ReadOutcome, WriteOutcome,
};
use bluewire::peripheral::objects::{
    advertisement, att_error_name, dict_of, flags_for, interfaces_of, properties,
    CharacteristicDefinition, CharacteristicState, DescriptorDefinition, DescriptorState,
    ServiceState,
};
use bluewire::peripheral::{option_u64, DEFAULT_NOTIFY_LEN};

fn s(t: &str) -> String {
    t.to_string()
}

fn entry(k: Value, v: Value) -> Value {
    Value::DictEntry(Box::new(k), Box::new(v))
}

fn prop(name: &str, v: Value) -> Value {
    entry(Value::Str(s(name)), Value::Variant(Box::new(v)))
}

fn heart_rate() -> ServiceState {
    ServiceState::new(
        0,
        s("0000180d-0000-1000-8000-00805f9b34fb"),
        true,
        vec![CharacteristicDefinition {
            uuid: s("00002a37-0000-1000-8000-00805f9b34fb"),
            properties: 0x02 | 0x10,
            value: Some(vec![0x06, 0x48]),
            descriptors: vec![DescriptorDefinition {
                uuid: s("00002901-0000-1000-8000-00805f9b34fb"),
                value: b"bpm".to_vec(),
            }],
        }],
    )
}

fn call(path: &str, interface: &str, member: &str, body: Vec<Value>) -> Message {
    Message::call("org.bluez", path, interface, member).with_body(body)
}

#[test]
fn dict_of_wraps_each_pair_in_an_entry() {
    let v = dict_of("{sv}", vec![(Value::Str(s("a")), Value::Uint32(1))]);
    assert_eq!(
        v,
        Value::Array { element: s("{sv}"), items: vec![entry(Value::Str(s("a")), Value::Uint32(1))] }
    );
}

#[test]
fn properties_wraps_values_in_variants() {
    let v = properties(vec![(s("Powered"), Value::Bool(true)), (s("Name"), Value::Str(s("x")))]);
    assert_eq!(
        v,
        Value::Array {
            element: s("{sv}"),
            items: vec![prop("Powered", Value::Bool(true)), prop("Name", Value::Str(s("x")))],
        }
    );
    assert_eq!(properties(Vec::new()).signature(), "a{sv}");
}

#[test]
fn interfaces_of_keys_by_interface_name() {
    let v = interfaces_of(vec![(s("org.bluez.GattService1"), properties(Vec::new()))]);
    assert_eq!(v.signature(), "a{sa{sv}}");
    assert_eq!(
        v,
        Value::Array {
            element: s("{sa{sv}}"),
            items: vec![entry(Value::Str(s("org.bluez.GattService1")), properties(Vec::new()))],
        }
    );
}

#[test]
fn flags_follow_the_property_bits() {
    assert_eq!(flags_for(0x02 | 0x08 | 0x04 | 0x10 | 0x20), vec![
        s("read"),
        s("write"),
        s("write-without-response"),
        s("notify"),
        s("indicate"),
    ]);
    assert_eq!(flags_for(0x10), vec![s("notify")]);
    assert!(flags_for(0x01 | 0x40).is_empty());
}

#[test]
fn att_errors_map_to_bluez_names() {
    assert_eq!(att_error_name(AttError(0x02)), "org.bluez.Error.NotPermitted");
    assert_eq!(att_error_name(AttError(0x03)), "org.bluez.Error.NotPermitted");
    assert_eq!(att_error_name(AttError(0x05)), "org.bluez.Error.NotPaired");
    assert_eq!(att_error_name(AttError(0x0F)), "org.bluez.Error.NotPaired");
    assert_eq!(att_error_name(AttError(0x08)), "org.bluez.Error.NotAuthorized");
    assert_eq!(att_error_name(AttError(0x06)), "org.bluez.Error.NotSupported");
    assert_eq!(att_error_name(AttError(0x07)), "org.bluez.Error.InvalidOffset");
    assert_eq!(att_error_name(AttError(0x0D)), "org.bluez.Error.InvalidValueLength");
    assert_eq!(att_error_name(AttError(0x0E)), "org.bluez.Error.Failed");
}

#[test]
fn a_published_service_is_laid_out_under_its_index() {
    let service = ServiceState::new(
        3,
        s("180f"),
        false,
        vec![
            CharacteristicDefinition {
                uuid: s("2a19"),
                properties: 0x02,
                value: None,
                descriptors: Vec::new(),
            },
            CharacteristicDefinition {
                uuid: s("2a1a"),
                properties: 0x08,
                value: Some(vec![1]),
                descriptors: vec![
                    DescriptorDefinition { uuid: s("2901"), value: vec![9] },
                    DescriptorDefinition { uuid: s("2904"), value: vec![] },
                ],
            },
        ],
    );
    assert_eq!(service.path, "/io/webbluetooth/peripheral/service3");
    assert!(!service.primary);
    let c0 = &service.characteristics[0];
    assert_eq!(c0.path, "/io/webbluetooth/peripheral/service3/char0");
    assert_eq!(c0.flags, vec![s("read")]);
    assert!(c0.value.is_empty());
    assert!(c0.subscribers.is_empty());
    let c1 = &service.characteristics[1];
    assert_eq!(c1.path, "/io/webbluetooth/peripheral/service3/char1");
    assert_eq!(c1.value, vec![1]);
    assert_eq!(c1.descriptors[1].path, "/io/webbluetooth/peripheral/service3/char1/desc1");
    assert_eq!(c1.descriptors[0].value, vec![9]);
    assert_eq!(c1.descriptors[1].uuid, "2904");
}

#[test]
fn managed_objects_lists_every_object_in_tree_order() {
    let tree = vec![heart_rate()];
    let objects = ServiceState::managed_objects(&tree);
    assert_eq!(objects.signature(), "a{oa{sa{sv}}}");
    let Value::Array { items, .. } = &objects else { panic!("not an array") };
    let paths: Vec<String> = items
        .iter()
        .map(|e| match e {
            Value::DictEntry(k, _) => k.as_str().unwrap().to_string(),
            _ => panic!("not an entry"),
        })
        .collect();
    assert_eq!(paths, vec![
        s("/io/webbluetooth/peripheral/service0"),
        s("/io/webbluetooth/peripheral/service0/char0"),
        s("/io/webbluetooth/peripheral/service0/char0/desc0"),
    ]);
    let Value::DictEntry(_, interfaces) = &items[1] else { panic!() };
    let expected = interfaces_of(vec![(
        s("org.bluez.GattCharacteristic1"),
        properties(vec![
            (s("UUID"), Value::Str(s("00002a37-0000-1000-8000-00805f9b34fb"))),
            (s("Service"), Value::ObjectPath(s("/io/webbluetooth/peripheral/service0"))),
            (s("Flags"), Value::string_array(vec![s("read"), s("notify")])),
        ]),
    )]);
    assert_eq!(**interfaces, expected);
    let Value::DictEntry(_, descriptor) = &items[2] else { panic!() };
    let expected = interfaces_of(vec![(
        s("org.bluez.GattDescriptor1"),
        properties(vec![
            (s("UUID"), Value::Str(s("00002901-0000-1000-8000-00805f9b34fb"))),
            (s("Characteristic"), Value::ObjectPath(s("/io/webbluetooth/peripheral/service0/char0"))),
            (s("Flags"), Value::string_array(vec![s("read")])),
        ]),
    )]);
    assert_eq!(**descriptor, expected);
    assert_eq!(ServiceState::managed_objects(&Vec::new()).signature(), "a{oa{sa{sv}}}");
}

#[test]
fn objects_are_found_by_path() {
    let tree = vec![heart_rate(), ServiceState::new(1, s("180f"), true, vec![])];
    assert_eq!(
        ServiceState::characteristic_at(&tree, "/io/webbluetooth/peripheral/service0/char0"),
        Some((0, 0))
    );
    assert_eq!(ServiceState::characteristic_at(&tree, "/io/webbluetooth/peripheral/service0"), None);
    assert_eq!(
        ServiceState::descriptor_at(&tree, "/io/webbluetooth/peripheral/service0/char0/desc0"),
        Some((0, 0, 0))
    );
    assert_eq!(ServiceState::descriptor_at(&tree, "/io/webbluetooth/peripheral/service0/char0"), None);
}

#[test]
fn get_all_answers_for_characteristics_and_the_advertisement() {
    let tree = vec![heart_rate()];
    let ad = advertisement(vec![s("180d")], Some(s("pulse")));
    let props = ServiceState::properties_of(&tree, &ad, "/io/webbluetooth/peripheral/service0/char0");
    assert_eq!(
        props,
        properties(vec![
            (s("UUID"), Value::Str(s("00002a37-0000-1000-8000-00805f9b34fb"))),
            (s("Flags"), Value::string_array(vec![s("read"), s("notify")])),
            (s("Value"), Value::bytes(&[0x06, 0x48])),
        ])
    );
    let ad_props = ServiceState::properties_of(&tree, &ad, "/io/webbluetooth/peripheral/advertisement0");
    assert_eq!(ad_props, dict_of("{sv}", ad.clone()));
    assert_eq!(ServiceState::properties_of(&tree, &ad, "/elsewhere"), properties(Vec::new()));
}

#[test]
fn get_answers_a_characteristics_three_properties() {
    let tree = vec![heart_rate()];
    let path = "/io/webbluetooth/peripheral/service0/char0";
    assert_eq!(
        ServiceState::property(&tree, path, "UUID"),
        Some(Value::Str(s("00002a37-0000-1000-8000-00805f9b34fb")))
    );
    assert_eq!(ServiceState::property(&tree, path, "Value"), Some(Value::bytes(&[0x06, 0x48])));
    assert_eq!(
        ServiceState::property(&tree, path, "Flags"),
        Some(Value::string_array(vec![s("read"), s("notify")]))
    );
    assert_eq!(ServiceState::property(&tree, path, "Notifying"), None);
    assert_eq!(ServiceState::property(&tree, "/nowhere", "UUID"), None);
}

#[test]
fn the_advertisement_lists_what_it_was_given() {
    let bare = advertisement(Vec::new(), None);
    assert_eq!(bare, vec![(Value::Str(s("Type")), Value::Variant(Box::new(Value::Str(s("peripheral")))))]);
    let full = advertisement(vec![s("180d"), s("180f")], Some(s("pulse")));
    assert_eq!(full.len(), 3);
    assert_eq!(
        full[1],
        (
            Value::Str(s("ServiceUUIDs")),
            Value::Variant(Box::new(Value::string_array(vec![s("180d"), s("180f")])))
        )
    );
    assert_eq!(full[2], (Value::Str(s("LocalName")), Value::Variant(Box::new(Value::Str(s("pulse"))))));
}

#[test]
fn subscribing_records_a_central_and_stopping_clears_them() {
    let mut service = heart_rate();
    let c = &mut service.characteristics[0];
    let central = c.set_subscribed(true);
    assert_eq!(central.id(), "subscribed");
    assert_eq!(central.max_notification_length(), DEFAULT_NOTIFY_LEN);
    c.set_subscribed(true);
    assert_eq!(c.subscribers.len(), 2);
    c.set_subscribed(false);
    assert!(c.subscribers.is_empty());
}

#[test]
fn calls_are_classified_by_interface_and_member() {
    assert_eq!(classify("org.freedesktop.DBus.ObjectManager", "GetManagedObjects"), Call::ManagedObjects);
    assert_eq!(classify("org.freedesktop.DBus.Properties", "GetAll"), Call::AllProperties);
    assert_eq!(classify("org.freedesktop.DBus.Properties", "Get"), Call::Property);
    assert_eq!(classify("org.bluez.GattCharacteristic1", "ReadValue"), Call::ReadValue);
    assert_eq!(classify("org.bluez.GattCharacteristic1", "WriteValue"), Call::WriteValue);
    assert_eq!(classify("org.bluez.GattCharacteristic1", "StartNotify"), Call::StartNotify);
    assert_eq!(classify("org.bluez.GattCharacteristic1", "StopNotify"), Call::StopNotify);
    assert_eq!(classify("org.bluez.GattDescriptor1", "ReadValue"), Call::ReadDescriptor);
    assert_eq!(classify("org.bluez.LEAdvertisement1", "Release"), Call::Release);
    assert_eq!(classify("org.bluez.GattDescriptor1", "WriteValue"), Call::Unknown);
}

fn reply(h: Handling) -> Result<Vec<Value>, (String, String)> {
    match h {
        Handling::Reply(r) => r,
        Handling::Characteristic { .. } => panic!("handed to the application"),
    }
}

#[test]
fn calls_are_answered_from_the_tree() {
    let tree = vec![heart_rate()];
    let ad = advertisement(Vec::new(), None);
    let root = "/io/webbluetooth/peripheral";
    let managed = reply(ServiceState::handle(
        &tree,
        &ad,
        &call(root, "org.freedesktop.DBus.ObjectManager", "GetManagedObjects", vec![]),
    ));
    assert_eq!(managed, Ok(vec![ServiceState::managed_objects(&tree)]));

    let char0 = "/io/webbluetooth/peripheral/service0/char0";
    let get = reply(ServiceState::handle(
        &tree,
        &ad,
        &call(char0, "org.freedesktop.DBus.Properties", "Get", vec![
            Value::Str(s("org.bluez.GattCharacteristic1")),
            Value::Str(s("Value")),
        ]),
    ));
    assert_eq!(get, Ok(vec![Value::Variant(Box::new(Value::bytes(&[0x06, 0x48])))]));

    let missing = reply(ServiceState::handle(
        &tree,
        &ad,
        &call(char0, "org.freedesktop.DBus.Properties", "Get", vec![
            Value::Str(s("org.bluez.GattCharacteristic1")),
            Value::Str(s("Nope")),
        ]),
    ));
    assert_eq!(
        missing,
        Err((
            s("org.freedesktop.DBus.Error.InvalidArgs"),
            format!("no property Nope at {char0}")
        ))
    );

    let desc = reply(ServiceState::handle(
        &tree,
        &ad,
        &call(
            "/io/webbluetooth/peripheral/service0/char0/desc0",
            "org.bluez.GattDescriptor1",
            "ReadValue",
            vec![],
        ),
    ));
    assert_eq!(desc, Ok(vec![Value::bytes(b"bpm")]));

    let no_desc = reply(ServiceState::handle(&tree, &ad, &call(char0, "org.bluez.GattDescriptor1", "ReadValue", vec![])));
    assert_eq!(no_desc, Err((s("org.bluez.Error.Failed"), format!("no descriptor at {char0}"))));

    let release = reply(ServiceState::handle(
        &tree,
        &ad,
        &call("/io/webbluetooth/peripheral/advertisement0", "org.bluez.LEAdvertisement1", "Release", vec![]),
    ));
    assert_eq!(release, Ok(vec![]));

    let unknown = reply(ServiceState::handle(&tree, &ad, &call(char0, "org.example.Thing", "Poke", vec![])));
    assert_eq!(
        unknown,
        Err((s("org.freedesktop.DBus.Error.UnknownMethod"), s("org.example.Thing.Poke is not implemented")))
    );
}

#[test]
fn characteristic_calls_go_to_the_application() {
    let tree = vec![heart_rate()];
    let ad = advertisement(Vec::new(), None);
    let char0 = "/io/webbluetooth/peripheral/service0/char0";
    match ServiceState::handle(&tree, &ad, &call(char0, "org.bluez.GattCharacteristic1", "ReadValue", vec![])) {
        Handling::Characteristic { call, service, characteristic } => {
            assert_eq!((call, service, characteristic), (Call::ReadValue, 0, 0));
        }
        Handling::Reply(_) => panic!("answered without the application"),
    }
    let gone = reply(ServiceState::handle(
        &tree,
        &ad,
        &call("/io/webbluetooth/peripheral/service9/char0", "org.bluez.GattCharacteristic1", "StartNotify", vec![]),
    ));
    assert_eq!(
        gone,
        Err((s("org.bluez.Error.Failed"), s("no characteristic at /io/webbluetooth/peripheral/service9/char0")))
    );
}

fn options(entries: Vec<(String, Value)>) -> Value {
    Value::dict(entries)
}

#[test]
fn request_options_give_offset_and_bytes() {
    let o = options(vec![(s("offset"), Value::Uint16(4)), (s("mtu"), Value::Uint16(185))]);
    assert_eq!(request_offset(Some(&o)), 4);
    assert_eq!(request_offset(None), 0);
    assert_eq!(request_offset(Some(&options(vec![(s("offset"), Value::Str(s("4")))]))), 0);
    assert_eq!(option_u64(Some(&o), "mtu"), Some(185));
    assert_eq!(option_u64(Some(&o), "device"), None);
    assert_eq!(written_bytes(Some(&Value::bytes(&[1, 2, 3]))), vec![1, 2, 3]);
    assert!(written_bytes(Some(&Value::Str(s("x")))).is_empty());
    assert!(written_bytes(None).is_empty());
}

fn characteristic() -> CharacteristicState {
    CharacteristicState {
        uuid: s("2a37"),
        path: s("/io/webbluetooth/peripheral/service0/char0"),
        flags: vec![s("read")],
        value: vec![7],
        subscribers: Vec::new(),
        descriptors: vec![DescriptorState { uuid: s("2901"), path: s("d"), value: vec![] }],
    }
}

#[test]
fn a_read_reply_follows_what_the_application_did() {
    let mut c = characteristic();
    assert_eq!(c.finish_read(ReadOutcome::NoListener), Ok(vec![Value::bytes(&[7])]));
    assert_eq!(c.finish_read(ReadOutcome::Answered(vec![8, 9])), Ok(vec![Value::bytes(&[8, 9])]));
    assert_eq!(c.value, vec![8, 9]);
    assert_eq!(
        c.finish_read(ReadOutcome::Refused(AttError(0x02))),
        Err((s("org.bluez.Error.NotPermitted"), s("read refused: read not permitted (0x02)")))
    );
    assert_eq!(
        c.finish_read(ReadOutcome::Unanswered(s("timed out waiting on channel"))),
        Err((
            s("org.bluez.Error.Failed"),
            s("the application did not answer the read: timed out waiting on channel")
        ))
    );
    assert_eq!(c.value, vec![8, 9]);
}

#[test]
fn a_write_reply_follows_what_the_application_did() {
    let mut c = characteristic();
    assert_eq!(c.finish_write(vec![1], WriteOutcome::Accepted), Ok(vec![]));
    assert_eq!(c.value, vec![1]);
    assert_eq!(c.finish_write(vec![2], WriteOutcome::NoListener), Ok(vec![]));
    assert_eq!(c.value, vec![2]);
    assert_eq!(
        c.finish_write(vec![3], WriteOutcome::Refused(AttError(0x0D))),
        Err((
            s("org.bluez.Error.InvalidValueLength"),
            s("write refused: invalid attribute value length (0x0d)")
        ))
    );
    assert_eq!(
        c.finish_write(vec![4], WriteOutcome::Unanswered(s("gone"))),
        Err((s("org.bluez.Error.Failed"), s("the application did not answer the write: gone")))
    );
    assert_eq!(c.value, vec![2]);
}

#[test]
fn an_unanswered_request_is_refused_as_not_supported() {
    let mut dropped = AnswerOnce::new();
    assert_eq!(dropped.release(), Some(AttError(AttError::REQUEST_NOT_SUPPORTED)));
    assert_eq!(dropped.release(), None);

    let mut answered = AnswerOnce::new();
    assert!(answered.claim());
    assert!(!answered.claim());
    assert_eq!(answered.release(), None);
}
