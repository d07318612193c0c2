//! What a link's events do to the devices a session holds.

use bluewire::bluez::links::{link_event, LinkAction, Links};
use bluewire::bluez::path;
use bluewire::bluez::signals::Event;

const DEV_A: &str = "/org/bluez/hci0/dev_AA_BB_CC_DD_EE_FF";
const DEV_B: &str = "/org/bluez/hci0/dev_11_22_33_44_55_66";

fn two_devices() -> Links {
    let mut links = Links::new();
    links.add_device("a".to_string(), DEV_A.to_string());
    links.add_device("b".to_string(), DEV_B.to_string());
    links
}

fn id_of(action: &LinkAction) -> &str {
    match action {
        LinkAction::WakeConnected { id }
        | LinkAction::FailOutstanding { id }
        | LinkAction::MarkDisconnected { id }
        | LinkAction::WakeResolved { id }
        | LinkAction::BumpGeneration { id } => id,
        LinkAction::DropUnder { prefix } => prefix,
        LinkAction::DeliverValue { path, .. } => path,
    }
}

#[test]
fn connecting_wakes_the_connect_waiters() {
    let mut links = two_devices();
    let actions = link_event(&mut links, &Event::Connected { path: path(DEV_B) });
    assert_eq!(actions.len(), 1);
    assert!(matches!(actions[0], LinkAction::WakeConnected { .. }));
    assert_eq!(id_of(&actions[0]), "b");
}

#[test]
fn a_disconnect_fails_requests_and_drops_sockets_under_the_device() {
    let mut links = two_devices();
    let a_char = format!("{DEV_A}/service0010/char0011");
    let b_char = format!("{DEV_B}/service0010/char0011");
    links.add_write_socket(a_char.clone());
    links.add_write_socket(b_char.clone());
    link_event(&mut links, &Event::Connected { path: path(DEV_A) });
    let actions = link_event(&mut links, &Event::Disconnected { path: path(DEV_A) });
    assert_eq!(actions.len(), 3);
    assert!(matches!(actions[0], LinkAction::FailOutstanding { .. }));
    assert_eq!(id_of(&actions[0]), "a");
    assert!(matches!(actions[1], LinkAction::DropUnder { .. }));
    assert_eq!(id_of(&actions[1]), DEV_A);
    assert!(matches!(actions[2], LinkAction::MarkDisconnected { .. }));
    assert_eq!(id_of(&actions[2]), "a");
    assert!(!links.has_write_socket(&a_char));
    assert!(links.has_write_socket(&b_char));
}

#[test]
fn a_second_resolution_invalidates_handles() {
    let mut links = two_devices();
    let first = link_event(&mut links, &Event::ServicesResolved { path: path(DEV_A) });
    assert_eq!(first.len(), 1);
    assert!(matches!(first[0], LinkAction::WakeResolved { .. }));
    let second = link_event(&mut links, &Event::ServicesResolved { path: path(DEV_A) });
    assert_eq!(second.len(), 2);
    assert!(matches!(second[0], LinkAction::BumpGeneration { .. }));
    assert_eq!(id_of(&second[0]), "a");
    assert!(matches!(second[1], LinkAction::WakeResolved { .. }));
}

#[test]
fn services_changing_before_the_first_resolution_is_no_change() {
    let mut links = two_devices();
    assert!(link_event(&mut links, &Event::ServicesChanged { path: path(DEV_A) }).is_empty());
    link_event(&mut links, &Event::ServicesResolved { path: path(DEV_A) });
    let after = link_event(&mut links, &Event::ServicesChanged { path: path(DEV_A) });
    assert_eq!(after.len(), 1);
    assert!(matches!(after[0], LinkAction::BumpGeneration { .. }));
}

#[test]
fn after_a_reconnect_the_next_resolution_is_a_first_one() {
    let mut links = two_devices();
    link_event(&mut links, &Event::ServicesResolved { path: path(DEV_A) });
    link_event(&mut links, &Event::Disconnected { path: path(DEV_A) });
    link_event(&mut links, &Event::Connected { path: path(DEV_A) });
    let actions = link_event(&mut links, &Event::ServicesResolved { path: path(DEV_A) });
    assert_eq!(actions.len(), 1);
    assert!(matches!(actions[0], LinkAction::WakeResolved { .. }));
}

#[test]
fn events_for_a_device_not_held_change_nothing() {
    let mut links = two_devices();
    let other = "/org/bluez/hci0/dev_00_00_00_00_00_01";
    assert!(link_event(&mut links, &Event::Connected { path: path(other) }).is_empty());
    assert!(link_event(&mut links, &Event::Disconnected { path: path(other) }).is_empty());
    assert!(link_event(&mut links, &Event::ServicesResolved { path: path(other) }).is_empty());
}

#[test]
fn a_characteristic_value_goes_to_its_subscribers() {
    let mut links = two_devices();
    let c = format!("{DEV_A}/service0010/char0011");
    let actions =
        link_event(&mut links, &Event::CharacteristicValue { path: path(&c), value: vec![1, 2] });
    assert_eq!(actions.len(), 1);
    match &actions[0] {
        LinkAction::DeliverValue { path, value } => {
            assert_eq!(path, &c);
            assert_eq!(value, &vec![1, 2]);
        }
        other => panic!("unexpected {other:?}"),
    }
}
