//! Publishing services through BlueZ's GATT manager.

use bluewire::peripheral::objects::{CharacteristicDefinition, ServiceState};
use bluewire::peripheral::publish::{
    begin_publish, finish_publish, ManagerCall, PublishRefused, Registration,
};

fn one_characteristic() -> Vec<CharacteristicDefinition> {
    vec![CharacteristicDefinition {
        uuid: "00002a37-0000-1000-8000-00805f9b34fb".to_string(),
        properties: 0x10,
        value: None,
        descriptors: vec![],
    }]
}

fn publish(reg: &mut Registration, services: &mut Vec<ServiceState>) -> Vec<ManagerCall> {
    begin_publish(
        reg,
        services,
        true,
        "0000180d-0000-1000-8000-00805f9b34fb".to_string(),
        true,
        one_characteristic(),
    )
    .unwrap()
}

#[test]
fn publishing_while_powered_off_is_refused() {
    let mut reg = Registration::new();
    let mut services = Vec::new();
    let r = begin_publish(
        &mut reg,
        &mut services,
        false,
        "0000180d-0000-1000-8000-00805f9b34fb".to_string(),
        true,
        one_characteristic(),
    );
    assert_eq!(r, Err(PublishRefused::PoweredOff));
    assert!(services.is_empty());
    assert_eq!(reg, Registration::new());
}

#[test]
fn the_first_publish_registers_and_later_ones_re_register() {
    let mut reg = Registration::new();
    let mut services = Vec::new();
    assert_eq!(publish(&mut reg, &mut services), vec![ManagerCall::RegisterApplication]);
    assert!(reg.registered);
    assert_eq!(services[0].path, "/io/webbluetooth/peripheral/service0");
    assert_eq!(
        services[0].characteristics[0].path,
        "/io/webbluetooth/peripheral/service0/char0"
    );
    assert_eq!(
        publish(&mut reg, &mut services),
        vec![ManagerCall::UnregisterApplication, ManagerCall::RegisterApplication]
    );
    assert_eq!(services.len(), 2);
    assert_eq!(services[1].path, "/io/webbluetooth/peripheral/service1");
    assert_eq!(reg.next_index, 2);
}

#[test]
fn a_refused_registration_takes_the_service_out_again() {
    let mut reg = Registration::new();
    let mut services = Vec::new();
    publish(&mut reg, &mut services);
    finish_publish(&mut reg, &mut services, "/io/webbluetooth/peripheral/service0", true);
    publish(&mut reg, &mut services);
    finish_publish(&mut reg, &mut services, "/io/webbluetooth/peripheral/service1", false);
    assert_eq!(services.len(), 1);
    assert_eq!(services[0].path, "/io/webbluetooth/peripheral/service0");
    assert!(!reg.registered);
    // The next publish registers from scratch, with a fresh index.
    assert_eq!(publish(&mut reg, &mut services), vec![ManagerCall::RegisterApplication]);
    assert_eq!(services[1].path, "/io/webbluetooth/peripheral/service2");
}
