//! GATT helpers.

use bluewire::att::{AttError, Characteristic, Descriptor, Include, Response, Service, Uuid};
use bluewire::gatt::{
    characteristics_step, descriptor_ranges, descriptors_step, find_cccd, first_step, included_service, includes_step,
    next_blob, prepared_writes, services_step, single_write_room, take_blob, Step,
};

#[test]
fn the_cccd_is_found_by_uuid() {
    let descriptors = vec![
        Descriptor {
            handle: 0x0010,
            uuid: Uuid::Short(0x2901),
        },
        Descriptor {
            handle: 0x0011,
            uuid: Uuid::Short(0x2902),
        },
    ];
    assert_eq!(find_cccd(&descriptors), Some(0x0011));
    assert_eq!(find_cccd(&[]), None);
}

fn service(start: u16, end: u16) -> Service {
    Service { start_handle: start, end_handle: end, uuid: Uuid::Short(0x180F) }
}

#[test]
fn service_discovery_asks_again_past_the_last_group() {
    let mut found = Vec::new();
    let step = services_step(Response::Services(vec![service(1, 5), service(6, 0x10)]), &mut found);
    assert!(matches!(step, Step::Ask(0x11)));
    assert_eq!(found.len(), 2);
    let step = services_step(Response::Services(vec![service(0x11, 0xFFFF)]), &mut found);
    assert!(matches!(step, Step::Finished));
    assert_eq!(found.len(), 3);
}

#[test]
fn not_found_ends_a_discovery_and_other_errors_refuse_it() {
    let mut found: Vec<Service> = Vec::new();
    let not_found = Response::Error { opcode: 0x10, handle: 1, error: AttError(0x0A) };
    assert!(matches!(services_step(not_found, &mut found), Step::Finished));
    let refused = Response::Error { opcode: 0x10, handle: 1, error: AttError(0x05) };
    assert!(matches!(services_step(refused, &mut found), Step::Refused(AttError(0x05))));
    assert!(matches!(
        services_step(Response::WriteComplete, &mut found),
        Step::Unexpected(Response::WriteComplete)
    ));
    // An empty batch answers nothing.
    assert!(matches!(
        services_step(Response::Services(vec![]), &mut found),
        Step::Unexpected(_)
    ));
    assert!(found.is_empty());
}

#[test]
fn characteristic_and_descriptor_discovery_stop_at_the_range_end() {
    let mut chars = Vec::new();
    let c = |handle| Characteristic {
        handle,
        value_handle: handle + 1,
        properties: 0x02,
        uuid: Uuid::Short(0x2A19),
    };
    let step = characteristics_step(Response::Characteristics(vec![c(2), c(4)]), 9, &mut chars);
    assert!(matches!(step, Step::Ask(5)));
    let step = characteristics_step(Response::Characteristics(vec![c(9)]), 9, &mut chars);
    assert!(matches!(step, Step::Finished));
    assert_eq!(chars.len(), 3);

    let mut descs = Vec::new();
    let d = |handle| Descriptor { handle, uuid: Uuid::Short(0x2902) };
    let step = descriptors_step(Response::Descriptors(vec![d(4), d(5)]), 7, &mut descs);
    assert!(matches!(step, Step::Ask(6)));
    assert_eq!(descs.len(), 2);
    assert!(matches!(first_step(8, 7), Step::Finished));
    assert!(matches!(first_step(7, 7), Step::Ask(7)));
}

#[test]
fn included_services_are_named_from_their_declarations() {
    let short = Include { handle: 3, start_handle: 0x20, end_handle: 0x2F, uuid: Some(Uuid::Short(0x180A)) };
    let long = Include { handle: 4, start_handle: 0x30, end_handle: 0x3F, uuid: None };
    let (step, batch) = includes_step(Response::Includes(vec![short.clone(), long.clone()]), 0x10);
    assert!(matches!(step, Step::Ask(5)));
    assert_eq!(batch.len(), 2);
    let (step, batch) = includes_step(Response::Includes(vec![]), 0x10);
    assert!(matches!(step, Step::Finished));
    assert!(batch.is_empty());

    let s = included_service(&short, None).unwrap();
    assert_eq!((s.start_handle, s.end_handle, s.uuid), (0x20, 0x2F, Uuid::Short(0x180A)));
    let wire: Vec<u8> = (0u8..16).collect();
    let s = included_service(&long, Some(&wire)).unwrap();
    assert_eq!(s.uuid, Uuid::parse(&wire).unwrap());
    assert_eq!(included_service(&long, None), None);
    assert_eq!(included_service(&long, Some(&[1, 2, 3])), None);
}

#[test]
fn a_read_follows_on_while_replies_fill_the_mtu() {
    assert_eq!(next_blob(22, 23, false), Some(22));
    assert_eq!(next_blob(21, 23, false), None);
    assert_eq!(next_blob(530, 23, false), Some(530));
    assert_eq!(next_blob(512, 23, true), None);
    assert_eq!(next_blob(44, 23, true), Some(44));

    let mut value = vec![1, 2];
    assert!(take_blob(&mut value, Some(Response::Value(vec![3]))));
    assert_eq!(value, vec![1, 2, 3]);
    assert!(!take_blob(&mut value, Some(Response::Value(vec![]))));
    assert!(!take_blob(&mut value, None));
    assert_eq!(value, vec![1, 2, 3]);
}

#[test]
fn long_writes_are_split_at_their_offsets() {
    assert_eq!(single_write_room(23), 20);
    assert_eq!(single_write_room(2), 0);
    let value: Vec<u8> = (0u8..40).collect();
    let pdus = prepared_writes(0x0021, &value, 23);
    assert_eq!(pdus.len(), 3);
    assert_eq!(pdus[0][..5], [0x16, 0x21, 0x00, 0, 0]);
    assert_eq!(pdus[0].len(), 5 + 18);
    assert_eq!(pdus[1][3..5], [18, 0]);
    assert_eq!(pdus[2][3..5], [36, 0]);
    assert_eq!(&pdus[2][5..], &value[36..]);
    assert!(prepared_writes(1, &[], 23).is_empty());
    // A tiny MTU still makes progress, one byte at a time.
    assert_eq!(prepared_writes(1, &[9, 9, 9], 5).len(), 3);
}

#[test]
fn each_characteristic_owns_the_handles_up_to_the_next() {
    let cs = vec![
        Characteristic { handle: 0x10, value_handle: 0x11, properties: 0x02, uuid: Uuid::Short(0x2a37) },
        Characteristic { handle: 0x14, value_handle: 0x15, properties: 0x10, uuid: Uuid::Short(0x2a38) },
    ];
    assert_eq!(descriptor_ranges(&cs, 0x1f), vec![(0x12, 0x13), (0x16, 0x1f)]);
    assert!(descriptor_ranges(&[], 0x1f).is_empty());
}
