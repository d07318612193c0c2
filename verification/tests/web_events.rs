//! Events the page pushes.

use bluewire::web::codec::Writer;
use bluewire::web::events::{clear_sink, decode, set_sink, Event, SinkSlot};
use bluewire::web::host::EventKind;
use std::cell::RefCell;
use std::rc::Rc;

#[test]
fn a_notification_round_trips() {
    let mut w = Writer::new();
    w.str("dev-1")
        .str("0000180f-0000-1000-8000-00805f9b34fb")
        .str("00002a19-0000-1000-8000-00805f9b34fb")
        .bytes(&[0x63]);

    assert_eq!(
        decode(EventKind::CharacteristicValue.code(), &w.finish()),
        Some(Event::CharacteristicValue {
            device: "dev-1".into(),
            service: "0000180f-0000-1000-8000-00805f9b34fb".into(),
            characteristic: "00002a19-0000-1000-8000-00805f9b34fb".into(),
            value: vec![0x63],
        })
    );
}

#[test]
fn an_advertisement_round_trips_with_its_optional_fields() {
    let mut w = Writer::new();
    w.str("dev-2")
        .option_str(Some("Thermometer"))
        .u32(-55i32 as u32)
        .bool(true)
        .u32(-4i32 as u32)
        .bool(false)
        .list(&["0000180d-0000-1000-8000-00805f9b34fb"], |w, s| {
            w.str(s);
        })
        .list(&[(0x004Cu16, vec![9u8])], |w, (c, d)| {
            w.u16(*c).bytes(d);
        })
        .list(
            &[("0000180f-0000-1000-8000-00805f9b34fb", vec![0x63u8])],
            |w, (u, d)| {
                w.str(u).bytes(d);
            },
        );

    let got = decode(EventKind::AdvertisementReceived.code(), &w.finish());
    assert_eq!(
        got,
        Some(Event::Advertisement {
            device: "dev-2".into(),
            name: Some("Thermometer".into()),
            rssi: -55,
            tx_power: Some(-4),
            appearance: None,
            uuids: vec!["0000180d-0000-1000-8000-00805f9b34fb".into()],
            manufacturer_data: vec![(0x004C, vec![9])],
            service_data: vec![("0000180f-0000-1000-8000-00805f9b34fb".into(), vec![0x63])],
        })
    );
}

#[test]
fn the_simple_events_round_trip() {
    let mut w = Writer::new();
    w.str("dev-3");
    let body = w.finish();
    assert_eq!(
        decode(EventKind::GattServerDisconnected.code(), &body),
        Some(Event::Disconnected {
            device: "dev-3".into()
        })
    );
    assert_eq!(
        decode(EventKind::ServiceChanged.code(), &body),
        Some(Event::ServiceChanged {
            device: "dev-3".into()
        })
    );

    let mut w = Writer::new();
    w.bool(true);
    assert_eq!(
        decode(EventKind::AvailabilityChanged.code(), &w.finish()),
        Some(Event::AvailabilityChanged { available: true })
    );
}

#[test]
fn a_malformed_event_is_rejected() {
    assert_eq!(decode(EventKind::GattServerDisconnected.code(), &[]), None);
    // Truncated mid-string.
    assert_eq!(
        decode(EventKind::CharacteristicValue.code(), &[5, 0, 0, 0, b'a']),
        None
    );
    // Unknown kind.
    assert_eq!(decode(999, &[]), None);
}

#[test]
fn an_event_with_bytes_left_over_is_rejected() {
    let mut w = Writer::new();
    w.str("dev-4").u32(0xDEAD);
    assert_eq!(
        decode(EventKind::GattServerDisconnected.code(), &w.finish()),
        None
    );
}

/// Delivers one event the way the page's entry point does: the sink is taken
/// out for the call and put back unless something replaced it meanwhile.
fn deliver(slot: &mut SinkSlot<Box<dyn Fn(Event)>>, kind: u32, body: &[u8]) {
    if let Some(event) = decode(kind, body) {
        if let Some(sink) = slot.take_for_delivery() {
            sink(event);
            slot.put_back(sink);
        }
    }
}

#[test]
fn events_reach_the_installed_sink() {
    let seen = Rc::new(RefCell::new(Vec::new()));
    let out = seen.clone();
    let mut slot: SinkSlot<Box<dyn Fn(Event)>> = SinkSlot::new();
    set_sink(&mut slot, Box::new(move |e| out.borrow_mut().push(e)));

    let mut w = Writer::new();
    w.str("dev-5");
    let body = w.finish();
    deliver(&mut slot, EventKind::GattServerDisconnected.code(), &body);

    assert_eq!(
        seen.borrow().as_slice(),
        &[Event::Disconnected {
            device: "dev-5".into()
        }]
    );
    clear_sink(&mut slot);
}

/// With no sink installed, an event is dropped rather than queued.
#[test]
fn an_event_with_no_sink_is_dropped() {
    let mut slot: SinkSlot<Box<dyn Fn(Event)>> = SinkSlot::new();
    clear_sink(&mut slot);
    let mut w = Writer::new();
    w.str("dev-6");
    let body = w.finish();
    deliver(&mut slot, EventKind::ServiceChanged.code(), &body);
    assert!(slot.take_for_delivery().is_none());
}

/// A sink installed while another was out for a delivery is the one that
/// stays; clearing while it is out leaves none.
#[test]
fn a_sink_replaced_during_delivery_stays_replaced() {
    let mut slot: SinkSlot<u32> = SinkSlot::new();
    set_sink(&mut slot, 1);
    let first = slot.take_for_delivery().unwrap();
    set_sink(&mut slot, 2);
    slot.put_back(first);
    assert_eq!(slot.take_for_delivery(), Some(2));

    set_sink(&mut slot, 3);
    let out = slot.take_for_delivery().unwrap();
    clear_sink(&mut slot);
    assert_eq!(slot.take_for_delivery(), None);
    slot.put_back(out);
    assert_eq!(slot.take_for_delivery(), Some(3));
}

#[test]
fn an_unknown_event_kind_is_rejected() {
    assert_eq!(decode(0, &[]), None);
    assert_eq!(decode(6, &[1]), None);
}

#[test]
fn an_advertisement_cut_after_a_flag_is_rejected() {
    // Transmit power is flagged present and nothing follows: the power reads
    // as absent, and the appearance flag and the lists that must follow are
    // missing, so the event is rejected.
    let mut w = Writer::new();
    w.str("dev-7").option_str(None).u32(10).bool(true);
    let body = w.finish();
    assert_eq!(decode(EventKind::AdvertisementReceived.code(), &body), None);
}
