//! HCI advertising reports.

use bluewire::hci::{
    parse_advertising_data, parse_advertising_report, parse_extended_advertising_report,
    Advertisement,
};
use bluewire::sys::format_address;

#[test]
fn addresses_are_printed_in_written_order() {
    // The wire carries least-significant first.
    assert_eq!(
        format_address(&[0xFF, 0xEE, 0xDD, 0xCC, 0xBB, 0xAA]),
        "AA:BB:CC:DD:EE:FF"
    );
}

#[test]
fn advertising_data_records_parse() {
    let data = [
        0x02, 0x01, 0x06, // flags: general discoverable
        0x03, 0x03, 0x0D, 0x18, // complete 16-bit services: 0x180D
        0x09, 0x09, b'P', b'o', b'l', b'a', b'r', b' ', b'H', b'1', // complete name
        0x02, 0x0A, 0xF4, // tx power -12
    ];
    let mut advertisement = Advertisement::default();
    parse_advertising_data(&data, &mut advertisement);

    assert_eq!(advertisement.local_name.as_deref(), Some("Polar H1"));
    assert_eq!(
        advertisement.service_uuids,
        vec!["0000180d-0000-1000-8000-00805f9b34fb"]
    );
    assert_eq!(advertisement.tx_power, Some(-12));
    assert!(advertisement.connectable);
}

#[test]
fn a_complete_name_wins_over_a_shortened_one() {
    let data = [
        0x03, 0x08, b'P', b'o', // shortened "Po"
        0x06, 0x09, b'P', b'o', b'l', b'a', b'r', // complete "Polar"
    ];
    let mut a = Advertisement::default();
    parse_advertising_data(&data, &mut a);
    assert_eq!(a.local_name.as_deref(), Some("Polar"));
}

#[test]
fn manufacturer_and_service_data_split_their_identifiers() {
    let data = [
        0x05, 0xFF, 0x4C, 0x00, 0x02, 0x15, // Apple, payload 02 15
        0x05, 0x16, 0x0F, 0x18, 0x5B, 0x01, // battery service data
    ];
    let mut a = Advertisement::default();
    parse_advertising_data(&data, &mut a);
    assert_eq!(a.manufacturer_data, Some((0x004C, vec![0x02, 0x15])));
    assert_eq!(a.service_data.len(), 1);
    assert_eq!(a.service_data[0].0, "0000180f-0000-1000-8000-00805f9b34fb");
    assert_eq!(a.service_data[0].1, vec![0x5B, 0x01]);
}

#[test]
fn a_128_bit_service_uuid_is_reversed() {
    let mut data = vec![0x11, 0x07];
    // 6e400001-… on the wire, least-significant first.
    data.extend_from_slice(&[
        0x9E, 0xCA, 0xDC, 0x24, 0x0E, 0xE5, 0xA9, 0xE0, 0x93, 0xF3, 0xA3, 0xB5, 0x01, 0x00,
        0x40, 0x6E,
    ]);
    let mut a = Advertisement::default();
    parse_advertising_data(&data, &mut a);
    assert_eq!(
        a.service_uuids,
        vec!["6e400001-b5a3-f393-e0a9-e50e24dcca9e"]
    );
}

#[test]
fn a_zero_length_record_terminates_the_payload() {
    // Padding after the records must not be decoded as more records.
    let data = [0x02, 0x01, 0x06, 0x00, 0xFF, 0xFF, 0xFF];
    let mut a = Advertisement::default();
    parse_advertising_data(&data, &mut a);
    assert!(
        a.manufacturer_data.is_none(),
        "padding was decoded as a record"
    );
}

#[test]
fn a_record_longer_than_the_payload_is_dropped() {
    // Reachable from any broken or hostile peer.
    let data = [0x20, 0x09, b'x'];
    let mut a = Advertisement::default();
    parse_advertising_data(&data, &mut a);
    assert_eq!(a.local_name, None);
}

#[test]
fn an_advertising_report_decodes() {
    let mut body = vec![
        0x01, // one report
        0x00, // ADV_IND — connectable
        0x00, // public address
        0xFF, 0xEE, 0xDD, 0xCC, 0xBB, 0xAA, // address, wire order
        0x05, // data length
        0x02, 0x01, 0x06, 0x00, 0x00,
    ];
    body.push(0xC5); // RSSI -59
    let reports = parse_advertising_report(&body);
    assert_eq!(reports.len(), 1);
    assert_eq!(reports[0].address, "AA:BB:CC:DD:EE:FF");
    assert_eq!(reports[0].rssi, -59);
    assert!(reports[0].connectable);
    assert!(!reports[0].random_address);
}

#[test]
fn a_truncated_report_stops_rather_than_over_reading() {
    // Claims two reports but carries one.
    let body = [0x02, 0x00, 0x00, 1, 2, 3, 4, 5, 6, 0x00, 0xC5];
    let reports = parse_advertising_report(&body);
    assert_eq!(reports.len(), 1);
    assert!(parse_advertising_report(&[]).is_empty());
    assert!(parse_advertising_report(&[0x01, 0x00]).is_empty());
}

#[test]
fn extended_advertising_reports_parse() {
    let mut body = vec![0x01]; // one report
    body.extend_from_slice(&0x0013u16.to_le_bytes()); // connectable|scannable|legacy
    body.push(0x00); // public address
    body.extend_from_slice(&[0x01, 0x02, 0x03, 0x04, 0x05, 0x06]); // address, LSB first
    body.push(0x01); // primary phy
    body.push(0x01); // secondary phy
    body.push(0x00); // sid
    body.push(0xF4u8); // tx power -12
    body.push(0xC0u8); // rssi -64
    body.extend_from_slice(&0u16.to_le_bytes()); // periodic interval
    body.push(0x00); // direct address type
    body.extend_from_slice(&[0u8; 6]); // direct address
    let data = [
        0x03, 0x03, 0x0D, 0x18, // complete 16-bit services: 0x180D
        0x06, 0x09, b'P', b'o', b'l', b'a', b'r', // complete name
    ];
    body.push(data.len() as u8);
    body.extend_from_slice(&data);

    let reports = parse_extended_advertising_report(&body);
    assert_eq!(reports.len(), 1);
    let a = &reports[0];
    assert_eq!(a.address, "06:05:04:03:02:01");
    assert_eq!(a.rssi, -64);
    assert_eq!(a.tx_power, Some(-12));
    assert!(a.connectable);
    assert_eq!(a.local_name.as_deref(), Some("Polar"));
    assert_eq!(
        a.service_uuids,
        vec!["0000180d-0000-1000-8000-00805f9b34fb"]
    );
}

#[test]
fn a_truncated_extended_report_is_dropped_not_guessed() {
    // One report promised, fixed part cut short.
    assert!(parse_extended_advertising_report(&[0x01, 0x13, 0x00, 0x00]).is_empty());
    assert!(parse_extended_advertising_report(&[]).is_empty());
}

#[test]
fn a_non_connectable_extended_report_says_so() {
    let mut body = vec![0x01];
    body.extend_from_slice(&0x0012u16.to_le_bytes()); // scannable, not connectable
    body.push(0x01); // random address
    body.extend_from_slice(&[0u8; 6]);
    body.extend_from_slice(&[0x01, 0x01, 0x00, 127, 0xC0]);
    body.extend_from_slice(&0u16.to_le_bytes());
    body.push(0x00);
    body.extend_from_slice(&[0u8; 6]);
    body.push(0);
    let reports = parse_extended_advertising_report(&body);
    assert_eq!(reports.len(), 1);
    assert!(!reports[0].connectable);
    assert!(reports[0].random_address);
    // 127 means "unavailable" and must not be reported as a real reading.
    assert_eq!(reports[0].tx_power, None);
}

#[test]
fn a_flags_record_does_not_make_an_extended_report_connectable() {
    let body = [
        0x01, // one report
        0x12, 0x00, // scannable, not connectable
        0x01, // random address
        0, 0, 0, 0, 0, 0, // address
        0x01, 0x01, 0x00, 0x7F, 0xC0, // PHYs, SID, TX power 127, RSSI
        0x00, 0x00, // periodic interval
        0x00, // direct address type
        0, 0, 0, 0, 0, 0, // direct address
        0x03, // data length
        0x02, 0x01, 0x06, // flags: general discoverable
    ];
    let reports = parse_extended_advertising_report(&body);
    assert_eq!(reports.len(), 1);
    assert!(!reports[0].connectable);
    assert!(reports[0].random_address);
    assert_eq!(reports[0].tx_power, None);
}

#[test]
fn a_scannable_legacy_report_with_flags_is_not_connectable() {
    let body = [
        0x01, // one report
        0x02, // ADV_SCAN_IND — scannable, not connectable
        0x00, // public address
        0x06, 0x05, 0x04, 0x03, 0x02, 0x01,
        0x03, // data length
        0x02, 0x01, 0x06, // flags: general discoverable
        0xC4, // RSSI -60
    ];
    let reports = parse_advertising_report(&body);
    assert_eq!(reports.len(), 1);
    assert!(!reports[0].connectable);
    assert_eq!(reports[0].rssi, -60);
}
