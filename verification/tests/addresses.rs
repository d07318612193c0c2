//! Bluetooth addresses as written and on the wire.

use bluewire::sys::{format_address, parse_address};

#[test]
fn l2cap_addresses_are_reversed_onto_the_wire() {
    // The single easiest thing to get wrong, and it fails as a timeout
    // rather than an error.
    assert_eq!(
        parse_address("AA:BB:CC:DD:EE:FF"),
        Some([0xFF, 0xEE, 0xDD, 0xCC, 0xBB, 0xAA])
    );
    assert_eq!(
        parse_address("00:00:00:00:00:01"),
        Some([0x01, 0, 0, 0, 0, 0])
    );
}

#[test]
fn l2cap_malformed_addresses_are_rejected() {
    assert_eq!(parse_address(""), None);
    assert_eq!(parse_address("AA:BB:CC:DD:EE"), None);
    assert_eq!(parse_address("AA:BB:CC:DD:EE:FF:00"), None);
    assert_eq!(parse_address("ZZ:BB:CC:DD:EE:FF"), None);
}

#[test]
fn sys_addresses_are_reversed_onto_the_wire() {
    assert_eq!(
        parse_address("AA:BB:CC:DD:EE:FF"),
        Some([0xFF, 0xEE, 0xDD, 0xCC, 0xBB, 0xAA])
    );
    assert_eq!(
        parse_address("00:00:00:00:00:01"),
        Some([0x01, 0, 0, 0, 0, 0])
    );
}

#[test]
fn formatting_is_the_inverse_of_parsing() {
    let written = "AA:BB:CC:DD:EE:FF";
    assert_eq!(format_address(&parse_address(written).unwrap()), written);
}

#[test]
fn sys_malformed_addresses_are_rejected() {
    for bad in [
        "",
        "AA:BB:CC:DD:EE",
        "AA:BB:CC:DD:EE:FF:00",
        "ZZ:BB:CC:DD:EE:FF",
    ] {
        assert_eq!(parse_address(bad), None, "{bad:?} should not parse");
    }
}

#[test]
fn a_formatted_address_is_seventeen_characters_and_parses_back() {
    for wire in [[0u8; 6], [0xFF; 6], [0x01, 0x23, 0x45, 0x67, 0x89, 0xAB]] {
        let text = format_address(&wire);
        assert_eq!(text.len(), 17);
        assert_eq!(parse_address(&text), Some(wire));
    }
    let written = "0A:1B:2C:3D:4E:5F";
    assert_eq!(format_address(&parse_address(written).unwrap()), written);
}
