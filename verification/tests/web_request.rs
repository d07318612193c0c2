//! A device request as the page receives it.

use bluewire::web::request::{FilterParts, PrefixParts, RequestParts};

fn u32le(n: u32) -> Vec<u8> {
    n.to_le_bytes().to_vec()
}

fn framed(s: &[u8]) -> Vec<u8> {
    let mut out = u32le(s.len() as u32);
    out.extend_from_slice(s);
    out
}

#[test]
fn an_accept_all_request_is_empty_lists_and_a_flag() {
    let request = RequestParts {
        filters: vec![],
        exclusion_filters: vec![],
        optional_services: vec![],
        optional_manufacturer_data: vec![],
        accept_all_devices: true,
    };
    let mut expected = Vec::new();
    for _ in 0..4 {
        expected.extend(u32le(0));
    }
    expected.push(1);
    assert_eq!(request.encode(), expected);
}

#[test]
fn a_filtered_request_writes_every_part_in_order() {
    let filter = FilterParts {
        services: vec!["180d".to_string()],
        name: Some("tag".to_string()),
        name_prefix: None,
        manufacturer_data: vec![(0x004c, PrefixParts { bytes: vec![1, 2], mask: Some(vec![0xff, 0]) })],
        service_data: vec![("180f".to_string(), PrefixParts { bytes: vec![9], mask: None })],
    };
    let request = RequestParts {
        filters: vec![filter],
        exclusion_filters: vec![],
        optional_services: vec!["1809".to_string()],
        optional_manufacturer_data: vec![0x0006],
        accept_all_devices: false,
    };
    let mut expected = u32le(1);
    // The filter.
    expected.extend(u32le(1));
    expected.extend(framed(b"180d"));
    expected.push(1);
    expected.extend(framed(b"tag"));
    expected.push(0);
    expected.extend(u32le(1));
    expected.extend([0x4c, 0x00]);
    expected.extend(framed(&[1, 2]));
    expected.push(1);
    expected.extend(framed(&[0xff, 0]));
    expected.extend(u32le(1));
    expected.extend(framed(b"180f"));
    expected.extend(framed(&[9]));
    expected.push(0);
    // No exclusions.
    expected.extend(u32le(0));
    // Optional services and manufacturer data.
    expected.extend(u32le(1));
    expected.extend(framed(b"1809"));
    expected.extend(u32le(1));
    expected.extend([0x06, 0x00]);
    expected.push(0);
    assert_eq!(request.encode(), expected);
}
