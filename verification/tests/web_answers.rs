//! The GATT requests sent to the page and the answers read back.

use bluewire::web::answers::{
    characteristic_list, characteristic_write_request, descriptor_list, descriptor_write_request,
    key_request, lookup_request, notify_request, service_list, value_answer,
};
use bluewire::web::codec::Writer;

fn framed(s: &[u8]) -> Vec<u8> {
    let mut out = (s.len() as u32).to_le_bytes().to_vec();
    out.extend_from_slice(s);
    out
}

#[test]
fn requests_are_framed_in_order() {
    assert_eq!(key_request("dev-1"), framed(b"dev-1"));
    let mut expected = framed(b"svc");
    expected.push(0);
    assert_eq!(lookup_request("svc", None), expected);
    let mut expected = framed(b"svc");
    expected.push(1);
    expected.extend(framed(b"180d"));
    assert_eq!(lookup_request("svc", Some("180d")), expected);
    let mut expected = framed(b"c");
    expected.extend(framed(&[1, 2]));
    expected.push(1);
    assert_eq!(characteristic_write_request("c", &[1, 2], true), expected);
    let mut expected = framed(b"d");
    expected.extend(framed(&[3]));
    assert_eq!(descriptor_write_request("d", &[3]), expected);
    let mut expected = framed(b"c");
    expected.push(0);
    assert_eq!(notify_request("c", false), expected);
}

#[test]
fn a_service_list_reads_each_service() {
    let mut w = Writer::new();
    w.u32(2).str("s0").str("0000180d-0000-1000-8000-00805f9b34fb").bool(true);
    w.str("s1").str("180f").bool(false);
    let list = service_list(&w.finish()).unwrap();
    assert_eq!(list.len(), 2);
    assert_eq!(list[0].key, "s0");
    assert_eq!(list[0].uuid, "0000180d-0000-1000-8000-00805f9b34fb");
    assert!(list[0].primary);
    assert_eq!(list[1].key, "s1");
    assert!(!list[1].primary);
}

#[test]
fn a_list_that_runs_short_is_malformed() {
    let mut w = Writer::new();
    w.u32(2).str("s0").str("180d").bool(true);
    assert!(service_list(&w.finish()).is_none());
    assert!(service_list(&[1, 0]).is_none());
    let mut w = Writer::new();
    w.u32(0);
    assert!(service_list(&w.finish()).unwrap().is_empty());
}

#[test]
fn a_characteristic_list_reads_nine_flags_each() {
    let mut w = Writer::new();
    w.u32(1).str("c0").str("2a37");
    for flag in [false, true, false, false, true, false, false, false, true] {
        w.bool(flag);
    }
    let list = characteristic_list(&w.finish()).unwrap();
    assert_eq!(list.len(), 1);
    assert_eq!(list[0].key, "c0");
    assert_eq!(list[0].uuid, "2a37");
    assert_eq!(list[0].flags, vec![false, true, false, false, true, false, false, false, true]);

    let mut w = Writer::new();
    w.u32(1).str("c0").str("2a37").bool(true);
    assert!(characteristic_list(&w.finish()).is_none());
}

#[test]
fn a_descriptor_list_reads_keys_and_uuids() {
    let mut w = Writer::new();
    w.u32(2).str("d0").str("2902").str("d1").str("2901");
    let list = descriptor_list(&w.finish()).unwrap();
    assert_eq!(list.len(), 2);
    assert_eq!((list[1].key.as_str(), list[1].uuid.as_str()), ("d1", "2901"));
    let mut w = Writer::new();
    w.u32(1).str("d0");
    assert!(descriptor_list(&w.finish()).is_none());
}

#[test]
fn a_value_answer_is_its_bytes() {
    assert_eq!(value_answer(&framed(&[7, 8, 9])), Some(vec![7, 8, 9]));
    assert_eq!(value_answer(&[3, 0, 0, 0, 1]), None);
}
