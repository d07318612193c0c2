//! Controllers, connected centrals, socket waits and message framing.

use bluewire::dbus::message::{framed_length, MessageType};
use bluewire::dbus::value::Value;
use bluewire::hci::device_info;
use bluewire::peripheral::RemoteCentral;
use bluewire::sys::{readiness, retry_wait, Ready, SockAddrL2, AF_BLUETOOTH, BDADDR_LE_PUBLIC};

fn dev_info(name: &[u8], address: [u8; 6]) -> Vec<u8> {
    let mut info = vec![0u8; 128];
    info[2..2 + name.len()].copy_from_slice(name);
    info[10..16].copy_from_slice(&address);
    info
}

#[test]
fn a_controller_is_named_and_addressed_as_written() {
    let info = dev_info(b"hci0", [0xFF, 0xEE, 0xDD, 0xCC, 0xBB, 0xAA]);
    let d = device_info(0, &info, 0x0001);
    assert_eq!(d.id, 0);
    assert_eq!(d.name, "hci0");
    assert_eq!(d.address, "AA:BB:CC:DD:EE:FF");
    assert!(d.powered);
}

#[test]
fn a_controller_without_a_name_is_called_by_its_index() {
    let info = dev_info(b"", [1, 2, 3, 4, 5, 6]);
    let d = device_info(12, &info, 0x0004);
    assert_eq!(d.name, "hci12");
    assert_eq!(d.address, "06:05:04:03:02:01");
    assert!(!d.powered, "only bit 0 means up");
}

#[test]
fn a_full_name_field_is_taken_whole() {
    let info = dev_info(b"abcdefgh", [0; 6]);
    assert_eq!(device_info(3, &info, 0).name, "abcdefgh");
}

#[test]
fn a_central_is_named_by_the_address_in_its_path() {
    let c = RemoteCentral::from_parts(Some("/org/bluez/hci0/dev_AA_BB_CC_DD_EE_FF"), Some(185), 20);
    assert_eq!(c.id(), "AA:BB:CC:DD:EE:FF");
    assert_eq!(c.max_notification_length(), 182);
}

#[test]
fn a_central_without_a_device_path_keeps_what_it_has() {
    let c = RemoteCentral::from_parts(Some("/org/bluez/hci0"), None, 20);
    assert_eq!(c.id(), "/org/bluez/hci0");
    assert_eq!(c.max_notification_length(), 20);
    let c = RemoteCentral::from_parts(None, Some(2), 20);
    assert_eq!(c.id(), "unknown");
    assert_eq!(c.max_notification_length(), 0);
}

#[test]
fn a_wait_reports_what_poll_said() {
    assert_eq!(readiness(-1, 0), None);
    assert_eq!(readiness(0, 0), Some(Ready::TimedOut));
    assert_eq!(readiness(1, 0x001), Some(Ready::Yes));
    assert_eq!(readiness(1, 0x008), Some(Ready::Closed));
    assert_eq!(readiness(1, 0x011), Some(Ready::Closed));
    assert!(retry_wait(4));
    assert!(!retry_wait(11));
}

#[test]
fn an_le_source_address_leaves_the_adapter_to_the_kernel() {
    let a = SockAddrL2::le_source(0x0080, 0x0004);
    assert_eq!(a.family as i32, AF_BLUETOOTH);
    assert_eq!(a.psm, 0x0080);
    assert_eq!(a.bdaddr, [0; 6]);
    assert_eq!(a.cid, 0x0004);
    assert_eq!(a.bdaddr_type, BDADDR_LE_PUBLIC);
}

#[test]
fn message_types_travel_as_their_numbers() {
    assert_eq!(MessageType::from_u8(1), Some(MessageType::MethodCall));
    assert_eq!(MessageType::from_u8(4), Some(MessageType::Signal));
    assert_eq!(MessageType::from_u8(0), None);
    assert_eq!(MessageType::from_u8(5), None);
    assert_eq!(MessageType::Error.code(), 3);
}

#[test]
fn framing_needs_the_whole_fixed_header() {
    assert_eq!(framed_length(&[]), None);
    assert_eq!(framed_length(&[b'l', 1, 0, 1]), None);
}

#[test]
fn framing_reads_both_lengths_in_the_named_byte_order() {
    // Body 3 bytes, header array 5 bytes: 16 + 5 = 21, padded to 24, plus 3.
    let little = [b'l', 1, 0, 1, 3, 0, 0, 0, 9, 0, 0, 0, 5, 0, 0, 0];
    assert_eq!(framed_length(&little), Some(27));
    let big = [b'B', 1, 0, 1, 0, 0, 0, 3, 0, 0, 0, 9, 0, 0, 0, 8];
    assert_eq!(framed_length(&big), Some(27));
}

#[test]
fn a_central_is_named_from_its_request_options() {
    let options = Value::dict(vec![
        (
            "device".to_string(),
            Value::ObjectPath("/org/bluez/hci0/dev_11_22_33_44_55_66".to_string()),
        ),
        ("mtu".to_string(), Value::Uint16(247)),
    ]);
    let c = RemoteCentral::from_options(Some(&options), 20);
    assert_eq!(c.id(), "11:22:33:44:55:66");
    assert_eq!(c.max_notification_length(), 244);

    // Without options, or with options of the wrong types, the defaults hold.
    let c = RemoteCentral::from_options(None, 20);
    assert_eq!(c.id(), "unknown");
    assert_eq!(c.max_notification_length(), 20);
    let odd = Value::dict(vec![
        ("device".to_string(), Value::Uint32(1)),
        ("mtu".to_string(), Value::Str("big".to_string())),
    ]);
    let c = RemoteCentral::from_options(Some(&odd), 20);
    assert_eq!(c.id(), "unknown");
    assert_eq!(c.max_notification_length(), 20);
}

#[test]
fn l2cap_the_socket_address_matches_the_kernel_layout() {
    assert_eq!(SockAddrL2::le_source(0, 4).to_bytes().len(), 13);
}

#[test]
fn sys_the_socket_address_matches_the_kernel_layout() {
    let a = SockAddrL2 {
        family: AF_BLUETOOTH as u16,
        psm: 0x1234,
        bdaddr: [1, 2, 3, 4, 5, 6],
        cid: 4,
        bdaddr_type: BDADDR_LE_PUBLIC,
    };
    let b = a.to_bytes();
    assert_eq!(b.len(), 13);
    assert_eq!(b, vec![31, 0, 0x34, 0x12, 1, 2, 3, 4, 5, 6, 4, 0, BDADDR_LE_PUBLIC]);
}
