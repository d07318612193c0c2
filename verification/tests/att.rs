//! ATT PDUs: requests, responses and UUIDs.

use bluewire::att::gatt_type;
use bluewire::att::opcode;
use bluewire::att::{
    error_response, exchange_mtu_request, exchange_mtu_response, execute_write_request,
    is_peer_request, is_unsolicited, parse, prepare_write_request, read_by_group_type_request,
    read_request, write_command, AttError, Include, Response, Uuid,
};


#[test]
fn short_uuids_expand_to_the_bluetooth_base() {
    assert_eq!(
        Uuid::Short(0x180D).to_canonical(),
        "0000180d-0000-1000-8000-00805f9b34fb"
    );
    assert_eq!(
        Uuid::Short(0x2A37).to_canonical(),
        "00002a37-0000-1000-8000-00805f9b34fb"
    );
}

#[test]
fn uuids_go_on_the_wire_least_significant_first() {
    assert_eq!(Uuid::Short(0x180D).to_wire(), vec![0x0D, 0x18]);
    assert_eq!(Uuid::parse(&[0x0D, 0x18]), Some(Uuid::Short(0x180D)));

    // A 128-bit UUID is the written order reversed.
    let nordic_uart = [
        0x6E, 0x40, 0x00, 0x01, 0xB5, 0xA3, 0xF3, 0x93, 0xE0, 0xA9, 0xE5, 0x0E, 0x24, 0xDC,
        0xCA, 0x9E,
    ];
    let long = Uuid::Long(nordic_uart);
    assert_eq!(long.to_canonical(), "6e400001-b5a3-f393-e0a9-e50e24dcca9e");
    let wire = long.to_wire();
    assert_eq!(wire[0], 0x9E, "wire order must be reversed");
    assert_eq!(Uuid::parse(&wire), Some(long));
}

#[test]
fn a_bad_uuid_length_is_rejected() {
    assert_eq!(Uuid::parse(&[]), None);
    assert_eq!(Uuid::parse(&[1, 2, 3]), None);
}

#[test]
fn requests_encode_little_endian() {
    assert_eq!(read_request(0x0025), vec![0x0A, 0x25, 0x00]);
    assert_eq!(write_command(0x0012, &[0xAB]), vec![0x52, 0x12, 0x00, 0xAB]);
}

/// `Read By Type Response` does not name the type it answered, and both
/// declarations this client asks for share the opcode. The entry length is
/// the only thing that distinguishes them, and GATT is careful to make the
/// two sets disjoint — 6 or 8 for an include, 7 or 21 for a characteristic.
#[test]
fn an_include_declaration_is_not_read_as_a_characteristic() {
    // 8-byte entries: declaration handle, start, end, 16-bit UUID.
    let pdu = [
        0x09, 0x08, // response, entry length 8
        0x02, 0x00, // declaration at 0x0002
        0x10, 0x00, // included service starts at 0x0010
        0x1F, 0x00, // …and ends at 0x001F
        0x0F, 0x18, // UUID 0x180F
    ];
    assert_eq!(
        parse(&pdu),
        Some(Response::Includes(vec![Include {
            handle: 0x0002,
            start_handle: 0x0010,
            end_handle: 0x001F,
            uuid: Some(Uuid::Short(0x180F)),
        }]))
    );
}

/// A 128-bit included service does not fit its declaration, so the UUID is
/// absent and the caller has to read it from the service itself. Returning
/// a wrong UUID here instead of `None` would name the wrong service.
#[test]
fn a_six_byte_include_has_no_uuid_to_give() {
    let pdu = [
        0x09, 0x06, // response, entry length 6
        0x02, 0x00, 0x10, 0x00, 0x1F, 0x00,
    ];
    let Some(Response::Includes(includes)) = parse(&pdu) else {
        panic!("expected includes");
    };
    assert_eq!(includes.len(), 1);
    assert_eq!(includes[0].start_handle, 0x0010);
    assert!(
        includes[0].uuid.is_none(),
        "a 6-byte declaration carries no UUID"
    );
}

#[test]
fn a_characteristic_declaration_still_parses_as_one() {
    // 7-byte entries keep their old meaning.
    let pdu = [
        0x09, 0x07, // response, entry length 7
        0x03, 0x00, // declaration at 0x0003
        0x12, // read | write
        0x04, 0x00, // value handle 0x0004
        0x19, 0x2A, // UUID 0x2A19
    ];
    let Some(Response::Characteristics(found)) = parse(&pdu) else {
        panic!("expected characteristics");
    };
    assert_eq!(found.len(), 1);
    assert_eq!(found[0].value_handle, 0x0004);
    assert_eq!(found[0].uuid, Uuid::Short(0x2A19));
}

#[test]
fn several_includes_come_back_in_one_response() {
    let pdu = [
        0x09, 0x08, //
        0x02, 0x00, 0x10, 0x00, 0x1F, 0x00, 0x0F, 0x18, //
        0x03, 0x00, 0x20, 0x00, 0x2F, 0x00, 0x0D, 0x18,
    ];
    let Some(Response::Includes(includes)) = parse(&pdu) else {
        panic!("expected includes");
    };
    assert_eq!(includes.len(), 2);
    assert_eq!(includes[1].uuid, Some(Uuid::Short(0x180D)));
    assert_eq!(includes[1].end_handle, 0x002F);
}

#[test]
fn a_truncated_include_entry_is_dropped_not_guessed() {
    // Entry length claims 8, only 5 bytes follow.
    let pdu = [0x09, 0x08, 0x02, 0x00, 0x10, 0x00, 0x1F];
    assert_eq!(parse(&pdu), Some(Response::Includes(vec![])));
}

#[test]
fn long_writes_encode_offset_and_commit() {
    assert_eq!(
        prepare_write_request(0x0012, 0x0014, &[0xAA, 0xBB]),
        vec![0x16, 0x12, 0x00, 0x14, 0x00, 0xAA, 0xBB]
    );
    assert_eq!(execute_write_request(true), vec![0x18, 0x01]);
    // Abandoning a queue is the same request with the flag cleared, which
    // is how a half-sent value is prevented from being committed.
    assert_eq!(execute_write_request(false), vec![0x18, 0x00]);
}

#[test]
fn a_prepared_write_echo_is_only_an_acknowledgement() {
    // The peer echoes handle, offset and value; none of it is needed.
    let echoed = [0x17, 0x12, 0x00, 0x14, 0x00, 0xAA, 0xBB];
    assert_eq!(parse(&echoed), Some(Response::PrepareWriteComplete));
    assert_eq!(parse(&[0x19]), Some(Response::WriteComplete));
}

#[test]
fn the_peers_own_requests_are_not_replies() {
    // BlueZ opens with this, and treating it as the answer to our own
    // Exchange MTU Request is how a client ends up with the wrong MTU and
    // a peer waiting forever for a response.
    let request = [0x02, 0x17, 0x02];
    assert_eq!(
        parse(&request),
        Some(Response::PeerRequest {
            opcode: 0x02,
            body: vec![0x17, 0x02],
        })
    );
    // The response form still parses as ours.
    assert_eq!(parse(&[0x03, 0x17, 0x02]), Some(Response::Mtu(0x0217)));

    for op in [0x04u8, 0x08, 0x0A, 0x0C, 0x10, 0x12, 0x16, 0x18] {
        assert!(is_peer_request(op), "{op:#04x} should be a peer request");
    }
    // Responses, commands and notifications are not requests of us.
    for op in [0x01u8, 0x03, 0x05, 0x0B, 0x11, 0x13, 0x1B, 0x1D, 0x52] {
        assert!(!is_peer_request(op), "{op:#04x} is not a peer request");
    }
}

#[test]
fn declining_a_request_names_it() {
    let pdu = error_response(0x0A, 0x0021, AttError(AttError::REQUEST_NOT_SUPPORTED));
    assert_eq!(pdu, vec![0x01, 0x0A, 0x21, 0x00, 0x06]);
    assert_eq!(exchange_mtu_response(517), vec![0x03, 0x05, 0x02]);
    assert_eq!(
        read_by_group_type_request(0x0001, 0xFFFF, gatt_type::PRIMARY_SERVICE),
        vec![0x10, 0x01, 0x00, 0xFF, 0xFF, 0x00, 0x28]
    );
    assert_eq!(exchange_mtu_request(517), vec![0x02, 0x05, 0x02]);
}

#[test]
fn an_error_response_decodes() {
    // The peer refused a read of handle 0x0025: read not permitted.
    let pdu = [0x01, 0x0A, 0x25, 0x00, 0x02];
    assert_eq!(
        parse(&pdu),
        Some(Response::Error {
            opcode: opcode::READ_REQUEST,
            handle: 0x0025,
            error: AttError(AttError::READ_NOT_PERMITTED),
        })
    );
}

#[test]
fn attribute_not_found_ends_discovery_rather_than_failing_it() {
    // Every discovery loop runs until the peer says this.
    assert!(AttError(AttError::ATTRIBUTE_NOT_FOUND).is_end_of_discovery());
    assert!(!AttError(AttError::READ_NOT_PERMITTED).is_end_of_discovery());
}

#[test]
fn a_service_discovery_response_decodes() {
    // Two services, 16-bit UUIDs: entry length 6.
    let pdu = [
        0x11, 0x06, //
        0x01, 0x00, 0x09, 0x00, 0x00, 0x18, // 0x0001..0x0009 Generic Access
        0x0A, 0x00, 0x0F, 0x00, 0x0D, 0x18, // 0x000A..0x000F Heart Rate
    ];
    let Some(Response::Services(services)) = parse(&pdu) else {
        panic!("not a service response");
    };
    assert_eq!(services.len(), 2);
    assert_eq!(services[1].start_handle, 0x000A);
    assert_eq!(services[1].end_handle, 0x000F);
    assert_eq!(
        services[1].uuid.to_canonical(),
        "0000180d-0000-1000-8000-00805f9b34fb"
    );
}

#[test]
fn a_characteristic_discovery_response_decodes() {
    // Entry length 7: handle, properties, value handle, 16-bit UUID.
    let pdu = [
        0x09, 0x07, //
        0x0B, 0x00, 0x10, 0x0C, 0x00, 0x37, 0x2A, // notify, value at 0x000C
    ];
    let Some(Response::Characteristics(chars)) = parse(&pdu) else {
        panic!("not a characteristic response");
    };
    assert_eq!(chars.len(), 1);
    assert_eq!(chars[0].handle, 0x000B);
    assert_eq!(
        chars[0].value_handle, 0x000C,
        "reads address the value handle"
    );
    assert_eq!(chars[0].properties, 0x10);
    assert_eq!(
        chars[0].uuid.to_canonical(),
        "00002a37-0000-1000-8000-00805f9b34fb"
    );
}

#[test]
fn descriptor_discovery_decodes_both_formats() {
    // Format 1: 16-bit UUIDs.
    let short = [0x05, 0x01, 0x0D, 0x00, 0x02, 0x29];
    let Some(Response::Descriptors(d)) = parse(&short) else {
        panic!()
    };
    assert_eq!(d.len(), 1);
    assert_eq!(d[0].handle, 0x000D);
    assert_eq!(d[0].uuid, Uuid::Short(0x2902));

    // Format 2: 128-bit.
    let mut long = vec![0x05, 0x02, 0x0E, 0x00];
    long.extend_from_slice(&Uuid::Short(0x2902).to_wire());
    long.extend_from_slice(&[0; 14]);
    let Some(Response::Descriptors(d)) = parse(&long) else {
        panic!()
    };
    assert_eq!(d[0].handle, 0x000E);

    // An unknown format is rejected rather than misread.
    assert_eq!(parse(&[0x05, 0x03, 0x00, 0x00]), None);
}

#[test]
fn notifications_are_recognised_as_unsolicited() {
    let pdu = [0x1B, 0x0C, 0x00, 0x00, 0x48];
    assert_eq!(
        parse(&pdu),
        Some(Response::Notification {
            handle: 0x000C,
            value: vec![0x00, 0x48]
        })
    );
    assert!(is_unsolicited(opcode::HANDLE_VALUE_NOTIFICATION));
    assert!(is_unsolicited(opcode::HANDLE_VALUE_INDICATION));
    // A read response is a reply and must be matched to its request.
    assert!(!is_unsolicited(opcode::READ_RESPONSE));
}

#[test]
fn truncated_pdus_are_rejected_rather_than_misread() {
    // Every one of these is reachable from a hostile or broken peer.
    assert_eq!(parse(&[]), None);
    assert_eq!(parse(&[0x01, 0x0A]), None);
    assert_eq!(parse(&[0x03]), None);
    assert_eq!(parse(&[0x1B, 0x0C]), None);
    // An entry length smaller than the fixed fields would underflow.
    assert_eq!(parse(&[0x11, 0x02, 0x00, 0x00]), None);
    assert_eq!(parse(&[0x09, 0x03, 0x00, 0x00]), None);
}

#[test]
fn a_trailing_partial_entry_is_dropped_not_decoded() {
    // Three and a half entries: the half must not become a bogus service.
    let pdu = [0x11, 0x06, 0x01, 0x00, 0x09, 0x00, 0x00, 0x18, 0x0A, 0x00];
    let Some(Response::Services(services)) = parse(&pdu) else {
        panic!()
    };
    assert_eq!(services.len(), 1);
}
