//! The Attribute Protocol.
//!
//! Every PDU is an opcode byte and a payload, all little-endian, and every
//! request gets exactly one response. GATT's discovery is built from four
//! requests: `Read By Group Type` for services, `Read By Type` for
//! characteristics and includes, `Find Information` for descriptors, and
//! `Read` / `Read Blob` for values.

pub mod gatt_type;
pub mod opcode;

use vstd::prelude::*;
use vstd::slice::{slice_subrange, slice_to_vec};
use crate::bytes::{push_u16_le, read_u16_le, u16_le, u16_le_bytes};
use crate::text::{hex_char_lower, hex_pair_lower, push_char, uuid_string, uuid_text};

verus! {

// ── Errors ──────────────────────────────────────────────────────────────────

/// An ATT error code, as the peer reports it.
#[derive(Debug, Clone, Copy, PartialEq, Eq, Structural)]
pub struct AttError(pub u8);

impl AttError {
    pub const INVALID_HANDLE: u8 = 0x01;
    pub const READ_NOT_PERMITTED: u8 = 0x02;
    pub const WRITE_NOT_PERMITTED: u8 = 0x03;
    pub const INSUFFICIENT_AUTHENTICATION: u8 = 0x05;
    pub const REQUEST_NOT_SUPPORTED: u8 = 0x06;
    pub const INVALID_OFFSET: u8 = 0x07;
    pub const INSUFFICIENT_AUTHORIZATION: u8 = 0x08;
    pub const ATTRIBUTE_NOT_FOUND: u8 = 0x0A;
    pub const ATTRIBUTE_NOT_LONG: u8 = 0x0B;
    pub const INVALID_ATTRIBUTE_VALUE_LENGTH: u8 = 0x0D;
    pub const UNLIKELY_ERROR: u8 = 0x0E;
    pub const INSUFFICIENT_ENCRYPTION: u8 = 0x0F;
    pub const INSUFFICIENT_RESOURCES: u8 = 0x11;

    /// `ATTRIBUTE_NOT_FOUND` ends a discovery loop rather than failing it —
    /// it is how the peer says "no more".
    pub fn is_end_of_discovery(self) -> (r: bool)
        ensures
            r == (self.0 == 0x0A),
    {
        self.0 == Self::ATTRIBUTE_NOT_FOUND
    }

    /// The specification's name for this error, in words.
    pub fn describe(self) -> (s: &'static str)
        ensures
            s@ == att_error_description(self.0),
    {
        match self.0 {
            0x01 => "invalid handle",
            0x02 => "read not permitted",
            0x03 => "write not permitted",
            0x05 => "insufficient authentication",
            0x06 => "request not supported",
            0x07 => "invalid offset",
            0x08 => "insufficient authorization",
            0x0A => "attribute not found",
            0x0B => "attribute not long",
            0x0D => "invalid attribute value length",
            0x0E => "unlikely error",
            0x0F => "insufficient encryption",
            0x11 => "insufficient resources",
            _ => "unknown ATT error",
        }
    }

    /// The description followed by the code: `read not permitted (0x02)`.
    pub fn to_string(self) -> (s: String)
        ensures
            s@ == att_error_description(self.0) + seq![' ', '(', '0', 'x'] + hex_pair_lower(self.0)
                + seq![')'],
    {
        let mut s = String::from_str(self.describe());
        push_char(&mut s, ' ');
        push_char(&mut s, '(');
        push_char(&mut s, '0');
        push_char(&mut s, 'x');
        push_char(&mut s, hex_char_lower(self.0 / 16));
        push_char(&mut s, hex_char_lower(self.0 % 16));
        push_char(&mut s, ')');
        assert(s@ =~= att_error_description(self.0) + seq![' ', '(', '0', 'x'] + hex_pair_lower(
            self.0,
        ) + seq![')']);
        s
    }
}

/// What [`AttError::describe`] says for each code.
pub open spec fn att_error_description(code: u8) -> Seq<char> {
    if code == 0x01 {
        "invalid handle"@
    } else if code == 0x02 {
        "read not permitted"@
    } else if code == 0x03 {
        "write not permitted"@
    } else if code == 0x05 {
        "insufficient authentication"@
    } else if code == 0x06 {
        "request not supported"@
    } else if code == 0x07 {
        "invalid offset"@
    } else if code == 0x08 {
        "insufficient authorization"@
    } else if code == 0x0A {
        "attribute not found"@
    } else if code == 0x0B {
        "attribute not long"@
    } else if code == 0x0D {
        "invalid attribute value length"@
    } else if code == 0x0E {
        "unlikely error"@
    } else if code == 0x0F {
        "insufficient encryption"@
    } else if code == 0x11 {
        "insufficient resources"@
    } else {
        "unknown ATT error"@
    }
}


// ── UUIDs ───────────────────────────────────────────────────────────────────

/// A 16- or 128-bit attribute type. `Long` holds the bytes in written order,
/// most significant first.
#[derive(Debug, Clone, PartialEq, Eq)]
pub enum Uuid {
    Short(u16),
    Long([u8; 16]),
}

/// A UUID as a mathematical value.
pub enum UuidView {
    Short(u16),
    Long(Seq<u8>),
}

impl View for Uuid {
    type V = UuidView;

    open spec fn view(&self) -> UuidView {
        match self {
            Uuid::Short(v) => UuidView::Short(*v),
            Uuid::Long(b) => UuidView::Long(b@),
        }
    }
}

/// Decoding wire bytes: 2 for a short UUID, 16 for a long one, both least
/// significant byte first.
pub open spec fn uuid_from_wire(b: Seq<u8>) -> Option<UuidView> {
    if b.len() == 2 {
        Some(UuidView::Short(u16_le(b[0], b[1])))
    } else if b.len() == 16 {
        Some(UuidView::Long(b.reverse()))
    } else {
        None
    }
}

/// Encoding to wire bytes, least significant first.
pub open spec fn uuid_to_wire(u: UuidView) -> Seq<u8> {
    match u {
        UuidView::Short(v) => u16_le_bytes(v),
        UuidView::Long(b) => b.reverse(),
    }
}

/// The Bluetooth base UUID with a 16-bit value in bytes 2 and 3.
pub open spec fn short_uuid_bytes(v: u16) -> Seq<u8> {
    seq![
        0x00u8, 0x00, (v / 256) as u8, (v % 256) as u8, 0x00, 0x00, 0x10, 0x00,
        0x80, 0x00, 0x00, 0x80, 0x5F, 0x9B, 0x34, 0xFB,
    ]
}

/// The canonical 128-bit lower-case text of a UUID.
pub open spec fn uuid_canonical(u: UuidView) -> Seq<char> {
    match u {
        UuidView::Short(v) => uuid_text(short_uuid_bytes(v)),
        UuidView::Long(b) => uuid_text(b),
    }
}

/// Decode `b[from..to]` as a wire UUID.
fn uuid_at(b: &[u8], from: usize, to: usize) -> (r: Option<Uuid>)
    requires
        from <= to <= b@.len(),
    ensures
        match r {
            Some(u) => uuid_from_wire(b@.subrange(from as int, to as int)) == Some(u@),
            None => uuid_from_wire(b@.subrange(from as int, to as int)) is None,
        },
{
    let ghost w = b@.subrange(from as int, to as int);
    if to - from == 2 {
        Some(Uuid::Short(read_u16_le(b[from], b[from + 1])))
    } else if to - from == 16 {
        let be: [u8; 16] = [
            b[from + 15],
            b[from + 14],
            b[from + 13],
            b[from + 12],
            b[from + 11],
            b[from + 10],
            b[from + 9],
            b[from + 8],
            b[from + 7],
            b[from + 6],
            b[from + 5],
            b[from + 4],
            b[from + 3],
            b[from + 2],
            b[from + 1],
            b[from],
        ];
        assert(be@ =~= w.reverse());
        Some(Uuid::Long(be))
    } else {
        None
    }
}

impl Uuid {
    /// Decode from wire bytes: 2 for a short UUID, 16 for a long one.
    ///
    /// Both go out least-significant byte first, so a 128-bit UUID on the wire
    /// is the reverse of how it is written.
    pub fn parse(bytes: &[u8]) -> (r: Option<Uuid>)
        ensures
            match r {
                Some(u) => uuid_from_wire(bytes@) == Some(u@),
                None => uuid_from_wire(bytes@) is None,
            },
    {
        assert(bytes@.subrange(0, bytes@.len() as int) =~= bytes@);
        uuid_at(bytes, 0, bytes.len())
    }

    /// Encode to wire bytes, least-significant first.
    pub fn to_wire(&self) -> (w: Vec<u8>)
        ensures
            w@ == uuid_to_wire(self@),
    {
        match self {
            Uuid::Short(v) => {
                let mut w = Vec::new();
                push_u16_le(&mut w, *v);
                w
            },
            Uuid::Long(be) => {
                let mut w = Vec::new();
                let mut i: usize = 16;
                while i > 0
                    invariant
                        i <= 16,
                        w@ =~= be@.subrange(i as int, 16).reverse(),
                    decreases i,
                {
                    i = i - 1;
                    w.push(be[i]);
                }
                w
            },
        }
    }

    /// The canonical 128-bit lowercase string, expanding the Bluetooth base
    /// UUID for short forms.
    pub fn to_canonical(&self) -> (s: String)
        ensures
            s@ == uuid_canonical(self@),
    {
        match self {
            Uuid::Short(v) => {
                let b: [u8; 16] = [
                    0x00,
                    0x00,
                    (*v / 256) as u8,
                    (*v % 256) as u8,
                    0x00,
                    0x00,
                    0x10,
                    0x00,
                    0x80,
                    0x00,
                    0x00,
                    0x80,
                    0x5F,
                    0x9B,
                    0x34,
                    0xFB,
                ];
                assert(b@ =~= short_uuid_bytes(*v));
                uuid_string(&b)
            },
            Uuid::Long(b) => uuid_string(b),
        }
    }
}

/// Whatever a UUID is, decoding its wire form gives it back.
pub proof fn lemma_uuid_wire_round_trip(u: Uuid)
    ensures
        uuid_from_wire(uuid_to_wire(u@)) == Some(u@),
{
    match u {
        Uuid::Short(v) => {},
        Uuid::Long(b) => {
            assert(b@.reverse().reverse() =~= b@);
        },
    }
}


// ── Discovered attributes ───────────────────────────────────────────────────

/// A discovered primary service.
#[derive(Debug, Clone, PartialEq, Eq)]
pub struct Service {
    pub start_handle: u16,
    pub end_handle: u16,
    pub uuid: Uuid,
}

/// A discovered characteristic.
#[derive(Debug, Clone, PartialEq, Eq)]
pub struct Characteristic {
    /// The handle of the characteristic *declaration*.
    pub handle: u16,
    /// The handle its value lives at — what reads and writes address.
    pub value_handle: u16,
    pub properties: u8,
    pub uuid: Uuid,
}

/// A discovered descriptor.
#[derive(Debug, Clone, PartialEq, Eq)]
pub struct Descriptor {
    pub handle: u16,
    pub uuid: Uuid,
}

/// One `Include` declaration: a service pointing at another service.
///
/// `uuid` is absent when the included service has a 128-bit UUID, which does
/// not fit the declaration.
#[derive(Debug, Clone, PartialEq)]
pub struct Include {
    /// Where the declaration itself lives.
    pub handle: u16,
    /// The included service's first handle.
    pub start_handle: u16,
    /// Its last handle.
    pub end_handle: u16,
    pub uuid: Option<Uuid>,
}

pub struct ServiceView {
    pub start_handle: u16,
    pub end_handle: u16,
    pub uuid: UuidView,
}

pub struct CharacteristicView {
    pub handle: u16,
    pub value_handle: u16,
    pub properties: u8,
    pub uuid: UuidView,
}

pub struct DescriptorView {
    pub handle: u16,
    pub uuid: UuidView,
}

pub struct IncludeView {
    pub handle: u16,
    pub start_handle: u16,
    pub end_handle: u16,
    pub uuid: Option<UuidView>,
}

impl View for Service {
    type V = ServiceView;

    open spec fn view(&self) -> ServiceView {
        ServiceView { start_handle: self.start_handle, end_handle: self.end_handle, uuid: self.uuid@ }
    }
}

impl View for Characteristic {
    type V = CharacteristicView;

    open spec fn view(&self) -> CharacteristicView {
        CharacteristicView {
            handle: self.handle,
            value_handle: self.value_handle,
            properties: self.properties,
            uuid: self.uuid@,
        }
    }
}

impl View for Descriptor {
    type V = DescriptorView;

    open spec fn view(&self) -> DescriptorView {
        DescriptorView { handle: self.handle, uuid: self.uuid@ }
    }
}

pub open spec fn option_uuid_view(u: Option<Uuid>) -> Option<UuidView> {
    match u {
        Some(x) => Some(x@),
        None => None,
    }
}

impl View for Include {
    type V = IncludeView;

    open spec fn view(&self) -> IncludeView {
        IncludeView {
            handle: self.handle,
            start_handle: self.start_handle,
            end_handle: self.end_handle,
            uuid: option_uuid_view(self.uuid),
        }
    }
}

// ── Encoding requests ───────────────────────────────────────────────────────

/// A little-endian `u16` field.
pub open spec fn le16(v: u16) -> Seq<u8> {
    u16_le_bytes(v)
}

pub fn exchange_mtu_request(mtu: u16) -> (pdu: Vec<u8>)
    ensures
        pdu@ == seq![opcode::EXCHANGE_MTU_REQUEST] + le16(mtu),
{
    let mut pdu = vec![opcode::EXCHANGE_MTU_REQUEST];
    push_u16_le(&mut pdu, mtu);
    pdu
}

pub fn read_by_group_type_request(start: u16, end: u16, group_type: u16) -> (pdu: Vec<u8>)
    ensures
        pdu@ == seq![opcode::READ_BY_GROUP_TYPE_REQUEST] + le16(start) + le16(end) + le16(
            group_type,
        ),
{
    let mut pdu = vec![opcode::READ_BY_GROUP_TYPE_REQUEST];
    push_u16_le(&mut pdu, start);
    push_u16_le(&mut pdu, end);
    push_u16_le(&mut pdu, group_type);
    pdu
}

pub fn read_by_type_request(start: u16, end: u16, attribute_type: u16) -> (pdu: Vec<u8>)
    ensures
        pdu@ == seq![opcode::READ_BY_TYPE_REQUEST] + le16(start) + le16(end) + le16(
            attribute_type,
        ),
{
    let mut pdu = vec![opcode::READ_BY_TYPE_REQUEST];
    push_u16_le(&mut pdu, start);
    push_u16_le(&mut pdu, end);
    push_u16_le(&mut pdu, attribute_type);
    pdu
}

pub fn find_information_request(start: u16, end: u16) -> (pdu: Vec<u8>)
    ensures
        pdu@ == seq![opcode::FIND_INFORMATION_REQUEST] + le16(start) + le16(end),
{
    let mut pdu = vec![opcode::FIND_INFORMATION_REQUEST];
    push_u16_le(&mut pdu, start);
    push_u16_le(&mut pdu, end);
    pdu
}

pub fn read_request(handle: u16) -> (pdu: Vec<u8>)
    ensures
        pdu@ == seq![opcode::READ_REQUEST] + le16(handle),
{
    let mut pdu = vec![opcode::READ_REQUEST];
    push_u16_le(&mut pdu, handle);
    pdu
}

pub fn read_blob_request(handle: u16, offset: u16) -> (pdu: Vec<u8>)
    ensures
        pdu@ == seq![opcode::READ_BLOB_REQUEST] + le16(handle) + le16(offset),
{
    let mut pdu = vec![opcode::READ_BLOB_REQUEST];
    push_u16_le(&mut pdu, handle);
    push_u16_le(&mut pdu, offset);
    pdu
}

/// Append all of `value`.
fn push_all(out: &mut Vec<u8>, value: &[u8])
    ensures
        final(out)@ == old(out)@ + value@,
{
    let mut i: usize = 0;
    while i < value.len()
        invariant
            i <= value@.len(),
            out@ == old(out)@ + value@.subrange(0, i as int),
        decreases value@.len() - i,
    {
        out.push(value[i]);
        i = i + 1;
        assert(out@ =~= old(out)@ + value@.subrange(0, i as int));
    }
    assert(value@.subrange(0, value@.len() as int) =~= value@);
}

pub fn write_request(handle: u16, value: &[u8]) -> (pdu: Vec<u8>)
    ensures
        pdu@ == seq![opcode::WRITE_REQUEST] + le16(handle) + value@,
{
    let mut pdu = vec![opcode::WRITE_REQUEST];
    push_u16_le(&mut pdu, handle);
    push_all(&mut pdu, value);
    pdu
}

/// `Prepare Write Request` — one fragment of a value too long for one write.
///
/// The peer queues the fragment and echoes it back; nothing is applied until
/// [`execute_write_request`]. `offset` is the position within the attribute.
pub fn prepare_write_request(handle: u16, offset: u16, value: &[u8]) -> (pdu: Vec<u8>)
    ensures
        pdu@ == seq![opcode::PREPARE_WRITE_REQUEST] + le16(handle) + le16(offset) + value@,
{
    let mut pdu = Vec::new();
    pdu.push(opcode::PREPARE_WRITE_REQUEST);
    push_u16_le(&mut pdu, handle);
    push_u16_le(&mut pdu, offset);
    push_all(&mut pdu, value);
    pdu
}

/// `Execute Write Request` — apply the queued fragments, or discard them.
pub fn execute_write_request(apply: bool) -> (pdu: Vec<u8>)
    ensures
        pdu@ == seq![opcode::EXECUTE_WRITE_REQUEST, if apply { 1u8 } else { 0u8 }],
{
    vec![opcode::EXECUTE_WRITE_REQUEST, if apply { 1u8 } else { 0u8 }]
}

/// `Exchange MTU Response` — our answer when the *peer* opens the exchange.
pub fn exchange_mtu_response(mtu: u16) -> (pdu: Vec<u8>)
    ensures
        pdu@ == seq![opcode::EXCHANGE_MTU_RESPONSE] + le16(mtu),
{
    let mut pdu = Vec::new();
    pdu.push(opcode::EXCHANGE_MTU_RESPONSE);
    push_u16_le(&mut pdu, mtu);
    pdu
}

/// `Error Response` — how a server declines a request it will not serve.
pub fn error_response(request: u8, handle: u16, error: AttError) -> (pdu: Vec<u8>)
    ensures
        pdu@ == seq![opcode::ERROR_RESPONSE, request] + le16(handle) + seq![error.0],
{
    let mut pdu = Vec::new();
    pdu.push(opcode::ERROR_RESPONSE);
    pdu.push(request);
    push_u16_le(&mut pdu, handle);
    pdu.push(error.0);
    assert(pdu@ =~= seq![opcode::ERROR_RESPONSE, request] + le16(handle) + seq![error.0]);
    pdu
}

/// The opcodes of requests a peer can make of us.
pub open spec fn peer_request_opcode(op: u8) -> bool {
    op == opcode::EXCHANGE_MTU_REQUEST || op == opcode::FIND_INFORMATION_REQUEST || op
        == opcode::READ_BY_TYPE_REQUEST || op == opcode::READ_REQUEST || op
        == opcode::READ_BLOB_REQUEST || op == opcode::READ_BY_GROUP_TYPE_REQUEST || op
        == opcode::WRITE_REQUEST || op == opcode::PREPARE_WRITE_REQUEST || op
        == opcode::EXECUTE_WRITE_REQUEST
}

/// Is this opcode a request the *peer* is making of us?
///
/// Commands and notifications are excluded — they need no reply.
pub fn is_peer_request(op: u8) -> (r: bool)
    ensures
        r == peer_request_opcode(op),
{
    op == opcode::EXCHANGE_MTU_REQUEST || op == opcode::FIND_INFORMATION_REQUEST || op
        == opcode::READ_BY_TYPE_REQUEST || op == opcode::READ_REQUEST || op
        == opcode::READ_BLOB_REQUEST || op == opcode::READ_BY_GROUP_TYPE_REQUEST || op
        == opcode::WRITE_REQUEST || op == opcode::PREPARE_WRITE_REQUEST || op
        == opcode::EXECUTE_WRITE_REQUEST
}

/// A write with no response.
pub fn write_command(handle: u16, value: &[u8]) -> (pdu: Vec<u8>)
    ensures
        pdu@ == seq![opcode::WRITE_COMMAND] + le16(handle) + value@,
{
    let mut pdu = vec![opcode::WRITE_COMMAND];
    push_u16_le(&mut pdu, handle);
    push_all(&mut pdu, value);
    pdu
}

pub fn handle_value_confirmation() -> (pdu: Vec<u8>)
    ensures
        pdu@ == seq![opcode::HANDLE_VALUE_CONFIRMATION],
{
    vec![opcode::HANDLE_VALUE_CONFIRMATION]
}


// ── Decoding responses ──────────────────────────────────────────────────────

/// What came back.
#[derive(Debug, Clone, PartialEq)]
pub enum Response {
    /// The peer refused. `opcode` is the request it refused.
    Error { opcode: u8, handle: u16, error: AttError },
    Mtu(u16),
    Services(Vec<Service>),
    Characteristics(Vec<Characteristic>),
    Includes(Vec<Include>),
    Descriptors(Vec<Descriptor>),
    Value(Vec<u8>),
    WriteComplete,
    /// Unsolicited: a subscription delivering a value.
    Notification { handle: u16, value: Vec<u8> },
    /// Unsolicited, and must be confirmed.
    Indication { handle: u16, value: Vec<u8> },
    /// One fragment of a long write was queued by the peer.
    PrepareWriteComplete,
    /// The peer is making a request of us, which is not a reply to anything.
    PeerRequest { opcode: u8, body: Vec<u8> },
    /// An opcode this client does not implement.
    Unknown(u8),
}

/// A response as a mathematical value.
pub enum ResponseView {
    Error { opcode: u8, handle: u16, error: AttError },
    Mtu(u16),
    Services(Seq<ServiceView>),
    Characteristics(Seq<CharacteristicView>),
    Includes(Seq<IncludeView>),
    Descriptors(Seq<DescriptorView>),
    Value(Seq<u8>),
    WriteComplete,
    Notification { handle: u16, value: Seq<u8> },
    Indication { handle: u16, value: Seq<u8> },
    PrepareWriteComplete,
    PeerRequest { opcode: u8, body: Seq<u8> },
    Unknown(u8),
}

impl View for Response {
    type V = ResponseView;

    open spec fn view(&self) -> ResponseView {
        match self {
            Response::Error { opcode, handle, error } => ResponseView::Error {
                opcode: *opcode,
                handle: *handle,
                error: *error,
            },
            Response::Mtu(m) => ResponseView::Mtu(*m),
            Response::Services(v) => ResponseView::Services(v@.map_values(|x: Service| x@)),
            Response::Characteristics(v) => ResponseView::Characteristics(
                v@.map_values(|x: Characteristic| x@),
            ),
            Response::Includes(v) => ResponseView::Includes(v@.map_values(|x: Include| x@)),
            Response::Descriptors(v) => ResponseView::Descriptors(
                v@.map_values(|x: Descriptor| x@),
            ),
            Response::Value(v) => ResponseView::Value(v@),
            Response::WriteComplete => ResponseView::WriteComplete,
            Response::Notification { handle, value } => ResponseView::Notification {
                handle: *handle,
                value: value@,
            },
            Response::Indication { handle, value } => ResponseView::Indication {
                handle: *handle,
                value: value@,
            },
            Response::PrepareWriteComplete => ResponseView::PrepareWriteComplete,
            Response::PeerRequest { opcode, body } => ResponseView::PeerRequest {
                opcode: *opcode,
                body: body@,
            },
            Response::Unknown(op) => ResponseView::Unknown(*op),
        }
    }
}

/// `Read By Group Type Response` entries of `length` bytes from `at`:
/// start handle, end handle, then the UUID. Decoding stops at a short entry
/// or at a UUID of a length that is neither 2 nor 16.
pub open spec fn service_entries(d: Seq<u8>, at: int, length: int) -> Seq<ServiceView>
    decreases d.len() - at,
{
    if length < 6 || at < 0 || at + length > d.len() {
        seq![]
    } else {
        match uuid_from_wire(d.subrange(at + 4, at + length)) {
            None => seq![],
            Some(u) => seq![
                ServiceView {
                    start_handle: u16_le(d[at], d[at + 1]),
                    end_handle: u16_le(d[at + 2], d[at + 3]),
                    uuid: u,
                },
            ] + service_entries(d, at + length, length),
        }
    }
}

/// `Read By Type Response` entries for characteristic declarations:
/// declaration handle, properties, value handle, then the UUID.
pub open spec fn characteristic_entries(d: Seq<u8>, at: int, length: int) -> Seq<
    CharacteristicView,
>
    decreases d.len() - at,
{
    if length < 7 || at < 0 || at + length > d.len() {
        seq![]
    } else {
        match uuid_from_wire(d.subrange(at + 5, at + length)) {
            None => seq![],
            Some(u) => seq![
                CharacteristicView {
                    handle: u16_le(d[at], d[at + 1]),
                    properties: d[at + 2],
                    value_handle: u16_le(d[at + 3], d[at + 4]),
                    uuid: u,
                },
            ] + characteristic_entries(d, at + length, length),
        }
    }
}

/// `Read By Type Response` entries for include declarations: declaration
/// handle, start, end, and a 16-bit UUID only when the entry is 8 bytes.
pub open spec fn include_entries(d: Seq<u8>, at: int, length: int) -> Seq<IncludeView>
    decreases d.len() - at,
{
    if length < 6 || at < 0 || at + length > d.len() {
        seq![]
    } else {
        seq![
            IncludeView {
                handle: u16_le(d[at], d[at + 1]),
                start_handle: u16_le(d[at + 2], d[at + 3]),
                end_handle: u16_le(d[at + 4], d[at + 5]),
                uuid: if length == 8 {
                    uuid_from_wire(d.subrange(at + 6, at + 8))
                } else {
                    None
                },
            },
        ] + include_entries(d, at + length, length)
    }
}

/// `Find Information Response` entries: handle, then a UUID.
pub open spec fn descriptor_entries(d: Seq<u8>, at: int, length: int) -> Seq<DescriptorView>
    decreases d.len() - at,
{
    if length < 2 || at < 0 || at + length > d.len() {
        seq![]
    } else {
        match uuid_from_wire(d.subrange(at + 2, at + length)) {
            None => seq![],
            Some(u) => seq![DescriptorView { handle: u16_le(d[at], d[at + 1]), uuid: u }]
                + descriptor_entries(d, at + length, length),
        }
    }
}

/// What one PDU decodes to, or `None` for a PDU that is empty, truncated, or
/// carries an entry length or format this client cannot use.
pub open spec fn parse_spec(pdu: Seq<u8>) -> Option<ResponseView> {
    if pdu.len() == 0 {
        None
    } else {
        let op = pdu[0];
        let n = pdu.len();
        if op == opcode::ERROR_RESPONSE {
            if n < 5 {
                None
            } else {
                Some(
                    ResponseView::Error {
                        opcode: pdu[1],
                        handle: u16_le(pdu[2], pdu[3]),
                        error: AttError(pdu[4]),
                    },
                )
            }
        } else if op == opcode::EXCHANGE_MTU_RESPONSE {
            if n < 3 {
                None
            } else {
                Some(ResponseView::Mtu(u16_le(pdu[1], pdu[2])))
            }
        } else if peer_request_opcode(op) {
            Some(ResponseView::PeerRequest { opcode: op, body: pdu.skip(1) })
        } else if op == opcode::PREPARE_WRITE_RESPONSE {
            Some(ResponseView::PrepareWriteComplete)
        } else if op == opcode::EXECUTE_WRITE_RESPONSE {
            Some(ResponseView::WriteComplete)
        } else if op == opcode::READ_BY_GROUP_TYPE_RESPONSE {
            if n < 2 || pdu[1] < 6 {
                None
            } else {
                Some(ResponseView::Services(service_entries(pdu, 2, pdu[1] as int)))
            }
        } else if op == opcode::READ_BY_TYPE_RESPONSE {
            if n < 2 {
                None
            } else if pdu[1] == 6 || pdu[1] == 8 {
                Some(ResponseView::Includes(include_entries(pdu, 2, pdu[1] as int)))
            } else if pdu[1] < 7 {
                None
            } else {
                Some(ResponseView::Characteristics(characteristic_entries(pdu, 2, pdu[1] as int)))
            }
        } else if op == opcode::FIND_INFORMATION_RESPONSE {
            if n < 2 || (pdu[1] != 1 && pdu[1] != 2) {
                None
            } else {
                Some(
                    ResponseView::Descriptors(
                        descriptor_entries(pdu, 2, if pdu[1] == 1 { 4 } else { 18 }),
                    ),
                )
            }
        } else if op == opcode::READ_RESPONSE || op == opcode::READ_BLOB_RESPONSE {
            Some(ResponseView::Value(pdu.skip(1)))
        } else if op == opcode::WRITE_RESPONSE {
            Some(ResponseView::WriteComplete)
        } else if op == opcode::HANDLE_VALUE_NOTIFICATION {
            if n < 3 {
                None
            } else {
                Some(
                    ResponseView::Notification {
                        handle: u16_le(pdu[1], pdu[2]),
                        value: pdu.skip(3),
                    },
                )
            }
        } else if op == opcode::HANDLE_VALUE_INDICATION {
            if n < 3 {
                None
            } else {
                Some(
                    ResponseView::Indication { handle: u16_le(pdu[1], pdu[2]), value: pdu.skip(3) },
                )
            }
        } else {
            Some(ResponseView::Unknown(op))
        }
    }
}

pub open spec fn option_response_view(r: Option<Response>) -> Option<ResponseView> {
    match r {
        Some(x) => Some(x@),
        None => None,
    }
}

fn services_from(pdu: &[u8], length: usize) -> (out: Vec<Service>)
    requires
        6 <= length,
        2 <= pdu@.len(),
    ensures
        out@.map_values(|x: Service| x@) == service_entries(pdu@, 2, length as int),
{
    let mut out: Vec<Service> = Vec::new();
    let mut at: usize = 2;
    while at < pdu.len()
        invariant
            6 <= length,
            2 <= at <= pdu@.len(),
            out@.map_values(|x: Service| x@) + service_entries(pdu@, at as int, length as int)
                == service_entries(pdu@, 2, length as int),
        ensures
            service_entries(pdu@, at as int, length as int) == Seq::<ServiceView>::empty(),
        decreases pdu@.len() - at,
    {
        if pdu.len() - at < length {
            break;
        }
        match uuid_at(pdu, at + 4, at + length) {
            None => {
                break;
            },
            Some(uuid) => {
                let s = Service {
                    start_handle: read_u16_le(pdu[at], pdu[at + 1]),
                    end_handle: read_u16_le(pdu[at + 2], pdu[at + 3]),
                    uuid,
                };
                let ghost before = out@.map_values(|x: Service| x@);
                out.push(s);
                assert(out@.map_values(|x: Service| x@) =~= before.push(s@));
                assert(before + service_entries(pdu@, at as int, length as int) =~= before.push(s@)
                    + service_entries(pdu@, at + length, length as int));
                at = at + length;
            },
        }
    }
    assert(out@.map_values(|x: Service| x@) =~= out@.map_values(|x: Service| x@) + seq![]);
    out
}

fn characteristics_from(pdu: &[u8], length: usize) -> (out: Vec<Characteristic>)
    requires
        7 <= length,
        2 <= pdu@.len(),
    ensures
        out@.map_values(|x: Characteristic| x@) == characteristic_entries(
            pdu@,
            2,
            length as int,
        ),
{
    let mut out: Vec<Characteristic> = Vec::new();
    let mut at: usize = 2;
    while at < pdu.len()
        invariant
            7 <= length,
            2 <= at <= pdu@.len(),
            out@.map_values(|x: Characteristic| x@) + characteristic_entries(
                pdu@,
                at as int,
                length as int,
            ) == characteristic_entries(pdu@, 2, length as int),
        ensures
            characteristic_entries(pdu@, at as int, length as int) == Seq::<CharacteristicView>::empty(),
        decreases pdu@.len() - at,
    {
        if pdu.len() - at < length {
            break;
        }
        match uuid_at(pdu, at + 5, at + length) {
            None => {
                break;
            },
            Some(uuid) => {
                let c = Characteristic {
                    handle: read_u16_le(pdu[at], pdu[at + 1]),
                    properties: pdu[at + 2],
                    value_handle: read_u16_le(pdu[at + 3], pdu[at + 4]),
                    uuid,
                };
                let ghost before = out@.map_values(|x: Characteristic| x@);
                out.push(c);
                assert(out@.map_values(|x: Characteristic| x@) =~= before.push(c@));
                assert(before + characteristic_entries(pdu@, at as int, length as int)
                    =~= before.push(c@) + characteristic_entries(pdu@, at + length, length as int));
                at = at + length;
            },
        }
    }
    assert(out@.map_values(|x: Characteristic| x@) =~= out@.map_values(|x: Characteristic| x@)
        + seq![]);
    out
}

fn includes_from(pdu: &[u8], length: usize) -> (out: Vec<Include>)
    requires
        length == 6 || length == 8,
        2 <= pdu@.len(),
    ensures
        out@.map_values(|x: Include| x@) == include_entries(pdu@, 2, length as int),
{
    let mut out: Vec<Include> = Vec::new();
    let mut at: usize = 2;
    while at < pdu.len()
        invariant
            length == 6 || length == 8,
            2 <= at <= pdu@.len(),
            out@.map_values(|x: Include| x@) + include_entries(pdu@, at as int, length as int)
                == include_entries(pdu@, 2, length as int),
        ensures
            include_entries(pdu@, at as int, length as int) == Seq::<IncludeView>::empty(),
        decreases pdu@.len() - at,
    {
        if pdu.len() - at < length {
            break;
        }
        let uuid = if length == 8 {
            uuid_at(pdu, at + 6, at + 8)
        } else {
            None
        };
        let inc = Include {
            handle: read_u16_le(pdu[at], pdu[at + 1]),
            start_handle: read_u16_le(pdu[at + 2], pdu[at + 3]),
            end_handle: read_u16_le(pdu[at + 4], pdu[at + 5]),
            uuid,
        };
        let ghost before = out@.map_values(|x: Include| x@);
        out.push(inc);
        assert(out@.map_values(|x: Include| x@) =~= before.push(inc@));
        assert(before + include_entries(pdu@, at as int, length as int) =~= before.push(inc@)
            + include_entries(pdu@, at + length, length as int));
        at = at + length;
    }
    assert(out@.map_values(|x: Include| x@) =~= out@.map_values(|x: Include| x@) + seq![]);
    out
}

fn descriptors_from(pdu: &[u8], length: usize) -> (out: Vec<Descriptor>)
    requires
        length == 4 || length == 18,
        2 <= pdu@.len(),
    ensures
        out@.map_values(|x: Descriptor| x@) == descriptor_entries(pdu@, 2, length as int),
{
    let mut out: Vec<Descriptor> = Vec::new();
    let mut at: usize = 2;
    while at < pdu.len()
        invariant
            length == 4 || length == 18,
            2 <= at <= pdu@.len(),
            out@.map_values(|x: Descriptor| x@) + descriptor_entries(
                pdu@,
                at as int,
                length as int,
            ) == descriptor_entries(pdu@, 2, length as int),
        ensures
            descriptor_entries(pdu@, at as int, length as int) == Seq::<DescriptorView>::empty(),
        decreases pdu@.len() - at,
    {
        if pdu.len() - at < length {
            break;
        }
        match uuid_at(pdu, at + 2, at + length) {
            None => {
                break;
            },
            Some(uuid) => {
                let d = Descriptor { handle: read_u16_le(pdu[at], pdu[at + 1]), uuid };
                let ghost before = out@.map_values(|x: Descriptor| x@);
                out.push(d);
                assert(out@.map_values(|x: Descriptor| x@) =~= before.push(d@));
                assert(before + descriptor_entries(pdu@, at as int, length as int)
                    =~= before.push(d@) + descriptor_entries(pdu@, at + length, length as int));
                at = at + length;
            },
        }
    }
    assert(out@.map_values(|x: Descriptor| x@) =~= out@.map_values(|x: Descriptor| x@)
        + seq![]);
    out
}

/// `pdu[from..]` as a vector.
fn tail(pdu: &[u8], from: usize) -> (v: Vec<u8>)
    requires
        from <= pdu@.len(),
    ensures
        v@ == pdu@.skip(from as int),
{
    let v = slice_to_vec(slice_subrange(pdu, from, pdu.len()));
    assert(v@ =~= pdu@.skip(from as int));
    v
}

/// Decode one PDU.
pub fn parse(pdu: &[u8]) -> (r: Option<Response>)
    ensures
        option_response_view(r) == parse_spec(pdu@),
{
    if pdu.len() == 0 {
        return None;
    }
    let op = pdu[0];
    let n = pdu.len();
    if op == opcode::ERROR_RESPONSE {
        if n < 5 {
            return None;
        }
        Some(
            Response::Error {
                opcode: pdu[1],
                handle: read_u16_le(pdu[2], pdu[3]),
                error: AttError(pdu[4]),
            },
        )
    } else if op == opcode::EXCHANGE_MTU_RESPONSE {
        if n < 3 {
            return None;
        }
        Some(Response::Mtu(read_u16_le(pdu[1], pdu[2])))
    } else if is_peer_request(op) {
        Some(Response::PeerRequest { opcode: op, body: tail(pdu, 1) })
    } else if op == opcode::PREPARE_WRITE_RESPONSE {
        Some(Response::PrepareWriteComplete)
    } else if op == opcode::EXECUTE_WRITE_RESPONSE {
        Some(Response::WriteComplete)
    } else if op == opcode::READ_BY_GROUP_TYPE_RESPONSE {
        if n < 2 || pdu[1] < 6 {
            return None;
        }
        Some(Response::Services(services_from(pdu, pdu[1] as usize)))
    } else if op == opcode::READ_BY_TYPE_RESPONSE {
        if n < 2 {
            return None;
        }
        let length = pdu[1];
        if length == 6 || length == 8 {
            Some(Response::Includes(includes_from(pdu, length as usize)))
        } else if length < 7 {
            None
        } else {
            Some(Response::Characteristics(characteristics_from(pdu, length as usize)))
        }
    } else if op == opcode::FIND_INFORMATION_RESPONSE {
        if n < 2 {
            return None;
        }
        let format = pdu[1];
        let entry_len: usize = if format == 1 {
            4
        } else if format == 2 {
            18
        } else {
            return None;
        };
        Some(Response::Descriptors(descriptors_from(pdu, entry_len)))
    } else if op == opcode::READ_RESPONSE || op == opcode::READ_BLOB_RESPONSE {
        Some(Response::Value(tail(pdu, 1)))
    } else if op == opcode::WRITE_RESPONSE {
        Some(Response::WriteComplete)
    } else if op == opcode::HANDLE_VALUE_NOTIFICATION {
        if n < 3 {
            return None;
        }
        Some(Response::Notification { handle: read_u16_le(pdu[1], pdu[2]), value: tail(pdu, 3) })
    } else if op == opcode::HANDLE_VALUE_INDICATION {
        if n < 3 {
            return None;
        }
        Some(Response::Indication { handle: read_u16_le(pdu[1], pdu[2]), value: tail(pdu, 3) })
    } else {
        Some(Response::Unknown(op))
    }
}

/// Whether a PDU arrived unprompted, and so must not be matched to a request.
pub fn is_unsolicited(op: u8) -> (r: bool)
    ensures
        r == (op == opcode::HANDLE_VALUE_NOTIFICATION || op == opcode::HANDLE_VALUE_INDICATION),
{
    op == opcode::HANDLE_VALUE_NOTIFICATION || op == opcode::HANDLE_VALUE_INDICATION
}


// ── Laws ────────────────────────────────────────────────────────────────────

/// A PDU whose opcode is one of the peer's requests always decodes as that
/// request, with its payload untouched, and never as a reply to ours.
pub proof fn lemma_peer_requests_are_not_replies(pdu: Seq<u8>)
    requires
        pdu.len() > 0,
        peer_request_opcode(pdu[0]),
    ensures
        parse_spec(pdu) == Some(ResponseView::PeerRequest { opcode: pdu[0], body: pdu.skip(1) }),
{
}

/// Every request this side encodes is, on the receiving side, a request:
/// decoding it yields `PeerRequest` with the opcode and payload that were
/// encoded.
pub proof fn lemma_encoded_requests_decode_as_requests(
    handle: u16,
    start: u16,
    end: u16,
    kind: u16,
    offset: u16,
    mtu: u16,
    value: Seq<u8>,
    apply: bool,
)
    ensures
        parse_spec(seq![opcode::EXCHANGE_MTU_REQUEST] + le16(mtu)) == Some(
            ResponseView::PeerRequest { opcode: opcode::EXCHANGE_MTU_REQUEST, body: le16(mtu) },
        ),
        parse_spec(seq![opcode::READ_BY_GROUP_TYPE_REQUEST] + le16(start) + le16(end) + le16(kind))
            == Some(
            ResponseView::PeerRequest {
                opcode: opcode::READ_BY_GROUP_TYPE_REQUEST,
                body: le16(start) + le16(end) + le16(kind),
            },
        ),
        parse_spec(seq![opcode::READ_BY_TYPE_REQUEST] + le16(start) + le16(end) + le16(kind))
            == Some(
            ResponseView::PeerRequest {
                opcode: opcode::READ_BY_TYPE_REQUEST,
                body: le16(start) + le16(end) + le16(kind),
            },
        ),
        parse_spec(seq![opcode::FIND_INFORMATION_REQUEST] + le16(start) + le16(end)) == Some(
            ResponseView::PeerRequest {
                opcode: opcode::FIND_INFORMATION_REQUEST,
                body: le16(start) + le16(end),
            },
        ),
        parse_spec(seq![opcode::READ_REQUEST] + le16(handle)) == Some(
            ResponseView::PeerRequest { opcode: opcode::READ_REQUEST, body: le16(handle) },
        ),
        parse_spec(seq![opcode::READ_BLOB_REQUEST] + le16(handle) + le16(offset)) == Some(
            ResponseView::PeerRequest {
                opcode: opcode::READ_BLOB_REQUEST,
                body: le16(handle) + le16(offset),
            },
        ),
        parse_spec(seq![opcode::WRITE_REQUEST] + le16(handle) + value) == Some(
            ResponseView::PeerRequest { opcode: opcode::WRITE_REQUEST, body: le16(handle) + value },
        ),
        parse_spec(seq![opcode::PREPARE_WRITE_REQUEST] + le16(handle) + le16(offset) + value)
            == Some(
            ResponseView::PeerRequest {
                opcode: opcode::PREPARE_WRITE_REQUEST,
                body: le16(handle) + le16(offset) + value,
            },
        ),
        parse_spec(seq![opcode::EXECUTE_WRITE_REQUEST, if apply { 1u8 } else { 0u8 }]) == Some(
            ResponseView::PeerRequest {
                opcode: opcode::EXECUTE_WRITE_REQUEST,
                body: seq![if apply { 1u8 } else { 0u8 }],
            },
        ),
{
    assert((seq![opcode::EXCHANGE_MTU_REQUEST] + le16(mtu)).skip(1) =~= le16(mtu));
    assert((seq![opcode::READ_BY_GROUP_TYPE_REQUEST] + le16(start) + le16(end) + le16(kind)).skip(
        1,
    ) =~= le16(start) + le16(end) + le16(kind));
    assert((seq![opcode::READ_BY_TYPE_REQUEST] + le16(start) + le16(end) + le16(kind)).skip(1)
        =~= le16(start) + le16(end) + le16(kind));
    assert((seq![opcode::FIND_INFORMATION_REQUEST] + le16(start) + le16(end)).skip(1) =~= le16(
        start,
    ) + le16(end));
    assert((seq![opcode::READ_REQUEST] + le16(handle)).skip(1) =~= le16(handle));
    assert((seq![opcode::READ_BLOB_REQUEST] + le16(handle) + le16(offset)).skip(1) =~= le16(handle)
        + le16(offset));
    assert((seq![opcode::WRITE_REQUEST] + le16(handle) + value).skip(1) =~= le16(handle) + value);
    assert((seq![opcode::PREPARE_WRITE_REQUEST] + le16(handle) + le16(offset) + value).skip(1)
        =~= le16(handle) + le16(offset) + value);
    assert(seq![opcode::EXECUTE_WRITE_REQUEST, if apply { 1u8 } else { 0u8 }].skip(1) =~= seq![
        if apply { 1u8 } else { 0u8 },
    ]);
}

/// The responses this side sends decode, at the other end, to what was sent.
pub proof fn lemma_encoded_responses_round_trip(mtu: u16, request: u8, handle: u16, error: AttError)
    ensures
        parse_spec(seq![opcode::EXCHANGE_MTU_RESPONSE] + le16(mtu)) == Some(ResponseView::Mtu(mtu)),
        parse_spec(seq![opcode::ERROR_RESPONSE, request] + le16(handle) + seq![error.0]) == Some(
            ResponseView::Error { opcode: request, handle, error },
        ),
{
    let e = seq![opcode::ERROR_RESPONSE, request] + le16(handle) + seq![error.0];
    assert(e[1] == request && e[2] == le16(handle)[0] && e[3] == le16(handle)[1] && e[4]
        == error.0);
}

/// Unsolicited traffic is never mistaken for a reply: a PDU with one of
/// those opcodes decodes as a notification or indication, or not at all.
pub proof fn lemma_unsolicited_decodes_as_unsolicited(pdu: Seq<u8>)
    requires
        pdu.len() > 0,
        pdu[0] == opcode::HANDLE_VALUE_NOTIFICATION || pdu[0] == opcode::HANDLE_VALUE_INDICATION,
    ensures
        match parse_spec(pdu) {
            Some(ResponseView::Notification { .. }) => pdu[0]
                == opcode::HANDLE_VALUE_NOTIFICATION,
            Some(ResponseView::Indication { .. }) => pdu[0] == opcode::HANDLE_VALUE_INDICATION,
            None => pdu.len() < 3,
            _ => false,
        },
{
}

/// Only whole entries are decoded: at most one service per `length` bytes.
pub proof fn lemma_services_are_whole_entries(d: Seq<u8>, at: int, length: int)
    requires
        0 <= at <= d.len(),
        6 <= length,
    ensures
        service_entries(d, at, length).len() * length <= d.len() - at,
    decreases d.len() - at,
{
    if at + length <= d.len() {
        lemma_services_are_whole_entries(d, at + length, length);
        let k = service_entries(d, at + length, length).len();
        assert((k + 1) * length == k * length + length) by (nonlinear_arith);
    }
}

/// Only whole entries are decoded: at most one characteristic per `length`
/// bytes.
pub proof fn lemma_characteristics_are_whole_entries(d: Seq<u8>, at: int, length: int)
    requires
        0 <= at <= d.len(),
        7 <= length,
    ensures
        characteristic_entries(d, at, length).len() * length <= d.len() - at,
    decreases d.len() - at,
{
    if at + length <= d.len() {
        lemma_characteristics_are_whole_entries(d, at + length, length);
        let k = characteristic_entries(d, at + length, length).len();
        assert((k + 1) * length == k * length + length) by (nonlinear_arith);
    }
}

/// A notification or indication carries its handle least significant byte
/// first, then the value: for any such PDU of three bytes or more, the
/// handle is `pdu[1] + 256 * pdu[2]` and the value is everything after it,
/// alike for both kinds.
pub proof fn lemma_unsolicited_handle_is_little_endian(pdu: Seq<u8>)
    requires
        pdu.len() >= 3,
        pdu[0] == 0x1Bu8 || pdu[0] == 0x1Du8,
    ensures
        parse_spec(pdu) matches Some(r) && match r {
            ResponseView::Notification { handle, value } => pdu[0] == 0x1B && handle as int
                == pdu[1] + 256 * pdu[2] && value == pdu.subrange(3, pdu.len() as int),
            ResponseView::Indication { handle, value } => pdu[0] == 0x1D && handle as int
                == pdu[1] + 256 * pdu[2] && value == pdu.subrange(3, pdu.len() as int),
            _ => false,
        },
{
    assert(pdu.skip(3) =~= pdu.subrange(3, pdu.len() as int));
}

/// The fixed replies read their 16-bit fields least significant byte first:
/// an MTU exchange reply gives `pdu[1] + 256 * pdu[2]`, and an error reply
/// names the request opcode `pdu[1]`, the handle `pdu[2] + 256 * pdu[3]` and
/// the error `pdu[4]`.
pub proof fn lemma_reply_fields_are_little_endian(pdu: Seq<u8>)
    ensures
        (pdu.len() >= 3 && pdu[0] == 0x03u8) ==> (parse_spec(pdu) matches Some(
            ResponseView::Mtu(mtu),
        ) && mtu as int == pdu[1] + 256 * pdu[2]),
        (pdu.len() >= 5 && pdu[0] == 0x01u8) ==> (parse_spec(pdu) matches Some(
            ResponseView::Error { opcode, handle, error },
        ) && opcode == pdu[1] && handle as int == pdu[2] + 256 * pdu[3] && error.0 == pdu[4]),
{
}

} // verus!
