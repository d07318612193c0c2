//! LE advertising reports, as an HCI socket delivers them.
//!
//! A report carries an address, an RSSI and an advertising payload, which is
//! a sequence of `length, type, data…` records. A zero length terminates the
//! payload, and a record that runs past the end is dropped.

use vstd::prelude::*;
use vstd::slice::{slice_subrange, slice_to_vec};
use vstd::utf8::{decode_utf8, valid_utf8};
use crate::att::short_uuid_bytes;
use crate::bytes::{read_u16_le, read_u32_le, u16_le, u32_le};
use crate::text::{
    address_text, decimal_digits, format_wire_address, lossy_string, push_decimal, push_str, utf8_lossy,
    utf8_string, uuid_string, uuid_text, hex_digit_lower, hex_lower, hex_pair_lower,
};

verus! {

/// One parsed advertising report.
#[derive(Debug, Clone, PartialEq)]
pub struct Advertisement {
    /// `AA:BB:CC:DD:EE:FF`, written order.
    pub address: String,
    /// `true` if the peer uses a random (often resolvable) address.
    pub random_address: bool,
    pub rssi: i8,
    pub local_name: Option<String>,
    pub tx_power: Option<i8>,
    /// GAP Appearance, from AD type `0x19`.
    pub appearance: Option<u16>,
    /// Canonical 128-bit service UUIDs.
    pub service_uuids: Vec<String>,
    /// Company identifier → payload.
    pub manufacturer_data: Option<(u16, Vec<u8>)>,
    /// Service UUID → payload.
    pub service_data: Vec<(String, Vec<u8>)>,
    /// Whether the advertisement said connections are accepted.
    pub connectable: bool,
}

/// An advertisement as a mathematical value.
pub struct AdvertisementView {
    pub address: Seq<char>,
    pub random_address: bool,
    pub rssi: i8,
    pub local_name: Option<Seq<char>>,
    pub tx_power: Option<i8>,
    pub appearance: Option<u16>,
    pub service_uuids: Seq<Seq<char>>,
    pub manufacturer_data: Option<(u16, Seq<u8>)>,
    pub service_data: Seq<(Seq<char>, Seq<u8>)>,
    pub connectable: bool,
}

pub open spec fn string_views(v: Seq<String>) -> Seq<Seq<char>> {
    v.map_values(|s: String| s@)
}

pub open spec fn data_views(v: Seq<(String, Vec<u8>)>) -> Seq<(Seq<char>, Seq<u8>)> {
    v.map_values(|p: (String, Vec<u8>)| (p.0@, p.1@))
}

impl View for Advertisement {
    type V = AdvertisementView;

    open spec fn view(&self) -> AdvertisementView {
        AdvertisementView {
            address: self.address@,
            random_address: self.random_address,
            rssi: self.rssi,
            local_name: match self.local_name {
                Some(s) => Some(s@),
                None => None,
            },
            tx_power: self.tx_power,
            appearance: self.appearance,
            service_uuids: string_views(self.service_uuids@),
            manufacturer_data: match self.manufacturer_data {
                Some(m) => Some((m.0, m.1@)),
                None => None,
            },
            service_data: data_views(self.service_data@),
            connectable: self.connectable,
        }
    }
}

/// The advertisement before any report or record has said anything.
pub open spec fn empty_advertisement() -> AdvertisementView {
    AdvertisementView {
        address: seq![],
        random_address: false,
        rssi: 0,
        local_name: None,
        tx_power: None,
        appearance: None,
        service_uuids: seq![],
        manufacturer_data: None,
        service_data: seq![],
        connectable: false,
    }
}

impl Default for Advertisement {
    fn default() -> (a: Self)
        ensures
            a@ == empty_advertisement(),
    {
        let a = Advertisement {
            address: String::new(),
            random_address: false,
            rssi: 0,
            local_name: None,
            tx_power: None,
            appearance: None,
            service_uuids: Vec::new(),
            manufacturer_data: None,
            service_data: Vec::new(),
            connectable: false,
        };
        assert(a@.service_uuids =~= seq![]);
        assert(a@.service_data =~= seq![]);
        a
    }
}

/// AD types, from the Core Specification Supplement.
pub const FLAGS: u8 = 0x01;
pub const INCOMPLETE_16: u8 = 0x02;
pub const COMPLETE_16: u8 = 0x03;
pub const INCOMPLETE_32: u8 = 0x04;
pub const COMPLETE_32: u8 = 0x05;
pub const INCOMPLETE_128: u8 = 0x06;
pub const COMPLETE_128: u8 = 0x07;
pub const SHORTENED_NAME: u8 = 0x08;
pub const COMPLETE_NAME: u8 = 0x09;
pub const TX_POWER: u8 = 0x0A;
pub const APPEARANCE: u8 = 0x19;
pub const SERVICE_DATA_16: u8 = 0x16;
pub const SERVICE_DATA_32: u8 = 0x20;
pub const SERVICE_DATA_128: u8 = 0x21;
pub const MANUFACTURER_DATA: u8 = 0xFF;

// ── Canonical UUID text ─────────────────────────────────────────────────────

/// A 16-bit assigned number in its canonical 128-bit form.
pub open spec fn canonical_16_text(v: u16) -> Seq<char> {
    uuid_text(short_uuid_bytes(v))
}

/// A 32-bit assigned number in its canonical 128-bit form.
pub open spec fn canonical_32_text(v: u32) -> Seq<char> {
    uuid_text(
        seq![
            (v / 0x1000000) as u8, ((v / 0x10000) % 0x100) as u8, ((v / 0x100) % 0x100) as u8,
            (v % 0x100) as u8, 0x00, 0x00, 0x10, 0x00, 0x80, 0x00, 0x00, 0x80, 0x5F, 0x9B, 0x34,
            0xFB,
        ],
    )
}

/// Expand a 16-bit assigned number into the canonical 128-bit form.
pub fn canonical_16(value: u16) -> (s: String)
    ensures
        s@ == canonical_16_text(value),
{
    let b: [u8; 16] = [
        0x00,
        0x00,
        (value / 256) as u8,
        (value % 256) as u8,
        0x00,
        0x00,
        0x10,
        0x00,
        0x80,
        0x00,
        0x00,
        0x80,
        0x5F,
        0x9B,
        0x34,
        0xFB,
    ];
    assert(b@ =~= short_uuid_bytes(value));
    uuid_string(&b)
}

/// Expand a 32-bit assigned number into the canonical 128-bit form.
pub fn canonical_32(value: u32) -> (s: String)
    ensures
        s@ == canonical_32_text(value),
{
    let b: [u8; 16] = [
        (value / 0x1000000) as u8,
        ((value / 0x10000) % 0x100) as u8,
        ((value / 0x100) % 0x100) as u8,
        (value % 0x100) as u8,
        0x00,
        0x00,
        0x10,
        0x00,
        0x80,
        0x00,
        0x00,
        0x80,
        0x5F,
        0x9B,
        0x34,
        0xFB,
    ];
    let ghost t = seq![
        (value / 0x1000000) as u8, ((value / 0x10000) % 0x100) as u8, ((value / 0x100) % 0x100) as u8,
        (value % 0x100) as u8, 0x00, 0x00, 0x10, 0x00, 0x80, 0x00, 0x00, 0x80, 0x5F, 0x9B, 0x34,
        0xFB,
    ];
    assert(b@ =~= t);
    uuid_string(&b)
}

/// Format 16 wire-order bytes as a canonical UUID, or `None` for any other
/// length.
pub fn canonical_128(wire: &[u8]) -> (r: Option<String>)
    ensures
        match r {
            Some(s) => wire@.len() == 16 && s@ == uuid_text(wire@.reverse()),
            None => wire@.len() != 16,
        },
{
    if wire.len() != 16 {
        return None;
    }
    let be: [u8; 16] = [
        wire[15],
        wire[14],
        wire[13],
        wire[12],
        wire[11],
        wire[10],
        wire[9],
        wire[8],
        wire[7],
        wire[6],
        wire[5],
        wire[4],
        wire[3],
        wire[2],
        wire[1],
        wire[0],
    ];
    assert(be@ =~= wire@.reverse());
    Some(uuid_string(&be))
}

/// The service UUID a list record carries in one chunk of 2, 4 or 16 bytes.
pub open spec fn chunk_uuid_text(c: Seq<u8>) -> Seq<char> {
    if c.len() == 2 {
        canonical_16_text(u16_le(c[0], c[1]))
    } else if c.len() == 4 {
        canonical_32_text(u32_le(c[0], c[1], c[2], c[3]))
    } else {
        uuid_text(c.reverse())
    }
}

/// The UUIDs of a service-list record: one per whole `width`-byte chunk from
/// `j`, a trailing partial chunk ignored.
pub open spec fn uuid_list(v: Seq<u8>, width: int, j: int) -> Seq<Seq<char>>
    decreases v.len() - j,
{
    if width <= 0 || j < 0 || j + width > v.len() {
        seq![]
    } else {
        seq![chunk_uuid_text(v.subrange(j, j + width))] + uuid_list(v, width, j + width)
    }
}

/// What one AD record does to an advertisement.
#[verifier::opaque]
pub open spec fn apply_record(a: AdvertisementView, ad_type: u8, v: Seq<u8>) -> AdvertisementView {
    if ad_type == FLAGS {
        if v.len() > 0 {
            AdvertisementView { connectable: v[0] % 4 != 0, ..a }
        } else {
            a
        }
    } else if ad_type == SHORTENED_NAME || ad_type == COMPLETE_NAME {
        if valid_utf8(v) && (ad_type == COMPLETE_NAME || a.local_name is None) {
            AdvertisementView { local_name: Some(decode_utf8(v)), ..a }
        } else {
            a
        }
    } else if ad_type == TX_POWER {
        AdvertisementView {
            tx_power: if v.len() > 0 {
                Some(v[0] as i8)
            } else {
                None
            },
            ..a
        }
    } else if ad_type == INCOMPLETE_16 || ad_type == COMPLETE_16 {
        AdvertisementView { service_uuids: a.service_uuids + uuid_list(v, 2, 0), ..a }
    } else if ad_type == INCOMPLETE_32 || ad_type == COMPLETE_32 {
        AdvertisementView { service_uuids: a.service_uuids + uuid_list(v, 4, 0), ..a }
    } else if ad_type == INCOMPLETE_128 || ad_type == COMPLETE_128 {
        AdvertisementView { service_uuids: a.service_uuids + uuid_list(v, 16, 0), ..a }
    } else if ad_type == APPEARANCE {
        if v.len() >= 2 {
            AdvertisementView { appearance: Some(u16_le(v[0], v[1])), ..a }
        } else {
            a
        }
    } else if ad_type == MANUFACTURER_DATA {
        if v.len() >= 2 {
            AdvertisementView { manufacturer_data: Some((u16_le(v[0], v[1]), v.skip(2))), ..a }
        } else {
            a
        }
    } else if ad_type == SERVICE_DATA_16 {
        if v.len() >= 2 {
            AdvertisementView {
                service_data: a.service_data.push((canonical_16_text(u16_le(v[0], v[1])), v.skip(2))),
                ..a
            }
        } else {
            a
        }
    } else if ad_type == SERVICE_DATA_32 {
        if v.len() >= 4 {
            AdvertisementView {
                service_data: a.service_data.push(
                    (canonical_32_text(u32_le(v[0], v[1], v[2], v[3])), v.skip(4)),
                ),
                ..a
            }
        } else {
            a
        }
    } else if ad_type == SERVICE_DATA_128 {
        if v.len() >= 16 {
            AdvertisementView {
                service_data: a.service_data.push((uuid_text(v.subrange(0, 16).reverse()), v.skip(16))),
                ..a
            }
        } else {
            a
        }
    } else {
        a
    }
}

/// What the records of a payload from `i` do to an advertisement, in order.
pub open spec fn apply_records(a: AdvertisementView, data: Seq<u8>, i: int) -> AdvertisementView
    decreases data.len() - i,
{
    if i < 0 || i >= data.len() {
        a
    } else {
        let length = data[i] as int;
        if length == 0 || i + 1 + length > data.len() {
            a
        } else {
            apply_records(
                apply_record(a, data[i + 1], data.subrange(i + 2, i + 1 + length)),
                data,
                i + 1 + length,
            )
        }
    }
}


/// Append the UUIDs of a service-list record.
fn push_uuid_list(uuids: &mut Vec<String>, v: &[u8], width: usize)
    requires
        width == 2 || width == 4 || width == 16,
    ensures
        string_views(final(uuids)@) == string_views(old(uuids)@) + uuid_list(v@, width as int, 0),
{
    let mut j: usize = 0;
    while j <= v.len() && v.len() - j >= width
        invariant
            width == 2 || width == 4 || width == 16,
            j <= v@.len(),
            string_views(old(uuids)@) + uuid_list(v@, width as int, 0) == string_views(uuids@)
                + uuid_list(v@, width as int, j as int),
        decreases v@.len() - j,
    {
        let uuid = if width == 2 {
            canonical_16(read_u16_le(v[j], v[j + 1]))
        } else if width == 4 {
            canonical_32(read_u32_le(v[j], v[j + 1], v[j + 2], v[j + 3]))
        } else {
            let block = slice_subrange(v, j, j + 16);
            match canonical_128(block) {
                Some(u) => u,
                None => {
                    assert(false);
                    String::new()
                },
            }
        };
        let ghost c = v@.subrange(j as int, j + width);
        assert(uuid@ == chunk_uuid_text(c)) by {
            if width == 2 {
                assert(c[0] == v@[j as int] && c[1] == v@[j + 1]);
            } else if width == 4 {
                assert(c[0] == v@[j as int] && c[1] == v@[j + 1] && c[2] == v@[j + 2] && c[3]
                    == v@[j + 3]);
            }
        }
        let ghost before = string_views(uuids@);
        uuids.push(uuid);
        assert(string_views(uuids@) =~= before.push(uuid@));
        assert(before + uuid_list(v@, width as int, j as int) =~= before.push(uuid@) + uuid_list(
            v@,
            width as int,
            j + width,
        ));
        j = j + width;
    }
    assert(uuid_list(v@, width as int, j as int) =~= seq![]);
    assert(string_views(uuids@) =~= string_views(uuids@) + seq![]);
}

/// `v[from..]` as a vector.
fn tail_vec(v: &[u8], from: usize) -> (out: Vec<u8>)
    requires
        from <= v@.len(),
    ensures
        out@ == v@.skip(from as int),
{
    let out = slice_to_vec(slice_subrange(v, from, v.len()));
    assert(out@ =~= v@.skip(from as int));
    out
}

/// Apply one AD record.
fn apply_record_to(into: &mut Advertisement, ad_type: u8, value: &[u8])
    ensures
        final(into)@ == apply_record(old(into)@, ad_type, value@),
{
    reveal(apply_record);
    if ad_type == FLAGS {
        if value.len() > 0 {
            into.connectable = value[0] % 4 != 0;
        }
    } else if ad_type == SHORTENED_NAME || ad_type == COMPLETE_NAME {
        match utf8_string(value) {
            Some(name) => {
                if ad_type == COMPLETE_NAME || into.local_name.is_none() {
                    into.local_name = Some(name);
                }
            },
            None => {},
        }
    } else if ad_type == TX_POWER {
        into.tx_power = if value.len() > 0 {
            Some(value[0] as i8)
        } else {
            None
        };
    } else if ad_type == INCOMPLETE_16 || ad_type == COMPLETE_16 {
        push_uuid_list(&mut into.service_uuids, value, 2);
    } else if ad_type == INCOMPLETE_32 || ad_type == COMPLETE_32 {
        push_uuid_list(&mut into.service_uuids, value, 4);
    } else if ad_type == INCOMPLETE_128 || ad_type == COMPLETE_128 {
        push_uuid_list(&mut into.service_uuids, value, 16);
    } else if ad_type == APPEARANCE {
        if value.len() >= 2 {
            into.appearance = Some(read_u16_le(value[0], value[1]));
        }
    } else if ad_type == MANUFACTURER_DATA {
        if value.len() >= 2 {
            into.manufacturer_data = Some((read_u16_le(value[0], value[1]), tail_vec(value, 2)));
        }
    } else if ad_type == SERVICE_DATA_16 {
        if value.len() >= 2 {
            let entry = (canonical_16(read_u16_le(value[0], value[1])), tail_vec(value, 2));
            let ghost before = data_views(into.service_data@);
            into.service_data.push(entry);
            assert(data_views(into.service_data@) =~= before.push((entry.0@, entry.1@)));
        }
    } else if ad_type == SERVICE_DATA_32 {
        if value.len() >= 4 {
            let entry = (
                canonical_32(read_u32_le(value[0], value[1], value[2], value[3])),
                tail_vec(value, 4),
            );
            let ghost before = data_views(into.service_data@);
            into.service_data.push(entry);
            assert(data_views(into.service_data@) =~= before.push((entry.0@, entry.1@)));
        }
    } else if ad_type == SERVICE_DATA_128 {
        if value.len() >= 16 {
            match canonical_128(slice_subrange(value, 0, 16)) {
                Some(uuid) => {
                    let entry = (uuid, tail_vec(value, 16));
                    let ghost before = data_views(into.service_data@);
                    into.service_data.push(entry);
                    assert(data_views(into.service_data@) =~= before.push((entry.0@, entry.1@)));
                },
                None => {},
            }
        }
    }
}

/// Parse the AD structures in an advertising payload.
///
/// The payload is a sequence of `length, type, data…` records. A zero length
/// terminates it — padding after that is not a record — and a length that
/// runs past the end ends it too.
pub fn parse_advertising_data(data: &[u8], into: &mut Advertisement)
    ensures
        final(into)@ == apply_records(old(into)@, data@, 0),
{
    let mut i: usize = 0;
    while i < data.len()
        invariant
            i <= data@.len(),
            apply_records(old(into)@, data@, 0) == apply_records(into@, data@, i as int),
        ensures
            apply_records(old(into)@, data@, 0) == into@,
        decreases data@.len() - i,
    {
        let length = data[i] as usize;
        if length == 0 {
            break;
        }
        if data.len() - i - 1 < length {
            break;
        }
        let ad_type = data[i + 1];
        let value = slice_subrange(data, i + 2, i + 1 + length);
        apply_record_to(into, ad_type, value);
        i = i + 1 + length;
    }
}


// ── Reports ─────────────────────────────────────────────────────────────────

pub open spec fn advertisement_views(v: Seq<Advertisement>) -> Seq<AdvertisementView> {
    v.map_values(|a: Advertisement| a@)
}

/// An advertisement as the fixed part of a report describes it, before its
/// payload is applied.
pub open spec fn report_base(
    wire: Seq<u8>,
    address_type: u8,
    rssi: i8,
    connectable: bool,
) -> AdvertisementView {
    AdvertisementView {
        address: address_text(wire),
        random_address: address_type == 0x01 || address_type == 0x03,
        rssi,
        connectable,
        ..empty_advertisement()
    }
}

/// Up to `count` legacy reports from `i`: event type, address type, 6-byte
/// address, data length, data, RSSI. A report cut short ends the list. The
/// event type says whether connections are accepted (`ADV_IND` and
/// `ADV_DIRECT_IND`); a Flags record in the data does not override it.
pub open spec fn legacy_reports(b: Seq<u8>, i: int, count: nat) -> Seq<AdvertisementView>
    decreases count,
{
    if count == 0 || i < 0 || i + 9 > b.len() {
        seq![]
    } else {
        let dl = b[i + 8] as int;
        if i + 9 + dl + 1 > b.len() {
            seq![]
        } else {
            let connectable = b[i] == 0x00 || b[i] == 0x01;
            let base = report_base(b.subrange(i + 2, i + 8), b[i + 1], b[i + 9 + dl] as i8, connectable);
            let a = apply_records(base, b.subrange(i + 9, i + 9 + dl), 0);
            seq![AdvertisementView { connectable, ..a }] + legacy_reports(
                b,
                i + 9 + dl + 1,
                (count - 1) as nat,
            )
        }
    }
}

/// The reports of an `LE Advertising Report` sub-event body: a count, then
/// that many reports.
pub open spec fn advertising_report_spec(b: Seq<u8>) -> Seq<AdvertisementView> {
    if b.len() == 0 {
        seq![]
    } else {
        legacy_reports(b, 1, b[0] as nat)
    }
}

/// One extended report's advertisement: the payload applied, then the
/// fixed-part TX power unless it is 127 ("not available") or the payload
/// already gave one. Connectability is bit 0 of the event properties, which
/// a Flags record in the payload (discoverability) does not override.
pub open spec fn extended_report(b: Seq<u8>, i: int, dl: int) -> AdvertisementView {
    let connectable = u16_le(b[i], b[i + 1]) % 2 != 0;
    let base = report_base(b.subrange(i + 3, i + 9), b[i + 2], b[i + 13] as i8, connectable);
    let a = apply_records(base, b.subrange(i + 24, i + 24 + dl), 0);
    let tx = b[i + 12] as i8;
    let with_tx = if tx != 127 && a.tx_power is None {
        AdvertisementView { tx_power: Some(tx), ..a }
    } else {
        a
    };
    AdvertisementView { connectable, ..with_tx }
}

/// Up to `count` extended reports from `i`, each a 24-byte fixed part
/// ending in the data length, then the data.
pub open spec fn extended_reports(b: Seq<u8>, i: int, count: nat) -> Seq<AdvertisementView>
    decreases count,
{
    if count == 0 || i < 0 || i + 24 > b.len() {
        seq![]
    } else {
        let dl = b[i + 23] as int;
        if i + 24 + dl > b.len() {
            seq![]
        } else {
            seq![extended_report(b, i, dl)] + extended_reports(b, i + 24 + dl, (count - 1) as nat)
        }
    }
}

/// The reports of an `LE Extended Advertising Report` sub-event body.
pub open spec fn extended_advertising_report_spec(b: Seq<u8>) -> Seq<AdvertisementView> {
    if b.len() == 0 {
        seq![]
    } else {
        extended_reports(b, 1, b[0] as nat)
    }
}

/// An advertisement from the fixed part of a report.
fn advertisement_from(wire: &[u8], address_type: u8, rssi: i8, connectable: bool) -> (a:
    Advertisement)
    ensures
        a@ == report_base(wire@, address_type, rssi, connectable),
{
    let a = Advertisement {
        address: format_wire_address(wire),
        random_address: address_type == 0x01 || address_type == 0x03,
        rssi,
        local_name: None,
        tx_power: None,
        appearance: None,
        service_uuids: Vec::new(),
        manufacturer_data: None,
        service_data: Vec::new(),
        connectable,
    };
    assert(a@.service_uuids =~= seq![]);
    assert(a@.service_data =~= seq![]);
    a
}

/// Parse an HCI `LE Advertising Report` sub-event body.
///
/// Layout: number of reports, then per report — event type, address type,
/// 6-byte address, data length, data, RSSI. A report that does not fit ends
/// the list rather than being read past the end.
pub fn parse_advertising_report(body: &[u8]) -> (out: Vec<Advertisement>)
    ensures
        advertisement_views(out@) == advertising_report_spec(body@),
{
    let mut out: Vec<Advertisement> = Vec::new();
    if body.len() == 0 {
        assert(advertisement_views(out@) =~= seq![]);
        return out;
    }
    let count = body[0];
    let mut i: usize = 1;
    let mut k: u8 = 0;
    while k < count
        invariant
            1 <= i <= body@.len(),
            k <= count == body@[0],
            advertisement_views(out@) + legacy_reports(body@, i as int, (count - k) as nat)
                == advertising_report_spec(body@),
        ensures
            legacy_reports(body@, i as int, (count - k) as nat) == Seq::<AdvertisementView>::empty(),
        decreases count - k,
    {
        if body.len() - i < 9 {
            break;
        }
        let event_type = body[i];
        let address_type = body[i + 1];
        let data_len = body[i + 8] as usize;
        if body.len() - i - 9 < data_len + 1 {
            break;
        }
        let rssi = body[i + 9 + data_len] as i8;
        let connectable = event_type == 0x00 || event_type == 0x01;
        let mut advertisement = advertisement_from(
            slice_subrange(body, i + 2, i + 8),
            address_type,
            rssi,
            connectable,
        );
        parse_advertising_data(slice_subrange(body, i + 9, i + 9 + data_len), &mut advertisement);
        advertisement.connectable = connectable;
        let ghost before = advertisement_views(out@);
        out.push(advertisement);
        assert(advertisement_views(out@) =~= before.push(advertisement@));
        assert(before + legacy_reports(body@, i as int, (count - k) as nat) =~= before.push(
            advertisement@,
        ) + legacy_reports(body@, i + 9 + data_len + 1, (count - k - 1) as nat));
        i = i + 9 + data_len + 1;
        k = k + 1;
    }
    assert(advertisement_views(out@) =~= advertisement_views(out@) + seq![]);
    out
}

/// `LE Extended Advertising Report`, the 5.0 form of the same event.
///
/// The layout is fixed-width per report: a 24-byte fixed part with the data
/// length at its end, then the data. Connectability is bit 0 of the event
/// type, and a TX power of 127 means "not available".
pub fn parse_extended_advertising_report(body: &[u8]) -> (out: Vec<Advertisement>)
    ensures
        advertisement_views(out@) == extended_advertising_report_spec(body@),
{
    let mut out: Vec<Advertisement> = Vec::new();
    if body.len() == 0 {
        assert(advertisement_views(out@) =~= seq![]);
        return out;
    }
    let count = body[0];
    let mut i: usize = 1;
    let mut k: u8 = 0;
    while k < count
        invariant
            1 <= i <= body@.len(),
            k <= count == body@[0],
            advertisement_views(out@) + extended_reports(body@, i as int, (count - k) as nat)
                == extended_advertising_report_spec(body@),
        ensures
            extended_reports(body@, i as int, (count - k) as nat) == Seq::<
                AdvertisementView,
            >::empty(),
        decreases count - k,
    {
        if body.len() - i < 24 {
            break;
        }
        let event_type = read_u16_le(body[i], body[i + 1]);
        let address_type = body[i + 2];
        let tx_power = body[i + 12] as i8;
        let rssi = body[i + 13] as i8;
        let data_len = body[i + 23] as usize;
        if body.len() - i - 24 < data_len {
            break;
        }
        let connectable = event_type % 2 != 0;
        let mut advertisement = advertisement_from(
            slice_subrange(body, i + 3, i + 9),
            address_type,
            rssi,
            connectable,
        );
        parse_advertising_data(slice_subrange(body, i + 24, i + 24 + data_len), &mut advertisement);
        if tx_power != 127 && advertisement.tx_power.is_none() {
            advertisement.tx_power = Some(tx_power);
        }
        advertisement.connectable = connectable;
        let ghost before = advertisement_views(out@);
        out.push(advertisement);
        assert(advertisement_views(out@) =~= before.push(advertisement@));
        assert(before + extended_reports(body@, i as int, (count - k) as nat) =~= before.push(
            advertisement@,
        ) + extended_reports(body@, i + 24 + data_len, (count - k - 1) as nat));
        i = i + 24 + data_len;
        k = k + 1;
    }
    assert(advertisement_views(out@) =~= advertisement_views(out@) + seq![]);
    out
}

// ── Controllers ─────────────────────────────────────────────────────────────

/// One controller, as the kernel's device list and device info describe it.
#[derive(Debug, Clone, PartialEq, Eq)]
pub struct DeviceInfo {
    /// The controller index: 0 for `hci0`.
    pub id: u16,
    /// The kernel's name for it, which is `hci` followed by the index.
    pub name: String,
    /// The controller's own address, as written.
    pub address: String,
    /// Whether the controller is up.
    pub powered: bool,
}

/// `HCI_UP` is the first of the device flags, so bit 0.
pub const HCI_UP: u32 = 1;
/// Where the name and the address sit in `struct hci_dev_info`.
pub const DEV_INFO_NAME: usize = 2;
pub const DEV_INFO_BDADDR: usize = 10;
pub const DEV_INFO_FLAGS: usize = 16;

/// The bytes before the first NUL, or all of them.
pub open spec fn until_nul(s: Seq<u8>) -> Seq<u8>
    decreases s.len(),
{
    if s.len() == 0 {
        s
    } else if s[0] == 0 {
        Seq::empty()
    } else {
        seq![s[0]] + until_nul(s.drop_first())
    }
}

/// A controller's name from its eight-byte name field: the text before the
/// NUL, or `hci` and the index when the field is empty.
pub open spec fn controller_name(id: u16, field: Seq<u8>) -> Seq<char> {
    let raw = until_nul(field);
    if raw.len() == 0 {
        seq!['h', 'c', 'i'] + decimal_digits(id as nat)
    } else {
        utf8_lossy(raw)
    }
}

/// Describe controller `id` from the `struct hci_dev_info` the kernel filled
/// in, and the flags word read from it in the machine's byte order.
pub fn device_info(id: u16, info: &[u8], flags: u32) -> (d: DeviceInfo)
    requires
        info@.len() >= 16,
    ensures
        d.id == id,
        d.name@ == controller_name(id, info@.subrange(2, 10)),
        d.address@ == address_text(info@.subrange(10, 16)),
        d.powered == (flags & HCI_UP != 0),
{
    let field = slice_subrange(info, DEV_INFO_NAME, DEV_INFO_NAME + 8);
    let mut k: usize = 0;
    assert(field@.skip(0) =~= field@);
    assert(field@.take(0) + until_nul(field@) =~= until_nul(field@));
    while k < 8 && field[k] != 0
        invariant
            k <= 8,
            field@.len() == 8,
            until_nul(field@) == field@.take(k as int) + until_nul(field@.skip(k as int)),
        decreases 8 - k,
    {
        assert(field@.skip(k as int).drop_first() =~= field@.skip(k + 1));
        assert(field@.take(k + 1) =~= field@.take(k as int) + seq![field@[k as int]]);
        k = k + 1;
    }
    proof {
        if k < 8 {
            assert(until_nul(field@.skip(k as int)) =~= Seq::<u8>::empty());
        } else {
            assert(field@.skip(8) =~= Seq::<u8>::empty());
        }
        assert(field@.take(k as int) + Seq::<u8>::empty() =~= field@.take(k as int));
    }
    let name = if k == 0 {
        let mut n = String::new();
        push_str(&mut n, "hci");
        push_decimal(&mut n, id as u64);
        proof {
            reveal_strlit("hci");
        }
        assert(n@ =~= seq!['h', 'c', 'i'] + decimal_digits(id as nat));
        n
    } else {
        lossy_string(slice_subrange(field, 0, k))
    };
    let wire = slice_subrange(info, DEV_INFO_BDADDR, DEV_INFO_BDADDR + 6);
    DeviceInfo { id, name, address: format_wire_address(wire), powered: flags & HCI_UP != 0 }
}

// ── Laws ────────────────────────────────────────────────────────────────────

/// The Bluetooth base UUID's fixed tail, after the assigned number.
pub open spec fn base_uuid_tail() -> Seq<char> {
    "-0000-1000-8000-00805f9b34fb"@
}

/// Hexadecimal digit `k` of `v`, counting from the least significant.
pub open spec fn nibble(v: u32, k: int) -> char {
    hex_digit_lower(
        (if k == 0 {
            v % 16
        } else if k == 1 {
            (v / 0x10) % 16
        } else if k == 2 {
            (v / 0x100) % 16
        } else if k == 3 {
            (v / 0x1000) % 16
        } else if k == 4 {
            (v / 0x10000) % 16
        } else if k == 5 {
            (v / 0x100000) % 16
        } else if k == 6 {
            (v / 0x1000000) % 16
        } else {
            (v / 0x10000000) % 16
        }) as u8,
    )
}

/// The eight lower-case hexadecimal digits of `v`, most significant first.
pub open spec fn hex8(v: u32) -> Seq<char> {
    seq![
        nibble(v, 7), nibble(v, 6), nibble(v, 5), nibble(v, 4), nibble(v, 3), nibble(v, 2),
        nibble(v, 1), nibble(v, 0),
    ]
}

/// The text of the fixed bytes of the base UUID.
proof fn lemma_tail_text()
    ensures
        ({
            let t = seq![0x00u8, 0x00, 0x10, 0x00, 0x80, 0x00, 0x00, 0x80, 0x5F, 0x9B, 0x34, 0xFB];
            seq!['-'] + hex_lower(t.subrange(0, 2)) + seq!['-'] + hex_lower(t.subrange(2, 4))
                + seq!['-'] + hex_lower(t.subrange(4, 6)) + seq!['-'] + hex_lower(
                t.subrange(6, 12),
            ) == base_uuid_tail()
        }),
{
    reveal_strlit("-0000-1000-8000-00805f9b34fb");
    reveal_with_fuel(hex_lower, 7);
    let t = seq![0x00u8, 0x00, 0x10, 0x00, 0x80, 0x00, 0x00, 0x80, 0x5F, 0x9B, 0x34, 0xFB];
    assert(t.subrange(0, 2) =~= seq![0x00u8, 0x00]);
    assert(t.subrange(2, 4) =~= seq![0x10u8, 0x00]);
    assert(t.subrange(4, 6) =~= seq![0x80u8, 0x00]);
    assert(t.subrange(6, 12) =~= seq![0x00u8, 0x80, 0x5F, 0x9B, 0x34, 0xFB]);
    assert(hex_lower(seq![0x00u8, 0x00]) =~= seq!['0', '0', '0', '0']) by {
        assert(seq![0x00u8, 0x00].drop_last() =~= seq![0x00u8]);
        assert(seq![0x00u8].drop_last() =~= Seq::<u8>::empty());
    }
    assert(hex_lower(seq![0x10u8, 0x00]) =~= seq!['1', '0', '0', '0']) by {
        assert(seq![0x10u8, 0x00].drop_last() =~= seq![0x10u8]);
        assert(seq![0x10u8].drop_last() =~= Seq::<u8>::empty());
    }
    assert(hex_lower(seq![0x80u8, 0x00]) =~= seq!['8', '0', '0', '0']) by {
        assert(seq![0x80u8, 0x00].drop_last() =~= seq![0x80u8]);
        assert(seq![0x80u8].drop_last() =~= Seq::<u8>::empty());
    }
    let l = seq![0x00u8, 0x80, 0x5F, 0x9B, 0x34, 0xFB];
    assert(l.drop_last() =~= seq![0x00u8, 0x80, 0x5F, 0x9B, 0x34]);
    assert(l.drop_last().drop_last() =~= seq![0x00u8, 0x80, 0x5F, 0x9B]);
    assert(l.drop_last().drop_last().drop_last() =~= seq![0x00u8, 0x80, 0x5F]);
    assert(l.drop_last().drop_last().drop_last().drop_last() =~= seq![0x00u8, 0x80]);
    assert(seq![0x00u8, 0x80].drop_last() =~= seq![0x00u8]);
    assert(seq![0x00u8].drop_last() =~= Seq::<u8>::empty());
    assert(hex_lower(l) =~= seq!['0', '0', '8', '0', '5', 'f', '9', 'b', '3', '4', 'f', 'b']);
}

/// Four bytes, most significant first, written out in hexadecimal, are the
/// eight digits of the number they make.
proof fn lemma_four_bytes_hex(v: u32)
    ensures
        hex_lower(
            seq![
                (v / 0x1000000) as u8,
                ((v / 0x10000) % 0x100) as u8,
                ((v / 0x100) % 0x100) as u8,
                (v % 0x100) as u8,
            ],
        ) == hex8(v),
{
    let b = seq![
        (v / 0x1000000) as u8,
        ((v / 0x10000) % 0x100) as u8,
        ((v / 0x100) % 0x100) as u8,
        (v % 0x100) as u8,
    ];
    reveal_with_fuel(hex_lower, 5);
    assert(b.drop_last() =~= seq![b[0], b[1], b[2]]);
    assert(seq![b[0], b[1], b[2]].drop_last() =~= seq![b[0], b[1]]);
    assert(seq![b[0], b[1]].drop_last() =~= seq![b[0]]);
    assert(seq![b[0]].drop_last() =~= Seq::<u8>::empty());
    assert(hex_lower(b) =~= hex_pair_lower(b[0]) + hex_pair_lower(b[1]) + hex_pair_lower(b[2])
        + hex_pair_lower(b[3]));
    assert(((v / 0x1000000) as u8) / 16 == ((v / 0x10000000) % 16) as u8) by (bit_vector);
    assert(((v / 0x1000000) as u8) % 16 == ((v / 0x1000000) % 16) as u8) by (bit_vector);
    assert((((v / 0x10000) % 0x100) as u8) / 16 == ((v / 0x100000) % 16) as u8) by (bit_vector);
    assert((((v / 0x10000) % 0x100) as u8) % 16 == ((v / 0x10000) % 16) as u8) by (bit_vector);
    assert((((v / 0x100) % 0x100) as u8) / 16 == ((v / 0x1000) % 16) as u8) by (bit_vector);
    assert((((v / 0x100) % 0x100) as u8) % 16 == ((v / 0x100) % 16) as u8) by (bit_vector);
    assert(((v % 0x100) as u8) / 16 == ((v / 0x10) % 16) as u8) by (bit_vector);
    assert(((v % 0x100) as u8) % 16 == (v % 16) as u8) by (bit_vector);
    assert(hex_lower(b) =~= hex8(v));
}

/// A 32-bit assigned number's canonical text is its eight hexadecimal
/// digits, most significant first, then the base UUID's tail.
pub proof fn lemma_canonical_32_text(v: u32)
    ensures
        canonical_32_text(v) == hex8(v) + base_uuid_tail(),
{
    lemma_four_bytes_hex(v);
    lemma_tail_text();
    let b = seq![
        (v / 0x1000000) as u8, ((v / 0x10000) % 0x100) as u8, ((v / 0x100) % 0x100) as u8,
        (v % 0x100) as u8, 0x00, 0x00, 0x10, 0x00, 0x80, 0x00, 0x00, 0x80, 0x5F, 0x9B, 0x34,
        0xFB,
    ];
    let t = seq![0x00u8, 0x00, 0x10, 0x00, 0x80, 0x00, 0x00, 0x80, 0x5F, 0x9B, 0x34, 0xFB];
    assert(b.subrange(0, 4) =~= seq![b[0], b[1], b[2], b[3]]);
    assert(b.subrange(4, 6) =~= t.subrange(0, 2));
    assert(b.subrange(6, 8) =~= t.subrange(2, 4));
    assert(b.subrange(8, 10) =~= t.subrange(4, 6));
    assert(b.subrange(10, 16) =~= t.subrange(6, 12));
    assert(canonical_32_text(v) =~= hex8(v) + base_uuid_tail());
}

/// A 16-bit assigned number's canonical text is `0000`, its four
/// hexadecimal digits, most significant first, then the base UUID's tail.
pub proof fn lemma_canonical_16_text(v: u16)
    ensures
        canonical_16_text(v) == hex8(v as u32) + base_uuid_tail(),
        hex8(v as u32).subrange(0, 4) == seq!['0', '0', '0', '0'],
{
    let w = v as u32;
    lemma_canonical_32_text(w);
    assert((w / 0x1000000) as u8 == 0u8) by (bit_vector)
        requires
            w < 0x10000,
    ;
    assert(((w / 0x10000) % 0x100) as u8 == 0u8) by (bit_vector)
        requires
            w < 0x10000,
    ;
    assert(((w / 0x100) % 0x100) as u8 == (v / 256) as u8) by (bit_vector)
        requires
            w == v as u32,
    ;
    assert((w % 0x100) as u8 == (v % 256) as u8) by (bit_vector)
        requires
            w == v as u32,
    ;
    assert(short_uuid_bytes(v) =~= seq![
        (w / 0x1000000) as u8, ((w / 0x10000) % 0x100) as u8, ((w / 0x100) % 0x100) as u8,
        (w % 0x100) as u8, 0x00, 0x00, 0x10, 0x00, 0x80, 0x00, 0x00, 0x80, 0x5F, 0x9B, 0x34,
        0xFB,
    ]);
    assert((w / 0x10000000) % 16 == 0 && (w / 0x1000000) % 16 == 0 && (w / 0x100000) % 16 == 0
        && (w / 0x10000) % 16 == 0) by (bit_vector)
        requires
            w < 0x10000,
    ;
    assert(hex_digit_lower(0u8) == '0');
}

/// A payload of one whole record applies that record and nothing else.
proof fn lemma_single_record(a: AdvertisementView, t: u8, v: Seq<u8>)
    requires
        v.len() <= 254,
    ensures
        apply_records(a, seq![(v.len() + 1) as u8, t] + v, 0) == apply_record(a, t, v),
{
    let d = seq![(v.len() + 1) as u8, t] + v;
    assert(d.subrange(2, v.len() + 2int) =~= v);
    assert(apply_records(apply_record(a, t, v), d, v.len() + 2int) == apply_record(a, t, v));
}

/// An advertisement that differs from `a` in `r`'s field only: the
/// appearance, the manufacturer data, the service UUIDs, the service data.
pub open spec fn only_appearance(a: AdvertisementView, r: AdvertisementView) -> bool {
    r == AdvertisementView { appearance: r.appearance, ..a }
}

pub open spec fn only_manufacturer(a: AdvertisementView, r: AdvertisementView) -> bool {
    r == AdvertisementView { manufacturer_data: r.manufacturer_data, ..a }
}

pub open spec fn only_uuids(a: AdvertisementView, r: AdvertisementView) -> bool {
    r == AdvertisementView { service_uuids: r.service_uuids, ..a }
}

pub open spec fn only_service_data(a: AdvertisementView, r: AdvertisementView) -> bool {
    r == AdvertisementView { service_data: r.service_data, ..a }
}

/// Appearance and manufacturer data are read least significant byte first.
/// For a payload of one record of type `t` holding two bytes or more `v`:
/// an Appearance record (`0x19`) gives the appearance `v[0] + 256 * v[1]`,
/// and a Manufacturer Specific Data record (`0xFF`) the company
/// `v[0] + 256 * v[1]` with the rest of the bytes. Nothing else changes.
pub proof fn lemma_appearance_and_company_are_little_endian(
    a: AdvertisementView,
    t: u8,
    v: Seq<u8>,
)
    requires
        2 <= v.len() <= 254,
    ensures
        ({
            let r = apply_records(a, seq![(v.len() + 1) as u8, t] + v, 0);
            &&& t == 0x19 ==> (r.appearance matches Some(x) && x == v[0] + 256 * v[1]
                && only_appearance(a, r))
            &&& t == 0xFF ==> (r.manufacturer_data matches Some(m) && m.0 == v[0] + 256 * v[1]
                && m.1 == v.subrange(2, v.len() as int) && only_manufacturer(a, r))
        }),
{
    lemma_single_record(a, t, v);
    reveal(apply_record);
    assert(v.skip(2) =~= v.subrange(2, v.len() as int));
}

/// Service UUIDs in a list are read least significant byte first: a
/// 16-bit list (`0x02`, `0x03`) of one UUID adds the digits of
/// `v[0] + 256 * v[1]` in the base UUID, and a 32-bit list (`0x04`, `0x05`)
/// of one UUID the digits of
/// `v[0] + 256 * v[1] + 65536 * v[2] + 16777216 * v[3]`. Nothing else
/// changes.
pub proof fn lemma_listed_uuids_are_little_endian(a: AdvertisementView, t: u8, v: Seq<u8>)
    ensures
        ({
            let r = apply_records(a, seq![(v.len() + 1) as u8, t] + v, 0);
            &&& ((t == 0x02 || t == 0x03) && v.len() == 2) ==> (r.service_uuids
                == a.service_uuids.push(hex8((v[0] + 256 * v[1]) as u32) + base_uuid_tail())
                && only_uuids(a, r))
            &&& ((t == 0x04 || t == 0x05) && v.len() == 4) ==> (r.service_uuids
                == a.service_uuids.push(
                hex8((v[0] + 256 * v[1] + 65536 * v[2] + 16777216 * v[3]) as u32)
                    + base_uuid_tail(),
            ) && only_uuids(a, r))
        }),
{
    if (t == 0x02 || t == 0x03) && v.len() == 2 {
        lemma_single_record(a, t, v);
        reveal(apply_record);
        let x = u16_le(v[0], v[1]);
        lemma_canonical_16_text(x);
        assert(x as u32 == (v[0] + 256 * v[1]) as u32);
        assert(v.subrange(0, 2) =~= v);
        assert(uuid_list(v, 2, 2) =~= seq![]);
        assert(uuid_list(v, 2, 0) =~= seq![chunk_uuid_text(v)]);
    }
    if (t == 0x04 || t == 0x05) && v.len() == 4 {
        lemma_single_record(a, t, v);
        reveal(apply_record);
        let y = u32_le(v[0], v[1], v[2], v[3]);
        lemma_canonical_32_text(y);
        assert(y == (v[0] + 256 * v[1] + 65536 * v[2] + 16777216 * v[3]) as u32);
        assert(v.subrange(0, 4) =~= v);
        assert(uuid_list(v, 4, 4) =~= seq![]);
        assert(uuid_list(v, 4, 0) =~= seq![chunk_uuid_text(v)]);
    }
}

/// Service data names its service least significant byte first: 16-bit
/// service data (`0x16`) the digits of `v[0] + 256 * v[1]` in the base UUID,
/// 32-bit service data (`0x20`) those of
/// `v[0] + 256 * v[1] + 65536 * v[2] + 16777216 * v[3]`, each with the bytes
/// after it. Nothing else changes.
pub proof fn lemma_service_data_is_little_endian(a: AdvertisementView, t: u8, v: Seq<u8>)
    requires
        v.len() <= 254,
    ensures
        ({
            let r = apply_records(a, seq![(v.len() + 1) as u8, t] + v, 0);
            &&& (t == 0x16 && v.len() >= 2) ==> (r.service_data == a.service_data.push(
                (hex8((v[0] + 256 * v[1]) as u32) + base_uuid_tail(), v.subrange(2, v.len() as int)),
            ) && only_service_data(a, r))
            &&& (t == 0x20 && v.len() >= 4) ==> (r.service_data == a.service_data.push(
                (
                    hex8((v[0] + 256 * v[1] + 65536 * v[2] + 16777216 * v[3]) as u32)
                        + base_uuid_tail(),
                    v.subrange(4, v.len() as int),
                ),
            ) && only_service_data(a, r))
        }),
{
    if t == 0x16 && v.len() >= 2 {
        lemma_single_record(a, t, v);
        reveal(apply_record);
        let x = u16_le(v[0], v[1]);
        lemma_canonical_16_text(x);
        assert(x as u32 == (v[0] + 256 * v[1]) as u32);
        assert(v.skip(2) =~= v.subrange(2, v.len() as int));
    }
    if t == 0x20 && v.len() >= 4 {
        lemma_single_record(a, t, v);
        reveal(apply_record);
        let y = u32_le(v[0], v[1], v[2], v[3]);
        lemma_canonical_32_text(y);
        assert(y == (v[0] + 256 * v[1] + 65536 * v[2] + 16777216 * v[3]) as u32);
        assert(v.skip(4) =~= v.subrange(4, v.len() as int));
    }
}

} // verus!
