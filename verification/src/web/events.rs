//! Events the page pushes: notifications, disconnections, advertisements.
//!
//! The request side of the boundary is a question with an answer. This is the
//! other half: things the browser reports because a listener was registered,
//! with no request outstanding to attach them to. They are decoded here and
//! routed to a single sink, so that they stay in the order they came.

use vstd::prelude::*;
use crate::web::codec::{
    at, read_bytes_spec, read_option_str_spec, read_str_spec, read_u16_spec, read_u32_spec,
    read_u8_spec, Reader, ReaderState,
};
use crate::web::host::{event_kind_from, EventKind};

verus! {

/// A decoded event.
#[derive(Debug, Clone, PartialEq, Eq)]
pub enum Event {
    /// A characteristic notified or indicated a new value.
    CharacteristicValue { device: String, service: String, characteristic: String, value: Vec<u8> },
    /// The link dropped.
    Disconnected { device: String },
    /// The device's service set changed and every handle into it is stale.
    ServiceChanged { device: String },
    /// An advertisement from a device being watched.
    Advertisement {
        device: String,
        name: Option<String>,
        rssi: i32,
        tx_power: Option<i32>,
        appearance: Option<u32>,
        uuids: Vec<String>,
        manufacturer_data: Vec<(u16, Vec<u8>)>,
        service_data: Vec<(String, Vec<u8>)>,
    },
    /// `navigator.bluetooth`'s availability changed.
    AvailabilityChanged { available: bool },
}

/// An event as values: text as characters, bytes as sequences.
pub enum EventView {
    CharacteristicValue {
        device: Seq<char>,
        service: Seq<char>,
        characteristic: Seq<char>,
        value: Seq<u8>,
    },
    Disconnected { device: Seq<char> },
    ServiceChanged { device: Seq<char> },
    Advertisement {
        device: Seq<char>,
        name: Option<Seq<char>>,
        rssi: i32,
        tx_power: Option<i32>,
        appearance: Option<u32>,
        uuids: Seq<Seq<char>>,
        manufacturer_data: Seq<(u16, Seq<u8>)>,
        service_data: Seq<(Seq<char>, Seq<u8>)>,
    },
    AvailabilityChanged { available: bool },
}

pub open spec fn strings_view(v: Seq<String>) -> Seq<Seq<char>> {
    v.map_values(|s: String| s@)
}

pub open spec fn option_string_view(v: Option<String>) -> Option<Seq<char>> {
    match v {
        Some(s) => Some(s@),
        None => None,
    }
}

pub open spec fn manufacturer_view(v: Seq<(u16, Vec<u8>)>) -> Seq<(u16, Seq<u8>)> {
    v.map_values(|e: (u16, Vec<u8>)| (e.0, e.1@))
}

pub open spec fn service_data_view(v: Seq<(String, Vec<u8>)>) -> Seq<(Seq<char>, Seq<u8>)> {
    v.map_values(|e: (String, Vec<u8>)| (e.0@, e.1@))
}

impl View for Event {
    type V = EventView;

    open spec fn view(&self) -> EventView {
        match self {
            Event::CharacteristicValue { device, service, characteristic, value } =>
                EventView::CharacteristicValue {
                device: device@,
                service: service@,
                characteristic: characteristic@,
                value: value@,
            },
            Event::Disconnected { device } => EventView::Disconnected { device: device@ },
            Event::ServiceChanged { device } => EventView::ServiceChanged { device: device@ },
            Event::Advertisement {
                device,
                name,
                rssi,
                tx_power,
                appearance,
                uuids,
                manufacturer_data,
                service_data,
            } => EventView::Advertisement {
                device: device@,
                name: option_string_view(*name),
                rssi: *rssi,
                tx_power: *tx_power,
                appearance: *appearance,
                uuids: strings_view(uuids@),
                manufacturer_data: manufacturer_view(manufacturer_data@),
                service_data: service_data_view(service_data@),
            },
            Event::AvailabilityChanged { available } => EventView::AvailabilityChanged {
                available: *available,
            },
        }
    }
}

// ── The layout of each event ────────────────────────────────────────────────

/// `n` items, each read where the previous one ended; nothing if any of them
/// cannot be read.
pub open spec fn read_many<T>(
    r: ReaderState,
    n: nat,
    item: spec_fn(ReaderState) -> (int, Option<T>),
) -> (int, Option<Seq<T>>)
    decreases n,
{
    if n == 0 {
        (r.at, Some(Seq::empty()))
    } else {
        match read_many(r, (n - 1) as nat, item) {
            (p, Some(xs)) => match item(at(r, p)) {
                (q, Some(x)) => (q, Some(xs.push(x))),
                (q, None) => (q, None),
            },
            (p, None) => (p, None),
        }
    }
}

/// A `u32` count, then that many items.
pub open spec fn read_list<T>(r: ReaderState, item: spec_fn(ReaderState) -> (int, Option<T>)) -> (
    int,
    Option<Seq<T>>,
) {
    match read_u32_spec(r) {
        (p, Some(n)) => read_many(at(r, p), n as nat, item),
        (p, None) => (p, None),
    }
}

pub open spec fn str_item() -> spec_fn(ReaderState) -> (int, Option<Seq<char>>) {
    |r: ReaderState| read_str_spec(r)
}

/// A company identifier and its data.
pub open spec fn read_manufacturer_spec(r: ReaderState) -> (int, Option<(u16, Seq<u8>)>) {
    match read_u16_spec(r) {
        (p, Some(c)) => match read_bytes_spec(at(r, p)) {
            (q, Some(d)) => (q, Some((c, d))),
            (q, None) => (q, None),
        },
        (p, None) => (p, None),
    }
}

pub open spec fn manufacturer_item() -> spec_fn(ReaderState) -> (int, Option<(u16, Seq<u8>)>) {
    |r: ReaderState| read_manufacturer_spec(r)
}

/// A service UUID and its data.
pub open spec fn read_service_data_spec(r: ReaderState) -> (int, Option<(Seq<char>, Seq<u8>)>) {
    match read_str_spec(r) {
        (p, Some(u)) => match read_bytes_spec(at(r, p)) {
            (q, Some(d)) => (q, Some((u, d))),
            (q, None) => (q, None),
        },
        (p, None) => (p, None),
    }
}

pub open spec fn service_data_item() -> spec_fn(ReaderState) -> (int, Option<(Seq<char>, Seq<u8>)>) {
    |r: ReaderState| read_service_data_spec(r)
}

/// A presence flag, then a number if present. A number that is flagged but
/// cannot be read counts as absent, and the event goes on.
pub open spec fn read_flagged_u32_spec(r: ReaderState) -> (int, Option<Option<u32>>) {
    match read_u8_spec(r) {
        (p, Some(f)) => if f != 0 {
            match read_u32_spec(at(r, p)) {
                (q, Some(v)) => (q, Some(Some(v))),
                (q, None) => (q, Some(None)),
            }
        } else {
            (p, Some(None))
        },
        (p, None) => (p, None),
    }
}

pub open spec fn as_signed(v: Option<u32>) -> Option<i32> {
    match v {
        Some(x) => Some(x as i32),
        None => None,
    }
}

/// A characteristic's new value: device, service, characteristic, value.
pub open spec fn read_value_event(r: ReaderState) -> (int, Option<EventView>) {
    match read_str_spec(r) {
        (p1, Some(device)) => match read_str_spec(at(r, p1)) {
            (p2, Some(service)) => match read_str_spec(at(r, p2)) {
                (p3, Some(characteristic)) => match read_bytes_spec(at(r, p3)) {
                    (p4, Some(value)) => (
                        p4,
                        Some(EventView::CharacteristicValue { device, service, characteristic, value }),
                    ),
                    (p4, None) => (p4, None),
                },
                (p3, None) => (p3, None),
            },
            (p2, None) => (p2, None),
        },
        (p1, None) => (p1, None),
    }
}

/// The fields of an advertisement that follow the device and name.
pub open spec fn read_advertisement_tail(
    r: ReaderState,
    device: Seq<char>,
    name: Option<Seq<char>>,
) -> (int, Option<EventView>) {
    match read_u32_spec(r) {
        (p1, Some(rssi)) => match read_flagged_u32_spec(at(r, p1)) {
            (p2, Some(tx)) => match read_flagged_u32_spec(at(r, p2)) {
                (p3, Some(appearance)) => match read_list(at(r, p3), str_item()) {
                    (p4, Some(uuids)) => match read_list(at(r, p4), manufacturer_item()) {
                        (p5, Some(manufacturer_data)) => match read_list(
                            at(r, p5),
                            service_data_item(),
                        ) {
                            (p6, Some(service_data)) => (
                                p6,
                                Some(
                                    EventView::Advertisement {
                                        device,
                                        name,
                                        rssi: rssi as i32,
                                        tx_power: as_signed(tx),
                                        appearance,
                                        uuids,
                                        manufacturer_data,
                                        service_data,
                                    },
                                ),
                            ),
                            (p6, None) => (p6, None),
                        },
                        (p5, None) => (p5, None),
                    },
                    (p4, None) => (p4, None),
                },
                (p3, None) => (p3, None),
            },
            (p2, None) => (p2, None),
        },
        (p1, None) => (p1, None),
    }
}

/// An advertisement: device, optional name, signal strength, optional
/// transmit power and appearance, then the service UUIDs, the manufacturer
/// data and the service data as lists.
pub open spec fn read_advertisement_event(r: ReaderState) -> (int, Option<EventView>) {
    match read_str_spec(r) {
        (p1, Some(device)) => match read_option_str_spec(at(r, p1)) {
            (p2, Some(name)) => read_advertisement_tail(at(r, p2), device, name),
            (p2, None) => (p2, None),
        },
        (p1, None) => (p1, None),
    }
}

/// The body of an event of the given kind, read from the start.
pub open spec fn read_event(kind: EventKind, r: ReaderState) -> (int, Option<EventView>) {
    match kind {
        EventKind::CharacteristicValue => read_value_event(r),
        EventKind::GattServerDisconnected => match read_str_spec(r) {
            (p, Some(device)) => (p, Some(EventView::Disconnected { device })),
            (p, None) => (p, None),
        },
        EventKind::ServiceChanged => match read_str_spec(r) {
            (p, Some(device)) => (p, Some(EventView::ServiceChanged { device })),
            (p, None) => (p, None),
        },
        EventKind::AdvertisementReceived => read_advertisement_event(r),
        EventKind::AvailabilityChanged => match read_u8_spec(r) {
            (p, Some(b)) => (p, Some(EventView::AvailabilityChanged { available: b != 0 })),
            (p, None) => (p, None),
        },
    }
}

/// What an event decodes to: nothing for a kind nobody named, for a body
/// that ends early, or for one with bytes left over, since then the two
/// sides disagree about the layout.
pub open spec fn decode_spec(kind: u32, body: Seq<u8>) -> Option<EventView> {
    match event_kind_from(kind) {
        Some(k) => match read_event(k, ReaderState { bytes: body, at: 0 }) {
            (p, Some(e)) => if p == body.len() {
                Some(e)
            } else {
                None
            },
            (_, None) => None,
        },
        None => None,
    }
}

pub open spec fn option_event_view(e: Option<Event>) -> Option<EventView> {
    match e {
        Some(x) => Some(x@),
        None => None,
    }
}

/// Once an item cannot be read, no longer list can be either.
proof fn lemma_read_many_stays_failed<T>(
    r: ReaderState,
    k: nat,
    n: nat,
    item: spec_fn(ReaderState) -> (int, Option<T>),
)
    requires
        k <= n,
        read_many(r, k, item).1 is None,
    ensures
        read_many(r, n, item).1 is None,
    decreases n - k,
{
    if k < n {
        lemma_read_many_stays_failed(r, k, (n - 1) as nat, item);
    }
}

// ── Reading ─────────────────────────────────────────────────────────────────

fn read_strings(r: &mut Reader) -> (out: Option<Vec<String>>)
    ensures
        ({
            let (p, v) = read_list(old(r)@, str_item());
            match out {
                Some(x) => v == Some(strings_view(x@)) && final(r)@ == at(old(r)@, p),
                None => v is None,
            }
        }),
{
    let ghost r0 = r@;
    let count = match r.u32() {
        Some(n) => n,
        None => {
            return None;
        },
    };
    let ghost start = r@;
    let mut out: Vec<String> = Vec::new();
    let mut k: u32 = 0;
    while k < count
        invariant
            k <= count,
            r0 == old(r)@,
            start == at(r0, read_u32_spec(r0).0),
            read_u32_spec(r0).1 == Some(count),
            ({
                let (p, v) = read_many(start, k as nat, str_item());
                v == Some(strings_view(out@)) && r@ == at(r0, p)
            }),
        decreases count - k,
    {
        match r.str() {
            Some(s) => {
                out.push(s);
            },
            None => {
                proof {
                    lemma_read_many_stays_failed(start, (k + 1) as nat, count as nat, str_item());
                }
                return None;
            },
        }
        assert(strings_view(out@) =~= strings_view(out@.drop_last()).push(out@.last()@));
        k = k + 1;
    }
    Some(out)
}

fn read_manufacturer_list(r: &mut Reader) -> (out: Option<Vec<(u16, Vec<u8>)>>)
    ensures
        ({
            let (p, v) = read_list(old(r)@, manufacturer_item());
            match out {
                Some(x) => v == Some(manufacturer_view(x@)) && final(r)@ == at(old(r)@, p),
                None => v is None,
            }
        }),
{
    let ghost r0 = r@;
    let count = match r.u32() {
        Some(n) => n,
        None => {
            return None;
        },
    };
    let ghost start = r@;
    let mut out: Vec<(u16, Vec<u8>)> = Vec::new();
    let mut k: u32 = 0;
    while k < count
        invariant
            k <= count,
            r0 == old(r)@,
            start == at(r0, read_u32_spec(r0).0),
            read_u32_spec(r0).1 == Some(count),
            ({
                let (p, v) = read_many(start, k as nat, manufacturer_item());
                v == Some(manufacturer_view(out@)) && r@ == at(r0, p)
            }),
        decreases count - k,
    {
        let company = match r.u16() {
            Some(c) => c,
            None => {
                proof {
                    lemma_read_many_stays_failed(start, (k + 1) as nat, count as nat, manufacturer_item());
                }
                return None;
            },
        };
        let data = match r.bytes() {
            Some(d) => d,
            None => {
                proof {
                    lemma_read_many_stays_failed(start, (k + 1) as nat, count as nat, manufacturer_item());
                }
                return None;
            },
        };
        out.push((company, data));
        assert(manufacturer_view(out@) =~= manufacturer_view(out@.drop_last()).push(
            (out@.last().0, out@.last().1@),
        ));
        k = k + 1;
    }
    Some(out)
}

fn read_service_data_list(r: &mut Reader) -> (out: Option<Vec<(String, Vec<u8>)>>)
    ensures
        ({
            let (p, v) = read_list(old(r)@, service_data_item());
            match out {
                Some(x) => v == Some(service_data_view(x@)) && final(r)@ == at(old(r)@, p),
                None => v is None,
            }
        }),
{
    let ghost r0 = r@;
    let count = match r.u32() {
        Some(n) => n,
        None => {
            return None;
        },
    };
    let ghost start = r@;
    let mut out: Vec<(String, Vec<u8>)> = Vec::new();
    let mut k: u32 = 0;
    while k < count
        invariant
            k <= count,
            r0 == old(r)@,
            start == at(r0, read_u32_spec(r0).0),
            read_u32_spec(r0).1 == Some(count),
            ({
                let (p, v) = read_many(start, k as nat, service_data_item());
                v == Some(service_data_view(out@)) && r@ == at(r0, p)
            }),
        decreases count - k,
    {
        let uuid = match r.str() {
            Some(u) => u,
            None => {
                proof {
                    lemma_read_many_stays_failed(start, (k + 1) as nat, count as nat, service_data_item());
                }
                return None;
            },
        };
        let data = match r.bytes() {
            Some(d) => d,
            None => {
                proof {
                    lemma_read_many_stays_failed(start, (k + 1) as nat, count as nat, service_data_item());
                }
                return None;
            },
        };
        out.push((uuid, data));
        assert(service_data_view(out@) =~= service_data_view(out@.drop_last()).push(
            (out@.last().0@, out@.last().1@),
        ));
        k = k + 1;
    }
    Some(out)
}

fn read_flagged_u32(r: &mut Reader) -> (out: Option<Option<u32>>)
    ensures
        ({
            let (p, v) = read_flagged_u32_spec(old(r)@);
            final(r)@ == at(old(r)@, p) && out == v
        }),
{
    match r.bool() {
        None => None,
        Some(true) => Some(r.u32()),
        Some(false) => Some(None),
    }
}

fn read_advertisement(r: &mut Reader) -> (out: Option<Event>)
    ensures
        ({
            let (p, v) = read_advertisement_event(old(r)@);
            match out {
                Some(e) => v == Some(e@) && final(r)@ == at(old(r)@, p),
                None => v is None,
            }
        }),
{
    let device = match r.str() {
        Some(s) => s,
        None => {
            return None;
        },
    };
    let name = match r.option_str() {
        Some(n) => n,
        None => {
            return None;
        },
    };
    let rssi = match r.i32() {
        Some(v) => v,
        None => {
            return None;
        },
    };
    let tx_power = match read_flagged_u32(r) {
        Some(Some(v)) => Some(v as i32),
        Some(None) => None,
        None => {
            return None;
        },
    };
    let appearance = match read_flagged_u32(r) {
        Some(v) => v,
        None => {
            return None;
        },
    };
    let uuids = match read_strings(r) {
        Some(v) => v,
        None => {
            return None;
        },
    };
    let manufacturer_data = match read_manufacturer_list(r) {
        Some(v) => v,
        None => {
            return None;
        },
    };
    let service_data = match read_service_data_list(r) {
        Some(v) => v,
        None => {
            return None;
        },
    };
    Some(
        Event::Advertisement {
            device,
            name,
            rssi,
            tx_power,
            appearance,
            uuids,
            manufacturer_data,
            service_data,
        },
    )
}

fn read_value(r: &mut Reader) -> (out: Option<Event>)
    ensures
        ({
            let (p, v) = read_value_event(old(r)@);
            match out {
                Some(e) => v == Some(e@) && final(r)@ == at(old(r)@, p),
                None => v is None,
            }
        }),
{
    let device = match r.str() {
        Some(s) => s,
        None => {
            return None;
        },
    };
    let service = match r.str() {
        Some(s) => s,
        None => {
            return None;
        },
    };
    let characteristic = match r.str() {
        Some(s) => s,
        None => {
            return None;
        },
    };
    let value = match r.bytes() {
        Some(v) => v,
        None => {
            return None;
        },
    };
    Some(Event::CharacteristicValue { device, service, characteristic, value })
}

/// Decode one event of kind `kind` from its body.
pub fn decode(kind: u32, body: &[u8]) -> (e: Option<Event>)
    ensures
        option_event_view(e) == decode_spec(kind, body@),
{
    let mut r = Reader::new(body);
    let k = match EventKind::from_u32(kind) {
        Some(k) => k,
        None => {
            return None;
        },
    };
    let event = match k {
        EventKind::CharacteristicValue => match read_value(&mut r) {
            Some(e) => e,
            None => {
                return None;
            },
        },
        EventKind::GattServerDisconnected => match r.str() {
            Some(device) => Event::Disconnected { device },
            None => {
                return None;
            },
        },
        EventKind::ServiceChanged => match r.str() {
            Some(device) => Event::ServiceChanged { device },
            None => {
                return None;
            },
        },
        EventKind::AdvertisementReceived => match read_advertisement(&mut r) {
            Some(e) => e,
            None => {
                return None;
            },
        },
        EventKind::AvailabilityChanged => match r.bool() {
            Some(available) => Event::AvailabilityChanged { available },
            None => {
                return None;
            },
        },
    };
    if r.is_empty() {
        Some(event)
    } else {
        None
    }
}

// ── Where events go ─────────────────────────────────────────────────────────

/// Where decoded events are delivered: nowhere until a sink is installed.
pub struct SinkSlot<S> {
    sink: Option<S>,
}

impl<S> View for SinkSlot<S> {
    type V = Option<S>;

    closed spec fn view(&self) -> Option<S> {
        self.sink
    }
}

impl<S> SinkSlot<S> {
    pub fn new() -> (slot: Self)
        ensures
            slot@ is None,
    {
        SinkSlot { sink: None }
    }

    /// Take the sink out for the length of one delivery, so that a delivery
    /// that causes another does not find it in use. `None`: the event is
    /// dropped, not queued.
    pub fn take_for_delivery(&mut self) -> (s: Option<S>)
        ensures
            s == old(self)@,
            final(self)@ is None,
    {
        let mut out: Option<S> = None;
        std::mem::swap(&mut out, &mut self.sink);
        out
    }

    /// Put a sink back after a delivery, unless another was installed while
    /// it was out, or it was cleared: then that choice stands.
    pub fn put_back(&mut self, sink: S)
        ensures
            old(self)@ is None ==> final(self)@ == Some(sink),
            old(self)@ is Some ==> final(self)@ == old(self)@,
    {
        if self.sink.is_none() {
            self.sink = Some(sink);
        }
    }
}

/// Route events to `sink` from here on, replacing any previous one.
pub fn set_sink<S>(slot: &mut SinkSlot<S>, sink: S)
    ensures
        final(slot)@ == Some(sink),
{
    slot.sink = Some(sink);
}

/// Stop routing events.
pub fn clear_sink<S>(slot: &mut SinkSlot<S>)
    ensures
        final(slot)@ is None,
{
    slot.sink = None;
}

} // verus!
