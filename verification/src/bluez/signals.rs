//! What BlueZ's signals say happened.
//!
//! BlueZ keeps clients in step through three signals: `InterfacesAdded` and
//! `InterfacesRemoved` from the object manager, and `PropertiesChanged` on
//! each object. Each one is a change to the mirrored object tree and, for the
//! objects that matter, an event for whoever listens.

use vstd::prelude::*;
use crate::bluez::{device_of, parent_path, path, Path};
use crate::dbus::message::{text_view, Message, MessageView};
use crate::dbus::value::{
    bytes_of, distinct_keys, entries_map, entries_view, items_of, lookup_entry, map_of, peeled,
    str_equal, strings_view, text_of, texts_of, Value, ValueView,
};

verus! {

// ── Names ───────────────────────────────────────────────────────────────────

pub open spec fn object_manager() -> Seq<char> {
    "org.freedesktop.DBus.ObjectManager"@
}

pub open spec fn properties() -> Seq<char> {
    "org.freedesktop.DBus.Properties"@
}

pub open spec fn adapter_interface() -> Seq<char> {
    "org.bluez.Adapter1"@
}

pub open spec fn device_interface() -> Seq<char> {
    "org.bluez.Device1"@
}

pub open spec fn service_interface() -> Seq<char> {
    "org.bluez.GattService1"@
}

pub open spec fn characteristic_interface() -> Seq<char> {
    "org.bluez.GattCharacteristic1"@
}

// ── Events ──────────────────────────────────────────────────────────────────

/// What the tree tells its listeners happened.
#[derive(Debug)]
pub enum Event {
    /// The adapter's `Powered` changed, or it appeared or vanished.
    AdapterChanged { powered: bool, present: bool },
    /// A device object appeared, or re-advertised with new properties.
    DeviceSeen { path: Path, properties: Vec<(String, Value)> },
    /// A device object vanished: BlueZ removes stale ones after a scan.
    DeviceRemoved { path: Path },
    /// `Connected` became true.
    Connected { path: Path },
    /// `Connected` became false.
    Disconnected { path: Path },
    /// `ServicesResolved` became true: the GATT tree is now populated.
    ServicesResolved { path: Path },
    /// A characteristic's `Value` changed: a notification or indication.
    CharacteristicValue { path: Path, value: Vec<u8> },
    /// A `GattService1` object appeared under or vanished from a device;
    /// `path` is the device's.
    ServicesChanged { path: Path },
    /// The whole bus went away.
    Disconnected_,
}

/// An event as values: paths as text, properties as a map.
pub enum EventView {
    AdapterChanged { powered: bool, present: bool },
    DeviceSeen { path: Seq<char>, properties: Map<Seq<char>, ValueView> },
    DeviceRemoved { path: Seq<char> },
    Connected { path: Seq<char> },
    Disconnected { path: Seq<char> },
    ServicesResolved { path: Seq<char> },
    CharacteristicValue { path: Seq<char>, value: Seq<u8> },
    ServicesChanged { path: Seq<char> },
    Disconnected_,
}

impl View for Event {
    type V = EventView;

    open spec fn view(&self) -> EventView {
        match self {
            Event::AdapterChanged { powered, present } => EventView::AdapterChanged {
                powered: *powered,
                present: *present,
            },
            Event::DeviceSeen { path, properties } => EventView::DeviceSeen {
                path: (**path)@,
                properties: entries_map(entries_view(properties@)),
            },
            Event::DeviceRemoved { path } => EventView::DeviceRemoved { path: (**path)@ },
            Event::Connected { path } => EventView::Connected { path: (**path)@ },
            Event::Disconnected { path } => EventView::Disconnected { path: (**path)@ },
            Event::ServicesResolved { path } => EventView::ServicesResolved { path: (**path)@ },
            Event::CharacteristicValue { path, value } => EventView::CharacteristicValue {
                path: (**path)@,
                value: value@,
            },
            Event::ServicesChanged { path } => EventView::ServicesChanged { path: (**path)@ },
            Event::Disconnected_ => EventView::Disconnected_,
        }
    }
}

pub open spec fn events_view(es: Seq<Event>) -> Seq<EventView> {
    es.map_values(|e: Event| e@)
}

// ── Reading a signal's arguments ───────────────────────────────────────────

/// The text of argument `i`, if there is such an argument and it is text.
pub open spec fn arg_text(m: MessageView, i: int) -> Option<Seq<char>> {
    if 0 <= i < m.body.len() {
        text_of(m.body[i])
    } else {
        None
    }
}

/// Argument `i` read as a map; an absent argument is an empty map.
pub open spec fn arg_map(m: MessageView, i: int) -> Map<Seq<char>, ValueView> {
    if 0 <= i < m.body.len() {
        map_of(m.body[i])
    } else {
        Map::empty()
    }
}

/// A value read as a list of text: the items that are text.
pub open spec fn texts_in(v: ValueView) -> Seq<Seq<char>> {
    match items_of(v) {
        Some(items) => texts_of(items),
        None => Seq::empty(),
    }
}

/// The boolean a property holds, if it is there and is one.
pub open spec fn bool_in(props: Map<Seq<char>, ValueView>, key: Seq<char>) -> Option<bool> {
    if props.contains_key(key) {
        match peeled(props[key]) {
            ValueView::Bool(b) => Some(b),
            _ => None,
        }
    } else {
        None
    }
}

/// The bytes a property holds, if it is there and is an array of bytes.
pub open spec fn bytes_in(props: Map<Seq<char>, ValueView>, key: Seq<char>) -> Option<Seq<u8>> {
    if props.contains_key(key) {
        match items_of(props[key]) {
            Some(items) => bytes_of(items),
            None => None,
        }
    } else {
        None
    }
}

/// Whether the message is `member` of `interface`.
pub open spec fn is_signal(m: MessageView, interface: Seq<char>, member: Seq<char>) -> bool {
    m.interface == Some(interface) && m.member == Some(member)
}

// ── What each signal means ─────────────────────────────────────────────────

/// The service-change event for an object's device, when it has one.
pub open spec fn services_changed(p: Seq<char>) -> Seq<EventView> {
    match parent_path(p) {
        Some(d) => seq![EventView::ServicesChanged { path: d }],
        None => Seq::empty(),
    }
}

/// `InterfacesAdded(o, a{sa{sv}})`: a device's properties when a device
/// interface arrived; its device's services changed when a service did.
pub open spec fn added_events(m: MessageView) -> Seq<EventView> {
    match arg_text(m, 0) {
        Some(p) => if m.body.len() < 2 {
            Seq::empty()
        } else {
            let added = map_of(m.body[1]);
            (if added.contains_key(device_interface()) {
                seq![
                    EventView::DeviceSeen {
                        path: p,
                        properties: map_of(added[device_interface()]),
                    },
                ]
            } else {
                Seq::empty()
            }) + (if added.contains_key(service_interface()) {
                services_changed(p)
            } else {
                Seq::empty()
            })
        },
        None => Seq::empty(),
    }
}

/// `InterfacesRemoved(o, as)`: its device's services changed when a service
/// went; the device is gone when its device interface went. Any other object
/// that is left empty (a service, a characteristic) is no device removal.
pub open spec fn removed_events(m: MessageView) -> Seq<EventView> {
    match arg_text(m, 0) {
        Some(p) => if m.body.len() < 2 {
            Seq::empty()
        } else {
            let names = texts_in(m.body[1]);
            (if names.contains(service_interface()) {
                services_changed(p)
            } else {
                Seq::empty()
            }) + (if names.contains(device_interface()) {
                seq![EventView::DeviceRemoved { path: p }]
            } else {
                Seq::empty()
            })
        },
        None => Seq::empty(),
    }
}

/// `PropertiesChanged(s, a{sv}, as)` on a device: connection, resolved
/// services, and a sighting when the signal strength or advertised data
/// changed.
pub open spec fn device_events(p: Seq<char>, changed: Map<Seq<char>, ValueView>) -> Seq<EventView> {
    (match bool_in(changed, "Connected"@) {
        Some(true) => seq![EventView::Connected { path: p }],
        Some(false) => seq![EventView::Disconnected { path: p }],
        None => Seq::empty(),
    }) + (if bool_in(changed, "ServicesResolved"@) == Some(true) {
        seq![EventView::ServicesResolved { path: p }]
    } else {
        Seq::empty()
    }) + (if changed.contains_key("RSSI"@) || changed.contains_key("ManufacturerData"@) {
        seq![EventView::DeviceSeen { path: p, properties: changed }]
    } else {
        Seq::empty()
    })
}

/// `PropertiesChanged` on an object: what it means for the interface named.
pub open spec fn changed_events(m: MessageView) -> Seq<EventView> {
    match (m.path, arg_text(m, 0)) {
        (Some(p), Some(interface)) => {
            let changed = arg_map(m, 1);
            if interface == device_interface() {
                device_events(p, changed)
            } else if interface == characteristic_interface() {
                match bytes_in(changed, "Value"@) {
                    Some(b) => seq![EventView::CharacteristicValue { path: p, value: b }],
                    None => Seq::empty(),
                }
            } else if interface == adapter_interface() {
                match bool_in(changed, "Powered"@) {
                    Some(b) => seq![EventView::AdapterChanged { powered: b, present: true }],
                    None => Seq::empty(),
                }
            } else {
                Seq::empty()
            }
        },
        _ => Seq::empty(),
    }
}

/// The events a signal gives, in the order they are delivered.
pub open spec fn signal_events_spec(m: MessageView) -> Seq<EventView> {
    if is_signal(m, object_manager(), "InterfacesAdded"@) {
        added_events(m)
    } else if is_signal(m, object_manager(), "InterfacesRemoved"@) {
        removed_events(m)
    } else if is_signal(m, properties(), "PropertiesChanged"@) {
        changed_events(m)
    } else {
        Seq::empty()
    }
}

// ── Reading, in code ───────────────────────────────────────────────────────

/// Whether optional text is exactly `lit`.
fn text_is(o: &Option<String>, lit: &str) -> (r: bool)
    ensures
        r == (text_view(*o) == Some(lit@)),
{
    match o {
        Some(s) => str_equal(s.as_str(), lit),
        None => false,
    }
}

/// The text of argument `i`.
fn arg_str(m: &Message, i: usize) -> (r: Option<&str>)
    ensures
        match r {
            Some(t) => arg_text(m@, i as int) == Some(t@),
            None => arg_text(m@, i as int) is None,
        },
{
    match m.arg(i) {
        Some(v) => v.as_str(),
        None => None,
    }
}

/// Whether `lit` is among the strings.
pub(crate) fn contains_str(names: &Vec<String>, lit: &str) -> (r: bool)
    ensures
        r == strings_view(names@).contains(lit@),
{
    let mut k: usize = 0;
    while k < names.len()
        invariant
            k <= names@.len(),
            forall|i: int| 0 <= i < k ==> #[trigger] strings_view(names@)[i] != lit@,
        decreases names@.len() - k,
    {
        if str_equal(names[k].as_str(), lit) {
            assert(strings_view(names@)[k as int] == lit@);
            return true;
        }
        k = k + 1;
    }
    false
}

/// Append one event.
fn push_event(out: &mut Vec<Event>, e: Event)
    ensures
        events_view(final(out)@) == events_view(old(out)@).push(e@),
{
    let ghost before = out@;
    out.push(e);
    assert(events_view(out@) =~= events_view(before).push(e@));
}

/// Append the service-change event for the device of `p`, when it has one.
fn push_services_changed(out: &mut Vec<Event>, p: &str)
    ensures
        events_view(final(out)@) == events_view(old(out)@) + services_changed(p@),
{
    match device_of(p) {
        Some(d) => {
            push_event(out, Event::ServicesChanged { path: path(d) });
        },
        None => {
            assert(events_view(out@) =~= events_view(out@) + Seq::<EventView>::empty());
        },
    }
}

fn push_added(m: &Message, out: &mut Vec<Event>)
    ensures
        events_view(final(out)@) == events_view(old(out)@) + added_events(m@),
{
    let ghost start = events_view(out@);
    proof {
        crate::dbus::value::lemma_values_view(m.body@);
    }
    let p = match arg_str(m, 0) {
        Some(p) => p,
        None => {
            assert(start + Seq::<EventView>::empty() =~= start);
            return;
        },
    };
    if m.body.len() < 2 {
        assert(start + Seq::<EventView>::empty() =~= start);
        return;
    }
    let added = m.body[1].as_map();
    let ghost am = entries_map(entries_view(added@));
    assert(am == map_of(m@.body[1]));
    match lookup_entry(&added, "org.bluez.Device1") {
        Some(props) => {
            let pm = props.as_map();
            push_event(out, Event::DeviceSeen { path: path(p), properties: pm });
        },
        None => {},
    }
    let ghost mid = events_view(out@);
    match lookup_entry(&added, "org.bluez.GattService1") {
        Some(_) => {
            push_services_changed(out, p);
        },
        None => {
            assert(mid + Seq::<EventView>::empty() =~= mid);
        },
    }
    proof {
        let first: Seq<EventView> = if am.contains_key(device_interface()) {
            seq![
                EventView::DeviceSeen {
                    path: p@,
                    properties: map_of(am[device_interface()]),
                },
            ]
        } else {
            Seq::empty()
        };
        assert(mid =~= start + first);
        assert(events_view(out@) =~= start + added_events(m@));
    }
}

fn push_removed(m: &Message, out: &mut Vec<Event>)
    ensures
        events_view(final(out)@) == events_view(old(out)@) + removed_events(m@),
{
    let ghost start = events_view(out@);
    proof {
        crate::dbus::value::lemma_values_view(m.body@);
    }
    let p = match arg_str(m, 0) {
        Some(p) => p,
        None => {
            assert(start + Seq::<EventView>::empty() =~= start);
            return;
        },
    };
    if m.body.len() < 2 {
        assert(start + Seq::<EventView>::empty() =~= start);
        return;
    }
    let names = m.body[1].as_strings();
    assert(strings_view(names@) =~= texts_in(m@.body[1]));
    if contains_str(&names, "org.bluez.GattService1") {
        push_services_changed(out, p);
    } else {
        assert(start + Seq::<EventView>::empty() =~= start);
    }
    let ghost mid = events_view(out@);
    if contains_str(&names, "org.bluez.Device1") {
        push_event(out, Event::DeviceRemoved { path: path(p) });
    } else {
        assert(mid + Seq::<EventView>::empty() =~= mid);
    }
    assert(events_view(out@) =~= start + removed_events(m@));
}

fn push_device_changes(p: &str, changed: Vec<(String, Value)>, out: &mut Vec<Event>)
    requires
        distinct_keys(entries_view(changed@)),
    ensures
        events_view(final(out)@) == events_view(old(out)@) + device_events(
            p@,
            entries_map(entries_view(changed@)),
        ),
{
    let ghost start = events_view(out@);
    let ghost cm = entries_map(entries_view(changed@));
    let connected = match lookup_entry(&changed, "Connected") {
        Some(v) => v.as_bool(),
        None => None,
    };
    assert(connected == bool_in(cm, "Connected"@));
    match connected {
        Some(true) => push_event(out, Event::Connected { path: path(p) }),
        Some(false) => push_event(out, Event::Disconnected { path: path(p) }),
        None => {},
    }
    let ghost a = events_view(out@);
    let resolved = match lookup_entry(&changed, "ServicesResolved") {
        Some(v) => v.as_bool(),
        None => None,
    };
    assert(resolved == bool_in(cm, "ServicesResolved"@));
    if resolved == Some(true) {
        push_event(out, Event::ServicesResolved { path: path(p) });
    }
    let ghost b = events_view(out@);
    let seen = match lookup_entry(&changed, "RSSI") {
        Some(_) => true,
        None => match lookup_entry(&changed, "ManufacturerData") {
            Some(_) => true,
            None => false,
        },
    };
    if seen {
        push_event(out, Event::DeviceSeen { path: path(p), properties: changed });
    }
    proof {
        let c1: Seq<EventView> = match bool_in(cm, "Connected"@) {
            Some(true) => seq![EventView::Connected { path: p@ }],
            Some(false) => seq![EventView::Disconnected { path: p@ }],
            None => Seq::empty(),
        };
        let c2: Seq<EventView> = if bool_in(cm, "ServicesResolved"@) == Some(true) {
            seq![EventView::ServicesResolved { path: p@ }]
        } else {
            Seq::empty()
        };
        assert(a =~= start + c1);
        assert(b =~= start + c1 + c2);
        assert(events_view(out@) =~= start + device_events(p@, cm));
    }
}

fn push_changed(m: &Message, out: &mut Vec<Event>)
    ensures
        events_view(final(out)@) == events_view(old(out)@) + changed_events(m@),
{
    let ghost start = events_view(out@);
    proof {
        crate::dbus::value::lemma_values_view(m.body@);
    }
    let p = match &m.path {
        Some(p) => p.as_str(),
        None => {
            assert(start + Seq::<EventView>::empty() =~= start);
            return;
        },
    };
    let interface = match arg_str(m, 0) {
        Some(i) => i,
        None => {
            assert(start + Seq::<EventView>::empty() =~= start);
            return;
        },
    };
    let changed = if m.body.len() > 1 {
        m.body[1].as_map()
    } else {
        Vec::new()
    };
    let ghost cm = entries_map(entries_view(changed@));
    proof {
        if m.body.len() <= 1 {
            assert(entries_view(changed@) =~= Seq::<(Seq<char>, ValueView)>::empty());
        }
    }
    assert(cm == arg_map(m@, 1));
    if str_equal(interface, "org.bluez.Device1") {
        push_device_changes(p, changed, out);
    } else if str_equal(interface, "org.bluez.GattCharacteristic1") {
        let bytes = match lookup_entry(&changed, "Value") {
            Some(v) => v.as_bytes(),
            None => None,
        };
        assert(match bytes {
            Some(b) => bytes_in(cm, "Value"@) == Some(b@),
            None => bytes_in(cm, "Value"@) is None,
        });
        match bytes {
            Some(b) => push_event(out, Event::CharacteristicValue { path: path(p), value: b }),
            None => {
                assert(start + Seq::<EventView>::empty() =~= start);
            },
        }
    } else if str_equal(interface, "org.bluez.Adapter1") {
        let powered = match lookup_entry(&changed, "Powered") {
            Some(v) => v.as_bool(),
            None => None,
        };
        assert(powered == bool_in(cm, "Powered"@));
        match powered {
            Some(b) => push_event(out, Event::AdapterChanged { powered: b, present: true }),
            None => {
                assert(start + Seq::<EventView>::empty() =~= start);
            },
        }
    } else {
        assert(start + Seq::<EventView>::empty() =~= start);
    }
}

/// The events a signal gives, in order.
pub fn signal_events(message: &Message) -> (events: Vec<Event>)
    ensures
        events_view(events@) == signal_events_spec(message@),
{
    let mut out: Vec<Event> = Vec::new();
    assert(events_view(out@) =~= Seq::<EventView>::empty());
    let manager = text_is(&message.interface, "org.freedesktop.DBus.ObjectManager");
    let props = text_is(&message.interface, "org.freedesktop.DBus.Properties");
    if manager && text_is(&message.member, "InterfacesAdded") {
        push_added(message, &mut out);
    } else if manager && text_is(&message.member, "InterfacesRemoved") {
        push_removed(message, &mut out);
    } else if props && text_is(&message.member, "PropertiesChanged") {
        push_changed(message, &mut out);
    }
    assert(events_view(out@) =~= signal_events_spec(message@));
    out
}

// ── Laws ────────────────────────────────────────────────────────────────────

/// A device removal is reported only for an object whose device interface
/// an `InterfacesRemoved` signal named: a service or characteristic that
/// goes, even one that leaves its object empty, is never one.
pub proof fn lemma_device_removed_only_for_devices(m: MessageView, p: Seq<char>)
    requires
        signal_events_spec(m).contains(EventView::DeviceRemoved { path: p }),
    ensures
        is_signal(m, object_manager(), "InterfacesRemoved"@),
        m.body.len() >= 2,
        arg_text(m, 0) == Some(p),
        texts_in(m.body[1]).contains(device_interface()),
{
    let es = signal_events_spec(m);
    let i = choose|i: int| 0 <= i < es.len() && es[i] == EventView::DeviceRemoved { path: p };
    assert(es[i] is DeviceRemoved);
    if is_signal(m, object_manager(), "InterfacesAdded"@) {
        match arg_text(m, 0) {
            Some(q) => if m.body.len() >= 2 {
                let added = map_of(m.body[1]);
                let a = if added.contains_key(device_interface()) {
                    seq![EventView::DeviceSeen { path: q, properties: map_of(added[device_interface()]) }]
                } else {
                    Seq::empty()
                };
                let b = if added.contains_key(service_interface()) {
                    services_changed(q)
                } else {
                    Seq::empty()
                };
                assert(es == a + b);
                if i < a.len() {
                    assert(es[i] == a[i]);
                } else {
                    assert(es[i] == b[i - a.len()]);
                }
            },
            None => {},
        }
        assert(false);
    } else if is_signal(m, object_manager(), "InterfacesRemoved"@) {
        match arg_text(m, 0) {
            Some(q) => if m.body.len() >= 2 {
                let names = texts_in(m.body[1]);
                let a = if names.contains(service_interface()) {
                    services_changed(q)
                } else {
                    Seq::empty()
                };
                let b = if names.contains(device_interface()) {
                    seq![EventView::DeviceRemoved { path: q }]
                } else {
                    Seq::empty()
                };
                assert(es == a + b);
                if i < a.len() {
                    assert(es[i] == a[i]);
                    assert(false);
                } else {
                    assert(es[i] == b[i - a.len()]);
                }
            },
            None => {},
        }
    } else if is_signal(m, properties(), "PropertiesChanged"@) {
        match (m.path, arg_text(m, 0)) {
            (Some(q), Some(interface)) => {
                let changed = arg_map(m, 1);
                if interface == device_interface() {
                    let a = match bool_in(changed, "Connected"@) {
                        Some(true) => seq![EventView::Connected { path: q }],
                        Some(false) => seq![EventView::Disconnected { path: q }],
                        None => Seq::empty(),
                    };
                    let b = if bool_in(changed, "ServicesResolved"@) == Some(true) {
                        seq![EventView::ServicesResolved { path: q }]
                    } else {
                        Seq::empty()
                    };
                    let c = if changed.contains_key("RSSI"@) || changed.contains_key(
                        "ManufacturerData"@,
                    ) {
                        seq![EventView::DeviceSeen { path: q, properties: changed }]
                    } else {
                        Seq::empty()
                    };
                    assert(es == a + b + c);
                    if i < a.len() {
                        assert(es[i] == a[i]);
                    } else if i < a.len() + b.len() {
                        assert(es[i] == b[i - a.len()]);
                    } else {
                        assert(es[i] == c[i - a.len() - b.len()]);
                    }
                }
            },
            _ => {},
        }
        assert(false);
    }
}

/// What a device's `PropertiesChanged` signal reports, read off its
/// arguments: a `Connected` that became true or false is a connection or a
/// disconnection, a `ServicesResolved` that became true is a resolution, and
/// a changed `RSSI` or `ManufacturerData` is a sighting of the device
/// carrying the changed properties, so a re-advertisement reaches the scan.
pub proof fn lemma_device_changes_are_reported(m: MessageView, p: Seq<char>)
    requires
        is_signal(m, properties(), "PropertiesChanged"@),
        m.path == Some(p),
        arg_text(m, 0) == Some(device_interface()),
    ensures
        ({
            let es = signal_events_spec(m);
            let changed = arg_map(m, 1);
            &&& (changed.contains_key("RSSI"@) || changed.contains_key("ManufacturerData"@))
                ==> es.contains(EventView::DeviceSeen { path: p, properties: changed })
            &&& bool_in(changed, "Connected"@) == Some(true) ==> es.contains(
                EventView::Connected { path: p },
            )
            &&& bool_in(changed, "Connected"@) == Some(false) ==> es.contains(
                EventView::Disconnected { path: p },
            )
            &&& bool_in(changed, "ServicesResolved"@) == Some(true) ==> es.contains(
                EventView::ServicesResolved { path: p },
            )
        }),
{
    reveal_strlit("PropertiesChanged");
    reveal_strlit("InterfacesAdded");
    reveal_strlit("InterfacesRemoved");
    assert("PropertiesChanged"@[0] != "InterfacesAdded"@[0]);
    assert("PropertiesChanged"@[0] != "InterfacesRemoved"@[0]);
    let es = signal_events_spec(m);
    let changed = arg_map(m, 1);
    assert(es == device_events(p, changed));
    let a = match bool_in(changed, "Connected"@) {
        Some(true) => seq![EventView::Connected { path: p }],
        Some(false) => seq![EventView::Disconnected { path: p }],
        None => Seq::empty(),
    };
    let b = if bool_in(changed, "ServicesResolved"@) == Some(true) {
        seq![EventView::ServicesResolved { path: p }]
    } else {
        Seq::empty()
    };
    let c = if changed.contains_key("RSSI"@) || changed.contains_key("ManufacturerData"@) {
        seq![EventView::DeviceSeen { path: p, properties: changed }]
    } else {
        Seq::empty()
    };
    assert(es == a + b + c);
    if a.len() > 0 {
        assert(es[0] == a[0]);
    }
    if b.len() > 0 {
        assert(es[a.len() as int] == b[0]);
    }
    if c.len() > 0 {
        assert(es[(a.len() + b.len()) as int] == c[0]);
    }
}

// ── What a signal changes in the tree ──────────────────────────────────────

/// What a signal asks of the mirrored object tree.
#[derive(Debug)]
pub enum TreeChange {
    /// Interfaces, each with its properties, added to the object at `path`.
    Added { path: String, interfaces: Vec<(String, Vec<(String, Value)>)> },
    /// Interfaces removed from the object at `path`.
    Removed { path: String, names: Vec<String> },
    /// Properties of one interface of the object at `path` set or forgotten.
    Changed {
        path: String,
        interface: String,
        changed: Vec<(String, Value)>,
        invalidated: Vec<String>,
    },
    /// Nothing for the tree.
    Unchanged,
}

/// A tree change as values.
pub enum TreeChangeView {
    Added { path: Seq<char>, interfaces: Map<Seq<char>, Map<Seq<char>, ValueView>> },
    Removed { path: Seq<char>, names: Seq<Seq<char>> },
    Changed {
        path: Seq<char>,
        interface: Seq<char>,
        changed: Map<Seq<char>, ValueView>,
        invalidated: Seq<Seq<char>>,
    },
    Unchanged,
}

/// Interfaces and their properties, a later pair replacing an earlier one.
pub open spec fn nested_map(es: Seq<(String, Vec<(String, Value)>)>) -> Map<
    Seq<char>,
    Map<Seq<char>, ValueView>,
>
    decreases es.len(),
{
    if es.len() == 0 {
        Map::empty()
    } else {
        nested_map(es.drop_last()).insert(
            es.last().0@,
            entries_map(entries_view(es.last().1@)),
        )
    }
}

impl View for TreeChange {
    type V = TreeChangeView;

    open spec fn view(&self) -> TreeChangeView {
        match self {
            TreeChange::Added { path, interfaces } => TreeChangeView::Added {
                path: path@,
                interfaces: nested_map(interfaces@),
            },
            TreeChange::Removed { path, names } => TreeChangeView::Removed {
                path: path@,
                names: strings_view(names@),
            },
            TreeChange::Changed { path, interface, changed, invalidated } => TreeChangeView::Changed {
                path: path@,
                interface: interface@,
                changed: entries_map(entries_view(changed@)),
                invalidated: strings_view(invalidated@),
            },
            TreeChange::Unchanged => TreeChangeView::Unchanged,
        }
    }
}

/// The change a signal makes to the tree: the interfaces added, each with
/// its properties read as a map; the interface names removed; or the
/// properties changed and invalidated on one interface.
pub open spec fn tree_change_spec(m: MessageView) -> TreeChangeView {
    if is_signal(m, object_manager(), "InterfacesAdded"@) {
        match arg_text(m, 0) {
            Some(p) => if m.body.len() < 2 {
                TreeChangeView::Unchanged
            } else {
                TreeChangeView::Added {
                    path: p,
                    interfaces: map_of(m.body[1]).map_values(|v: ValueView| map_of(v)),
                }
            },
            None => TreeChangeView::Unchanged,
        }
    } else if is_signal(m, object_manager(), "InterfacesRemoved"@) {
        match arg_text(m, 0) {
            Some(p) => if m.body.len() < 2 {
                TreeChangeView::Unchanged
            } else {
                TreeChangeView::Removed { path: p, names: texts_in(m.body[1]) }
            },
            None => TreeChangeView::Unchanged,
        }
    } else if is_signal(m, properties(), "PropertiesChanged"@) {
        match (m.path, arg_text(m, 0)) {
            (Some(p), Some(interface)) => TreeChangeView::Changed {
                path: p,
                interface,
                changed: arg_map(m, 1),
                invalidated: if m.body.len() > 2 {
                    texts_in(m.body[2])
                } else {
                    Seq::empty()
                },
            },
            _ => TreeChangeView::Unchanged,
        }
    } else {
        TreeChangeView::Unchanged
    }
}

/// Each interface's properties read as a map.
fn interfaces_of(outer: &Vec<(String, Value)>) -> (r: Vec<(String, Vec<(String, Value)>)>)
    ensures
        nested_map(r@) == entries_map(entries_view(outer@)).map_values(|v: ValueView| map_of(v)),
{
    let mut r: Vec<(String, Vec<(String, Value)>)> = Vec::new();
    let mut k: usize = 0;
    let ghost ev = entries_view(outer@);
    assert(ev.take(0) =~= Seq::<(Seq<char>, ValueView)>::empty());
    assert(nested_map(r@) =~= entries_map(ev.take(0)).map_values(|v: ValueView| map_of(v)));
    while k < outer.len()
        invariant
            k <= outer@.len(),
            ev == entries_view(outer@),
            nested_map(r@) == entries_map(ev.take(k as int)).map_values(|v: ValueView| map_of(v)),
        decreases outer@.len() - k,
    {
        let ghost before = r@;
        let name = outer[k].0.clone();
        let props = outer[k].1.as_map();
        r.push((name, props));
        proof {
            assert(r@.drop_last() =~= before);
            assert(ev.take(k + 1).drop_last() =~= ev.take(k as int));
            assert(ev.take(k + 1).last() == ev[k as int]);
            assert(nested_map(r@) =~= entries_map(ev.take(k + 1)).map_values(
                |v: ValueView| map_of(v),
            ));
        }
        k = k + 1;
    }
    assert(ev.take(outer@.len() as int) =~= ev);
    r
}

/// The change a signal asks of the tree.
pub fn tree_change(message: &Message) -> (c: TreeChange)
    ensures
        c@ == tree_change_spec(message@),
{
    proof {
        crate::dbus::value::lemma_values_view(message.body@);
    }
    let manager = text_is(&message.interface, "org.freedesktop.DBus.ObjectManager");
    if manager && text_is(&message.member, "InterfacesAdded") {
        match arg_str(message, 0) {
            Some(p) => if message.body.len() < 2 {
                TreeChange::Unchanged
            } else {
                let outer = message.body[1].as_map();
                TreeChange::Added { path: p.to_string(), interfaces: interfaces_of(&outer) }
            },
            None => TreeChange::Unchanged,
        }
    } else if manager && text_is(&message.member, "InterfacesRemoved") {
        match arg_str(message, 0) {
            Some(p) => if message.body.len() < 2 {
                TreeChange::Unchanged
            } else {
                let names = message.body[1].as_strings();
                assert(strings_view(names@) =~= texts_in(message@.body[1]));
                TreeChange::Removed { path: p.to_string(), names }
            },
            None => TreeChange::Unchanged,
        }
    } else if text_is(&message.interface, "org.freedesktop.DBus.Properties") && text_is(
        &message.member,
        "PropertiesChanged",
    ) {
        let p = match &message.path {
            Some(p) => p,
            None => {
                return TreeChange::Unchanged;
            },
        };
        match arg_str(message, 0) {
            Some(interface) => {
                let changed = if message.body.len() > 1 {
                    message.body[1].as_map()
                } else {
                    Vec::new()
                };
                proof {
                    if message.body.len() <= 1 {
                        assert(entries_view(changed@) =~= Seq::<(Seq<char>, ValueView)>::empty());
                    }
                }
                let invalidated = if message.body.len() > 2 {
                    message.body[2].as_strings()
                } else {
                    Vec::new()
                };
                proof {
                    if message.body.len() > 2 {
                        assert(strings_view(invalidated@) =~= texts_in(message@.body[2]));
                    } else {
                        assert(strings_view(invalidated@) =~= Seq::<Seq<char>>::empty());
                    }
                }
                TreeChange::Changed {
                    path: p.clone(),
                    interface: interface.to_string(),
                    changed,
                    invalidated,
                }
            },
            None => TreeChange::Unchanged,
        }
    } else {
        TreeChange::Unchanged
    }
}

} // verus!
