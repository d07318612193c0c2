//! What the page's events do to what this side remembers.
//!
//! The browser owns the devices; this side keeps the last value each
//! characteristic reported, which characteristics are notifying, and what the
//! page last said about availability. Each event from the page updates that
//! and says what else is to be done: hand a value to its subscribers, mark a
//! device disconnected or its services changed, publish an advertisement.
//! Whoever owns the registry, the scan hub and the subscriber channels does
//! those.

use vstd::prelude::*;
use crate::bluez::{child_of, is_child};
use crate::dbus::value::str_equal;
use crate::web::events::{Event, EventView};

verus! {

/// What the page last said about `navigator.bluetooth`.
#[derive(Debug, Clone, Copy, PartialEq, Eq, Structural)]
pub enum PowerState {
    /// Nothing said yet.
    Unknown,
    PoweredOn,
    PoweredOff,
}

/// The characteristic values, notifications and availability this side
/// remembers, keyed by characteristic key (`{device}/{service}/{characteristic}`).
pub struct EngineCache {
    values: Vec<(String, Vec<u8>)>,
    notifying: Vec<String>,
    state: PowerState,
}

pub struct EngineView {
    /// Key and last value, in the order keys were first stored.
    pub values: Seq<(Seq<char>, Seq<u8>)>,
    /// The keys notifications were started on.
    pub notifying: Seq<Seq<char>>,
    pub state: PowerState,
}

pub open spec fn values_view(v: Seq<(String, Vec<u8>)>) -> Seq<(Seq<char>, Seq<u8>)> {
    v.map_values(|e: (String, Vec<u8>)| (e.0@, e.1@))
}

pub open spec fn keys_view(v: Seq<String>) -> Seq<Seq<char>> {
    v.map_values(|s: String| s@)
}

impl View for EngineCache {
    type V = EngineView;

    closed spec fn view(&self) -> EngineView {
        EngineView {
            values: values_view(self.values@),
            notifying: keys_view(self.notifying@),
            state: self.state,
        }
    }
}

/// What the owner of the registry, the scan hub and the channels is to do.
#[derive(Debug)]
pub enum EngineAction {
    /// Hand `value` to the subscribers of `characteristic`.
    Deliver { characteristic: String, value: Vec<u8> },
    /// The device's link dropped: every handle into it is stale.
    MarkDisconnected { device: String },
    /// The device's services changed: every handle into it is stale.
    MarkServicesChanged { device: String },
    /// Publish the event's advertisement to whoever watches the scan.
    Publish { device: String },
}

pub enum EngineActionView {
    Deliver { characteristic: Seq<char>, value: Seq<u8> },
    MarkDisconnected { device: Seq<char> },
    MarkServicesChanged { device: Seq<char> },
    Publish { device: Seq<char> },
}

impl View for EngineAction {
    type V = EngineActionView;

    open spec fn view(&self) -> EngineActionView {
        match self {
            EngineAction::Deliver { characteristic, value } => EngineActionView::Deliver {
                characteristic: characteristic@,
                value: value@,
            },
            EngineAction::MarkDisconnected { device } => EngineActionView::MarkDisconnected {
                device: device@,
            },
            EngineAction::MarkServicesChanged { device } => EngineActionView::MarkServicesChanged {
                device: device@,
            },
            EngineAction::Publish { device } => EngineActionView::Publish { device: device@ },
        }
    }
}

pub open spec fn actions_view(a: Seq<EngineAction>) -> Seq<EngineActionView> {
    a.map_values(|x: EngineAction| x@)
}

// ── The model ───────────────────────────────────────────────────────────────

/// `i` is the first entry stored under `key`.
pub open spec fn first_key(v: Seq<(Seq<char>, Seq<u8>)>, key: Seq<char>, i: int) -> bool {
    &&& 0 <= i < v.len()
    &&& v[i].0 == key
    &&& forall|j: int| 0 <= j < i ==> #[trigger] v[j].0 != key
}

/// Where `key`'s value is stored, if it is.
pub open spec fn value_index(v: Seq<(Seq<char>, Seq<u8>)>, key: Seq<char>) -> Option<int> {
    if exists|i: int| first_key(v, key, i) {
        Some(choose|i: int| first_key(v, key, i))
    } else {
        None
    }
}

/// The value remembered for `key`.
pub open spec fn lookup(v: Seq<(Seq<char>, Seq<u8>)>, key: Seq<char>) -> Option<Seq<u8>> {
    match value_index(v, key) {
        Some(i) => Some(v[i].1),
        None => None,
    }
}

/// `value` remembered for `key`, in place of what was.
pub open spec fn store(v: Seq<(Seq<char>, Seq<u8>)>, key: Seq<char>, value: Seq<u8>) -> Seq<
    (Seq<char>, Seq<u8>),
> {
    match value_index(v, key) {
        Some(i) => v.update(i, (key, value)),
        None => v.push((key, value)),
    }
}

/// Whether a value's key lies outside `device`.
pub open spec fn value_outside(device: Seq<char>) -> spec_fn((Seq<char>, Seq<u8>)) -> bool {
    |e: (Seq<char>, Seq<u8>)| !child_of(e.0, device)
}

/// Whether a key lies outside `device`.
pub open spec fn key_outside(device: Seq<char>) -> spec_fn(Seq<char>) -> bool {
    |k: Seq<char>| !child_of(k, device)
}

/// What one event does: the new cache and the actions, in order.
///
/// - a characteristic value is remembered as that characteristic's last
///   value and handed to its subscribers;
/// - a disconnect forgets every value and notification under `{device}/`
///   and marks the device disconnected;
/// - a service change marks the device's services changed;
/// - an advertisement is published to the scan;
/// - availability records powered on or off as the page said.
pub open spec fn engine_step(s: EngineView, e: EventView) -> (EngineView, Seq<EngineActionView>) {
    match e {
        EventView::CharacteristicValue { characteristic, value, .. } => (
            EngineView { values: store(s.values, characteristic, value), ..s },
            seq![EngineActionView::Deliver { characteristic, value }],
        ),
        EventView::Disconnected { device } => (
            EngineView {
                values: s.values.filter(value_outside(device)),
                notifying: s.notifying.filter(key_outside(device)),
                ..s
            },
            seq![EngineActionView::MarkDisconnected { device }],
        ),
        EventView::ServiceChanged { device } => (
            s,
            seq![EngineActionView::MarkServicesChanged { device }],
        ),
        EventView::Advertisement { device, .. } => (
            s,
            seq![EngineActionView::Publish { device }],
        ),
        EventView::AvailabilityChanged { available } => (
            EngineView {
                state: if available {
                    PowerState::PoweredOn
                } else {
                    PowerState::PoweredOff
                },
                ..s
            },
            seq![],
        ),
    }
}

// ── In code ─────────────────────────────────────────────────────────────────

impl EngineCache {
    /// Nothing remembered, and nothing said about availability yet.
    pub fn new() -> (c: Self)
        ensures
            c@.values == Seq::<(Seq<char>, Seq<u8>)>::empty(),
            c@.notifying == Seq::<Seq<char>>::empty(),
            c@.state == PowerState::Unknown,
    {
        let c = EngineCache { values: Vec::new(), notifying: Vec::new(), state: PowerState::Unknown };
        assert(c@.values =~= Seq::<(Seq<char>, Seq<u8>)>::empty());
        assert(c@.notifying =~= Seq::<Seq<char>>::empty());
        c
    }

    /// What the page last said about availability.
    pub fn state(&self) -> (s: PowerState)
        ensures
            s == self@.state,
    {
        self.state
    }

    fn index_of(&self, key: &str) -> (r: Option<usize>)
        ensures
            match r {
                Some(i) => value_index(self@.values, key@) == Some(i as int) && i
                    < self@.values.len(),
                None => value_index(self@.values, key@) is None,
            },
    {
        let ghost v = self@.values;
        let mut k: usize = 0;
        while k < self.values.len()
            invariant
                v == self@.values,
                k <= v.len(),
                forall|j: int| 0 <= j < k ==> #[trigger] v[j].0 != key@,
            decreases v.len() - k,
        {
            if str_equal(self.values[k].0.as_str(), key) {
                proof {
                    assert(v[k as int].0 == key@);
                    assert(first_key(v, key@, k as int));
                    let c = choose|i: int| first_key(v, key@, i);
                    assert(first_key(v, key@, c));
                    if c < k {
                        assert(v[c].0 != key@);
                    }
                    if c > k {
                        assert(v[k as int].0 != key@);
                    }
                }
                return Some(k);
            }
            k = k + 1;
        }
        proof {
            assert forall|i: int| !first_key(v, key@, i) by {
                if 0 <= i < v.len() {
                    assert(v[i].0 != key@);
                }
            }
        }
        None
    }

    /// The last value `key` reported or was read as.
    pub fn cached_value(&self, key: &str) -> (r: Option<Vec<u8>>)
        ensures
            match r {
                Some(x) => lookup(self@.values, key@) == Some(x@),
                None => lookup(self@.values, key@) is None,
            },
    {
        match self.index_of(key) {
            Some(i) => {
                let x = self.values[i].1.clone();
                proof {
                    assert(self@.values[i as int] == (
                        self.values@[i as int].0@,
                        self.values@[i as int].1@,
                    ));
                }
                Some(x)
            },
            None => None,
        }
    }

    /// Remember `value` as `key`'s last value.
    pub fn store_value(&mut self, key: String, value: Vec<u8>)
        ensures
            final(self)@ == (EngineView { values: store(old(self)@.values, key@, value@), ..old(self)@ }),
    {
        let ghost before = self@;
        let ghost entry = (key@, value@);
        match self.index_of(key.as_str()) {
            Some(i) => {
                self.values.set(i, (key, value));
                assert(values_view(self.values@) =~= before.values.update(i as int, entry));
            },
            None => {
                self.values.push((key, value));
                assert(values_view(self.values@) =~= before.values.push(entry));
            },
        }
    }

    /// Whether notifications were started on `key`.
    pub fn is_notifying(&self, key: &str) -> (r: bool)
        ensures
            r == self@.notifying.contains(key@),
    {
        let mut k: usize = 0;
        while k < self.notifying.len()
            invariant
                k <= self@.notifying.len(),
                forall|j: int| 0 <= j < k ==> #[trigger] self@.notifying[j] != key@,
            decreases self@.notifying.len() - k,
        {
            if str_equal(self.notifying[k].as_str(), key) {
                assert(self@.notifying[k as int] == key@);
                return true;
            }
            k = k + 1;
        }
        false
    }

    /// Record that notifications on `key` were started or stopped.
    pub fn set_notifying(&mut self, key: String, enabled: bool)
        ensures
            final(self)@.values == old(self)@.values,
            final(self)@.state == old(self)@.state,
            forall|k: Seq<char>| #[trigger]
                final(self)@.notifying.contains(k) <==> if k == key@ {
                    enabled
                } else {
                    old(self)@.notifying.contains(k)
                },
    {
        let ghost before = self@;
        let mut kept: Vec<String> = Vec::new();
        let mut k: usize = 0;
        while k < self.notifying.len()
            invariant
                self@ == before,
                k <= before.notifying.len(),
                forall|x: Seq<char>| #[trigger]
                    keys_view(kept@).contains(x) <==> (x != key@ && exists|j: int|
                        0 <= j < k && before.notifying[j] == x),
            decreases before.notifying.len() - k,
        {
            if !str_equal(self.notifying[k].as_str(), key.as_str()) {
                let ghost kv = keys_view(kept@);
                let item = self.notifying[k].clone();
                kept.push(item);
                proof {
                    assert(keys_view(kept@) =~= kv.push(before.notifying[k as int]));
                    assert forall|x: Seq<char>| #[trigger]
                        keys_view(kept@).contains(x) <==> (x != key@ && exists|j: int|
                            0 <= j < k + 1 && before.notifying[j] == x) by {
                        if keys_view(kept@).contains(x) && !kv.contains(x) {
                            assert(before.notifying[k as int] == x);
                        }
                        if x != key@ && exists|j: int|
                            0 <= j < k + 1 && before.notifying[j] == x {
                            let j = choose|j: int| 0 <= j < k + 1 && before.notifying[j] == x;
                            if j == k {
                                assert(keys_view(kept@)[kv.len() as int] == x);
                            } else {
                                assert(kv.contains(x));
                                let m = choose|m: int| 0 <= m < kv.len() && kv[m] == x;
                                assert(keys_view(kept@)[m] == x);
                            }
                        }
                    }
                }
            } else {
                proof {
                    assert forall|x: Seq<char>| #[trigger]
                        keys_view(kept@).contains(x) <==> (x != key@ && exists|j: int|
                            0 <= j < k + 1 && before.notifying[j] == x) by {
                        if x != key@ && exists|j: int|
                            0 <= j < k + 1 && before.notifying[j] == x {
                            let j = choose|j: int| 0 <= j < k + 1 && before.notifying[j] == x;
                            assert(j != k);
                        }
                    }
                }
            }
            k = k + 1;
        }
        let ghost kept_view = keys_view(kept@);
        assert(forall|x: Seq<char>| #[trigger]
            kept_view.contains(x) <==> (x != key@ && before.notifying.contains(x)));
        if enabled {
            kept.push(key);
            proof {
                assert(keys_view(kept@) =~= kept_view.push(key@));
            }
        } else {
            assert(keys_view(kept@) =~= kept_view);
        }
        self.notifying = kept;
        proof {
            let now = self@.notifying;
            assert(enabled ==> now =~= kept_view.push(key@));
            assert(!enabled ==> now =~= kept_view);
            assert forall|x: Seq<char>| #[trigger]
                now.contains(x) <==> if x == key@ {
                    enabled
                } else {
                    before.notifying.contains(x)
                } by {
                if enabled {
                    assert(now[kept_view.len() as int] == key@);
                    if now.contains(x) && x != key@ {
                        let m = choose|m: int| 0 <= m < now.len() && now[m] == x;
                        assert(m < kept_view.len());
                        assert(kept_view[m] == x);
                        assert(kept_view.contains(x));
                    }
                    if x != key@ && before.notifying.contains(x) {
                        assert(kept_view.contains(x));
                        let m = choose|m: int| 0 <= m < kept_view.len() && kept_view[m] == x;
                        assert(now[m] == x);
                    }
                } else {
                    if now.contains(x) {
                        assert(kept_view.contains(x));
                    }
                }
            }
        }
    }

    /// Forget every value and notification under `{device}/`.
    fn forget_device(&mut self, device: &str)
        ensures
            final(self)@ == (EngineView {
                values: old(self)@.values.filter(value_outside(device@)),
                notifying: old(self)@.notifying.filter(key_outside(device@)),
                ..old(self)@
            }),
    {
        let ghost before = self@;
        let ghost keep_v = value_outside(device@);
        let ghost keep_k = key_outside(device@);
        let mut values: Vec<(String, Vec<u8>)> = Vec::new();
        let mut k: usize = 0;
        while k < self.values.len()
            invariant
                self@ == before,
                k <= before.values.len(),
                values_view(values@) == before.values.take(k as int).filter(keep_v),
                keep_v == value_outside(device@),
            decreases before.values.len() - k,
        {
            proof {
                assert(before.values.take(k + 1) =~= before.values.take(k as int).push(
                    before.values[k as int],
                ));
                before.values.take(k as int).lemma_filter_push(before.values[k as int], keep_v);
                assert(before.values[k as int] == (
                    self.values@[k as int].0@,
                    self.values@[k as int].1@,
                ));
            }
            if !is_child(self.values[k].0.as_str(), device) {
                let ghost vv = values_view(values@);
                let key = self.values[k].0.clone();
                let value = self.values[k].1.clone();
                values.push((key, value));
                assert(values_view(values@) =~= vv.push(before.values[k as int]));
            }
            k = k + 1;
        }
        assert(before.values.take(before.values.len() as int) =~= before.values);
        let mut notifying: Vec<String> = Vec::new();
        let mut k: usize = 0;
        while k < self.notifying.len()
            invariant
                self@ == before,
                k <= before.notifying.len(),
                keys_view(notifying@) == before.notifying.take(k as int).filter(keep_k),
                keep_k == key_outside(device@),
            decreases before.notifying.len() - k,
        {
            proof {
                assert(before.notifying.take(k + 1) =~= before.notifying.take(k as int).push(
                    before.notifying[k as int],
                ));
                before.notifying.take(k as int).lemma_filter_push(
                    before.notifying[k as int],
                    keep_k,
                );
            }
            if !is_child(self.notifying[k].as_str(), device) {
                let ghost nv = keys_view(notifying@);
                let key = self.notifying[k].clone();
                notifying.push(key);
                assert(keys_view(notifying@) =~= nv.push(before.notifying[k as int]));
            }
            k = k + 1;
        }
        assert(before.notifying.take(before.notifying.len() as int) =~= before.notifying);
        self.values = values;
        self.notifying = notifying;
    }
}

/// One event from the page: bring the cache up to date and say what else is
/// to be done.
pub fn engine_event(cache: &mut EngineCache, event: &Event) -> (actions: Vec<EngineAction>)
    ensures
        (final(cache)@, actions_view(actions@)) == engine_step(old(cache)@, event@),
{
    let mut actions: Vec<EngineAction> = Vec::new();
    match event {
        Event::CharacteristicValue { characteristic, value, .. } => {
            cache.store_value(characteristic.clone(), value.clone());
            actions.push(
                EngineAction::Deliver { characteristic: characteristic.clone(), value: value.clone() },
            );
        },
        Event::Disconnected { device } => {
            cache.forget_device(device.as_str());
            actions.push(EngineAction::MarkDisconnected { device: device.clone() });
        },
        Event::ServiceChanged { device } => {
            actions.push(EngineAction::MarkServicesChanged { device: device.clone() });
        },
        Event::Advertisement { device, .. } => {
            actions.push(EngineAction::Publish { device: device.clone() });
        },
        Event::AvailabilityChanged { available } => {
            cache.state = if *available {
                PowerState::PoweredOn
            } else {
                PowerState::PoweredOff
            };
        },
    }
    assert(actions_view(actions@) =~= engine_step(old(cache)@, event@).1);
    actions
}

// ── Laws ────────────────────────────────────────────────────────────────────

/// A key that occurs has a first occurrence.
proof fn lemma_first_exists(v: Seq<(Seq<char>, Seq<u8>)>, key: Seq<char>, j: int)
    requires
        0 <= j < v.len(),
        v[j].0 == key,
    ensures
        exists|i: int| first_key(v, key, i),
    decreases j,
{
    if exists|m: int| 0 <= m < j && v[m].0 == key {
        let m = choose|m: int| 0 <= m < j && v[m].0 == key;
        lemma_first_exists(v, key, m);
    } else {
        assert(first_key(v, key, j));
    }
}

/// Two sequences with the same first occurrences of a key find it at the
/// same place.
proof fn lemma_same_first(v1: Seq<(Seq<char>, Seq<u8>)>, v2: Seq<(Seq<char>, Seq<u8>)>, key: Seq<
    char,
>)
    requires
        forall|i: int| #[trigger] first_key(v1, key, i) <==> first_key(v2, key, i),
    ensures
        value_index(v1, key) == value_index(v2, key),
{
    if exists|i: int| first_key(v1, key, i) {
        let c1 = choose|i: int| first_key(v1, key, i);
        assert(first_key(v2, key, c1));
        let c2 = choose|i: int| first_key(v2, key, i);
        assert(first_key(v2, key, c2));
        if c1 < c2 {
            assert(v2[c1].0 != key);
        }
        if c2 < c1 {
            assert(v2[c2].0 != key);
        }
    } else {
        assert forall|i: int| !first_key(v2, key, i) by {
            assert(first_key(v1, key, i) <==> first_key(v2, key, i));
        }
    }
}

/// Sequences whose keys agree everywhere have the same first occurrences.
proof fn lemma_same_keys(v1: Seq<(Seq<char>, Seq<u8>)>, v2: Seq<(Seq<char>, Seq<u8>)>, key: Seq<
    char,
>)
    requires
        v1.len() == v2.len(),
        forall|m: int| 0 <= m < v1.len() ==> #[trigger] v1[m].0 == v2[m].0,
    ensures
        value_index(v1, key) == value_index(v2, key),
{
    assert forall|i: int| #[trigger] first_key(v1, key, i) <==> first_key(v2, key, i) by {
        if first_key(v1, key, i) {
            assert forall|m: int| 0 <= m < i implies #[trigger] v2[m].0 != key by {
                assert(v1[m].0 == v2[m].0);
            }
            assert(v1[i].0 == v2[i].0);
        }
        if first_key(v2, key, i) {
            assert forall|m: int| 0 <= m < i implies #[trigger] v1[m].0 != key by {
                assert(v1[m].0 == v2[m].0);
            }
            assert(v1[i].0 == v2[i].0);
        }
    }
    lemma_same_first(v1, v2, key);
}

/// What is stored is what is read back, and storing one key leaves every
/// other key's value as it was.
pub proof fn lemma_store_reads_back(
    v: Seq<(Seq<char>, Seq<u8>)>,
    key: Seq<char>,
    value: Seq<u8>,
    other: Seq<char>,
)
    ensures
        lookup(store(v, key, value), key) == Some(value),
        other != key ==> lookup(store(v, key, value), other) == lookup(v, other),
{
    let w = store(v, key, value);
    match value_index(v, key) {
        Some(i) => {
            let c = choose|i: int| first_key(v, key, i);
            assert(first_key(v, key, c));
            assert(w == v.update(c, (key, value)));
            assert forall|m: int| 0 <= m < w.len() implies #[trigger] w[m].0 == v[m].0 by {
                if m != c {
                    assert(w[m] == v[m]);
                }
            }
            lemma_same_keys(w, v, key);
            lemma_same_keys(w, v, other);
            if other != key {
                if let Some(k) = value_index(v, other) {
                    let d = choose|i: int| first_key(v, other, i);
                    assert(first_key(v, other, d));
                    assert(d != c);
                    assert(w[d] == v[d]);
                }
            }
        },
        None => {
            assert(w == v.push((key, value)));
            assert forall|j: int| 0 <= j < v.len() implies #[trigger] v[j].0 != key by {
                if v[j].0 == key {
                    lemma_first_exists(v, key, j);
                }
            }
            assert(first_key(w, key, v.len() as int));
            let c = choose|i: int| first_key(w, key, i);
            assert(first_key(w, key, c));
            if c < v.len() {
                assert(w[c] == v[c]);
            }
            if other != key {
                assert forall|j: int| #[trigger] first_key(w, other, j) <==> first_key(v, other, j) by {
                    if first_key(w, other, j) {
                        if j == v.len() {
                            assert(w[j].0 == key);
                        } else {
                            assert(w[j] == v[j]);
                            assert forall|m: int| 0 <= m < j implies #[trigger] v[m].0 != other by {
                                assert(w[m] == v[m]);
                            }
                        }
                    }
                    if first_key(v, other, j) {
                        assert(w[j] == v[j]);
                        assert forall|m: int| 0 <= m < j implies #[trigger] w[m].0 != other by {
                            assert(w[m] == v[m]);
                        }
                    }
                }
                lemma_same_first(w, v, other);
                if let Some(k) = value_index(v, other) {
                    let d = choose|i: int| first_key(v, other, i);
                    assert(first_key(v, other, d));
                    assert(w[d] == v[d]);
                }
            }
        },
    }
}

/// A characteristic's notified value is what `cached_value` then gives for
/// it, and it is handed to its subscribers.
pub proof fn lemma_notified_value_is_cached(s: EngineView, e: EventView)
    requires
        e is CharacteristicValue,
    ensures
        ({
            let (t, acts) = engine_step(s, e);
            let key = e->characteristic;
            &&& lookup(t.values, key) == Some(e->CharacteristicValue_value)
            &&& acts == seq![EngineActionView::Deliver { characteristic: key, value: e->CharacteristicValue_value }]
        }),
{
    lemma_store_reads_back(s.values, e->characteristic, e->CharacteristicValue_value, seq![]);
}

/// A disconnect forgets every value and notification under `{device}/`,
/// keeps every other one, and marks the device disconnected.
pub proof fn lemma_disconnect_forgets_device(s: EngineView, device: Seq<char>)
    ensures
        ({
            let (t, acts) = engine_step(s, EventView::Disconnected { device });
            &&& forall|e: (Seq<char>, Seq<u8>)| #[trigger]
                t.values.contains(e) <==> (s.values.contains(e) && !child_of(e.0, device))
            &&& forall|k: Seq<char>| #[trigger]
                t.notifying.contains(k) <==> (s.notifying.contains(k) && !child_of(k, device))
            &&& acts == seq![EngineActionView::MarkDisconnected { device }]
            &&& t.state == s.state
        }),
{
    let (t, _) = engine_step(s, EventView::Disconnected { device });
    let kv = value_outside(device);
    let kk = key_outside(device);
    assert forall|e: (Seq<char>, Seq<u8>)| #[trigger]
        t.values.contains(e) <==> (s.values.contains(e) && !child_of(e.0, device)) by {
        if t.values.contains(e) {
            s.values.lemma_filter_contains_rev(kv, e);
            let j = choose|j: int| 0 <= j < t.values.len() && t.values[j] == e;
            s.values.lemma_filter_pred(kv, j);
        }
        if s.values.contains(e) && !child_of(e.0, device) {
            let j = choose|j: int| 0 <= j < s.values.len() && s.values[j] == e;
            s.values.lemma_filter_contains(kv, j);
        }
    }
    assert forall|k: Seq<char>| #[trigger]
        t.notifying.contains(k) <==> (s.notifying.contains(k) && !child_of(k, device)) by {
        if t.notifying.contains(k) {
            s.notifying.lemma_filter_contains_rev(kk, k);
            let j = choose|j: int| 0 <= j < t.notifying.len() && t.notifying[j] == k;
            s.notifying.lemma_filter_pred(kk, j);
        }
        if s.notifying.contains(k) && !child_of(k, device) {
            let j = choose|j: int| 0 <= j < s.notifying.len() && s.notifying[j] == k;
            s.notifying.lemma_filter_contains(kk, j);
        }
    }
}

} // verus!
