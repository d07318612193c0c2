//! What a connection's events do to the devices this session holds.
//!
//! BlueZ reports a link's life as events on the device's object: connected,
//! services resolved, services changed, disconnected. Each one wakes or fails
//! whoever waits on that device, and some of them invalidate the handles
//! handed out for it. The decisions are made here, from the bookkeeping and
//! the event to the new bookkeeping and a list of actions; whoever owns the
//! waiters, the sockets and the subscriber channels carries the actions out.

use vstd::prelude::*;
use crate::bluez::signals::{Event, EventView};
use crate::dbus::connection::starts_with;
use crate::dbus::value::str_equal;

verus! {

/// One device this session was granted.
pub struct Link {
    /// The identifier handed to the page.
    pub id: String,
    /// The device's BlueZ object path.
    pub path: String,
    /// Whether the link is up.
    pub connected: bool,
    /// Whether its GATT tree has finished resolving at least once since it
    /// connected: services appearing is only a change after that.
    pub resolved_once: bool,
}

pub struct LinkView {
    pub id: Seq<char>,
    pub path: Seq<char>,
    pub connected: bool,
    pub resolved_once: bool,
}

impl View for Link {
    type V = LinkView;

    open spec fn view(&self) -> LinkView {
        LinkView {
            id: self.id@,
            path: self.path@,
            connected: self.connected,
            resolved_once: self.resolved_once,
        }
    }
}

/// The devices, in the order they were granted, and the characteristic
/// paths that hold an acquired write socket.
pub struct Links {
    devices: Vec<Link>,
    write_sockets: Vec<String>,
}

pub struct LinksView {
    pub devices: Seq<LinkView>,
    pub write_sockets: Seq<Seq<char>>,
}

pub open spec fn links_view(d: Seq<Link>) -> Seq<LinkView> {
    d.map_values(|l: Link| l@)
}

pub open spec fn texts_view(s: Seq<String>) -> Seq<Seq<char>> {
    s.map_values(|t: String| t@)
}

impl View for Links {
    type V = LinksView;

    closed spec fn view(&self) -> LinksView {
        LinksView { devices: links_view(self.devices@), write_sockets: texts_view(self.write_sockets@) }
    }
}

/// What the owner of the waiters, sockets and subscribers is to do.
#[derive(Debug)]
pub enum LinkAction {
    /// Wake everyone waiting for the device to connect.
    WakeConnected { id: String },
    /// Fail every request outstanding on the device: its connect and
    /// service-resolution waiters are dropped unanswered.
    FailOutstanding { id: String },
    /// Close the write sockets of every characteristic whose path starts
    /// with `prefix`: they belong to a connection that ended.
    DropUnder { prefix: String },
    /// Record the device as disconnected, which also invalidates every handle
    /// handed out for it.
    MarkDisconnected { id: String },
    /// Wake everyone waiting for the device's services to resolve.
    WakeResolved { id: String },
    /// The device's GATT tree was rebuilt: invalidate its handles.
    BumpGeneration { id: String },
    /// Hand a characteristic's new value to its subscribers.
    DeliverValue { path: String, value: Vec<u8> },
}

pub enum LinkActionView {
    WakeConnected { id: Seq<char> },
    FailOutstanding { id: Seq<char> },
    DropUnder { prefix: Seq<char> },
    MarkDisconnected { id: Seq<char> },
    WakeResolved { id: Seq<char> },
    BumpGeneration { id: Seq<char> },
    DeliverValue { path: Seq<char>, value: Seq<u8> },
}

impl View for LinkAction {
    type V = LinkActionView;

    open spec fn view(&self) -> LinkActionView {
        match self {
            LinkAction::WakeConnected { id } => LinkActionView::WakeConnected { id: id@ },
            LinkAction::FailOutstanding { id } => LinkActionView::FailOutstanding { id: id@ },
            LinkAction::DropUnder { prefix } => LinkActionView::DropUnder { prefix: prefix@ },
            LinkAction::MarkDisconnected { id } => LinkActionView::MarkDisconnected { id: id@ },
            LinkAction::WakeResolved { id } => LinkActionView::WakeResolved { id: id@ },
            LinkAction::BumpGeneration { id } => LinkActionView::BumpGeneration { id: id@ },
            LinkAction::DeliverValue { path, value } => LinkActionView::DeliverValue {
                path: path@,
                value: value@,
            },
        }
    }
}

pub open spec fn actions_view(a: Seq<LinkAction>) -> Seq<LinkActionView> {
    a.map_values(|x: LinkAction| x@)
}

// ── The decisions ───────────────────────────────────────────────────────────

/// `i` is the first device whose object path is `p`.
pub open spec fn first_with_path(d: Seq<LinkView>, p: Seq<char>, i: int) -> bool {
    &&& 0 <= i < d.len()
    &&& d[i].path == p
    &&& forall|j: int| 0 <= j < i ==> #[trigger] d[j].path != p
}

/// The device an event's object path names, if this session holds one.
pub open spec fn link_index(d: Seq<LinkView>, p: Seq<char>) -> Option<int> {
    if exists|i: int| first_with_path(d, p, i) {
        Some(choose|i: int| first_with_path(d, p, i))
    } else {
        None
    }
}

/// Whether a characteristic path lies outside `prefix`.
pub open spec fn outside(prefix: Seq<char>) -> spec_fn(Seq<char>) -> bool {
    |k: Seq<char>| !prefix.is_prefix_of(k)
}

/// The characteristic paths that survive a disconnect of `prefix`.
pub open spec fn drop_under(keys: Seq<Seq<char>>, prefix: Seq<char>) -> Seq<Seq<char>> {
    keys.filter(outside(prefix))
}

/// Device `i` with new flags.
pub open spec fn with_flags(s: LinksView, i: int, connected: bool, resolved_once: bool) -> LinksView {
    LinksView {
        devices: s.devices.update(i, LinkView { connected, resolved_once, ..s.devices[i] }),
        ..s
    }
}

/// What one event does: the new bookkeeping and the actions, in order.
///
/// - connected: the device is up and its connect waiters wake;
/// - disconnected: every request outstanding on it fails, the next
///   resolution is a first one again, the write sockets under its path are
///   closed, and it is marked disconnected, which invalidates its handles;
/// - services resolved: a second resolution since connecting means BlueZ
///   rebuilt the tree, so its handles are invalidated; either way the
///   resolution waiters wake;
/// - services changed: invalidates its handles only after a first
///   resolution, since during the first one services are only appearing;
/// - a characteristic value goes to that characteristic's subscribers.
///
/// An event about a device this session does not hold changes nothing, and
/// neither does a sighting, which is the scan's business
/// ([`crate::bluez::sighting`]), nor a removal or an adapter change.
pub open spec fn link_step(s: LinksView, e: EventView) -> (LinksView, Seq<LinkActionView>) {
    match e {
        EventView::Connected { path } => match link_index(s.devices, path) {
            Some(i) => (
                with_flags(s, i, true, s.devices[i].resolved_once),
                seq![LinkActionView::WakeConnected { id: s.devices[i].id }],
            ),
            None => (s, seq![]),
        },
        EventView::Disconnected { path } => match link_index(s.devices, path) {
            Some(i) => {
                let id = s.devices[i].id;
                (
                    LinksView {
                        write_sockets: drop_under(s.write_sockets, path),
                        ..with_flags(s, i, false, false)
                    },
                    seq![
                        LinkActionView::FailOutstanding { id },
                        LinkActionView::DropUnder { prefix: path },
                        LinkActionView::MarkDisconnected { id },
                    ],
                )
            },
            None => (s, seq![]),
        },
        EventView::ServicesResolved { path } => match link_index(s.devices, path) {
            Some(i) => {
                let d = s.devices[i];
                (
                    with_flags(s, i, d.connected, true),
                    if d.resolved_once {
                        seq![
                            LinkActionView::BumpGeneration { id: d.id },
                            LinkActionView::WakeResolved { id: d.id },
                        ]
                    } else {
                        seq![LinkActionView::WakeResolved { id: d.id }]
                    },
                )
            },
            None => (s, seq![]),
        },
        EventView::ServicesChanged { path } => match link_index(s.devices, path) {
            Some(i) => (
                s,
                if s.devices[i].resolved_once {
                    seq![LinkActionView::BumpGeneration { id: s.devices[i].id }]
                } else {
                    seq![]
                },
            ),
            None => (s, seq![]),
        },
        EventView::CharacteristicValue { path, value } => (
            s,
            seq![LinkActionView::DeliverValue { path, value }],
        ),
        _ => (s, seq![]),
    }
}

// ── In code ─────────────────────────────────────────────────────────────────

impl Links {
    /// No devices and no sockets.
    pub fn new() -> (l: Self)
        ensures
            l@.devices == Seq::<LinkView>::empty(),
            l@.write_sockets == Seq::<Seq<char>>::empty(),
    {
        let l = Links { devices: Vec::new(), write_sockets: Vec::new() };
        assert(l@.devices =~= Seq::<LinkView>::empty());
        assert(l@.write_sockets =~= Seq::<Seq<char>>::empty());
        l
    }

    /// A device granted to this session, not yet connected.
    pub fn add_device(&mut self, id: String, path: String)
        ensures
            final(self)@.devices == old(self)@.devices.push(
                LinkView { id: id@, path: path@, connected: false, resolved_once: false },
            ),
            final(self)@.write_sockets == old(self)@.write_sockets,
    {
        let link = Link { id, path, connected: false, resolved_once: false };
        self.devices.push(link);
        assert(links_view(self.devices@) =~= links_view(old(self).devices@).push(link@));
    }

    /// A write socket acquired for the characteristic at `path`.
    pub fn add_write_socket(&mut self, path: String)
        ensures
            final(self)@.devices == old(self)@.devices,
            final(self)@.write_sockets == old(self)@.write_sockets.push(path@),
    {
        self.write_sockets.push(path);
        assert(texts_view(self.write_sockets@) =~= texts_view(old(self).write_sockets@).push(
            path@,
        ));
    }

    /// Whether a write socket is held for the characteristic at `path`.
    pub fn has_write_socket(&self, path: &str) -> (r: bool)
        ensures
            r == self@.write_sockets.contains(path@),
    {
        let mut k: usize = 0;
        while k < self.write_sockets.len()
            invariant
                k <= self.write_sockets@.len(),
                forall|j: int| 0 <= j < k ==> #[trigger] self@.write_sockets[j] != path@,
            decreases self.write_sockets@.len() - k,
        {
            if str_equal(self.write_sockets[k].as_str(), path) {
                assert(self@.write_sockets[k as int] == path@);
                return true;
            }
            k = k + 1;
        }
        false
    }

    /// The device whose object path is `p`: the first one, as the spec says.
    fn index_for_path(&self, p: &str) -> (r: Option<usize>)
        ensures
            match r {
                Some(i) => link_index(self@.devices, p@) == Some(i as int) && i
                    < self@.devices.len(),
                None => link_index(self@.devices, p@) is None,
            },
    {
        let ghost d = self@.devices;
        let mut k: usize = 0;
        while k < self.devices.len()
            invariant
                d == self@.devices,
                k <= d.len(),
                forall|j: int| 0 <= j < k ==> #[trigger] d[j].path != p@,
            decreases d.len() - k,
        {
            if str_equal(self.devices[k].path.as_str(), p) {
                proof {
                    assert(d[k as int].path == p@);
                    assert(first_with_path(d, p@, k as int));
                    let c = choose|i: int| first_with_path(d, p@, i);
                    assert(first_with_path(d, p@, c));
                    if c < k {
                        assert(d[c].path != p@);
                    }
                    if c > k {
                        assert(d[k as int].path != p@);
                    }
                }
                return Some(k);
            }
            k = k + 1;
        }
        proof {
            assert forall|i: int| !first_with_path(d, p@, i) by {
                if 0 <= i < d.len() {
                    assert(d[i].path != p@);
                }
            }
        }
        None
    }

    /// Device `i`'s identifier.
    fn id_at(&self, i: usize) -> (id: String)
        requires
            i < self@.devices.len(),
        ensures
            id@ == self@.devices[i as int].id,
    {
        let id = self.devices[i].id.clone();
        proof {
            assert(self@.devices[i as int] == self.devices@[i as int]@);
        }
        id
    }

    /// Give device `i` new flags.
    fn set_flags(&mut self, i: usize, connected: bool, resolved_once: bool)
        requires
            i < old(self)@.devices.len(),
        ensures
            final(self)@ == with_flags(old(self)@, i as int, connected, resolved_once),
    {
        let ghost before = self@;
        let link = Link {
            id: self.devices[i].id.clone(),
            path: self.devices[i].path.clone(),
            connected,
            resolved_once,
        };
        proof {
            assert(before.devices[i as int] == old(self).devices@[i as int]@);
        }
        self.devices.set(i, link);
        assert(self@.devices =~= with_flags(before, i as int, connected, resolved_once).devices);
    }

    /// Close out the write sockets under `prefix`.
    fn drop_sockets_under(&mut self, prefix: &str)
        ensures
            final(self)@.devices == old(self)@.devices,
            final(self)@.write_sockets == drop_under(old(self)@.write_sockets, prefix@),
    {
        let ghost keys = self@.write_sockets;
        let ghost keep = outside(prefix@);
        let mut kept: Vec<String> = Vec::new();
        let mut k: usize = 0;
        while k < self.write_sockets.len()
            invariant
                keys == texts_view(self.write_sockets@),
                k <= keys.len(),
                texts_view(kept@) == keys.take(k as int).filter(keep),
                keep == outside(prefix@),
            decreases keys.len() - k,
        {
            let key = &self.write_sockets[k];
            proof {
                assert(keys.take(k + 1) =~= keys.take(k as int).push(keys[k as int]));
                keys.take(k as int).lemma_filter_push(keys[k as int], keep);
            }
            if !starts_with(key.as_str(), prefix) {
                let ghost before = texts_view(kept@);
                kept.push(key.clone());
                assert(texts_view(kept@) =~= before.push(keys[k as int]));
            }
            k = k + 1;
        }
        assert(keys.take(keys.len() as int) =~= keys);
        self.write_sockets = kept;
    }
}

/// One event: bring the bookkeeping up to date and say what is to be done.
pub fn link_event(links: &mut Links, event: &Event) -> (actions: Vec<LinkAction>)
    ensures
        (final(links)@, actions_view(actions@)) == link_step(old(links)@, event@),
{
    let mut actions: Vec<LinkAction> = Vec::new();
    match event {
        Event::Connected { path } => {
            if let Some(i) = links.index_for_path(&**path) {
                let resolved = links.devices[i].resolved_once;
                let id = links.id_at(i);
                links.set_flags(i, true, resolved);
                actions.push(LinkAction::WakeConnected { id });
            }
        },
        Event::Disconnected { path } => {
            if let Some(i) = links.index_for_path(&**path) {
                let id = links.id_at(i);
                links.set_flags(i, false, false);
                links.drop_sockets_under(&**path);
                actions.push(LinkAction::FailOutstanding { id: id.clone() });
                actions.push(LinkAction::DropUnder { prefix: (**path).to_string() });
                actions.push(LinkAction::MarkDisconnected { id });
            }
        },
        Event::ServicesResolved { path } => {
            if let Some(i) = links.index_for_path(&**path) {
                let connected = links.devices[i].connected;
                let again = links.devices[i].resolved_once;
                let id = links.id_at(i);
                links.set_flags(i, connected, true);
                if again {
                    actions.push(LinkAction::BumpGeneration { id: id.clone() });
                }
                actions.push(LinkAction::WakeResolved { id });
            }
        },
        Event::ServicesChanged { path } => {
            if let Some(i) = links.index_for_path(&**path) {
                if links.devices[i].resolved_once {
                    let id = links.id_at(i);
                    actions.push(LinkAction::BumpGeneration { id });
                }
            }
        },
        Event::CharacteristicValue { path, value } => {
            actions.push(
                LinkAction::DeliverValue { path: (**path).to_string(), value: value.clone() },
            );
        },
        _ => {},
    }
    assert(actions_view(actions@) =~= link_step(old(links)@, event@).1);
    actions
}

// ── Laws ────────────────────────────────────────────────────────────────────

/// Which device a path names depends on the paths alone, not on the flags.
proof fn lemma_index_follows_paths(d1: Seq<LinkView>, d2: Seq<LinkView>, p: Seq<char>)
    requires
        d1.len() == d2.len(),
        forall|j: int| 0 <= j < d1.len() ==> #[trigger] d1[j].path == d2[j].path,
    ensures
        link_index(d1, p) == link_index(d2, p),
{
    if exists|i: int| first_with_path(d1, p, i) {
        let c1 = choose|i: int| first_with_path(d1, p, i);
        assert forall|j: int| 0 <= j < c1 implies #[trigger] d2[j].path != p by {
            assert(d1[j].path == d2[j].path);
        }
        assert(first_with_path(d2, p, c1));
        let c2 = choose|i: int| first_with_path(d2, p, i);
        assert(first_with_path(d2, p, c2));
        if c2 < c1 {
            assert(d1[c2].path == d2[c2].path);
        }
        if c1 < c2 {
            assert(d2[c1].path == d1[c1].path);
        }
    } else {
        assert forall|i: int| !first_with_path(d2, p, i) by {
            if first_with_path(d2, p, i) {
                assert forall|j: int| 0 <= j < i implies #[trigger] d1[j].path != p by {
                    assert(d1[j].path == d2[j].path);
                }
                assert(first_with_path(d1, p, i));
            }
        }
    }
}

/// A disconnect of a device this session holds fails every request
/// outstanding on it, marks it disconnected (which invalidates its handles),
/// and closes every write socket under its path while keeping all others.
/// The device is left down, with no resolution on record.
pub proof fn lemma_disconnect_fails_and_drops(s: LinksView, path: Seq<char>)
    requires
        link_index(s.devices, path) is Some,
    ensures
        ({
            let i = link_index(s.devices, path).unwrap();
            let id = s.devices[i].id;
            let (t, acts) = link_step(s, EventView::Disconnected { path });
            &&& acts.contains(LinkActionView::FailOutstanding { id })
            &&& acts.contains(LinkActionView::MarkDisconnected { id })
            &&& forall|k: Seq<char>| #[trigger]
                t.write_sockets.contains(k) <==> (s.write_sockets.contains(k)
                    && !path.is_prefix_of(k))
            &&& !t.devices[i].connected && !t.devices[i].resolved_once
        }),
{
    let i = link_index(s.devices, path).unwrap();
    let id = s.devices[i].id;
    let (t, acts) = link_step(s, EventView::Disconnected { path });
    let keep = outside(path);
    assert(acts[0] == LinkActionView::FailOutstanding { id });
    assert(acts[2] == LinkActionView::MarkDisconnected { id });
    assert forall|k: Seq<char>| #[trigger]
        t.write_sockets.contains(k) <==> (s.write_sockets.contains(k) && !path.is_prefix_of(
            k,
        )) by {
        if t.write_sockets.contains(k) {
            s.write_sockets.lemma_filter_contains_rev(keep, k);
            let j = choose|j: int| 0 <= j < t.write_sockets.len() && t.write_sockets[j] == k;
            s.write_sockets.lemma_filter_pred(keep, j);
        }
        if s.write_sockets.contains(k) && !path.is_prefix_of(k) {
            let j = choose|j: int| 0 <= j < s.write_sockets.len() && s.write_sockets[j] == k;
            s.write_sockets.lemma_filter_contains(keep, j);
        }
    }
}

/// Resolving twice since connecting invalidates the device's handles; the
/// first resolution does not, and both wake the resolution waiters. A
/// change to the services invalidates its handles exactly when it has
/// resolved before.
pub proof fn lemma_second_resolution_invalidates(s: LinksView, path: Seq<char>)
    requires
        link_index(s.devices, path) is Some,
    ensures
        ({
            let i = link_index(s.devices, path).unwrap();
            let id = s.devices[i].id;
            let (t, first) = link_step(s, EventView::ServicesResolved { path });
            let (_, second) = link_step(t, EventView::ServicesResolved { path });
            let (_, changed) = link_step(s, EventView::ServicesChanged { path });
            &&& first.contains(LinkActionView::WakeResolved { id })
            &&& first.contains(LinkActionView::BumpGeneration { id }) <==> s.devices[i].resolved_once
            &&& second.contains(LinkActionView::BumpGeneration { id })
            &&& changed.contains(LinkActionView::BumpGeneration { id }) <==> s.devices[i].resolved_once
        }),
{
    let i = link_index(s.devices, path).unwrap();
    let d = s.devices[i];
    let (t, first) = link_step(s, EventView::ServicesResolved { path });
    lemma_index_follows_paths(s.devices, t.devices, path);
    assert(t.devices[i].resolved_once);
    assert(t.devices[i].id == d.id);
    let (_, second) = link_step(t, EventView::ServicesResolved { path });
    assert(second[0] == LinkActionView::BumpGeneration { id: d.id });
    if d.resolved_once {
        assert(first[0] == LinkActionView::BumpGeneration { id: d.id });
        assert(first[1] == LinkActionView::WakeResolved { id: d.id });
    } else {
        assert(first[0] == LinkActionView::WakeResolved { id: d.id });
        assert(first.len() == 1);
    }
    let (_, changed) = link_step(s, EventView::ServicesChanged { path });
    if d.resolved_once {
        assert(changed[0] == LinkActionView::BumpGeneration { id: d.id });
    } else {
        assert(changed.len() == 0);
    }
}

/// After a disconnect, the next resolution is a first discovery again: it
/// wakes the waiters and invalidates nothing.
pub proof fn lemma_reconnect_resolves_afresh(s: LinksView, path: Seq<char>)
    requires
        link_index(s.devices, path) is Some,
    ensures
        ({
            let id = s.devices[link_index(s.devices, path).unwrap()].id;
            let (t, _) = link_step(s, EventView::Disconnected { path });
            let (_, acts) = link_step(t, EventView::ServicesResolved { path });
            acts == seq![LinkActionView::WakeResolved { id }]
        }),
{
    let i = link_index(s.devices, path).unwrap();
    let (t, _) = link_step(s, EventView::Disconnected { path });
    lemma_index_follows_paths(s.devices, t.devices, path);
    assert(!t.devices[i].resolved_once);
    assert(t.devices[i].id == s.devices[i].id);
}

} // verus!
