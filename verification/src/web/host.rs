//! The boundary: what is asked of the page, and what it answers.
//!
//! One import carries every request, `wbt_call(op, ptr, len) -> token`, and
//! the page later settles the token with an answer. This module holds the
//! numbers both sides agree on and the bookkeeping of requests in flight:
//! which tokens are waiting, which have an answer nobody has taken yet, and
//! whom to wake when an answer arrives. The table itself lives wherever the
//! runtime keeps its state; every decision about it is made here.

use vstd::prelude::*;
use std::collections::HashMap;

verus! {

broadcast use vstd::std_specs::hash::group_hash_axioms;

/// What a request is asking for. The page's shim uses the same numbers.
#[derive(Debug, Clone, Copy, PartialEq, Eq, Structural)]
pub enum Op {
    Availability,
    RequestDevice,
    GetDevices,
    Forget,
    Connect,
    Disconnect,
    DiscoverServices,
    DiscoverIncludedServices,
    DiscoverCharacteristics,
    DiscoverDescriptors,
    ReadCharacteristic,
    WriteCharacteristic,
    ReadDescriptor,
    WriteDescriptor,
    SetNotify,
    WatchAdvertisements,
    UnwatchAdvertisements,
    SetTimeout,
}

/// The number an operation travels as.
pub open spec fn op_code(op: Op) -> u32 {
    match op {
        Op::Availability => 1,
        Op::RequestDevice => 2,
        Op::GetDevices => 3,
        Op::Forget => 4,
        Op::Connect => 5,
        Op::Disconnect => 6,
        Op::DiscoverServices => 7,
        Op::DiscoverIncludedServices => 8,
        Op::DiscoverCharacteristics => 9,
        Op::DiscoverDescriptors => 10,
        Op::ReadCharacteristic => 11,
        Op::WriteCharacteristic => 12,
        Op::ReadDescriptor => 13,
        Op::WriteDescriptor => 14,
        Op::SetNotify => 15,
        Op::WatchAdvertisements => 16,
        Op::UnwatchAdvertisements => 17,
        Op::SetTimeout => 18,
    }
}

impl Op {
    /// The number this operation travels as.
    pub fn code(self) -> (c: u32)
        ensures
            c == op_code(self),
    {
        match self {
            Op::Availability => 1,
            Op::RequestDevice => 2,
            Op::GetDevices => 3,
            Op::Forget => 4,
            Op::Connect => 5,
            Op::Disconnect => 6,
            Op::DiscoverServices => 7,
            Op::DiscoverIncludedServices => 8,
            Op::DiscoverCharacteristics => 9,
            Op::DiscoverDescriptors => 10,
            Op::ReadCharacteristic => 11,
            Op::WriteCharacteristic => 12,
            Op::ReadDescriptor => 13,
            Op::WriteDescriptor => 14,
            Op::SetNotify => 15,
            Op::WatchAdvertisements => 16,
            Op::UnwatchAdvertisements => 17,
            Op::SetTimeout => 18,
        }
    }
}

/// Why a request failed, as the page reports it: the `DOMException` names
/// Web Bluetooth throws, kept apart because a caller acts on them
/// differently.
#[derive(Debug, Clone, Copy, PartialEq, Eq, Structural)]
pub enum HostError {
    Unknown,
    NotFound,
    Security,
    Network,
    InvalidState,
    NotSupported,
    InvalidModification,
    Abort,
    NotAllowed,
}

/// The number an error travels as; zero is reserved for success on the wire
/// and doubles as "unknown".
pub open spec fn host_error_code(e: HostError) -> u32 {
    match e {
        HostError::Unknown => 0,
        HostError::NotFound => 1,
        HostError::Security => 2,
        HostError::Network => 3,
        HostError::InvalidState => 4,
        HostError::NotSupported => 5,
        HostError::InvalidModification => 6,
        HostError::Abort => 7,
        HostError::NotAllowed => 8,
    }
}

/// The error a number names; every number the page has no name for is
/// `Unknown`.
pub open spec fn host_error_from(v: u32) -> HostError {
    match v {
        1 => HostError::NotFound,
        2 => HostError::Security,
        3 => HostError::Network,
        4 => HostError::InvalidState,
        5 => HostError::NotSupported,
        6 => HostError::InvalidModification,
        7 => HostError::Abort,
        8 => HostError::NotAllowed,
        _ => HostError::Unknown,
    }
}

impl HostError {
    pub fn from_u32(v: u32) -> (e: Self)
        ensures
            e == host_error_from(v),
    {
        match v {
            1 => HostError::NotFound,
            2 => HostError::Security,
            3 => HostError::Network,
            4 => HostError::InvalidState,
            5 => HostError::NotSupported,
            6 => HostError::InvalidModification,
            7 => HostError::Abort,
            8 => HostError::NotAllowed,
            _ => HostError::Unknown,
        }
    }

    /// The number this error travels as.
    pub fn code(self) -> (c: u32)
        ensures
            c == host_error_code(self),
    {
        match self {
            HostError::Unknown => 0,
            HostError::NotFound => 1,
            HostError::Security => 2,
            HostError::Network => 3,
            HostError::InvalidState => 4,
            HostError::NotSupported => 5,
            HostError::InvalidModification => 6,
            HostError::Abort => 7,
            HostError::NotAllowed => 8,
        }
    }
}

/// An event the page pushes without being asked.
#[derive(Debug, Clone, Copy, PartialEq, Eq, Structural)]
pub enum EventKind {
    CharacteristicValue,
    GattServerDisconnected,
    ServiceChanged,
    AdvertisementReceived,
    AvailabilityChanged,
}

/// The number an event kind travels as.
pub open spec fn event_kind_code(k: EventKind) -> u32 {
    match k {
        EventKind::CharacteristicValue => 1,
        EventKind::GattServerDisconnected => 2,
        EventKind::ServiceChanged => 3,
        EventKind::AdvertisementReceived => 4,
        EventKind::AvailabilityChanged => 5,
    }
}

/// The event kind a number names, if any.
pub open spec fn event_kind_from(v: u32) -> Option<EventKind> {
    match v {
        1 => Some(EventKind::CharacteristicValue),
        2 => Some(EventKind::GattServerDisconnected),
        3 => Some(EventKind::ServiceChanged),
        4 => Some(EventKind::AdvertisementReceived),
        5 => Some(EventKind::AvailabilityChanged),
        _ => None,
    }
}

impl EventKind {
    pub fn from_u32(v: u32) -> (k: Option<Self>)
        ensures
            k == event_kind_from(v),
    {
        match v {
            1 => Some(EventKind::CharacteristicValue),
            2 => Some(EventKind::GattServerDisconnected),
            3 => Some(EventKind::ServiceChanged),
            4 => Some(EventKind::AdvertisementReceived),
            5 => Some(EventKind::AvailabilityChanged),
            _ => None,
        }
    }

    /// The number this kind travels as.
    pub fn code(self) -> (c: u32)
        ensures
            c == event_kind_code(self),
    {
        match self {
            EventKind::CharacteristicValue => 1,
            EventKind::GattServerDisconnected => 2,
            EventKind::ServiceChanged => 3,
            EventKind::AdvertisementReceived => 4,
            EventKind::AvailabilityChanged => 5,
        }
    }
}

/// Every error survives the trip to its number and back, and every number
/// outside the named ones reads as `Unknown`.
pub proof fn lemma_host_errors_round_trip(e: HostError, v: u32)
    ensures
        host_error_from(host_error_code(e)) == e,
        (v == 0 || v > 8) ==> host_error_from(v) == HostError::Unknown,
{
}

/// Every event kind survives the trip to its number and back, and a number
/// names a kind exactly when it is one of the five.
pub proof fn lemma_event_kinds_round_trip(k: EventKind, v: u32)
    ensures
        event_kind_from(event_kind_code(k)) == Some(k),
        event_kind_from(v) is Some <==> 1 <= v <= 5,
        event_kind_from(v) matches Some(j) ==> event_kind_code(j) == v,
{
}

// ── Requests in flight ──────────────────────────────────────────────────────

/// What a settled request produced.
pub type Answer = Result<Vec<u8>, HostError>;

/// What the page's settle call amounts to: success with the payload when the
/// error number is zero, otherwise the error it names. The payload of a
/// failure is ignored.
pub fn answer_from(error: u32, payload: Vec<u8>) -> (a: Answer)
    ensures
        error == 0 ==> a == Ok::<Vec<u8>, HostError>(payload),
        error != 0 ==> a == Err::<Vec<u8>, HostError>(host_error_from(error)),
{
    if error == 0 {
        Ok(payload)
    } else {
        Err(HostError::from_u32(error))
    }
}

/// Where one request stands.
pub enum Slot<W> {
    /// Started, with whoever last asked for it to be woken, if anyone.
    Waiting(Option<W>),
    /// Settled; the answer waits to be taken.
    Done(Answer),
}

/// The requests that have been started and whose answer has not been taken,
/// by token. `W` is whatever wakes a waiting task.
pub struct PendingTable<W> {
    slots: HashMap<u32, Slot<W>>,
}

impl<W> View for PendingTable<W> {
    type V = Map<u32, Slot<W>>;

    closed spec fn view(&self) -> Map<u32, Slot<W>> {
        self.slots@
    }
}

/// Settling: the answer replaces whatever stood under the token.
pub open spec fn settled<W>(m: Map<u32, Slot<W>>, token: u32, answer: Answer) -> Map<u32, Slot<W>> {
    m.insert(token, Slot::Done(answer))
}

/// Whom settling wakes: whoever was waiting on the token, if anyone was.
pub open spec fn woken_by_settling<W>(m: Map<u32, Slot<W>>, token: u32) -> Option<W> {
    if m.contains_key(token) {
        match m[token] {
            Slot::Waiting(w) => w,
            Slot::Done(_) => None,
        }
    } else {
        None
    }
}

/// Polling a token: a settled answer is taken out; a waiting request
/// remembers the new waker and stays; a token nobody registered, or whose
/// answer was already taken, answers `Unknown` rather than hanging.
pub open spec fn polled<W>(m: Map<u32, Slot<W>>, token: u32, waker: W) -> (
    Map<u32, Slot<W>>,
    Option<Answer>,
) {
    if m.contains_key(token) {
        match m[token] {
            Slot::Done(a) => (m.remove(token), Some(a)),
            Slot::Waiting(_) => (m.insert(token, Slot::Waiting(Some(waker))), None),
        }
    } else {
        (m, Some(Err(HostError::Unknown)))
    }
}

impl<W> PendingTable<W> {
    pub fn new() -> (t: Self)
        ensures
            t@ == Map::<u32, Slot<W>>::empty(),
    {
        PendingTable { slots: HashMap::new() }
    }

    /// A table holds finitely many requests.
    pub proof fn lemma_finite(&self)
        ensures
            self@.dom().finite(),
    {
        vstd::std_specs::hash::axiom_hashmap_view_finite_dom(self.slots);
    }

    /// A request has been started under `token`; nobody waits on it yet.
    pub fn register(&mut self, token: u32)
        ensures
            final(self)@ == old(self)@.insert(token, Slot::Waiting(None)),
    {
        self.slots.insert(token, Slot::Waiting(None));
    }

    /// The page answered `token`. Returns whom to wake; the newer answer
    /// replaces an older one for a token settled twice.
    pub fn settle(&mut self, token: u32, answer: Answer) -> (woken: Option<W>)
        ensures
            final(self)@ == settled(old(self)@, token, answer),
            woken == woken_by_settling(old(self)@, token),
    {
        match self.slots.insert(token, Slot::Done(answer)) {
            Some(Slot::Waiting(w)) => w,
            _ => None,
        }
    }

    /// Poll the request under `token` on behalf of `waker`.
    pub fn poll(&mut self, token: u32, waker: W) -> (r: Option<Answer>)
        ensures
            ({
                let (m, a) = polled(old(self)@, token, waker);
                final(self)@ == m && r == a
            }),
    {
        match self.slots.remove(&token) {
            Some(Slot::Done(a)) => Some(a),
            Some(Slot::Waiting(_)) => {
                self.slots.insert(token, Slot::Waiting(Some(waker)));
                None
            },
            None => Some(Err(HostError::Unknown)),
        }
    }

    /// Forget `token`: its request was abandoned before an answer was taken.
    pub fn cancel(&mut self, token: u32)
        ensures
            final(self)@ == old(self)@.remove(token),
    {
        self.slots.remove(&token);
    }
}

/// How many requests are in flight: started, and their answer not taken.
pub fn pending_count<W>(table: &PendingTable<W>) -> (n: usize)
    ensures
        n == table@.len(),
        table@.dom().finite(),
{
    proof {
        table.lemma_finite();
    }
    table.slots.len()
}

/// A request in flight, as the task waiting on it holds it.
pub struct Pending {
    token: u32,
    /// Set once the answer has been taken.
    taken: bool,
}

impl Pending {
    /// Start waiting on a request the page accepted under `token`.
    pub fn start<W>(table: &mut PendingTable<W>, token: u32) -> (p: Pending)
        ensures
            final(table)@ == old(table)@.insert(token, Slot::Waiting(None)),
            p.token() == token,
            !p.is_taken(),
    {
        table.register(token);
        Pending { token, taken: false }
    }

    pub closed spec fn token(&self) -> u32 {
        self.token
    }

    pub closed spec fn is_taken(&self) -> bool {
        self.taken
    }

    /// Poll for the answer. Once it has been taken, a further poll stays
    /// pending for ever rather than inventing an answer.
    pub fn poll<W>(&mut self, table: &mut PendingTable<W>, waker: W) -> (r: Option<Answer>)
        ensures
            final(self).token() == old(self).token(),
            old(self).is_taken() ==> r is None && final(table)@ == old(table)@,
            old(self).is_taken() ==> final(self).is_taken(),
            !old(self).is_taken() ==> ({
                let (m, a) = polled(old(table)@, old(self).token(), waker);
                &&& final(table)@ == m
                &&& r == a
                &&& final(self).is_taken() == a is Some
            }),
    {
        if self.taken {
            return None;
        }
        let answer = table.poll(self.token, waker);
        if answer.is_some() {
            self.taken = true;
        }
        answer
    }

    /// The waiting task went away. An answer not yet taken is forgotten, so
    /// that a page that starts and abandons requests does not accumulate
    /// them.
    pub fn release<W>(self, table: &mut PendingTable<W>)
        ensures
            !self.is_taken() ==> final(table)@ == old(table)@.remove(self.token()),
            self.is_taken() ==> final(table)@ == old(table)@,
    {
        if !self.taken {
            table.cancel(self.token);
        }
    }
}

/// Settling before the first poll does not lose the answer, and the poll
/// that takes it leaves nothing behind: a request registered and settled is
/// answered with what was settled, and the table returns to what it was
/// without the token.
pub proof fn lemma_settled_answers_are_delivered<W>(
    m: Map<u32, Slot<W>>,
    token: u32,
    answer: Answer,
    waker: W,
)
    ensures
        ({
            let (after, r) = polled(settled(m.insert(token, Slot::Waiting(None)), token, answer), token, waker);
            r == Some(answer) && after == m.remove(token)
        }),
        woken_by_settling(m.insert(token, Slot::Waiting(Some(waker))), token) == Some(waker),
{
    let (after, r) = polled(settled(m.insert(token, Slot::Waiting(None)), token, answer), token, waker);
    assert(after =~= m.remove(token));
}

/// A poll before the answer arrives leaves the request waiting on that
/// poller, so the answer that follows wakes it.
pub proof fn lemma_a_waiting_poll_is_woken_by_the_answer<W>(
    m: Map<u32, Slot<W>>,
    token: u32,
    waker: W,
)
    ensures
        ({
            let (after, r) = polled(m.insert(token, Slot::Waiting(None)), token, waker);
            &&& r is None
            &&& woken_by_settling(after, token) == Some(waker)
        }),
{
}

/// No entry outlives its request: a request started under a fresh token
/// adds one to the count, and the count is back where it was once its task
/// lets go of it, whether unanswered, answered but not taken, or answered
/// and taken by a poll.
pub proof fn lemma_requests_leave_no_entry<W>(
    m: Map<u32, Slot<W>>,
    token: u32,
    answer: Answer,
    waker: W,
)
    requires
        m.dom().finite(),
        !m.contains_key(token),
    ensures
        m.insert(token, Slot::Waiting(None)).len() == m.len() + 1,
        m.insert(token, Slot::Waiting(None)).remove(token).len() == m.len(),
        settled(m.insert(token, Slot::Waiting(None)), token, answer).remove(token).len() == m.len(),
        polled(settled(m.insert(token, Slot::Waiting(None)), token, answer), token, waker).0.len()
            == m.len(),
{
    let started = m.insert(token, Slot::Waiting(None));
    assert(started.remove(token) =~= m);
    assert(settled(started, token, answer).remove(token) =~= m);
    lemma_settled_answers_are_delivered(m, token, answer, waker);
    assert(m.remove(token) =~= m);
}

} // verus!
