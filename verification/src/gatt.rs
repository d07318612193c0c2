//! What a GATT client keeps of a connection: its errors, where unsolicited
//! traffic goes, and finding the descriptor that switches notifications on.

use vstd::prelude::*;
use crate::att::{
    le16, prepare_write_request, uuid_from_wire, AttError, Characteristic, CharacteristicView,
    Descriptor, DescriptorView, Include, IncludeView, Response, ResponseView, Service,
    ServiceView, Uuid, UuidView,
};
use crate::att::opcode::PREPARE_WRITE_REQUEST;
use crate::att::gatt_type::CLIENT_CHARACTERISTIC_CONFIGURATION;

verus! {

/// Why a GATT operation failed.
#[derive(Debug, Clone)]
pub enum Error {
    /// The socket could not be opened or connected.
    Io(String),
    /// The peer refused, with an ATT error code.
    Att(AttError),
    /// No reply within the deadline.
    Timeout,
    /// The link dropped.
    Disconnected,
    /// A reply that did not decode, or was not the one asked for.
    Protocol(String),
}

/// What a GATT error says, in words.
pub open spec fn error_text(e: Error) -> Seq<char> {
    match e {
        Error::Io(m) => m@,
        Error::Att(code) => "the peer refused: "@ + crate::att::att_error_description(code.0) + seq![
            ' ',
            '(',
            '0',
            'x',
        ] + crate::text::hex_pair_lower(code.0) + seq![')'],
        Error::Timeout => "the peer did not answer"@,
        Error::Disconnected => "the link dropped"@,
        Error::Protocol(m) => "protocol error: "@ + m@,
    }
}

impl Error {
    /// The error in words.
    pub fn to_string(&self) -> (s: String)
        ensures
            s@ == error_text(*self),
    {
        match self {
            Error::Io(m) => m.clone(),
            Error::Att(code) => {
                let mut s = String::from_str("the peer refused: ");
                let words = code.to_string();
                crate::text::push_str(&mut s, words.as_str());
                s
            },
            Error::Timeout => String::from_str("the peer did not answer"),
            Error::Disconnected => String::from_str("the link dropped"),
            Error::Protocol(m) => {
                let mut s = String::from_str("protocol error: ");
                crate::text::push_str(&mut s, m.as_str());
                s
            },
        }
    }
}

/// Where unsolicited traffic goes.
pub trait NotificationSink {
    /// A `Handle Value Notification` or `Indication` arrived.
    fn on_notification(&self, handle: u16, value: Vec<u8>);

    /// The link dropped.
    fn on_disconnected(&self);
}

/// The handle of the first descriptor whose type is the Client
/// Characteristic Configuration descriptor.
pub open spec fn cccd_handle(d: Seq<DescriptorView>) -> Option<u16>
    decreases d.len(),
{
    if d.len() == 0 {
        None
    } else if d[0].uuid == UuidView::Short(CLIENT_CHARACTERISTIC_CONFIGURATION) {
        Some(d[0].handle)
    } else {
        cccd_handle(d.drop_first())
    }
}

/// Find the Client Characteristic Configuration descriptor among a set.
pub fn find_cccd(descriptors: &[Descriptor]) -> (r: Option<u16>)
    ensures
        r == cccd_handle(descriptors@.map_values(|d: Descriptor| d@)),
{
    let ghost all = descriptors@.map_values(|d: Descriptor| d@);
    let mut i: usize = 0;
    assert(all.skip(0) =~= all);
    while i < descriptors.len()
        invariant
            i <= descriptors@.len(),
            all == descriptors@.map_values(|d: Descriptor| d@),
            cccd_handle(all) == cccd_handle(all.skip(i as int)),
        decreases descriptors@.len() - i,
    {
        let d = &descriptors[i];
        assert(all.skip(i as int)[0] == d@);
        assert(all.skip(i as int).drop_first() =~= all.skip(i + 1));
        match d.uuid {
            Uuid::Short(v) => {
                if v == CLIENT_CHARACTERISTIC_CONFIGURATION {
                    return Some(d.handle);
                }
            },
            Uuid::Long(_) => {},
        }
        i = i + 1;
    }
    None
}

// ── Discovery ───────────────────────────────────────────────────────────────
//
// Discovery asks for a range of handles, takes the batch the peer answers
// with, and asks again from just past the last entry, until the range is
// exhausted or the peer says there is nothing more.

/// What a discovery does after a reply.
#[derive(Debug)]
pub enum Step {
    /// Ask again, from this handle.
    Ask(u16),
    /// There is nothing more to find.
    Finished,
    /// The peer refused with an error other than "not found".
    Refused(AttError),
    /// A reply that does not answer the request.
    Unexpected(Response),
}

pub enum StepView {
    Ask(u16),
    Finished,
    Refused(AttError),
    Unexpected(ResponseView),
}

impl View for Step {
    type V = StepView;

    open spec fn view(&self) -> StepView {
        match self {
            Step::Ask(h) => StepView::Ask(*h),
            Step::Finished => StepView::Finished,
            Step::Refused(e) => StepView::Refused(*e),
            Step::Unexpected(r) => StepView::Unexpected(r@),
        }
    }
}

/// Where a discovery of the handles `start..=end` begins: an empty range has
/// nothing to ask.
pub open spec fn first_step_spec(start: u16, end: u16) -> StepView {
    if start > end {
        StepView::Finished
    } else {
        StepView::Ask(start)
    }
}

pub fn first_step(start: u16, end: u16) -> (s: Step)
    ensures
        s@ == first_step_spec(start, end),
{
    if start > end {
        Step::Finished
    } else {
        Step::Ask(start)
    }
}

/// After a reply that carries no batch: `ATTRIBUTE_NOT_FOUND` is how the
/// peer says there is no more; another error is a refusal; anything else
/// does not answer the request.
pub open spec fn other_reply(r: ResponseView) -> StepView {
    match r {
        ResponseView::Error { error, .. } => if error.0 == 0x0A {
            StepView::Finished
        } else {
            StepView::Refused(error)
        },
        _ => StepView::Unexpected(r),
    }
}

/// After a batch whose last entry is at `last`, in a range ending at `end`.
pub open spec fn after_batch(last: u16, end: u16) -> StepView {
    if last >= end {
        StepView::Finished
    } else {
        StepView::Ask((last + 1) as u16)
    }
}

fn other_step(r: Response) -> (s: Step)
    ensures
        s@ == other_reply(r@),
{
    match r {
        Response::Error { error, .. } => if error.is_end_of_discovery() {
            Step::Finished
        } else {
            Step::Refused(error)
        },
        other => Step::Unexpected(other),
    }
}

fn batch_step(last: u16, end: u16) -> (s: Step)
    ensures
        s@ == after_batch(last, end),
{
    if last >= end {
        Step::Finished
    } else {
        Step::Ask(last + 1)
    }
}

/// Primary services: `Read By Group Type` up to `0xFFFF`, continuing past
/// each batch's last end handle.
pub open spec fn services_step_spec(r: ResponseView) -> (StepView, Seq<ServiceView>) {
    match r {
        ResponseView::Services(b) => if b.len() > 0 {
            (after_batch(b.last().end_handle, 0xFFFF), b)
        } else {
            (other_reply(r), Seq::empty())
        },
        _ => (other_reply(r), Seq::empty()),
    }
}

/// Characteristics: `Read By Type` up to `end`, continuing past each batch's
/// last declaration.
pub open spec fn characteristics_step_spec(r: ResponseView, end: u16) -> (
    StepView,
    Seq<CharacteristicView>,
) {
    match r {
        ResponseView::Characteristics(b) => if b.len() > 0 {
            (after_batch(b.last().handle, end), b)
        } else {
            (other_reply(r), Seq::empty())
        },
        _ => (other_reply(r), Seq::empty()),
    }
}

/// Descriptors: `Find Information` up to `end`, continuing past each batch's
/// last handle.
pub open spec fn descriptors_step_spec(r: ResponseView, end: u16) -> (StepView, Seq<DescriptorView>) {
    match r {
        ResponseView::Descriptors(b) => if b.len() > 0 {
            (after_batch(b.last().handle, end), b)
        } else {
            (other_reply(r), Seq::empty())
        },
        _ => (other_reply(r), Seq::empty()),
    }
}

/// Included services: `Read By Type` up to `end`; an empty batch, like "not
/// found", means there are no more, which is the common case.
pub open spec fn includes_step_spec(r: ResponseView, end: u16) -> (StepView, Seq<IncludeView>) {
    match r {
        ResponseView::Includes(b) => if b.len() > 0 {
            (after_batch(b.last().handle, end), b)
        } else {
            (StepView::Finished, Seq::empty())
        },
        _ => (other_reply(r), Seq::empty()),
    }
}

pub open spec fn services_view(v: Seq<Service>) -> Seq<ServiceView> {
    v.map_values(|x: Service| x@)
}

pub open spec fn characteristics_view(v: Seq<Characteristic>) -> Seq<CharacteristicView> {
    v.map_values(|x: Characteristic| x@)
}

pub open spec fn descriptors_view(v: Seq<Descriptor>) -> Seq<DescriptorView> {
    v.map_values(|x: Descriptor| x@)
}

pub open spec fn includes_view(v: Seq<Include>) -> Seq<IncludeView> {
    v.map_values(|x: Include| x@)
}

/// Everything in `batch` after what `found` holds.
fn append_all<T>(found: &mut Vec<T>, batch: Vec<T>)
    ensures
        final(found)@ == old(found)@ + batch@,
{
    let mut b = batch;
    found.append(&mut b);
}

/// Take a reply to a service discovery: what it found joins `found`.
pub fn services_step(reply: Response, found: &mut Vec<Service>) -> (s: Step)
    ensures
        s@ == services_step_spec(reply@).0,
        services_view(final(found)@) == services_view(old(found)@) + services_step_spec(
            reply@,
        ).1,
{
    let ghost rv = reply@;
    match reply {
        Response::Services(batch) => {
            if batch.len() > 0 {
                assert(rv == ResponseView::Services(services_view(batch@)));
                let last = batch[batch.len() - 1].end_handle;
                let ghost b = batch@;
                let ghost before = found@;
                append_all(found, batch);
                assert(services_view(found@) =~= services_view(before) + services_view(b));
                batch_step(last, 0xFFFF)
            } else {
                assert(services_view(found@) =~= services_view(found@) + Seq::empty());
                Step::Unexpected(Response::Services(batch))
            }
        },
        other => {
            assert(services_view(found@) =~= services_view(found@) + Seq::empty());
            other_step(other)
        },
    }
}

/// Take a reply to a characteristic discovery ending at `end`.
pub fn characteristics_step(reply: Response, end: u16, found: &mut Vec<Characteristic>) -> (s: Step)
    ensures
        s@ == characteristics_step_spec(reply@, end).0,
        characteristics_view(final(found)@) == characteristics_view(old(found)@)
            + characteristics_step_spec(reply@, end).1,
{
    let ghost rv = reply@;
    match reply {
        Response::Characteristics(batch) => {
            if batch.len() > 0 {
                assert(rv == ResponseView::Characteristics(characteristics_view(batch@)));
                let last = batch[batch.len() - 1].handle;
                let ghost b = batch@;
                let ghost before = found@;
                append_all(found, batch);
                assert(characteristics_view(found@) =~= characteristics_view(before) + characteristics_view(b));
                batch_step(last, end)
            } else {
                assert(characteristics_view(found@) =~= characteristics_view(found@) + Seq::empty());
                Step::Unexpected(Response::Characteristics(batch))
            }
        },
        other => {
            assert(characteristics_view(found@) =~= characteristics_view(found@) + Seq::empty());
            other_step(other)
        },
    }
}

/// Take a reply to a descriptor discovery ending at `end`.
pub fn descriptors_step(reply: Response, end: u16, found: &mut Vec<Descriptor>) -> (s: Step)
    ensures
        s@ == descriptors_step_spec(reply@, end).0,
        descriptors_view(final(found)@) == descriptors_view(old(found)@) + descriptors_step_spec(
            reply@,
            end,
        ).1,
{
    let ghost rv = reply@;
    match reply {
        Response::Descriptors(batch) => {
            if batch.len() > 0 {
                assert(rv == ResponseView::Descriptors(descriptors_view(batch@)));
                let last = batch[batch.len() - 1].handle;
                let ghost b = batch@;
                let ghost before = found@;
                append_all(found, batch);
                assert(descriptors_view(found@) =~= descriptors_view(before) + descriptors_view(b));
                batch_step(last, end)
            } else {
                assert(descriptors_view(found@) =~= descriptors_view(found@) + Seq::empty());
                Step::Unexpected(Response::Descriptors(batch))
            }
        },
        other => {
            assert(descriptors_view(found@) =~= descriptors_view(found@) + Seq::empty());
            other_step(other)
        },
    }
}

/// Take a reply to a discovery of included services ending at `end`: the step, and the
/// declarations found, each still to be turned into a service.
pub fn includes_step(reply: Response, end: u16) -> (r: (Step, Vec<Include>))
    ensures
        r.0@ == includes_step_spec(reply@, end).0,
        includes_view(r.1@) == includes_step_spec(reply@, end).1,
{
    match reply {
        Response::Includes(batch) => {
            if batch.len() > 0 {
                let last = batch[batch.len() - 1].handle;
                (batch_step(last, end), batch)
            } else {
                assert(includes_view(batch@) =~= Seq::<IncludeView>::empty());
                (Step::Finished, batch)
            }
        },
        other => {
            let v: Vec<Include> = Vec::new();
            assert(includes_view(v@) =~= Seq::<IncludeView>::empty());
            (other_step(other), v)
        },
    }
}

/// The service an `Include` declaration names. A 128-bit included service
/// does not fit the declaration, so its UUID is read from the service's own
/// declaration; when that read failed, or did not hold a UUID, the declaration is
/// skipped.
pub open spec fn included_service_spec(i: IncludeView, declaration: Option<Seq<u8>>) -> Option<
    ServiceView,
> {
    let service = |u: UuidView|
        ServiceView { start_handle: i.start_handle, end_handle: i.end_handle, uuid: u };
    match i.uuid {
        Some(u) => Some(service(u)),
        None => match declaration {
            Some(d) => match uuid_from_wire(d) {
                Some(u) => Some(service(u)),
                None => None,
            },
            None => None,
        },
    }
}

fn copy_uuid(u: &Uuid) -> (c: Uuid)
    ensures
        c@ == u@,
{
    match u {
        Uuid::Short(v) => Uuid::Short(*v),
        Uuid::Long(b) => Uuid::Long(*b),
    }
}

/// The service an `Include` declaration names, given the included service's declaration
/// when one had to be read.
pub fn included_service(entry: &Include, declaration: Option<&[u8]>) -> (s: Option<Service>)
    ensures
        match s {
            Some(x) => included_service_spec(
                entry@,
                match declaration {
                    Some(d) => Some(d@),
                    None => None,
                },
            ) == Some(x@),
            None => included_service_spec(
                entry@,
                match declaration {
                    Some(d) => Some(d@),
                    None => None,
                },
            ) is None,
        },
{
    let uuid = match &entry.uuid {
        Some(u) => copy_uuid(u),
        None => match declaration {
            Some(d) => match Uuid::parse(d) {
                Some(u) => u,
                None => {
                    return None;
                },
            },
            None => {
                return None;
            },
        },
    };
    Some(Service { start_handle: entry.start_handle, end_handle: entry.end_handle, uuid })
}

// ── Reads and writes longer than one PDU ────────────────────────────────────

/// Whether a read goes on with `Read Blob`, and from which offset: while the
/// value fills the `mtu - 1` bytes a reply carries, which is the only sign
/// there is more; once blobs have been read, not past 512 bytes, the longest
/// an attribute can be.
pub open spec fn next_blob_spec(len: int, mtu: u16, blobs_read: bool) -> Option<u16> {
    if blobs_read && len >= 512 {
        None
    } else if len >= mtu - 1 {
        Some(len as u16)
    } else {
        None
    }
}

pub fn next_blob(len: usize, mtu: u16, blobs_read: bool) -> (r: Option<u16>)
    requires
        mtu >= 1,
    ensures
        r == next_blob_spec(len as int, mtu, blobs_read),
{
    if blobs_read && len >= 512 {
        None
    } else if len >= (mtu as usize) - 1 {
        #[verifier::truncate]
        let offset = len as u16;
        Some(offset)
    } else {
        None
    }
}

/// Add a `Read Blob` reply to a value: only a non-empty value continues it;
/// an error or an empty blob means that was all.
pub fn take_blob(value: &mut Vec<u8>, reply: Option<Response>) -> (more: bool)
    ensures
        more == (reply matches Some(Response::Value(b)) && b@.len() > 0),
        more ==> final(value)@ == old(value)@ + match reply {
            Some(Response::Value(b)) => b@,
            _ => Seq::empty(),
        },
        !more ==> final(value)@ == old(value)@,
{
    match reply {
        Some(Response::Value(mut b)) => {
            if b.len() > 0 {
                value.append(&mut b);
                true
            } else {
                false
            }
        },
        _ => false,
    }
}

/// What one `Write Request` can carry: the MTU less three bytes of header.
pub open spec fn single_write_room_spec(mtu: u16) -> int {
    if mtu >= 3 {
        mtu - 3
    } else {
        0
    }
}

pub fn single_write_room(mtu: u16) -> (n: usize)
    ensures
        n == single_write_room_spec(mtu),
{
    if mtu >= 3 {
        (mtu - 3) as usize
    } else {
        0
    }
}

/// What one `Prepare Write Request` can carry: two bytes fewer, for the
/// offset, and never nothing.
pub open spec fn prepared_chunk(mtu: u16) -> int {
    if mtu > 6 {
        mtu - 5
    } else {
        1
    }
}

/// The `Prepare Write Request`s that queue what of `value` lies from `at`
/// on, in order: a chunk of `c` bytes at its offset, then the rest, the last
/// chunk shorter.
pub open spec fn writes_from(handle: u16, value: Seq<u8>, c: int, at: int) -> Seq<Seq<u8>>
    decreases value.len() - at,
{
    if at >= value.len() || c < 1 || at < 0 {
        Seq::empty()
    } else {
        let stop = if at + c < value.len() {
            at + c
        } else {
            value.len() as int
        };
        seq![
            seq![PREPARE_WRITE_REQUEST] + le16(handle) + le16(at as u16) + value.subrange(at, stop),
        ] + writes_from(handle, value, c, stop)
    }
}

/// The `Prepare Write Request`s that queue all of `value` at `handle`.
pub open spec fn prepared_writes_spec(handle: u16, value: Seq<u8>, mtu: u16) -> Seq<Seq<u8>> {
    writes_from(handle, value, prepared_chunk(mtu), 0)
}

pub fn prepared_writes(handle: u16, value: &[u8], mtu: u16) -> (pdus: Vec<Vec<u8>>)
    ensures
        pdus@.map_values(|p: Vec<u8>| p@) == prepared_writes_spec(handle, value@, mtu),
{
    let c: usize = if mtu > 6 {
        (mtu - 5) as usize
    } else {
        1
    };
    let len = value.len();
    let mut pdus: Vec<Vec<u8>> = Vec::new();
    let mut at: usize = 0;
    let ghost whole = prepared_writes_spec(handle, value@, mtu);
    assert(pdus@.map_values(|p: Vec<u8>| p@) + writes_from(handle, value@, c as int, 0) =~= whole);
    while at < len
        invariant
            c == prepared_chunk(mtu),
            c >= 1,
            len == value@.len(),
            at <= len,
            whole == prepared_writes_spec(handle, value@, mtu),
            pdus@.map_values(|p: Vec<u8>| p@) + writes_from(handle, value@, c as int, at as int)
                == whole,
        decreases len - at,
    {
        let stop = if len - at > c {
            at + c
        } else {
            len
        };
        #[verifier::truncate]
        let offset = at as u16;
        let part = vstd::slice::slice_subrange(value, at, stop);
        let pdu = prepare_write_request(handle, offset, part);
        let ghost before = pdus@.map_values(|p: Vec<u8>| p@);
        let ghost rest = writes_from(handle, value@, c as int, stop as int);
        assert(writes_from(handle, value@, c as int, at as int) == seq![pdu@] + rest);
        pdus.push(pdu);
        assert(pdus@.map_values(|p: Vec<u8>| p@) =~= before.push(pdu@));
        assert(before + (seq![pdu@] + rest) =~= before.push(pdu@) + rest);
        at = stop;
    }
    assert(writes_from(handle, value@, c as int, at as int) =~= Seq::<Seq<u8>>::empty());
    assert(pdus@.map_values(|p: Vec<u8>| p@) =~= whole);
    pdus
}

// ── Where descriptors live ──────────────────────────────────────────────────

/// The handles characteristic `i` owns past its value: up to just before the
/// next characteristic's declaration, or to the end of its service.
pub open spec fn descriptor_range(cs: Seq<Characteristic>, i: int, end: u16) -> (u16, u16) {
    (
        (cs[i].value_handle + 1) as u16,
        if i + 1 < cs.len() {
            (cs[i + 1].handle - 1) as u16
        } else {
            end
        },
    )
}

/// Where each characteristic's descriptors are to be looked for, in order. A
/// characteristic owns every handle up to the next one.
pub fn descriptor_ranges(characteristics: &[Characteristic], end: u16) -> (ranges: Vec<(u16, u16)>)
    requires
        forall|i: int|
            0 <= i < characteristics@.len() ==> #[trigger] characteristics@[i].value_handle < u16::MAX,
        forall|i: int| 0 < i < characteristics@.len() ==> #[trigger] characteristics@[i].handle > 0,
    ensures
        ranges@.len() == characteristics@.len(),
        forall|i: int|
            0 <= i < ranges@.len() ==> #[trigger] ranges@[i] == descriptor_range(
                characteristics@,
                i,
                end,
            ),
{
    let mut ranges: Vec<(u16, u16)> = Vec::new();
    let n = characteristics.len();
    let mut i: usize = 0;
    while i < n
        invariant
            n == characteristics@.len(),
            i <= n,
            ranges@.len() == i,
            forall|j: int| 0 <= j < n ==> #[trigger] characteristics@[j].value_handle < u16::MAX,
            forall|j: int| 0 < j < n ==> #[trigger] characteristics@[j].handle > 0,
            forall|j: int|
                0 <= j < i ==> #[trigger] ranges@[j] == descriptor_range(characteristics@, j, end),
        decreases n - i,
    {
        let from = characteristics[i].value_handle + 1;
        let until = if i + 1 < n {
            characteristics[i + 1].handle - 1
        } else {
            end
        };
        ranges.push((from, until));
        i = i + 1;
    }
    ranges
}

} // verus!
