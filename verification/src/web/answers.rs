//! What the WebAssembly side asks the page for GATT work, and how it reads
//! the page's answers: lists of services, characteristics and descriptors,
//! and attribute values.
//!
//! UUIDs come back as the page wrote them; a list with one the caller cannot
//! parse is as malformed as a list that runs off the end.

use vstd::prelude::*;
use vstd::string::StringSliceAdditionalSpecFns;
use super::codec::{
    at, framed, framed_option, read_bytes_spec, read_str_spec, read_u32_spec, read_u8_spec,
    Reader, ReaderState, Writer,
};

verus! {

// ── Requests ────────────────────────────────────────────────────────────────

/// A request naming one thing: a device id or an attribute key.
pub fn key_request(key: &str) -> (out: Vec<u8>)
    ensures
        out@ == framed(key.spec_bytes()),
{
    let mut w = Writer::new();
    w.str(key);
    w.finish()
}

/// A discovery request: what to look under, and the UUID to look for, if
/// only one.
pub fn lookup_request(key: &str, uuid: Option<&str>) -> (out: Vec<u8>)
    ensures
        out@ == framed(key.spec_bytes()) + framed_option(
            match uuid {
                Some(u) => Some(u.spec_bytes()),
                None => None,
            },
        ),
{
    let mut w = Writer::new();
    w.str(key).option_str(uuid);
    w.finish()
}

/// A characteristic write: the key, the value, and whether the write wants
/// a response.
pub fn characteristic_write_request(key: &str, value: &[u8], with_response: bool) -> (out: Vec<u8>)
    ensures
        out@ == framed(key.spec_bytes()) + framed(value@) + seq![
            if with_response {
                1u8
            } else {
                0u8
            },
        ],
{
    let mut w = Writer::new();
    w.str(key).bytes(value).bool(with_response);
    w.finish()
}

/// A descriptor write: the key and the value.
pub fn descriptor_write_request(key: &str, value: &[u8]) -> (out: Vec<u8>)
    ensures
        out@ == framed(key.spec_bytes()) + framed(value@),
{
    let mut w = Writer::new();
    w.str(key).bytes(value);
    w.finish()
}

/// Starting or stopping notifications: the key and which.
pub fn notify_request(key: &str, enabled: bool) -> (out: Vec<u8>)
    ensures
        out@ == framed(key.spec_bytes()) + seq![
            if enabled {
                1u8
            } else {
                0u8
            },
        ],
{
    let mut w = Writer::new();
    w.str(key).bool(enabled);
    w.finish()
}

// ── Answers ─────────────────────────────────────────────────────────────────

/// A service in an answer.
pub struct ServiceRecord {
    pub key: String,
    pub uuid: String,
    pub primary: bool,
}

/// A characteristic in an answer, with its nine property flags in the order
/// the page sends them: broadcast, read, write without response, write,
/// notify, indicate, authenticated signed writes, reliable write, writable
/// auxiliaries.
pub struct CharacteristicRecord {
    pub key: String,
    pub uuid: String,
    pub flags: Vec<bool>,
}

/// A descriptor in an answer.
pub struct DescriptorRecord {
    pub key: String,
    pub uuid: String,
}

/// Two strings, read one after the other.
pub open spec fn two_strs(r: ReaderState) -> (int, Option<(Seq<char>, Seq<char>)>) {
    match read_str_spec(r) {
        (p, None) => (p, None),
        (p, Some(a)) => match read_str_spec(at(r, p)) {
            (q, None) => (q, None),
            (q, Some(b)) => (q, Some((a, b))),
        },
    }
}

/// `n` flags, one byte each.
pub open spec fn flags_from(r: ReaderState, n: nat) -> (int, Option<Seq<bool>>)
    decreases n,
{
    if n == 0 {
        (r.at, Some(Seq::empty()))
    } else {
        match read_u8_spec(r) {
            (p, None) => (p, None),
            (p, Some(b)) => match flags_from(at(r, p), (n - 1) as nat) {
                (q, None) => (q, None),
                (q, Some(rest)) => (q, Some(seq![b != 0] + rest)),
            },
        }
    }
}

/// One service: key, UUID, and whether it is primary.
pub open spec fn service_item(r: ReaderState) -> (int, Option<(Seq<char>, Seq<char>, bool)>) {
    match two_strs(r) {
        (p, None) => (p, None),
        (p, Some((k, u))) => match read_u8_spec(at(r, p)) {
            (q, None) => (q, None),
            (q, Some(b)) => (q, Some((k, u, b != 0))),
        },
    }
}

/// One characteristic: key, UUID, and nine flags.
pub open spec fn characteristic_item(r: ReaderState) -> (
    int,
    Option<(Seq<char>, Seq<char>, Seq<bool>)>,
) {
    match two_strs(r) {
        (p, None) => (p, None),
        (p, Some((k, u))) => match flags_from(at(r, p), 9) {
            (q, None) => (q, None),
            (q, Some(f)) => (q, Some((k, u, f))),
        },
    }
}

/// `n` services, or nothing if one of them fails to read.
pub open spec fn services_from(r: ReaderState, n: nat) -> Option<Seq<(Seq<char>, Seq<char>, bool)>>
    decreases n,
{
    if n == 0 {
        Some(Seq::empty())
    } else {
        match service_item(r) {
            (p, Some(x)) => in_front(seq![x], services_from(at(r, p), (n - 1) as nat)),
            (_, None) => None,
        }
    }
}

/// `n` characteristics, or nothing if one of them fails to read.
pub open spec fn characteristics_from(r: ReaderState, n: nat) -> Option<
    Seq<(Seq<char>, Seq<char>, Seq<bool>)>,
>
    decreases n,
{
    if n == 0 {
        Some(Seq::empty())
    } else {
        match characteristic_item(r) {
            (p, Some(x)) => in_front(seq![x], characteristics_from(at(r, p), (n - 1) as nat)),
            (_, None) => None,
        }
    }
}

/// `n` descriptors, or nothing if one of them fails to read.
pub open spec fn descriptors_from(r: ReaderState, n: nat) -> Option<Seq<(Seq<char>, Seq<char>)>>
    decreases n,
{
    if n == 0 {
        Some(Seq::empty())
    } else {
        match two_strs(r) {
            (p, Some(x)) => in_front(seq![x], descriptors_from(at(r, p), (n - 1) as nat)),
            (_, None) => None,
        }
    }
}

/// A reader at the start of `bytes`.
pub open spec fn start_of(bytes: Seq<u8>) -> ReaderState {
    ReaderState { bytes, at: 0 }
}

/// The services an answer lists: a `u32` count, then each.
pub open spec fn service_list_of(bytes: Seq<u8>) -> Option<Seq<(Seq<char>, Seq<char>, bool)>> {
    match read_u32_spec(start_of(bytes)) {
        (p, Some(n)) => services_from(at(start_of(bytes), p), n as nat),
        (_, None) => None,
    }
}

/// The characteristics an answer lists: a `u32` count, then each.
pub open spec fn characteristic_list_of(bytes: Seq<u8>) -> Option<
    Seq<(Seq<char>, Seq<char>, Seq<bool>)>,
> {
    match read_u32_spec(start_of(bytes)) {
        (p, Some(n)) => characteristics_from(at(start_of(bytes), p), n as nat),
        (_, None) => None,
    }
}

/// The descriptors an answer lists: a `u32` count, then each.
pub open spec fn descriptor_list_of(bytes: Seq<u8>) -> Option<Seq<(Seq<char>, Seq<char>)>> {
    match read_u32_spec(start_of(bytes)) {
        (p, Some(n)) => descriptors_from(at(start_of(bytes), p), n as nat),
        (_, None) => None,
    }
}

/// `front` in front of whatever the rest reads as, if it reads.
pub open spec fn in_front<T>(front: Seq<T>, rest: Option<Seq<T>>) -> Option<Seq<T>> {
    match rest {
        Some(r) => Some(front + r),
        None => None,
    }
}

pub open spec fn service_view(s: ServiceRecord) -> (Seq<char>, Seq<char>, bool) {
    (s.key@, s.uuid@, s.primary)
}

pub open spec fn characteristic_view(c: CharacteristicRecord) -> (Seq<char>, Seq<char>, Seq<bool>) {
    (c.key@, c.uuid@, c.flags@)
}

pub open spec fn descriptor_view(d: DescriptorRecord) -> (Seq<char>, Seq<char>) {
    (d.key@, d.uuid@)
}

/// Read two strings.
fn read_two(r: &mut Reader) -> (out: Option<(String, String)>)
    ensures
        ({
            let (p, v) = two_strs(old(r)@);
            &&& final(r)@ == at(old(r)@, p)
            &&& match out {
                Some((a, b)) => v == Some((a@, b@)),
                None => v is None,
            }
        }),
{
    let a = match r.str() {
        Some(a) => a,
        None => return None,
    };
    let b = match r.str() {
        Some(b) => b,
        None => return None,
    };
    Some((a, b))
}

/// Read `n` flags.
fn read_flags(r: &mut Reader, n: usize) -> (out: Option<Vec<bool>>)
    ensures
        ({
            let (p, v) = flags_from(old(r)@, n as nat);
            &&& final(r)@ == at(old(r)@, p)
            &&& match out {
                Some(f) => v == Some(f@),
                None => v is None,
            }
        }),
    decreases n,
{
    if n == 0 {
        assert(at(old(r)@, old(r)@.at) == old(r)@);
        return Some(Vec::new());
    }
    let b = match r.bool() {
        Some(b) => b,
        None => return None,
    };
    let rest = match read_flags(r, n - 1) {
        Some(rest) => rest,
        None => return None,
    };
    let mut out: Vec<bool> = Vec::new();
    out.push(b);
    let mut i: usize = 0;
    while i < rest.len()
        invariant
            i <= rest@.len(),
            out@ == seq![b] + rest@.take(i as int),
        decreases rest@.len() - i,
    {
        out.push(rest[i]);
        assert(rest@.take(i + 1) =~= rest@.take(i as int).push(rest@[i as int]));
        assert(out@ =~= seq![b] + rest@.take(i + 1));
        i = i + 1;
    }
    assert(rest@.take(rest@.len() as int) =~= rest@);
    Some(out)
}

/// The services an answer lists.
pub fn service_list(answer: &[u8]) -> (out: Option<Vec<ServiceRecord>>)
    ensures
        match out {
            Some(v) => service_list_of(answer@) == Some(v@.map_values(|s: ServiceRecord| service_view(s))),
            None => service_list_of(answer@) is None,
        },
{
    let mut r = Reader::new(answer);
    let ghost r0 = r@;
    let count = match r.u32() {
        Some(n) => n,
        None => return None,
    };
    let ghost start = r@;
    let mut out: Vec<ServiceRecord> = Vec::new();
    let mut k: u32 = 0;
    while k < count
        invariant
            k <= count,
            r0 == start_of(answer@),
            read_u32_spec(r0).1 == Some(count),
            start == at(r0, read_u32_spec(r0).0),
            services_from(start, count as nat) == in_front(
                out@.map_values(|s: ServiceRecord| service_view(s)),
                services_from(r@, (count - k) as nat),
            ),
        decreases count - k,
    {
        let ghost before = r@;
        let ghost done = out@.map_values(|s: ServiceRecord| service_view(s));
        let pair = read_two(&mut r);
        let (key, uuid) = match pair {
            Some(p) => p,
            None => {
                assert(service_item(before).1 is None);
                return None;
            },
        };
        let primary = match r.bool() {
            Some(b) => b,
            None => {
                assert(service_item(before).1 is None);
                return None;
            },
        };
        let record = ServiceRecord { key, uuid, primary };
        assert(service_item(before) == (r@.at, Some(service_view(record))));
        assert(at(before, r@.at) == r@);
        out.push(record);
        assert(out@.map_values(|s: ServiceRecord| service_view(s)) =~= done + seq![
            service_view(record),
        ]);
        k = k + 1;
    }
    assert(out@.map_values(|s: ServiceRecord| service_view(s)) + Seq::empty() =~= out@.map_values(
        |s: ServiceRecord| service_view(s),
    ));
    Some(out)
}

/// The characteristics an answer lists.
pub fn characteristic_list(answer: &[u8]) -> (out: Option<Vec<CharacteristicRecord>>)
    ensures
        match out {
            Some(v) => characteristic_list_of(answer@) == Some(
                v@.map_values(|c: CharacteristicRecord| characteristic_view(c)),
            ),
            None => characteristic_list_of(answer@) is None,
        },
{
    let mut r = Reader::new(answer);
    let ghost r0 = r@;
    let count = match r.u32() {
        Some(n) => n,
        None => return None,
    };
    let ghost start = r@;
    let mut out: Vec<CharacteristicRecord> = Vec::new();
    let mut k: u32 = 0;
    while k < count
        invariant
            k <= count,
            r0 == start_of(answer@),
            read_u32_spec(r0).1 == Some(count),
            start == at(r0, read_u32_spec(r0).0),
            characteristics_from(start, count as nat) == in_front(
                out@.map_values(|c: CharacteristicRecord| characteristic_view(c)),
                characteristics_from(r@, (count - k) as nat),
            ),
        decreases count - k,
    {
        let ghost before = r@;
        let ghost done = out@.map_values(|c: CharacteristicRecord| characteristic_view(c));
        let pair = read_two(&mut r);
        let (key, uuid) = match pair {
            Some(p) => p,
            None => {
                assert(characteristic_item(before).1 is None);
                return None;
            },
        };
        let flags = match read_flags(&mut r, 9) {
            Some(f) => f,
            None => {
                assert(characteristic_item(before).1 is None);
                return None;
            },
        };
        let record = CharacteristicRecord { key, uuid, flags };
        assert(characteristic_item(before) == (r@.at, Some(characteristic_view(record))));
        assert(at(before, r@.at) == r@);
        out.push(record);
        assert(out@.map_values(|c: CharacteristicRecord| characteristic_view(c)) =~= done + seq![
            characteristic_view(record),
        ]);
        k = k + 1;
    }
    assert(out@.map_values(|c: CharacteristicRecord| characteristic_view(c)) + Seq::empty()
        =~= out@.map_values(|c: CharacteristicRecord| characteristic_view(c)));
    Some(out)
}

/// The descriptors an answer lists.
pub fn descriptor_list(answer: &[u8]) -> (out: Option<Vec<DescriptorRecord>>)
    ensures
        match out {
            Some(v) => descriptor_list_of(answer@) == Some(
                v@.map_values(|d: DescriptorRecord| descriptor_view(d)),
            ),
            None => descriptor_list_of(answer@) is None,
        },
{
    let mut r = Reader::new(answer);
    let ghost r0 = r@;
    let count = match r.u32() {
        Some(n) => n,
        None => return None,
    };
    let ghost start = r@;
    let mut out: Vec<DescriptorRecord> = Vec::new();
    let mut k: u32 = 0;
    while k < count
        invariant
            k <= count,
            r0 == start_of(answer@),
            read_u32_spec(r0).1 == Some(count),
            start == at(r0, read_u32_spec(r0).0),
            descriptors_from(start, count as nat) == in_front(
                out@.map_values(|d: DescriptorRecord| descriptor_view(d)),
                descriptors_from(r@, (count - k) as nat),
            ),
        decreases count - k,
    {
        let ghost before = r@;
        let ghost done = out@.map_values(|d: DescriptorRecord| descriptor_view(d));
        let (key, uuid) = match read_two(&mut r) {
            Some(p) => p,
            None => return None,
        };
        let record = DescriptorRecord { key, uuid };
        assert(two_strs(before) == (r@.at, Some(descriptor_view(record))));
        assert(at(before, r@.at) == r@);
        out.push(record);
        assert(out@.map_values(|d: DescriptorRecord| descriptor_view(d)) =~= done + seq![
            descriptor_view(record),
        ]);
        k = k + 1;
    }
    assert(out@.map_values(|d: DescriptorRecord| descriptor_view(d)) + Seq::empty()
        =~= out@.map_values(|d: DescriptorRecord| descriptor_view(d)));
    Some(out)
}

/// The value an answer to a read carries.
pub fn value_answer(answer: &[u8]) -> (out: Option<Vec<u8>>)
    ensures
        match out {
            Some(v) => read_bytes_spec(start_of(answer@)).1 == Some(v@),
            None => read_bytes_spec(start_of(answer@)).1 is None,
        },
{
    let mut r = Reader::new(answer);
    r.bytes()
}

} // verus!
