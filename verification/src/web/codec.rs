//! The wire format between Rust and the page's shim.
//!
//! Little-endian `u32` for every number, and a length prefix before every
//! variable-length field:
//!
//! ```text
//! u8      a byte
//! u16     two bytes, little-endian
//! u32     four bytes, little-endian
//! bool    one byte, 0 or 1
//! bytes   u32 length, then that many bytes
//! str     bytes, valid UTF-8
//! option  bool present, then the value if present
//! list<T> u32 count, then that many T
//! ```

use vstd::prelude::*;
use vstd::slice::{slice_subrange, slice_to_vec};
use vstd::string::StringSliceAdditionalSpecFns;
use vstd::utf8::{decode_utf8, encode_utf8, valid_utf8};
use crate::bytes::{push_u16_le, push_u32_le, read_u16_le, read_u32_le, u16_le, u16_le_bytes, u32_le, u32_le_bytes};
use crate::dbus::codec::push_slice;
use crate::text::{lossy_string, utf8_lossy};

verus! {

// ── Writing ─────────────────────────────────────────────────────────────────

/// Builds a message.
pub struct Writer(Vec<u8>);

impl View for Writer {
    type V = Seq<u8>;

    closed spec fn view(&self) -> Seq<u8> {
        self.0@
    }
}

/// A byte string with its `u32` length in front.
pub open spec fn framed(v: Seq<u8>) -> Seq<u8> {
    u32_le_bytes(v.len() as u32) + v
}

/// An optional string: a presence flag, then the string if present.
pub open spec fn framed_option(v: Option<Seq<u8>>) -> Seq<u8> {
    match v {
        Some(s) => seq![1u8] + framed(s),
        None => seq![0u8],
    }
}

impl Writer {
    pub fn new() -> (w: Self)
        ensures
            w@ == Seq::<u8>::empty(),
    {
        Writer(Vec::new())
    }

    pub fn u8(&mut self, v: u8) -> (r: &mut Self)
        ensures
            r@ == old(self)@.push(v),
            *final(self) == *final(r),
    {
        self.0.push(v);
        self
    }

    pub fn u16(&mut self, v: u16) -> (r: &mut Self)
        ensures
            r@ == old(self)@ + u16_le_bytes(v),
            *final(self) == *final(r),
    {
        push_u16_le(&mut self.0, v);
        self
    }

    pub fn u32(&mut self, v: u32) -> (r: &mut Self)
        ensures
            r@ == old(self)@ + u32_le_bytes(v),
            *final(self) == *final(r),
    {
        push_u32_le(&mut self.0, v);
        self
    }

    pub fn bool(&mut self, v: bool) -> (r: &mut Self)
        ensures
            r@ == old(self)@.push(if v { 1u8 } else { 0u8 }),
            *final(self) == *final(r),
    {
        self.u8(if v { 1u8 } else { 0u8 })
    }

    /// A `u32` length, then the bytes. A length beyond `u32::MAX` cannot be
    /// written down and wraps, as the cast it is written with does.
    pub fn bytes(&mut self, v: &[u8]) -> (r: &mut Self)
        ensures
            r@ == old(self)@ + framed(v@),
            *final(self) == *final(r),
    {
        push_u32_le(&mut self.0, v.len() as u32);
        push_slice(&mut self.0, v);
        assert(self.0@ =~= old(self)@ + framed(v@));
        self
    }

    /// A string, as its UTF-8 bytes.
    pub fn str(&mut self, v: &str) -> (r: &mut Self)
        ensures
            r@ == old(self)@ + framed(v.spec_bytes()),
            *final(self) == *final(r),
    {
        self.bytes(v.as_bytes())
    }

    pub fn option_str(&mut self, v: Option<&str>) -> (r: &mut Self)
        ensures
            r@ == old(self)@ + framed_option(
                match v {
                    Some(s) => Some(s.spec_bytes()),
                    None => None,
                },
            ),
            *final(self) == *final(r),
    {
        match v {
            Some(s) => {
                self.0.push(1u8);
                push_u32_le(&mut self.0, s.as_bytes().len() as u32);
                push_slice(&mut self.0, s.as_bytes());
                assert(self.0@ =~= old(self)@ + framed_option(Some(s.spec_bytes())));
                self
            },
            None => self.bool(false),
        }
    }

    /// A `u32` count, then each item as `each` writes it, in order: the
    /// first item is written on what the writer held and the count, and the
    /// writer ends as the last item left it; with no items, it ends holding
    /// what it held and the count.
    pub fn list<T>(&mut self, items: &[T], mut each: impl FnMut(&mut Self, &T)) -> (r: &mut Self)
        requires
            forall|w: &mut Self, t: &T| call_requires(each, (w, t)),
        ensures
            *final(self) == *final(r),
            items@.len() == 0 ==> r@ == old(self)@ + u32_le_bytes(0),
            items@.len() > 0 ==> exists|w: &mut Self|
                #[trigger] call_ensures(each, (w, &items@[0]), ()) && mut_ref_current(w)@ == old(
                    self,
                )@ + u32_le_bytes(items@.len() as u32),
            items@.len() > 0 ==> exists|w: &mut Self|
                #[trigger] call_ensures(each, (w, &items@[items@.len() - 1]), ())
                    && mut_ref_future(w)@ == r@,
    {
        let ghost given = each;
        push_u32_le(&mut self.0, items.len() as u32);
        let ghost start = self@;
        let mut i: usize = 0;
        #[verifier::loop_isolation(false)]
        while i < items.len()
            invariant
                i <= items@.len(),
                each == given,
                i == 0 ==> self@ == start,
                i > 0 ==> exists|w: &mut Self|
                    #[trigger] call_ensures(given, (w, &items@[0]), ()) && mut_ref_current(w)@
                        == start,
                i > 0 ==> exists|w: &mut Self|
                    #[trigger] call_ensures(given, (w, &items@[i - 1]), ())
                        && mut_ref_future(w)@ == self@,
            decreases items@.len() - i,
        {
            let ghost before = self@;
            each(self, &items[i]);
            assert(exists|w: &mut Self|
                #[trigger] call_ensures(given, (w, &items@[i as int]), ()) && mut_ref_current(w)@
                    == before && mut_ref_future(w)@ == self@);
            let ghost done = i as int;
            i = i + 1;
            assert(items@[i - 1] == items@[done]);
        }
        self
    }

    /// The message so far, leaving the writer empty.
    pub fn finish(&mut self) -> (out: Vec<u8>)
        ensures
            out@ == old(self)@,
            final(self)@ == Seq::<u8>::empty(),
    {
        let mut out: Vec<u8> = Vec::new();
        std::mem::swap(&mut out, &mut self.0);
        out
    }
}

// ── Reading ─────────────────────────────────────────────────────────────────

/// Reads a message.
///
/// Every read is fallible and returns `None` past the end rather than
/// panicking: the bytes come from JavaScript, so a malformed message is
/// something to reject, not something to trust.
pub struct Reader<'a> {
    bytes: &'a [u8],
    at: usize,
}

/// What a reader holds: the message, and how much of it has been read.
pub struct ReaderState {
    pub bytes: Seq<u8>,
    pub at: int,
}

impl<'a> View for Reader<'a> {
    type V = ReaderState;

    closed spec fn view(&self) -> ReaderState {
        ReaderState { bytes: self.bytes@, at: self.at as int }
    }
}

/// Taking `n` bytes: where they start, and the position after them; or
/// nothing, with the position unchanged, when fewer than `n` are left.
pub open spec fn take_spec(r: ReaderState, n: int) -> (int, Option<int>) {
    if r.at + n <= r.bytes.len() {
        (r.at + n, Some(r.at))
    } else {
        (r.at, None)
    }
}

pub open spec fn at(r: ReaderState, pos: int) -> ReaderState {
    ReaderState { at: pos, ..r }
}

pub open spec fn read_u8_spec(r: ReaderState) -> (int, Option<u8>) {
    match take_spec(r, 1) {
        (p, Some(s)) => (p, Some(r.bytes[s])),
        (p, None) => (p, None),
    }
}

pub open spec fn read_u16_spec(r: ReaderState) -> (int, Option<u16>) {
    match take_spec(r, 2) {
        (p, Some(s)) => (p, Some(u16_le(r.bytes[s], r.bytes[s + 1]))),
        (p, None) => (p, None),
    }
}

pub open spec fn read_u32_spec(r: ReaderState) -> (int, Option<u32>) {
    match take_spec(r, 4) {
        (p, Some(s)) => (
            p,
            Some(u32_le(r.bytes[s], r.bytes[s + 1], r.bytes[s + 2], r.bytes[s + 3])),
        ),
        (p, None) => (p, None),
    }
}

/// A `u32` length, then that many bytes. A length that runs off the end
/// leaves the position after the length.
pub open spec fn read_bytes_spec(r: ReaderState) -> (int, Option<Seq<u8>>) {
    match read_u32_spec(r) {
        (p, None) => (p, None),
        (p, Some(n)) => match take_spec(at(r, p), n as int) {
            (q, Some(s)) => (q, Some(r.bytes.subrange(s, s + n))),
            (q, None) => (q, None),
        },
    }
}

/// As [`read_bytes_spec`], the bytes read as text with invalid sequences
/// replaced.
pub open spec fn read_str_spec(r: ReaderState) -> (int, Option<Seq<char>>) {
    match read_bytes_spec(r) {
        (p, Some(b)) => (p, Some(utf8_lossy(b))),
        (p, None) => (p, None),
    }
}

/// A presence flag, then a string if present.
pub open spec fn read_option_str_spec(r: ReaderState) -> (int, Option<Option<Seq<char>>>) {
    match read_u8_spec(r) {
        (p, None) => (p, None),
        (p, Some(flag)) => if flag != 0 {
            match read_str_spec(at(r, p)) {
                (q, Some(s)) => (q, Some(Some(s))),
                (q, None) => (q, None),
            }
        } else {
            (p, Some(None))
        },
    }
}

impl<'a> Reader<'a> {
    #[verifier::type_invariant]
    spec fn inv(self) -> bool {
        self.at <= self.bytes@.len()
    }

    pub fn new(bytes: &'a [u8]) -> (r: Self)
        ensures
            r@ == (ReaderState { bytes: bytes@, at: 0 }),
    {
        Reader { bytes, at: 0 }
    }

    fn take(&mut self, n: usize) -> (r: Option<usize>)
        ensures
            ({
                let (p, s) = take_spec(old(self)@, n as int);
                &&& final(self)@ == at(old(self)@, p)
                &&& match r {
                    Some(x) => s == Some(x as int) && x + n <= old(self)@.bytes.len(),
                    None => s is None,
                }
            }),
    {
        proof {
            use_type_invariant(&*self);
        }
        if n > self.bytes.len() - self.at {
            return None;
        }
        let start = self.at;
        self.at = self.at + n;
        Some(start)
    }

    pub fn u8(&mut self) -> (r: Option<u8>)
        ensures
            ({
                let (p, v) = read_u8_spec(old(self)@);
                final(self)@ == at(old(self)@, p) && r == v
            }),
    {
        match self.take(1) {
            Some(s) => Some(self.bytes[s]),
            None => None,
        }
    }

    pub fn u16(&mut self) -> (r: Option<u16>)
        ensures
            ({
                let (p, v) = read_u16_spec(old(self)@);
                final(self)@ == at(old(self)@, p) && r == v
            }),
    {
        match self.take(2) {
            Some(s) => Some(read_u16_le(self.bytes[s], self.bytes[s + 1])),
            None => None,
        }
    }

    pub fn u32(&mut self) -> (r: Option<u32>)
        ensures
            ({
                let (p, v) = read_u32_spec(old(self)@);
                final(self)@ == at(old(self)@, p) && r == v
            }),
    {
        match self.take(4) {
            Some(s) => {
                let b = self.bytes;
                Some(read_u32_le(b[s], b[s + 1], b[s + 2], b[s + 3]))
            },
            None => None,
        }
    }

    /// A `u32`, its bits read as a signed number.
    pub fn i32(&mut self) -> (r: Option<i32>)
        ensures
            ({
                let (p, v) = read_u32_spec(old(self)@);
                &&& final(self)@ == at(old(self)@, p)
                &&& match v {
                    Some(x) => r == Some(x as i32),
                    None => r is None,
                }
            }),
    {
        match self.u32() {
            Some(v) => Some(v as i32),
            None => None,
        }
    }

    pub fn bool(&mut self) -> (r: Option<bool>)
        ensures
            ({
                let (p, v) = read_u8_spec(old(self)@);
                &&& final(self)@ == at(old(self)@, p)
                &&& match v {
                    Some(x) => r == Some(x != 0),
                    None => r is None,
                }
            }),
    {
        match self.u8() {
            Some(b) => Some(b != 0),
            None => None,
        }
    }

    pub fn bytes(&mut self) -> (r: Option<Vec<u8>>)
        ensures
            ({
                let (p, v) = read_bytes_spec(old(self)@);
                &&& final(self)@ == at(old(self)@, p)
                &&& match r {
                    Some(x) => v == Some(x@),
                    None => v is None,
                }
            }),
    {
        let len = match self.u32() {
            Some(n) => n as usize,
            None => {
                return None;
            },
        };
        match self.take(len) {
            Some(s) => {
                let out = slice_to_vec(slice_subrange(self.bytes, s, s + len));
                Some(out)
            },
            None => None,
        }
    }

    /// A string. Lossy rather than failing: a name with a broken code unit in
    /// it is still a usable name.
    pub fn str(&mut self) -> (r: Option<String>)
        ensures
            ({
                let (p, v) = read_str_spec(old(self)@);
                &&& final(self)@ == at(old(self)@, p)
                &&& match r {
                    Some(x) => v == Some(x@),
                    None => v is None,
                }
            }),
            ({
                let (_, b) = read_bytes_spec(old(self)@);
                &&& b is Some <==> r is Some
                &&& (b matches Some(bytes) && valid_utf8(bytes)) ==> r.unwrap()@ == decode_utf8(
                    b.unwrap(),
                )
            }),
    {
        let len = match self.u32() {
            Some(n) => n as usize,
            None => {
                return None;
            },
        };
        match self.take(len) {
            Some(s) => Some(lossy_string(slice_subrange(self.bytes, s, s + len))),
            None => None,
        }
    }

    pub fn option_str(&mut self) -> (r: Option<Option<String>>)
        ensures
            ({
                let (p, v) = read_option_str_spec(old(self)@);
                &&& final(self)@ == at(old(self)@, p)
                &&& match r {
                    Some(Some(x)) => v == Some(Some(x@)),
                    Some(None) => v == Some(None::<Seq<char>>),
                    None => v is None,
                }
            }),
            ({
                let (p, _) = read_u8_spec(old(self)@);
                let (_, b) = read_bytes_spec(at(old(self)@, p));
                r matches Some(Some(x)) ==> (b matches Some(bytes) ==> (valid_utf8(bytes) ==> x@
                    == decode_utf8(bytes)))
            }),
    {
        match self.bool() {
            None => None,
            Some(true) => match self.str() {
                Some(s) => Some(Some(s)),
                None => None,
            },
            Some(false) => Some(None),
        }
    }

    /// A `u32` count, then that many items as `each` reads them. The count is
    /// not used to reserve: a corrupt message could claim four billion.
    ///
    /// With no count to read, nothing is read; with a count of none, the
    /// list is empty; otherwise `each` is first called on this reader just
    /// past the count, a `None` from that call ends the read with `None`,
    /// and otherwise it gave the first item. The list fails only where
    /// `each` fails, and the reader ends where reading the last item left it.
    pub fn list<T>(&mut self, mut each: impl FnMut(&mut Self) -> Option<T>) -> (r: Option<Vec<T>>)
        requires
            forall|rd: &mut Self| call_requires(each, (rd,)),
        ensures
            ({
                let (p, v) = read_u32_spec(old(self)@);
                &&& v is None ==> r is None && final(self)@ == old(self)@
                &&& r matches Some(items) ==> v == Some(items@.len() as u32)
                &&& v == Some(0u32) ==> (r matches Some(items) && items@.len() == 0 && final(self)@
                    == at(old(self)@, p))
                &&& (v matches Some(n) && n > 0) ==> exists|rd: &mut Self, x: Option<T>|
                    #[trigger] call_ensures(each, (rd,), x) && mut_ref_current(rd)@ == at(
                        old(self)@,
                        p,
                    ) && (x is None ==> r is None) && (r matches Some(items) ==> x == Some(
                        items@[0],
                    ))
                &&& (v is Some && r is None) ==> exists|rd: &mut Self|
                    #[trigger] call_ensures(each, (rd,), None::<T>)
                &&& r matches Some(items) ==> (items@.len() > 0 ==> exists|rd: &mut Self|
                    #[trigger] call_ensures(each, (rd,), Some(items@.last()))
                        && mut_ref_future(rd)@ == final(self)@)
            }),
    {
        let ghost given = each;
        let count = match self.u32() {
            Some(n) => n,
            None => {
                return None;
            },
        };
        let mut out: Vec<T> = Vec::new();
        if count == 0 {
            return Some(out);
        }
        let ghost start = self@;
        let ghost mut first: Option<T> = None;
        let mut k: u32 = 0;
        #[verifier::loop_isolation(false)]
        loop
            invariant
                k < count,
                k == 0 ==> self@ == start,
                k > 0 ==> exists|rd: &mut Self|
                    #[trigger] call_ensures(given, (rd,), first) && mut_ref_current(rd)@ == start,
                k > 0 ==> first == Some(out@[0]),
                out@.len() == k,
                read_u32_spec(old(self)@).1 == Some(count),
                forall|rd: &mut Self| call_requires(each, (rd,)),
                each == given,
            decreases count - k,
        {
            let ghost e0 = each;
            let ghost before = self@;
            let got = each(self);
            assert(exists|rd: &mut Self|
                #[trigger] call_ensures(given, (rd,), got) && mut_ref_current(rd)@ == before);
            proof {
                if k == 0 {
                    first = got;
                }
            }
            match got {
                Some(item) => {
                    let ghost g = item;
                    assert(each == e0);
                    assert(exists|rd: &mut Self|
                        #[trigger] call_ensures(e0, (rd,), Some(g)) && mut_ref_future(rd)@
                            == self@);
                    let ghost old_out = out@;
                    out.push(item);
                    assert(k > 0 ==> out@[0] == old_out[0]);
                    k = k + 1;
                    if k == count {
                        assert(out@.last() == g);
                        assert(e0 == given);
                        assert(exists|rd: &mut Self|
                            #[trigger] call_ensures(given, (rd,), Some(out@.last()))
                                && mut_ref_future(rd)@ == self@);
                        assert(exists|rd: &mut Self|
                            #[trigger] call_ensures(given, (rd,), first) && mut_ref_current(rd)@
                                == start);
                        return Some(out);
                    }
                },
                None => {
                    assert(each == e0);
                    assert(exists|rd: &mut Self| #[trigger] call_ensures(e0, (rd,), None::<T>));
                    assert(exists|rd: &mut Self|
                        #[trigger] call_ensures(given, (rd,), first) && mut_ref_current(rd)@
                            == start);
                    return None;
                },
            }
        }
    }

    /// Whether everything was consumed — a message with bytes left over did
    /// not mean what this reader thought it meant.
    pub fn is_empty(&self) -> (b: bool)
        ensures
            b == (self@.at == self@.bytes.len()),
    {
        self.at == self.bytes.len()
    }
}

// ── Laws ────────────────────────────────────────────────────────────────────

/// What the writer appends for each kind of value, a reader positioned at it
/// reads back: a byte, a `u16`, a flag, a string's bytes, which are valid
/// UTF-8 and decode to the string, and an optional string's flag and bytes.
pub proof fn lemma_values_read_back(prefix: Seq<u8>, rest: Seq<u8>, b: u8, h: u16, flag: bool, s: Seq<
    char,
>)
    requires
        encode_utf8(s).len() <= u32::MAX,
    ensures
        read_u8_spec(ReaderState { bytes: prefix.push(b) + rest, at: prefix.len() as int }) == (
            prefix.len() + 1int,
            Some(b),
        ),
        read_u16_spec(ReaderState { bytes: prefix + u16_le_bytes(h) + rest, at: prefix.len() as int })
            == (prefix.len() + 2int, Some(h)),
        read_u8_spec(
            ReaderState {
                bytes: prefix.push(if flag { 1u8 } else { 0u8 }) + rest,
                at: prefix.len() as int,
            },
        ).1 matches Some(x) && (x != 0) == flag,
        ({
            let (p, r) = read_bytes_spec(
                ReaderState { bytes: prefix + framed(encode_utf8(s)) + rest, at: prefix.len() as int },
            );
            &&& p == prefix.len() + 4 + encode_utf8(s).len()
            &&& r == Some(encode_utf8(s))
            &&& valid_utf8(encode_utf8(s))
            &&& decode_utf8(encode_utf8(s)) == s
        }),
        ({
            let (p, r) = read_option_str_spec(
                ReaderState {
                    bytes: prefix + framed_option(None) + rest,
                    at: prefix.len() as int,
                },
            );
            p == prefix.len() + 1 && r == Some(None::<Seq<char>>)
        }),
        ({
            let bytes = prefix + framed_option(Some(encode_utf8(s))) + rest;
            let (p, r) = read_u8_spec(ReaderState { bytes, at: prefix.len() as int });
            let (q, t) = read_bytes_spec(ReaderState { bytes, at: prefix.len() + 1int });
            &&& p == prefix.len() + 1 && r == Some(1u8)
            &&& q == prefix.len() + 5 + encode_utf8(s).len() && t == Some(encode_utf8(s))
        }),
{
    vstd::utf8::encode_utf8_valid_utf8(s);
    vstd::utf8::encode_utf8_decode_utf8(s);
    crate::bytes::lemma_u16_round_trip(h);
    let e = encode_utf8(s);
    lemma_frames_read_back(prefix, 0, e, rest);
    let m = prefix + u16_le_bytes(h) + rest;
    let n = prefix.len() as int;
    assert(m[n] == u16_le_bytes(h)[0] && m[n + 1] == u16_le_bytes(h)[1]);
    let ob = prefix + framed_option(Some(e)) + rest;
    assert(ob =~= prefix.push(1u8) + framed(e) + rest);
    lemma_frames_read_back(prefix.push(1u8), 0, e, rest);
    assert((prefix + framed_option(None) + rest)[n] == 0u8);
}

/// Whatever a writer appends, a reader positioned at it reads back: a `u32`,
/// then a byte string, then an optional string.
pub proof fn lemma_frames_read_back(prefix: Seq<u8>, v: u32, b: Seq<u8>, rest: Seq<u8>)
    requires
        b.len() <= u32::MAX,
    ensures
        ({
            let (p, r) = read_u32_spec(
                ReaderState { bytes: prefix + u32_le_bytes(v) + rest, at: prefix.len() as int },
            );
            p == prefix.len() + 4 && r == Some(v)
        }),
        ({
            let (p, r) = read_bytes_spec(
                ReaderState { bytes: prefix + framed(b) + rest, at: prefix.len() as int },
            );
            p == prefix.len() + 4 + b.len() && r == Some(b)
        }),
{
    crate::bytes::lemma_u32_round_trip(v);
    crate::bytes::lemma_u32_round_trip(b.len() as u32);
    let m = prefix + u32_le_bytes(v) + rest;
    let n = prefix.len() as int;
    assert(m[n] == u32_le_bytes(v)[0] && m[n + 1] == u32_le_bytes(v)[1] && m[n + 2] == u32_le_bytes(v)[2]
        && m[n + 3] == u32_le_bytes(v)[3]);
    let m2 = prefix + framed(b) + rest;
    let l = u32_le_bytes(b.len() as u32);
    assert(m2[n] == l[0] && m2[n + 1] == l[1] && m2[n + 2] == l[2] && m2[n + 3] == l[3]);
    assert(m2.subrange(n + 4, n + 4 + b.len()) =~= b);
}

} // verus!
