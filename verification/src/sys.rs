//! The Bluetooth socket family: device addresses, `AA:BB:CC:DD:EE:FF` as
//! written and least significant byte first on the wire; the L2CAP socket
//! address; and what a wait on a socket came to.

use vstd::prelude::*;
use crate::bytes::{push_u16_le, u16_le_bytes};
use crate::text::{address_text, colon_hex_upper, format_wire_address, hex_digit_upper, hex_pair_upper};

verus! {

pub const AF_BLUETOOTH: i32 = 31;
pub const SOCK_SEQPACKET: i32 = 5;
pub const SOCK_RAW: i32 = 3;
pub const BTPROTO_L2CAP: i32 = 0;
pub const BTPROTO_HCI: i32 = 1;
pub const BDADDR_LE_PUBLIC: u8 = 1;
pub const BDADDR_LE_RANDOM: u8 = 2;
pub const SHUT_RDWR: i32 = 2;
/// `EINTR`: a call interrupted by a signal, which is a retry, not a failure.
pub const EINTR: i32 = 4;

pub const POLLIN: i16 = 0x001;
pub const POLLOUT: i16 = 0x004;
pub const POLLERR: i16 = 0x008;
pub const POLLHUP: i16 = 0x010;

/// A string cut at every `:`, as `str::split(':')` cuts it: `n` colons give
/// `n + 1` parts, empty ones included.
pub open spec fn split_colons(s: Seq<char>) -> Seq<Seq<char>>
    decreases s.len(),
{
    if s.len() == 0 {
        seq![seq![]]
    } else {
        let r = split_colons(s.drop_last());
        if s.last() == ':' {
            r.push(seq![])
        } else {
            r.update(r.len() - 1, r.last().push(s.last()))
        }
    }
}

/// The value of one hexadecimal digit, either case.
pub open spec fn hex_digit_value(c: char) -> Option<nat> {
    if '0' <= c && c <= '9' {
        Some((c as nat - 48) as nat)
    } else if 'a' <= c && c <= 'f' {
        Some((c as nat - 87) as nat)
    } else if 'A' <= c && c <= 'F' {
        Some((c as nat - 55) as nat)
    } else {
        None
    }
}

/// The value of a run of hexadecimal digits, or `None` if one is not a digit.
pub open spec fn hex_digits_value(d: Seq<char>) -> Option<nat>
    decreases d.len(),
{
    if d.len() == 0 {
        Some(0)
    } else {
        match (hex_digits_value(d.drop_last()), hex_digit_value(d.last())) {
            (Some(a), Some(b)) => Some(a * 16 + b),
            _ => None,
        }
    }
}

/// `u8::from_str_radix(part, 16)`: an optional `+`, then at least one
/// hexadecimal digit, with a value that fits a byte.
pub open spec fn hex_byte(p: Seq<char>) -> Option<u8> {
    let digits = if p.len() > 0 && p[0] == '+' {
        p.drop_first()
    } else {
        p
    };
    if digits.len() == 0 {
        None
    } else {
        match hex_digits_value(digits) {
            Some(v) => if v < 256 {
                Some(v as u8)
            } else {
                None
            },
            None => None,
        }
    }
}

/// What `AA:BB:CC:DD:EE:FF` means in wire order: exactly six parts, each a
/// byte, the last part first.
pub open spec fn parse_address_spec(s: Seq<char>) -> Option<Seq<u8>> {
    let parts = split_colons(s);
    if parts.len() == 6 && forall|i: int| 0 <= i < 6 ==> #[trigger] hex_byte(parts[i]) is Some {
        Some(Seq::new(6, |j: int| hex_byte(parts[5 - j]).unwrap()))
    } else {
        None
    }
}

fn hex_value(c: char) -> (r: Option<u8>)
    ensures
        match r {
            Some(v) => hex_digit_value(c) == Some(v as nat) && v < 16,
            None => hex_digit_value(c) is None,
        },
{
    if '0' <= c && c <= '9' {
        Some((c as u32 - 48) as u8)
    } else if 'a' <= c && c <= 'f' {
        Some((c as u32 - 87) as u8)
    } else if 'A' <= c && c <= 'F' {
        Some((c as u32 - 55) as u8)
    } else {
        None
    }
}

/// `u8::from_str_radix(part, 16)`, on a part given as characters.
fn parse_hex_byte(p: &Vec<char>) -> (r: Option<u8>)
    ensures
        r == hex_byte(p@),
{
    let start: usize = if p.len() > 0 && p[0] == '+' {
        1
    } else {
        0
    };
    let ghost digits = p@.skip(start as int);
    assert(digits =~= if p@.len() > 0 && p@[0] == '+' {
        p@.drop_first()
    } else {
        p@
    });
    if p.len() == start {
        return None;
    }
    // The value so far, held at 256 once it no longer fits a byte.
    let mut value: u32 = 0;
    let mut k: usize = start;
    while k < p.len()
        invariant
            start <= k <= p@.len(),
            digits == p@.skip(start as int),
            digits == if p@.len() > 0 && p@[0] == '+' {
                p@.drop_first()
            } else {
                p@
            },
            value <= 256,
            match hex_digits_value(digits.take(k - start)) {
                Some(x) => (x <= 255 ==> value == x) && (x > 255 ==> value == 256),
                None => false,
            },
        decreases p@.len() - k,
    {
        match hex_value(p[k]) {
            None => {
                proof {
                    assert(digits.take(k + 1 - start).drop_last() =~= digits.take(k - start));
                    assert(digits.take(k + 1 - start).last() == p@[k as int]);
                    lemma_hex_digits_none_extends(digits, k + 1 - start);
                }
                return None;
            },
            Some(d) => {
                assert(digits.take(k + 1 - start).drop_last() =~= digits.take(k - start));
                assert(digits.take(k + 1 - start).last() == p@[k as int]);
                value = if value * 16 + d as u32 > 255 {
                    256
                } else {
                    value * 16 + d as u32
                };
                k = k + 1;
            },
        }
    }
    assert(digits.take(p@.len() - start) =~= digits);
    if value > 255 {
        None
    } else {
        Some(value as u8)
    }
}

/// A run of digits with a bad digit in its first `n` has no value.
proof fn lemma_hex_digits_none_extends(d: Seq<char>, n: int)
    requires
        0 < n <= d.len(),
        hex_digits_value(d.take(n)) is None,
    ensures
        hex_digits_value(d) is None,
    decreases d.len() - n,
{
    if n < d.len() {
        assert(d.take(n + 1).drop_last() =~= d.take(n));
        lemma_hex_digits_none_extends(d, n + 1);
    } else {
        assert(d.take(n) =~= d);
    }
}

/// Cut a string at every `:`.
fn split_at_colons(address: &str) -> (parts: Vec<Vec<char>>)
    ensures
        parts@.map_values(|p: Vec<char>| p@) == split_colons(address@),
{
    let n = address.unicode_len();
    let mut parts: Vec<Vec<char>> = Vec::new();
    let mut current: Vec<char> = Vec::new();
    let mut k: usize = 0;
    while k < n
        invariant
            k <= n == address@.len(),
            parts@.map_values(|p: Vec<char>| p@).push(current@) == split_colons(
                address@.take(k as int),
            ),
        decreases n - k,
    {
        let c = address.get_char(k);
        assert(address@.take(k + 1).drop_last() =~= address@.take(k as int));
        assert(address@.take(k + 1).last() == c);
        let ghost before = parts@.map_values(|p: Vec<char>| p@);
        if c == ':' {
            let done = current;
            parts.push(done);
            current = Vec::new();
            assert(parts@.map_values(|p: Vec<char>| p@).push(current@) =~= before.push(done@).push(
                seq![],
            ));
        } else {
            let ghost was = current@;
            current.push(c);
            assert(parts@.map_values(|p: Vec<char>| p@).push(current@) =~= before.push(was).update(
                before.len() as int,
                was.push(c),
            ));
        }
        k = k + 1;
    }
    assert(address@.take(n as int) =~= address@);
    let ghost before = parts@.map_values(|p: Vec<char>| p@);
    let last = current;
    parts.push(last);
    assert(parts@.map_values(|p: Vec<char>| p@) =~= before.push(last@));
    parts
}

/// Parse `AA:BB:CC:DD:EE:FF` into wire order.
///
/// A Bluetooth address goes on the wire least-significant byte first, so the
/// result is the written order reversed.
pub fn parse_address(address: &str) -> (r: Option<[u8; 6]>)
    ensures
        match r {
            Some(w) => parse_address_spec(address@) == Some(w@),
            None => parse_address_spec(address@) is None,
        },
{
    let parts = split_at_colons(address);
    let ghost views = parts@.map_values(|p: Vec<char>| p@);
    if parts.len() != 6 {
        return None;
    }
    let mut out: [u8; 6] = [0; 6];
    let mut i: usize = 0;
    while i < 6
        invariant
            parts@.len() == 6,
            views == split_colons(address@),
            views == parts@.map_values(|p: Vec<char>| p@),
            i <= 6,
            forall|j: int| 0 <= j < i ==> #[trigger] hex_byte(views[j]) is Some,
            forall|j: int| 0 <= j < i ==> out@[5 - j] == hex_byte(views[j]).unwrap(),
        decreases 6 - i,
    {
        assert(views[i as int] == parts@[i as int]@);
        match parse_hex_byte(&parts[i]) {
            None => {
                return None;
            },
            Some(b) => {
                out[5 - i] = b;
            },
        }
        i = i + 1;
    }
    assert(out@ =~= Seq::new(6, |j: int| hex_byte(views[5 - j]).unwrap()));
    Some(out)
}

/// Format a wire-order address as it is written.
pub fn format_address(wire: &[u8; 6]) -> (s: String)
    ensures
        s@ == address_text(wire@),
        s@.len() == 17,
{
    proof {
        lemma_formatted_length(wire@.reverse());
    }
    format_wire_address(wire)
}

/// The address type byte for an LE peer.
pub fn address_type(random: bool) -> (t: u8)
    ensures
        t == if random {
            BDADDR_LE_RANDOM
        } else {
            BDADDR_LE_PUBLIC
        },
{
    if random {
        BDADDR_LE_RANDOM
    } else {
        BDADDR_LE_PUBLIC
    }
}

// ── Laws ────────────────────────────────────────────────────────────────────

proof fn lemma_split_push_colon(s: Seq<char>)
    ensures
        split_colons(s.push(':')) == split_colons(s).push(seq![]),
{
    assert(s.push(':').drop_last() =~= s);
}

proof fn lemma_split_push_other(s: Seq<char>, c: char)
    requires
        c != ':',
    ensures
        ({
            let r = split_colons(s);
            split_colons(s.push(c)) == r.update(r.len() - 1, r.last().push(c))
        }),
{
    assert(s.push(c).drop_last() =~= s);
}

proof fn lemma_split_colons_nonempty(s: Seq<char>)
    ensures
        split_colons(s).len() >= 1,
    decreases s.len(),
{
    if s.len() > 0 {
        lemma_split_colons_nonempty(s.drop_last());
    }
}

/// Appending a colon and a hexadecimal pair appends the pair as a part.
proof fn lemma_split_appends_pair(s: Seq<char>, b: u8)
    ensures
        split_colons(s + seq![':'] + hex_pair_upper(b)) == split_colons(s).push(hex_pair_upper(b)),
{
    let h = hex_pair_upper(b);
    lemma_hex_digit_upper(b / 16);
    lemma_hex_digit_upper(b % 16);
    let t0 = s.push(':');
    let t1 = t0.push(h[0]);
    let t2 = t1.push(h[1]);
    assert(s + seq![':'] + h =~= t2);
    lemma_split_push_colon(s);
    lemma_split_push_other(t0, h[0]);
    lemma_split_push_other(t1, h[1]);
    let r = split_colons(s);
    assert(h =~= seq![h[0], h[1]]);
    assert(split_colons(t0) == r.push(seq![]));
    assert(split_colons(t1) =~= r.push(seq![h[0]]));
    let r1 = split_colons(t1);
    assert(r1.len() == r.len() + 1);
    assert(r1.last() == seq![h[0]]);
    assert(r1.last().push(h[1]) =~= seq![h[0], h[1]]);
    assert(split_colons(t2) == r1.update(r1.len() - 1, r1.last().push(h[1])));
    assert(r1.update(r1.len() - 1, seq![h[0], h[1]]) =~= r.push(seq![h[0], h[1]]));
}

/// An upper-case digit is never a colon, and reads back as its value.
proof fn lemma_hex_digit_upper(n: u8)
    requires
        n < 16,
    ensures
        hex_digit_upper(n) != ':',
        hex_digit_upper(n) != '+',
        hex_digit_value(hex_digit_upper(n)) == Some(n as nat),
{
}

/// Cutting formatted bytes at the colons gives one pair per byte.
proof fn lemma_split_formatted(b: Seq<u8>)
    requires
        b.len() >= 1,
    ensures
        split_colons(colon_hex_upper(b)) == b.map_values(|x: u8| hex_pair_upper(x)),
    decreases b.len(),
{
    if b.len() == 1 {
        let h = hex_pair_upper(b[0]);
        lemma_hex_digit_upper(b[0] / 16);
        lemma_hex_digit_upper(b[0] % 16);
        let e = Seq::<char>::empty();
        assert(h =~= e.push(h[0]).push(h[1]));
        lemma_split_push_other(e, h[0]);
        lemma_split_push_other(e.push(h[0]), h[1]);
        assert(split_colons(h) =~= seq![h]);
        assert(b.map_values(|x: u8| hex_pair_upper(x)) =~= seq![h]);
    } else {
        lemma_split_formatted(b.drop_last());
        lemma_split_appends_pair(colon_hex_upper(b.drop_last()), b.last());
        assert(b.map_values(|x: u8| hex_pair_upper(x)) =~= b.drop_last().map_values(
            |x: u8| hex_pair_upper(x),
        ).push(hex_pair_upper(b.last())));
    }
}

/// A pair of upper-case digits reads back as the byte it was made from.
proof fn lemma_pair_reads_back(x: u8)
    ensures
        hex_byte(hex_pair_upper(x)) == Some(x),
{
    let h = hex_pair_upper(x);
    lemma_hex_digit_upper(x / 16);
    lemma_hex_digit_upper(x % 16);
    let one = seq![h[0]];
    assert(one.drop_last() =~= Seq::<char>::empty());
    assert(one.last() == h[0]);
    assert(hex_digits_value(Seq::<char>::empty()) == Some(0nat));
    assert(hex_digit_value(h[0]) == Some((x / 16) as nat));
    assert(hex_digits_value(one) == Some((x / 16) as nat));
    assert(h.drop_last() =~= one);
    assert(hex_digits_value(h) == Some(((x / 16) * 16 + x % 16) as nat));
}

/// Parsing what was formatted gives the address back: every six wire bytes,
/// written out, parse to the same six bytes.
pub proof fn lemma_parse_inverts_format(wire: Seq<u8>)
    requires
        wire.len() == 6,
    ensures
        parse_address_spec(address_text(wire)) == Some(wire),
{
    let rev = wire.reverse();
    lemma_split_formatted(rev);
    let parts = split_colons(address_text(wire));
    assert(parts == rev.map_values(|x: u8| hex_pair_upper(x)));
    assert forall|i: int| 0 <= i < 6 implies #[trigger] hex_byte(parts[i]) == Some(rev[i]) by {
        lemma_pair_reads_back(rev[i]);
    }
    assert(Seq::new(6, |j: int| hex_byte(parts[5 - j]).unwrap()) =~= wire);
}

/// Formatted bytes take two digits each, with a colon between neighbours.
proof fn lemma_formatted_length(b: Seq<u8>)
    requires
        b.len() >= 1,
    ensures
        colon_hex_upper(b).len() == 3 * b.len() - 1,
    decreases b.len(),
{
    if b.len() > 1 {
        lemma_formatted_length(b.drop_last());
    }
}

/// An upper-case hexadecimal digit, as `format_address` writes them.
pub open spec fn upper_hex(c: char) -> bool {
    ('0' <= c && c <= '9') || ('A' <= c && c <= 'F')
}

/// `n` groups of two upper-case hexadecimal digits joined by colons.
pub open spec fn colon_groups(s: Seq<char>, n: nat) -> bool {
    &&& n >= 1
    &&& s.len() == 3 * n - 1
    &&& forall|i: int|
        0 <= i < s.len() ==> if i % 3 == 2 {
            #[trigger] s[i] == ':'
        } else {
            upper_hex(s[i])
        }
}

/// An address as `format_address` writes it: `AA:BB:CC:DD:EE:FF`.
pub open spec fn canonical_address(s: Seq<char>) -> bool {
    colon_groups(s, 6)
}

/// The byte two hexadecimal digits stand for.
pub open spec fn pair_value(hi: char, lo: char) -> u8 {
    (16 * hex_digit_value(hi).unwrap() + hex_digit_value(lo).unwrap()) as u8
}

/// The bytes the groups of `s` stand for, in written order.
pub open spec fn group_bytes(s: Seq<char>, n: nat) -> Seq<u8> {
    Seq::new(n, |k: int| pair_value(s[3 * k], s[3 * k + 1]))
}

/// An upper-case digit is written back as itself.
proof fn lemma_upper_digit_round_trip(c: char)
    requires
        upper_hex(c),
    ensures
        hex_digit_value(c) matches Some(v) && v < 16 && hex_digit_upper(v as u8) == c,
{
}

/// Two upper-case digits are written back as themselves.
proof fn lemma_pair_round_trip(hi: char, lo: char)
    requires
        upper_hex(hi),
        upper_hex(lo),
    ensures
        hex_pair_upper(pair_value(hi, lo)) == seq![hi, lo],
{
    lemma_upper_digit_round_trip(hi);
    lemma_upper_digit_round_trip(lo);
    let h = hex_digit_value(hi).unwrap();
    let l = hex_digit_value(lo).unwrap();
    let b = pair_value(hi, lo);
    assert(b == 16 * h + l);
    assert(b / 16 == h && b % 16 == l);
}

/// Colon-joined groups are the formatting of the bytes they stand for.
proof fn lemma_groups_are_formatted(s: Seq<char>, n: nat)
    requires
        colon_groups(s, n),
    ensures
        colon_hex_upper(group_bytes(s, n)) == s,
    decreases n,
{
    let b = group_bytes(s, n);
    assert(upper_hex(s[0])) by {
        assert(0int % 3 != 2);
    }
    assert(upper_hex(s[1])) by {
        assert(1int % 3 != 2);
    }
    if n == 1 {
        lemma_pair_round_trip(s[0], s[1]);
        assert(s =~= seq![s[0], s[1]]);
    } else {
        let m = (n - 1) as nat;
        let t = s.take(3 * m - 1);
        assert forall|i: int| 0 <= i < t.len() implies if i % 3 == 2 {
            #[trigger] t[i] == ':'
        } else {
            upper_hex(t[i])
        } by {
            assert(t[i] == s[i]);
            if i % 3 == 2 {
                assert(s[i] == ':');
            }
        }
        lemma_groups_are_formatted(t, m);
        assert(group_bytes(t, m) =~= b.drop_last());
        let j = 3 * m - 1;
        assert(j % 3 == 2);
        assert(s[j] == ':');
        assert((j + 1) % 3 == 0);
        assert((j + 2) % 3 == 1);
        assert(upper_hex(s[j + 1]));
        assert(upper_hex(s[j + 2]));
        assert(3 * m == j + 1);
        lemma_pair_round_trip(s[j + 1], s[j + 2]);
        assert(b.last() == pair_value(s[j + 1], s[j + 2]));
        assert(s =~= t + seq![':'] + seq![s[j + 1], s[j + 2]]);
    }
}

/// Formatting what was parsed gives the text back: an address written as
/// `format_address` writes them parses, and formats to the same text, of
/// seventeen characters.
pub proof fn lemma_format_inverts_parse(s: Seq<char>)
    requires
        canonical_address(s),
    ensures
        parse_address_spec(s) matches Some(w) && address_text(w) == s,
        s.len() == 17,
{
    let b = group_bytes(s, 6);
    lemma_groups_are_formatted(s, 6);
    let w = b.reverse();
    assert(w.reverse() =~= b);
    lemma_parse_inverts_format(w);
}

/// `struct sockaddr_l2`, field by field. The kernel wants it packed into
/// thirteen bytes with the numbers little-endian: see [`SockAddrL2::to_bytes`].
#[derive(Debug, Clone, Copy, PartialEq, Eq)]
pub struct SockAddrL2 {
    pub family: u16,
    pub psm: u16,
    pub bdaddr: [u8; 6],
    pub cid: u16,
    pub bdaddr_type: u8,
}

impl SockAddrL2 {
    /// The local side of an LE link, bound before connecting. Binding is how
    /// the socket is told it is an LE one: without it the kernel keeps a
    /// BR/EDR source and refuses an LE destination. The address is
    /// `BDADDR_ANY`, all zeroes, which leaves the adapter to the kernel.
    pub fn le_source(psm: u16, cid: u16) -> (a: Self)
        ensures
            a.family == AF_BLUETOOTH,
            a.psm == psm,
            a.bdaddr@ == seq![0u8, 0, 0, 0, 0, 0],
            a.cid == cid,
            a.bdaddr_type == BDADDR_LE_PUBLIC,
    {
        let a = SockAddrL2 {
            family: 31,
            psm,
            bdaddr: [0u8; 6],
            cid,
            bdaddr_type: BDADDR_LE_PUBLIC,
        };
        assert(a.bdaddr@ =~= seq![0u8, 0, 0, 0, 0, 0]);
        a
    }

    /// The kernel's layout: family, PSM, the six address bytes, CID and
    /// address type, packed with no padding, the numbers little-endian.
    pub open spec fn layout(self) -> Seq<u8> {
        u16_le_bytes(self.family) + u16_le_bytes(self.psm) + self.bdaddr@ + u16_le_bytes(self.cid)
            + seq![self.bdaddr_type]
    }

    /// The address as the thirteen bytes that `bind` and `connect` are given.
    pub fn to_bytes(&self) -> (b: Vec<u8>)
        ensures
            b@ == self.layout(),
            b@.len() == 13,
    {
        let mut b: Vec<u8> = Vec::new();
        push_u16_le(&mut b, self.family);
        push_u16_le(&mut b, self.psm);
        let mut i: usize = 0;
        while i < 6
            invariant
                0 <= i <= 6,
                b@ == u16_le_bytes(self.family) + u16_le_bytes(self.psm) + self.bdaddr@.subrange(
                    0,
                    i as int,
                ),
            decreases 6 - i,
        {
            b.push(self.bdaddr[i]);
            assert(self.bdaddr@.subrange(0, i + 1) =~= self.bdaddr@.subrange(0, i as int).push(
                self.bdaddr@[i as int],
            ));
            i = i + 1;
        }
        assert(self.bdaddr@.subrange(0, 6) =~= self.bdaddr@);
        push_u16_le(&mut b, self.cid);
        b.push(self.bdaddr_type);
        assert(b@ =~= self.layout());
        b
    }
}

/// Whether a descriptor became ready, timed out, or failed.
#[derive(Debug, PartialEq, Eq, Structural)]
pub enum Ready {
    Yes,
    TimedOut,
    /// The peer hung up or the socket errored.
    Closed,
}

/// What one `poll` on a single descriptor came to: `None` when the call
/// itself failed, and `errno` decides; otherwise a timeout when nothing was
/// ready, a closed socket when the kernel reported an error or a hang-up, and
/// readiness otherwise.
pub fn readiness(rc: i32, revents: i16) -> (r: Option<Ready>)
    ensures
        rc < 0 ==> r is None,
        rc == 0 ==> r == Some(Ready::TimedOut),
        rc > 0 && revents & (POLLERR | POLLHUP) != 0 ==> r == Some(Ready::Closed),
        rc > 0 && revents & (POLLERR | POLLHUP) == 0 ==> r == Some(Ready::Yes),
{
    if rc < 0 {
        None
    } else if rc == 0 {
        Some(Ready::TimedOut)
    } else if revents & (POLLERR | POLLHUP) != 0 {
        Some(Ready::Closed)
    } else {
        Some(Ready::Yes)
    }
}

/// Whether a failed wait is tried again: only when a signal interrupted it.
pub fn retry_wait(errno: i32) -> (again: bool)
    ensures
        again == (errno == EINTR),
{
    errno == EINTR
}

} // verus!
