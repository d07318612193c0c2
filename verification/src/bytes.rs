//! Fixed-width integers as bytes, in both byte orders.

use vstd::prelude::*;

verus! {

/// Two bytes, least significant first, as a `u16`.
pub open spec fn u16_le(lo: u8, hi: u8) -> u16 {
    (lo + 256 * hi) as u16
}

/// A `u16` as two bytes, least significant first.
pub open spec fn u16_le_bytes(v: u16) -> Seq<u8> {
    seq![(v % 256) as u8, (v / 256) as u8]
}

/// Four bytes, least significant first, as a `u32`.
pub open spec fn u32_le(b0: u8, b1: u8, b2: u8, b3: u8) -> u32 {
    (b0 + 0x100 * b1 + 0x10000 * b2 + 0x1000000 * b3) as u32
}

/// A `u32` as four bytes, least significant first.
pub open spec fn u32_le_bytes(v: u32) -> Seq<u8> {
    seq![
        (v % 0x100) as u8,
        ((v / 0x100) % 0x100) as u8,
        ((v / 0x10000) % 0x100) as u8,
        (v / 0x1000000) as u8,
    ]
}

/// Eight bytes, least significant first, as a `u64`.
pub open spec fn u64_le(b: Seq<u8>) -> u64 {
    (b[0] + 0x100 * b[1] + 0x10000 * b[2] + 0x1000000 * b[3] + 0x100000000 * b[4]
        + 0x10000000000 * b[5] + 0x1000000000000 * b[6] + 0x100000000000000 * b[7]) as u64
}

/// A `u64` as eight bytes, least significant first.
pub open spec fn u64_le_bytes(v: u64) -> Seq<u8> {
    seq![
        (v % 0x100) as u8,
        ((v / 0x100) % 0x100) as u8,
        ((v / 0x10000) % 0x100) as u8,
        ((v / 0x1000000) % 0x100) as u8,
        ((v / 0x100000000) % 0x100) as u8,
        ((v / 0x10000000000) % 0x100) as u8,
        ((v / 0x1000000000000) % 0x100) as u8,
        (v / 0x100000000000000) as u8,
    ]
}

pub fn read_u16_le(lo: u8, hi: u8) -> (v: u16)
    ensures
        v == u16_le(lo, hi),
{
    lo as u16 + (hi as u16) * 256
}

pub fn read_u32_le(b0: u8, b1: u8, b2: u8, b3: u8) -> (v: u32)
    ensures
        v == u32_le(b0, b1, b2, b3),
{
    b0 as u32 + (b1 as u32) * 0x100 + (b2 as u32) * 0x10000 + (b3 as u32) * 0x1000000
}

/// Eight bytes of `b` from `at`, least significant first.
pub fn read_u64_le(b: &[u8], at: usize) -> (v: u64)
    requires
        at + 8 <= b@.len(),
    ensures
        v == u64_le(b@.subrange(at as int, at + 8)),
{
    let ghost s = b@.subrange(at as int, at + 8);
    assert(s[0] == b@[at as int] && s[1] == b@[at + 1] && s[2] == b@[at + 2] && s[3] == b@[at
        + 3] && s[4] == b@[at + 4] && s[5] == b@[at + 5] && s[6] == b@[at + 6] && s[7] == b@[at
        + 7]);
    b[at] as u64 + (b[at + 1] as u64) * 0x100 + (b[at + 2] as u64) * 0x10000 + (b[at + 3] as u64)
        * 0x1000000 + (b[at + 4] as u64) * 0x100000000 + (b[at + 5] as u64) * 0x10000000000 + (b[at
        + 6] as u64) * 0x1000000000000 + (b[at + 7] as u64) * 0x100000000000000
}

/// Append a `u16`, least significant byte first.
pub fn push_u16_le(out: &mut Vec<u8>, v: u16)
    ensures
        final(out)@ == old(out)@ + u16_le_bytes(v),
{
    out.push((v % 256) as u8);
    out.push((v / 256) as u8);
    assert(final(out)@ =~= old(out)@ + u16_le_bytes(v));
}

/// Append a `u32`, least significant byte first.
pub fn push_u32_le(out: &mut Vec<u8>, v: u32)
    ensures
        final(out)@ == old(out)@ + u32_le_bytes(v),
{
    out.push((v % 0x100) as u8);
    out.push(((v / 0x100) % 0x100) as u8);
    out.push(((v / 0x10000) % 0x100) as u8);
    out.push((v / 0x1000000) as u8);
    assert(final(out)@ =~= old(out)@ + u32_le_bytes(v));
}

/// Append a `u64`, least significant byte first.
pub fn push_u64_le(out: &mut Vec<u8>, v: u64)
    ensures
        final(out)@ == old(out)@ + u64_le_bytes(v),
{
    out.push((v % 0x100) as u8);
    out.push(((v / 0x100) % 0x100) as u8);
    out.push(((v / 0x10000) % 0x100) as u8);
    out.push(((v / 0x1000000) % 0x100) as u8);
    out.push(((v / 0x100000000) % 0x100) as u8);
    out.push(((v / 0x10000000000) % 0x100) as u8);
    out.push(((v / 0x1000000000000) % 0x100) as u8);
    out.push((v / 0x100000000000000) as u8);
    assert(final(out)@ =~= old(out)@ + u64_le_bytes(v));
}

/// Reading back what was written gives the value that was written.
pub proof fn lemma_u16_round_trip(v: u16)
    ensures
        u16_le(u16_le_bytes(v)[0], u16_le_bytes(v)[1]) == v,
{
}

/// Reading back what was written gives the value that was written.
pub proof fn lemma_u32_round_trip(v: u32)
    ensures
        ({
            let b = u32_le_bytes(v);
            u32_le(b[0], b[1], b[2], b[3]) == v
        }),
{
}

/// Reading back what was written gives the value that was written.
pub proof fn lemma_u64_round_trip(v: u64)
    ensures
        u64_le(u64_le_bytes(v)) == v,
{
    let b = u64_le_bytes(v);
    let x0: u64 = v % 0x100;
    let x1: u64 = (v / 0x100) % 0x100;
    let x2: u64 = (v / 0x10000) % 0x100;
    let x3: u64 = (v / 0x1000000) % 0x100;
    let x4: u64 = (v / 0x100000000) % 0x100;
    let x5: u64 = (v / 0x10000000000) % 0x100;
    let x6: u64 = (v / 0x1000000000000) % 0x100;
    let x7: u64 = v / 0x100000000000000;
    assert(x0 + 0x100 * x1 + 0x10000 * x2 + 0x1000000 * x3 + 0x100000000 * x4 + 0x10000000000 * x5
        + 0x1000000000000 * x6 + 0x100000000000000 * x7 == v) by (bit_vector)
        requires
            x0 == v % 0x100,
            x1 == (v / 0x100) % 0x100,
            x2 == (v / 0x10000) % 0x100,
            x3 == (v / 0x1000000) % 0x100,
            x4 == (v / 0x100000000) % 0x100,
            x5 == (v / 0x10000000000) % 0x100,
            x6 == (v / 0x1000000000000) % 0x100,
            x7 == v / 0x100000000000000,
    ;
    assert(b[0] == x0 && b[1] == x1 && b[2] == x2 && b[3] == x3 && b[4] == x4 && b[5] == x5
        && b[6] == x6 && b[7] == x7);
}

} // verus!
