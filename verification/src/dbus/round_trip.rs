//! Why decoding what the encoder wrote gives the value back.
//!
//! Every value the encoder can write faithfully reads back unchanged when the
//! decoder is started where the value begins, with the value's own signature,
//! whatever bytes lie before and after: the bytes carry no type tags, so the
//! signature is what makes the round trip possible.

use vstd::prelude::*;
use vstd::utf8::{
    encode_utf8, encode_utf8_decode_utf8, encode_utf8_valid_utf8, is_ascii_chars,
    is_ascii_chars_encode_utf8,
};
use crate::bytes::{
    lemma_u16_round_trip, lemma_u32_round_trip, lemma_u64_round_trip, u16_le_bytes, u32_le_bytes,
    u64_le_bytes,
};
use crate::dbus::codec::{
    align_step, aligned_to, at_pos, backfilled, decode_elements, decode_fields, decode_value,
    element_alignment, encode_value, encode_values, fixed_step, lemma_encoding_extends,
    lemma_encodings_extend, padded, padding, read_signature, read_signature_bytes, read_string,
    read_u16, read_u32, read_u64, signature_bytes, string_bytes, CodecErrorView,
    DecoderState,
};
use crate::dbus::signature::{complete_list, complete_pair, complete_type, lemma_complete_type};
use crate::dbus::value::{signature_of, signatures_of, type_len, ValueView};

verus! {

/// The bytes of a value's signature.
pub open spec fn sig_bytes(v: ValueView) -> Seq<u8> {
    encode_utf8(signature_of(v))
}

/// Values the codec carries faithfully: text short enough for its length
/// field, arrays whose element type is a complete type that every item has
/// and whose items each write at least one byte, and variants whose
/// signature fits its length byte.
pub open spec fn carried(v: ValueView) -> bool
    decreases v,
{
    match v {
        ValueView::Str(s) => encode_utf8(s).len() <= u32::MAX,
        ValueView::ObjectPath(s) => encode_utf8(s).len() <= u32::MAX,
        ValueView::Signature(s) => encode_utf8(s).len() <= 255,
        ValueView::Array { element, items } => complete_type(encode_utf8(element)) && items_carried(
            items,
            element,
        ),
        ValueView::Struct(fields) => fields_carried(fields),
        ValueView::Variant(inner) => carried(*inner) && sig_bytes(*inner).len() <= 255,
        ValueView::DictEntry(k, x) => carried(*k) && carried(*x),
        _ => true,
    }
}

/// Every item carried, with the array's element type as its signature.
pub open spec fn items_carried(items: Seq<ValueView>, element: Seq<char>) -> bool
    decreases items,
{
    if items.len() == 0 {
        true
    } else {
        items_carried(items.drop_last(), element) && signature_of(items.last()) == element
            && carried(items.last()) && !hollow(items.last())
    }
}

/// Values that write nothing when they start at a multiple of eight:
/// structures, and dictionary entries, made only of such values.
pub open spec fn hollow(v: ValueView) -> bool
    decreases v,
{
    match v {
        ValueView::Struct(fields) => all_hollow(fields),
        ValueView::DictEntry(k, x) => hollow(*k) && hollow(*x),
        _ => false,
    }
}

/// Every value hollow.
pub open spec fn all_hollow(vs: Seq<ValueView>) -> bool
    decreases vs,
{
    if vs.len() == 0 {
        true
    } else {
        all_hollow(vs.drop_last()) && hollow(vs.last())
    }
}

/// Every field carried.
pub open spec fn fields_carried(fields: Seq<ValueView>) -> bool
    decreases fields,
{
    if fields.len() == 0 {
        true
    } else {
        fields_carried(fields.drop_last()) && carried(fields.last())
    }
}

// ── Text ────────────────────────────────────────────────────────────────────

pub(crate) proof fn lemma_encode_concat(a: Seq<char>, b: Seq<char>)
    ensures
        encode_utf8(a + b) == encode_utf8(a) + encode_utf8(b),
    decreases a.len(),
{
    if a.len() == 0 {
        assert(a + b =~= b);
    } else {
        assert((a + b).drop_first() =~= a.drop_first() + b);
        assert((a + b)[0] == a[0]);
        lemma_encode_concat(a.drop_first(), b);
    }
}

/// One ASCII character encodes as its own byte.
pub(crate) proof fn lemma_encode_ascii(c: char)
    requires
        (c as u32) < 128,
    ensures
        encode_utf8(seq![c]) == seq![c as u8],
{
    assert(is_ascii_chars(seq![c]));
    is_ascii_chars_encode_utf8(seq![c]);
    assert(encode_utf8(seq![c]) =~= seq![c as u8]);
}

/// The signatures of a first value and the rest.
pub(crate) proof fn lemma_signatures_front(vs: Seq<ValueView>)
    requires
        vs.len() > 0,
    ensures
        signatures_of(vs) == signature_of(vs[0]) + signatures_of(vs.drop_first()),
    decreases vs.len(),
{
    if vs.len() == 1 {
        assert(vs.drop_first() =~= Seq::<ValueView>::empty());
        assert(vs.drop_last() =~= Seq::<ValueView>::empty());
        assert(signatures_of(vs) =~= signature_of(vs[0]) + signatures_of(vs.drop_first()));
    } else {
        lemma_signatures_front(vs.drop_last());
        assert(vs.drop_last().drop_first() =~= vs.drop_first().drop_last());
        assert(vs.drop_first().last() == vs.last());
        assert(vs.drop_last()[0] == vs[0]);
    }
}

/// Carried items and fields, taken from the front.
pub(crate) proof fn lemma_items_front(items: Seq<ValueView>, element: Seq<char>)
    requires
        items.len() > 0,
        items_carried(items, element),
    ensures
        signature_of(items[0]) == element,
        carried(items[0]),
        !hollow(items[0]),
        items_carried(items.drop_first(), element),
    decreases items.len(),
{
    if items.len() > 1 {
        lemma_items_front(items.drop_last(), element);
        assert(items.drop_first().drop_last() =~= items.drop_last().drop_first());
        assert(items.drop_first().last() == items.last());
    } else {
        assert(items.drop_first() =~= Seq::<ValueView>::empty());
    }
}

pub(crate) proof fn lemma_fields_front(fields: Seq<ValueView>)
    requires
        fields.len() > 0,
        fields_carried(fields),
    ensures
        carried(fields[0]),
        fields_carried(fields.drop_first()),
    decreases fields.len(),
{
    if fields.len() > 1 {
        lemma_fields_front(fields.drop_last());
        assert(fields.drop_first().drop_last() =~= fields.drop_last().drop_first());
        assert(fields.drop_first().last() == fields.last());
    } else {
        assert(fields.drop_first() =~= Seq::<ValueView>::empty());
    }
}

// ── Signatures ──────────────────────────────────────────────────────────────

/// A complete list followed by a complete type is a complete list.
proof fn lemma_complete_list_append(a: Seq<u8>, b: Seq<u8>)
    requires
        complete_list(a),
        complete_type(b),
    ensures
        complete_list(a + b),
    decreases a.len(),
{
    lemma_complete_type(b);
    if a.len() == 0 {
        assert(a + b =~= b);
        assert(b + Seq::<u8>::empty() =~= b);
        assert(type_len(b + Seq::<u8>::empty()) == Some(b.len()));
        assert(type_len(b) == Some(b.len()));
        assert(b.take(b.len() as int) =~= b);
        assert(b.skip(b.len() as int) =~= Seq::<u8>::empty());
        assert(complete_list(Seq::<u8>::empty()));
        assert(complete_list(b));
    } else {
        let n = type_len(a).unwrap() as int;
        assert(0 < n <= a.len());
        let head = a.take(n);
        assert(complete_type(head));
        assert(complete_list(a.skip(n)));
        lemma_complete_type(head);
        assert(a + b =~= head + (a.skip(n) + b));
        assert(type_len(head + (a.skip(n) + b)) == Some(head.len()));
        assert(type_len(a + b) == Some(n as nat));
        lemma_complete_list_append(a.skip(n), b);
        assert((a + b).take(n) =~= head);
        assert((a + b).skip(n) =~= a.skip(n) + b);
        assert(complete_list(a + b));
    }
}

/// The signature of any carried value names one complete type, and the
/// signatures of carried fields are complete types one after another.
pub proof fn lemma_signature_complete(v: ValueView)
    requires
        carried(v),
    ensures
        complete_type(sig_bytes(v)),
    decreases v, 1int,
{
    match v {
        ValueView::Array { element, items } => {
            lemma_encode_ascii('a');
            lemma_encode_concat(seq!['a'], element);
            let s = sig_bytes(v);
            assert(s =~= seq![0x61u8] + encode_utf8(element));
            assert(s.skip(1) =~= encode_utf8(element));
        },
        ValueView::Struct(fields) => {
            lemma_fields_complete(fields);
            let inner = encode_utf8(signatures_of(fields));
            lemma_encode_ascii('(');
            lemma_encode_ascii(')');
            lemma_encode_concat(seq!['('], signatures_of(fields));
            lemma_encode_concat(seq!['('] + signatures_of(fields), seq![')']);
            let s = sig_bytes(v);
            assert(s =~= seq![0x28u8] + inner + seq![0x29u8]);
            assert(s.subrange(1, s.len() - 1) =~= inner);
        },
        ValueView::DictEntry(k, x) => {
            lemma_signature_complete(*k);
            lemma_signature_complete(*x);
            lemma_complete_type(sig_bytes(*k));
            let sk = sig_bytes(*k);
            let sx = sig_bytes(*x);
            lemma_encode_ascii('{');
            lemma_encode_ascii('}');
            lemma_encode_concat(seq!['{'], signature_of(*k));
            lemma_encode_concat(seq!['{'] + signature_of(*k), signature_of(*x));
            lemma_encode_concat(seq!['{'] + signature_of(*k) + signature_of(*x), seq!['}']);
            let s = sig_bytes(v);
            assert(s =~= seq![0x7Bu8] + sk + sx + seq![0x7Du8]);
            let inner = s.subrange(1, s.len() - 1);
            assert(inner =~= sk + sx);
            assert(type_len(sk + sx) == Some(sk.len()));
            assert(inner.take(sk.len() as int) =~= sk);
            assert(inner.skip(sk.len() as int) =~= sx);
            assert(complete_pair(inner));
        },
        _ => {
            let c = signature_of(v)[0];
            assert(signature_of(v) =~= seq![c]);
            lemma_encode_ascii(c);
        },
    }
}

/// The signatures of carried fields are complete types one after another.
pub proof fn lemma_fields_complete(fields: Seq<ValueView>)
    requires
        fields_carried(fields),
    ensures
        complete_list(encode_utf8(signatures_of(fields))),
    decreases fields, 0int,
{
    if fields.len() == 0 {
        assert(encode_utf8(signatures_of(fields)) =~= Seq::<u8>::empty());
    } else {
        lemma_fields_complete(fields.drop_last());
        lemma_signature_complete(fields.last());
        lemma_encode_concat(signatures_of(fields.drop_last()), signature_of(fields.last()));
        lemma_complete_list_append(
            encode_utf8(signatures_of(fields.drop_last())),
            sig_bytes(fields.last()),
        );
    }
}

// ── Encodings ───────────────────────────────────────────────────────────────

/// Writing several values is writing the first, then the rest.
pub(crate) proof fn lemma_encode_values_front(b: Seq<u8>, vs: Seq<ValueView>)
    requires
        vs.len() > 0,
    ensures
        encode_values(b, vs) == encode_values(encode_value(b, vs[0]), vs.drop_first()),
    decreases vs.len(),
{
    let first = encode_value(b, vs[0]);
    if vs.len() == 1 {
        assert(vs.drop_last() =~= Seq::<ValueView>::empty());
        assert(vs.drop_first() =~= Seq::<ValueView>::empty());
        assert(encode_values(b, vs.drop_last()) == b);
        assert(encode_values(first, vs.drop_first()) == first);
    } else {
        let init = vs.drop_last();
        lemma_encode_values_front(b, init);
        assert(init.drop_first() =~= vs.drop_first().drop_last());
        assert(vs.drop_first().last() == vs.last());
        assert(init[0] == vs[0]);
        assert(encode_values(b, init) == encode_values(first, vs.drop_first().drop_last()));
        assert(encode_values(first, vs.drop_first()) == encode_value(
            encode_values(first, vs.drop_first().drop_last()),
            vs.drop_first().last(),
        ));
    }
}

pub(crate) proof fn lemma_padded_len(b: Seq<u8>, n: int)
    ensures
        padded(b, n).len() == b.len() + padding(b.len() as int, n),
        padding(b.len() as int, n) >= 0,
        n > 0 ==> (b.len() + padding(b.len() as int, n)) % n == 0,
        n > 0 && aligned_to(b.len() as int, n) ==> padding(b.len() as int, n) == 0,
{
    if n > 0 {
        let l = b.len() as int;
        if l % n != 0 {
            assert((l + (n - l % n)) % n == 0) by (nonlinear_arith)
                requires
                    n > 0,
                    l >= 0,
            ;
        }
    }
}

/// A value that is not hollow is never written as nothing.
pub proof fn lemma_encoding_grows(b: Seq<u8>, v: ValueView)
    requires
        !hollow(v),
    ensures
        encode_value(b, v).len() > b.len(),
    decreases v, 1int,
{
    lemma_padded_len(b, 2);
    lemma_padded_len(b, 4);
    lemma_padded_len(b, 8);
    lemma_encoding_extends(b, v);
    match v {
        ValueView::Array { element, items } => {
            let b1 = padded(b, 4);
            let b2 = b1 + u32_le_bytes(0);
            let b3 = padded(b2, element_alignment(element));
            lemma_padded_len(b2, element_alignment(element));
            lemma_encodings_extend(b3, items);
        },
        ValueView::Struct(fields) => {
            lemma_values_grow(padded(b, 8), fields);
        },
        ValueView::DictEntry(k, x) => {
            let pb = padded(b, 8);
            lemma_encoding_extends(pb, *k);
            lemma_encoding_extends(encode_value(pb, *k), *x);
            if !hollow(*k) {
                lemma_encoding_grows(pb, *k);
            } else {
                lemma_encoding_grows(encode_value(pb, *k), *x);
            }
        },
        ValueView::Variant(inner) => {
            lemma_encoding_extends(signature_bytes(b, signature_of(*inner)), *inner);
        },
        _ => {},
    }
}

proof fn lemma_values_grow(b: Seq<u8>, fields: Seq<ValueView>)
    requires
        !all_hollow(fields),
    ensures
        encode_values(b, fields).len() > b.len(),
    decreases fields, 0int,
{
    let init = fields.drop_last();
    lemma_encodings_extend(b, init);
    if hollow(fields.last()) {
        lemma_values_grow(b, init);
        lemma_encoding_extends(encode_values(b, init), fields.last());
    } else {
        lemma_encoding_grows(encode_values(b, init), fields.last());
    }
}

// ── Reading what was written ────────────────────────────────────────────────

/// A little-endian decoder over `buf` at `pos`.
pub open spec fn reader(buf: Seq<u8>, pos: int) -> DecoderState {
    DecoderState { buf, pos, little_endian: true }
}

/// `buf` holds the bytes of `e` from `from` to the end of `e`; what lies
/// before `from` is not looked at.
pub open spec fn agrees(buf: Seq<u8>, e: Seq<u8>, from: int) -> bool {
    &&& 0 <= from <= e.len() <= buf.len()
    &&& forall|i: int| from <= i < e.len() ==> #[trigger] buf[i] == e[i]
}

/// Agreement with a longer writing is agreement with each of its prefixes.
pub(crate) proof fn lemma_agrees_prefix(buf: Seq<u8>, e: Seq<u8>, from: int, e2: Seq<u8>, from2: int)
    requires
        agrees(buf, e, from),
        e2.len() <= e.len(),
        e.subrange(0, e2.len() as int) == e2,
        from <= from2 <= e2.len(),
    ensures
        agrees(buf, e2, from2),
{
    assert forall|i: int| from2 <= i < e2.len() implies #[trigger] buf[i] == e2[i] by {
        assert(e2[i] == e.subrange(0, e2.len() as int)[i]);
        assert(buf[i] == e[i]);
    }
}

/// The bytes `w` written at `at` are found there.
pub(crate) proof fn lemma_agrees_bytes(buf: Seq<u8>, e: Seq<u8>, from: int, at: int, w: Seq<u8>)
    requires
        agrees(buf, e, from),
        from <= at,
        at + w.len() <= e.len(),
        e.subrange(at, at + w.len()) == w,
    ensures
        buf.subrange(at, at + w.len()) == w,
{
    assert forall|k: int| 0 <= k < w.len() implies #[trigger] buf.subrange(at, at + w.len())[k]
        == w[k] by {
        assert(buf[at + k] == e[at + k]);
        assert(w[k] == e.subrange(at, at + w.len())[k]);
    }
    assert(buf.subrange(at, at + w.len()) =~= w);
}

/// Skipping padding from where `c` ends lands where the padded `c` ends.
proof fn lemma_align_read(len: int, c: Seq<u8>, n: int)
    requires
        n == 1 || n == 2 || n == 4 || n == 8,
        padded(c, n).len() <= len,
    ensures
        align_step(len, c.len() as int, n) == (padded(c, n).len() as int, Ok::<(), CodecErrorView>(())),
{
    lemma_padded_len(c, n);
}

/// A fixed-width number is looked for where it was written.
proof fn lemma_fixed_read(len: int, c: Seq<u8>, n: int)
    requires
        n == 2 || n == 4 || n == 8,
        padded(c, n).len() + n <= len,
    ensures
        fixed_step(len, c.len() as int, n) == (
            padded(c, n).len() as int + n,
            Ok::<int, CodecErrorView>(padded(c, n).len() as int),
        ),
{
    lemma_align_read(len, c, n);
}

proof fn lemma_u16_read(buf: Seq<u8>, c: Seq<u8>, v: u16)
    requires
        padded(c, 2).len() + 2 <= buf.len(),
        buf.subrange(padded(c, 2).len() as int, padded(c, 2).len() + 2int) == u16_le_bytes(v),
    ensures
        read_u16(reader(buf, c.len() as int)) == (padded(c, 2).len() + 2int, Ok::<u16, CodecErrorView>(v)),
{
    let at = padded(c, 2).len() as int;
    lemma_fixed_read(buf.len() as int, c, 2);
    lemma_u16_round_trip(v);
    assert(buf[at] == buf.subrange(at, at + 2)[0]);
    assert(buf[at + 1] == buf.subrange(at, at + 2)[1]);
}

pub(crate) proof fn lemma_u32_read(buf: Seq<u8>, c: Seq<u8>, v: u32)
    requires
        padded(c, 4).len() + 4 <= buf.len(),
        buf.subrange(padded(c, 4).len() as int, padded(c, 4).len() + 4int) == u32_le_bytes(v),
    ensures
        read_u32(reader(buf, c.len() as int)) == (padded(c, 4).len() + 4int, Ok::<u32, CodecErrorView>(v)),
{
    let at = padded(c, 4).len() as int;
    lemma_fixed_read(buf.len() as int, c, 4);
    lemma_u32_round_trip(v);
    let w = buf.subrange(at, at + 4);
    assert(buf[at] == w[0] && buf[at + 1] == w[1] && buf[at + 2] == w[2] && buf[at + 3] == w[3]);
}

proof fn lemma_u64_read(buf: Seq<u8>, c: Seq<u8>, v: u64)
    requires
        padded(c, 8).len() + 8 <= buf.len(),
        buf.subrange(padded(c, 8).len() as int, padded(c, 8).len() + 8int) == u64_le_bytes(v),
    ensures
        read_u64(reader(buf, c.len() as int)) == (padded(c, 8).len() + 8int, Ok::<u64, CodecErrorView>(v)),
{
    lemma_fixed_read(buf.len() as int, c, 8);
    lemma_u64_round_trip(v);
}

/// A string reads back from where it was written.
proof fn lemma_string_read(buf: Seq<u8>, b: Seq<u8>, t: Seq<char>)
    requires
        agrees(buf, string_bytes(b, t), b.len() as int),
        encode_utf8(t).len() <= u32::MAX,
    ensures
        read_string(reader(buf, b.len() as int)) == (
            string_bytes(b, t).len() as int,
            Ok::<Seq<char>, CodecErrorView>(t),
        ),
{
    let e = string_bytes(b, t);
    let tb = encode_utf8(t);
    let n = tb.len() as u32;
    let at = padded(b, 4).len() as int;
    lemma_padded_len(b, 4);
    assert(e.subrange(at, at + 4) =~= u32_le_bytes(n));
    lemma_agrees_bytes(buf, e, b.len() as int, at, u32_le_bytes(n));
    lemma_u32_read(buf, b, n);
    assert(e.subrange(at + 4, at + 4 + tb.len()) =~= tb);
    lemma_agrees_bytes(buf, e, b.len() as int, at + 4, tb);
    encode_utf8_valid_utf8(t);
    encode_utf8_decode_utf8(t);
}

/// A signature reads back, as text, from where it was written.
proof fn lemma_signature_read(buf: Seq<u8>, b: Seq<u8>, t: Seq<char>)
    requires
        agrees(buf, signature_bytes(b, t), b.len() as int),
        encode_utf8(t).len() <= 255,
    ensures
        read_signature(reader(buf, b.len() as int)) == (
            signature_bytes(b, t).len() as int,
            Ok::<Seq<char>, CodecErrorView>(t),
        ),
        read_signature_bytes(reader(buf, b.len() as int)) == (
            signature_bytes(b, t).len() as int,
            Ok::<Seq<u8>, CodecErrorView>(encode_utf8(t)),
        ),
{
    let e = signature_bytes(b, t);
    let tb = encode_utf8(t);
    let at = b.len() as int;
    assert(buf[at] == e[at]);
    assert(e[at] == tb.len() as u8);
    assert(e.subrange(at + 1, at + 1 + tb.len()) =~= tb);
    lemma_agrees_bytes(buf, e, b.len() as int, at + 1, tb);
    encode_utf8_valid_utf8(t);
    encode_utf8_decode_utf8(t);
}

/// A value with no parts reads back from where it was written.
proof fn lemma_scalar_reads_back(buf: Seq<u8>, b: Seq<u8>, v: ValueView)
    requires
        agrees(buf, encode_value(b, v), b.len() as int),
        carried(v),
        !(v is Array || v is Struct || v is DictEntry || v is Variant),
    ensures
        decode_value(reader(buf, b.len() as int), sig_bytes(v)) == (
            encode_value(b, v).len() as int,
            Ok::<ValueView, CodecErrorView>(v),
        ),
{
    let e = encode_value(b, v);
    let d = reader(buf, b.len() as int);
    let c = signature_of(v)[0];
    assert(signature_of(v) =~= seq![c]);
    lemma_encode_ascii(c);
    let sig = sig_bytes(v);
    assert(sig[0] == c as u8);
    lemma_padded_len(b, 2);
    lemma_padded_len(b, 4);
    lemma_padded_len(b, 8);
    match v {
        ValueView::Byte(x) => {
            assert(buf[b.len() as int] == e[b.len() as int]);
        },
        ValueView::Bool(x) => {
            let w: u32 = if x { 1 } else { 0 };
            assert(e.subrange(padded(b, 4).len() as int, e.len() as int) =~= u32_le_bytes(w));
            lemma_agrees_bytes(buf, e, b.len() as int, padded(b, 4).len() as int, u32_le_bytes(w));
            lemma_u32_read(buf, b, w);
        },
        ValueView::Int16(x) => {
            let w = x as u16;
            assert(e.subrange(padded(b, 2).len() as int, e.len() as int) =~= u16_le_bytes(w));
            lemma_agrees_bytes(buf, e, b.len() as int, padded(b, 2).len() as int, u16_le_bytes(w));
            lemma_u16_read(buf, b, w);
            assert((x as u16) as i16 == x) by (bit_vector);
        },
        ValueView::Uint16(x) => {
            assert(e.subrange(padded(b, 2).len() as int, e.len() as int) =~= u16_le_bytes(x));
            lemma_agrees_bytes(buf, e, b.len() as int, padded(b, 2).len() as int, u16_le_bytes(x));
            lemma_u16_read(buf, b, x);
        },
        ValueView::Int32(x) => {
            let w = x as u32;
            assert(e.subrange(padded(b, 4).len() as int, e.len() as int) =~= u32_le_bytes(w));
            lemma_agrees_bytes(buf, e, b.len() as int, padded(b, 4).len() as int, u32_le_bytes(w));
            lemma_u32_read(buf, b, w);
            assert((x as u32) as i32 == x) by (bit_vector);
        },
        ValueView::Uint32(x) => {
            assert(e.subrange(padded(b, 4).len() as int, e.len() as int) =~= u32_le_bytes(x));
            lemma_agrees_bytes(buf, e, b.len() as int, padded(b, 4).len() as int, u32_le_bytes(x));
            lemma_u32_read(buf, b, x);
        },
        ValueView::UnixFd(x) => {
            assert(e.subrange(padded(b, 4).len() as int, e.len() as int) =~= u32_le_bytes(x));
            lemma_agrees_bytes(buf, e, b.len() as int, padded(b, 4).len() as int, u32_le_bytes(x));
            lemma_u32_read(buf, b, x);
        },
        ValueView::Int64(x) => {
            let w = x as u64;
            assert(e.subrange(padded(b, 8).len() as int, e.len() as int) =~= u64_le_bytes(w));
            lemma_agrees_bytes(buf, e, b.len() as int, padded(b, 8).len() as int, u64_le_bytes(w));
            lemma_u64_read(buf, b, w);
            assert((x as u64) as i64 == x) by (bit_vector);
        },
        ValueView::Uint64(x) => {
            assert(e.subrange(padded(b, 8).len() as int, e.len() as int) =~= u64_le_bytes(x));
            lemma_agrees_bytes(buf, e, b.len() as int, padded(b, 8).len() as int, u64_le_bytes(x));
            lemma_u64_read(buf, b, x);
        },
        ValueView::Double(x) => {
            assert(e.subrange(padded(b, 8).len() as int, e.len() as int) =~= u64_le_bytes(x));
            lemma_agrees_bytes(buf, e, b.len() as int, padded(b, 8).len() as int, u64_le_bytes(x));
            lemma_u64_read(buf, b, x);
        },
        ValueView::Str(t) => {
            lemma_string_read(buf, b, t);
        },
        ValueView::ObjectPath(t) => {
            lemma_string_read(buf, b, t);
        },
        ValueView::Signature(t) => {
            lemma_signature_read(buf, b, t);
        },
        _ => {},
    }
}

// ── Lengths that fit ─────────────────────────────────────────────────────────

/// Every array written for `v` after `b` has a body whose length fits the
/// four bytes that carry it.
pub open spec fn bodies_fit(b: Seq<u8>, v: ValueView) -> bool
    decreases v,
{
    match v {
        ValueView::Array { element, items } => {
            let b3 = padded(padded(b, 4) + u32_le_bytes(0), element_alignment(element));
            encode_values(b3, items).len() - b3.len() <= u32::MAX && all_fit(b3, items)
        },
        ValueView::Struct(fields) => all_fit(padded(b, 8), fields),
        ValueView::DictEntry(k, x) => bodies_fit(padded(b, 8), *k) && bodies_fit(
            encode_value(padded(b, 8), *k),
            *x,
        ),
        ValueView::Variant(inner) => bodies_fit(signature_bytes(b, signature_of(*inner)), *inner),
        _ => true,
    }
}

/// `bodies_fit` for values written one after another from `b`.
pub open spec fn all_fit(b: Seq<u8>, vs: Seq<ValueView>) -> bool
    decreases vs,
{
    if vs.len() == 0 {
        true
    } else {
        all_fit(b, vs.drop_last()) && bodies_fit(encode_values(b, vs.drop_last()), vs.last())
    }
}

proof fn lemma_all_fit_front(b: Seq<u8>, vs: Seq<ValueView>)
    requires
        vs.len() > 0,
        all_fit(b, vs),
    ensures
        bodies_fit(b, vs[0]),
        all_fit(encode_value(b, vs[0]), vs.drop_first()),
    decreases vs.len(),
{
    let first = encode_value(b, vs[0]);
    if vs.len() == 1 {
        assert(vs.drop_last() =~= Seq::<ValueView>::empty());
        assert(vs.drop_first() =~= Seq::<ValueView>::empty());
    } else {
        let init = vs.drop_last();
        lemma_all_fit_front(b, init);
        lemma_encode_values_front(b, init);
        assert(init.drop_first() =~= vs.drop_first().drop_last());
        assert(vs.drop_first().last() == vs.last());
        assert(init[0] == vs[0]);
    }
}

// ── The round trip ───────────────────────────────────────────────────────────

/// Agreement with a value whose length field was filled in afterwards is
/// agreement with what was written before the filling, past that field.
proof fn lemma_agrees_backfilled(buf: Seq<u8>, b4: Seq<u8>, at: int, n: u32, from: int, from2: int)
    requires
        agrees(buf, backfilled(b4, at, n), from),
        0 <= at,
        at + 4 <= b4.len(),
        from <= from2,
        at + 4 <= from2 <= b4.len(),
    ensures
        agrees(buf, b4, from2),
{
    let e = backfilled(b4, at, n);
    assert(e.len() == b4.len());
    assert forall|i: int| from2 <= i < b4.len() implies #[trigger] buf[i] == b4[i] by {
        assert(buf[i] == e[i]);
        assert(e[i] == b4.subrange(at + 4, b4.len() as int)[i - at - 4]);
    }
}

/// Any value the codec carries, written after any bytes `b`, reads back
/// unchanged from where it was written, with its own signature, from any
/// buffer holding what was written there; the decoder stops exactly where
/// the writing ended.
pub proof fn lemma_value_reads_back(buf: Seq<u8>, b: Seq<u8>, v: ValueView)
    requires
        agrees(buf, encode_value(b, v), b.len() as int),
        carried(v),
        bodies_fit(b, v),
    ensures
        decode_value(reader(buf, b.len() as int), sig_bytes(v)) == (
            encode_value(b, v).len() as int,
            Ok::<ValueView, CodecErrorView>(v),
        ),
    decreases v, 2int,
{
    match v {
        ValueView::Array { .. } => lemma_array_reads_back(buf, b, v),
        ValueView::Struct(_) => lemma_struct_reads_back(buf, b, v),
        ValueView::DictEntry(_, _) => lemma_entry_reads_back(buf, b, v),
        ValueView::Variant(_) => lemma_variant_reads_back(buf, b, v),
        _ => lemma_scalar_reads_back(buf, b, v),
    }
}

proof fn lemma_array_reads_back(buf: Seq<u8>, b: Seq<u8>, v: ValueView)
    requires
        agrees(buf, encode_value(b, v), b.len() as int),
        carried(v),
        bodies_fit(b, v),
        v is Array,
    ensures
        decode_value(reader(buf, b.len() as int), sig_bytes(v)) == (
            encode_value(b, v).len() as int,
            Ok::<ValueView, CodecErrorView>(v),
        ),
    decreases v, 1int,
{
    let element = v->element;
    let items = v->items;
    let e = encode_value(b, v);
    let d = reader(buf, b.len() as int);
    let ea = element_alignment(element);
    let b1 = padded(b, 4);
    let b2 = b1 + u32_le_bytes(0);
    let b3 = padded(b2, ea);
    let b4 = encode_values(b3, items);
    let n = (b4.len() - b3.len()) as u32;
    let eb = encode_utf8(element);
    assert(eb.len() > 0);
    assert(ea == 1 || ea == 2 || ea == 4 || ea == 8);
    lemma_padded_len(b, 4);
    lemma_padded_len(b2, ea);
    lemma_encodings_extend(b3, items);
    assert(e == backfilled(b4, b1.len() as int, n));
    assert(n as int == b4.len() - b3.len());
    assert(e.subrange(b1.len() as int, b1.len() + 4int) =~= u32_le_bytes(n));
    lemma_agrees_bytes(buf, e, b.len() as int, b1.len() as int, u32_le_bytes(n));
    lemma_u32_read(buf, b, n);
    lemma_align_read(buf.len() as int, b2, ea);
    lemma_encode_ascii('a');
    lemma_encode_concat(seq!['a'], element);
    let sig = sig_bytes(v);
    assert(sig =~= seq![0x61u8] + eb);
    assert(sig.skip(1) =~= eb);
    assert(sig[0] == 0x61);
    lemma_agrees_backfilled(buf, b4, b1.len() as int, n, b.len() as int, b3.len() as int);
    lemma_items_read_back(buf, b3, items, element, n as usize);
    encode_utf8_valid_utf8(element);
    encode_utf8_decode_utf8(element);
    assert(at_pos(d, b3.len() as int) == reader(buf, b3.len() as int));
}

proof fn lemma_items_read_back(
    buf: Seq<u8>,
    c: Seq<u8>,
    items: Seq<ValueView>,
    element: Seq<char>,
    byte_len: usize,
)
    requires
        agrees(buf, encode_values(c, items), c.len() as int),
        items_carried(items, element),
        all_fit(c, items),
    ensures
        decode_elements(
            reader(buf, c.len() as int),
            encode_values(c, items).len() as int,
            encode_utf8(element),
            byte_len,
        ) == (encode_values(c, items).len() as int, Ok::<Seq<ValueView>, CodecErrorView>(items)),
    decreases items, 0int,
{
    let whole = encode_values(c, items);
    let end = whole.len() as int;
    let d = reader(buf, c.len() as int);
    if items.len() == 0 {
        assert(items =~= Seq::<ValueView>::empty());
    } else {
        lemma_items_front(items, element);
        lemma_all_fit_front(c, items);
        let first = items[0];
        let rest = items.drop_first();
        let c1 = encode_value(c, first);
        lemma_encode_values_front(c, items);
        lemma_encodings_extend(c1, rest);
        lemma_encoding_grows(c, first);
        lemma_agrees_prefix(buf, whole, c.len() as int, c1, c.len() as int);
        lemma_value_reads_back(buf, c, first);
        assert(whole.subrange(0, whole.len() as int) =~= whole);
        lemma_agrees_prefix(buf, whole, c.len() as int, whole, c1.len() as int);
        assert(decreases_to!(items => rest));
        lemma_items_read_back(buf, c1, rest, element, byte_len);
        assert(at_pos(d, c1.len() as int) == reader(buf, c1.len() as int));
        assert(seq![first] + rest =~= items);
    }
}

proof fn lemma_struct_reads_back(buf: Seq<u8>, b: Seq<u8>, v: ValueView)
    requires
        agrees(buf, encode_value(b, v), b.len() as int),
        carried(v),
        bodies_fit(b, v),
        v is Struct,
    ensures
        decode_value(reader(buf, b.len() as int), sig_bytes(v)) == (
            encode_value(b, v).len() as int,
            Ok::<ValueView, CodecErrorView>(v),
        ),
    decreases v, 1int,
{
    let fields = v->Struct_0;
    let e = encode_value(b, v);
    let d = reader(buf, b.len() as int);
    let pb = padded(b, 8);
    lemma_padded_len(b, 8);
    lemma_encodings_extend(pb, fields);
    lemma_align_read(buf.len() as int, b, 8);
    let inner = encode_utf8(signatures_of(fields));
    lemma_encode_ascii('(');
    lemma_encode_ascii(')');
    lemma_encode_concat(seq!['('], signatures_of(fields));
    lemma_encode_concat(seq!['('] + signatures_of(fields), seq![')']);
    let sig = sig_bytes(v);
    assert(sig =~= seq![0x28u8] + inner + seq![0x29u8]);
    assert(sig.subrange(1, sig.len() - 1) =~= inner);
    assert(sig[0] == 0x28);
    assert(sig[sig.len() - 1] == 0x29);
    assert(e.subrange(0, e.len() as int) =~= e);
    lemma_agrees_prefix(buf, e, b.len() as int, e, pb.len() as int);
    lemma_fields_read_back(buf, pb, fields);
    assert(at_pos(d, pb.len() as int) == reader(buf, pb.len() as int));
}

proof fn lemma_fields_read_back(buf: Seq<u8>, c: Seq<u8>, fields: Seq<ValueView>)
    requires
        agrees(buf, encode_values(c, fields), c.len() as int),
        fields_carried(fields),
        all_fit(c, fields),
    ensures
        decode_fields(reader(buf, c.len() as int), encode_utf8(signatures_of(fields))) == (
            encode_values(c, fields).len() as int,
            Ok::<Seq<ValueView>, CodecErrorView>(fields),
        ),
    decreases fields, 0int,
{
    let whole = encode_values(c, fields);
    let d = reader(buf, c.len() as int);
    let sigs = encode_utf8(signatures_of(fields));
    if fields.len() == 0 {
        assert(signatures_of(fields) =~= Seq::<char>::empty());
        assert(sigs =~= Seq::<u8>::empty());
        assert(fields =~= Seq::<ValueView>::empty());
    } else {
        lemma_fields_front(fields);
        lemma_all_fit_front(c, fields);
        lemma_signatures_front(fields);
        let f0 = fields[0];
        let rest = fields.drop_first();
        lemma_encode_concat(signature_of(f0), signatures_of(rest));
        let s0 = sig_bytes(f0);
        let srest = encode_utf8(signatures_of(rest));
        assert(sigs == s0 + srest);
        lemma_signature_complete(f0);
        lemma_complete_type(s0);
        assert(type_len(s0 + srest) == Some(s0.len()));
        assert(s0.len() > 0);
        assert(sigs.take(s0.len() as int) =~= s0);
        assert(sigs.skip(s0.len() as int) =~= srest);
        let c1 = encode_value(c, f0);
        lemma_encode_values_front(c, fields);
        lemma_encodings_extend(c1, rest);
        lemma_encoding_extends(c, f0);
        lemma_agrees_prefix(buf, whole, c.len() as int, c1, c.len() as int);
        lemma_value_reads_back(buf, c, f0);
        assert(whole.subrange(0, whole.len() as int) =~= whole);
        lemma_agrees_prefix(buf, whole, c.len() as int, whole, c1.len() as int);
        assert(decreases_to!(fields => rest));
        lemma_fields_read_back(buf, c1, rest);
        assert(at_pos(d, c1.len() as int) == reader(buf, c1.len() as int));
        assert(seq![f0] + rest =~= fields);
    }
}

proof fn lemma_entry_reads_back(buf: Seq<u8>, b: Seq<u8>, v: ValueView)
    requires
        agrees(buf, encode_value(b, v), b.len() as int),
        carried(v),
        bodies_fit(b, v),
        v is DictEntry,
    ensures
        decode_value(reader(buf, b.len() as int), sig_bytes(v)) == (
            encode_value(b, v).len() as int,
            Ok::<ValueView, CodecErrorView>(v),
        ),
    decreases v, 1int,
{
    let k = *v->DictEntry_0;
    let x = *v->DictEntry_1;
    let d = reader(buf, b.len() as int);
    let pb = padded(b, 8);
    let ek = encode_value(pb, k);
    let e = encode_value(ek, x);
    lemma_padded_len(b, 8);
    lemma_encoding_extends(pb, k);
    lemma_encoding_extends(ek, x);
    lemma_align_read(buf.len() as int, b, 8);
    let sk = sig_bytes(k);
    let sx = sig_bytes(x);
    lemma_signature_complete(k);
    lemma_signature_complete(x);
    lemma_complete_type(sk);
    lemma_complete_type(sx);
    lemma_encode_ascii('{');
    lemma_encode_ascii('}');
    lemma_encode_concat(seq!['{'], signature_of(k));
    lemma_encode_concat(seq!['{'] + signature_of(k), signature_of(x));
    lemma_encode_concat(seq!['{'] + signature_of(k) + signature_of(x), seq!['}']);
    let sig = sig_bytes(v);
    assert(sig =~= seq![0x7Bu8] + sk + sx + seq![0x7Du8]);
    let inner = sig.subrange(1, sig.len() - 1);
    assert(inner =~= sk + sx);
    assert(sig[0] == 0x7B);
    assert(sig[sig.len() - 1] == 0x7D);
    assert(type_len(sk + sx) == Some(sk.len()));
    assert(sx + Seq::<u8>::empty() =~= sx);
    assert(type_len(sx + Seq::<u8>::empty()) == Some(sx.len()));
    assert(inner.take(sk.len() as int) =~= sk);
    assert(inner.skip(sk.len() as int) =~= sx);
    assert(inner.subrange(sk.len() as int, (sk.len() + sx.len()) as int) =~= sx);
    lemma_agrees_prefix(buf, e, b.len() as int, ek, pb.len() as int);
    lemma_value_reads_back(buf, pb, k);
    assert(e.subrange(0, e.len() as int) =~= e);
    lemma_agrees_prefix(buf, e, b.len() as int, e, ek.len() as int);
    lemma_value_reads_back(buf, ek, x);
    assert(at_pos(d, pb.len() as int) == reader(buf, pb.len() as int));
    assert(at_pos(d, ek.len() as int) == reader(buf, ek.len() as int));
}

proof fn lemma_variant_reads_back(buf: Seq<u8>, b: Seq<u8>, v: ValueView)
    requires
        agrees(buf, encode_value(b, v), b.len() as int),
        carried(v),
        bodies_fit(b, v),
        v is Variant,
    ensures
        decode_value(reader(buf, b.len() as int), sig_bytes(v)) == (
            encode_value(b, v).len() as int,
            Ok::<ValueView, CodecErrorView>(v),
        ),
    decreases v, 1int,
{
    let inner = *v->Variant_0;
    let d = reader(buf, b.len() as int);
    let si = signature_of(inner);
    let sb = signature_bytes(b, si);
    let e = encode_value(sb, inner);
    lemma_encoding_extends(sb, inner);
    lemma_agrees_prefix(buf, e, b.len() as int, sb, b.len() as int);
    lemma_signature_read(buf, b, si);
    lemma_encode_ascii('v');
    assert(signature_of(v) =~= seq!['v']);
    let s = sig_bytes(inner);
    lemma_signature_complete(inner);
    lemma_complete_type(s);
    assert(s + Seq::<u8>::empty() =~= s);
    assert(type_len(s + Seq::<u8>::empty()) == Some(s.len()));
    assert(e.subrange(0, e.len() as int) =~= e);
    lemma_agrees_prefix(buf, e, b.len() as int, e, sb.len() as int);
    lemma_value_reads_back(buf, sb, inner);
    assert(at_pos(d, sb.len() as int) == reader(buf, sb.len() as int));
}

/// What an agreement needs of a buffer that starts with the writing.
pub(crate) proof fn lemma_agrees_start(e: Seq<u8>, rest: Seq<u8>)
    ensures
        agrees(e + rest, e, 0),
{
    assert forall|i: int| 0 <= i < e.len() implies #[trigger] (e + rest)[i] == e[i] by {}
}

/// Decoding what the encoder wrote gives the value back: a value written
/// into an empty buffer, read from the start with its own signature, comes
/// back unchanged, and the decoder stops where the value ends, whatever
/// follows it.
pub proof fn lemma_value_round_trip(v: ValueView, rest: Seq<u8>)
    requires
        carried(v),
        bodies_fit(Seq::empty(), v),
    ensures
        decode_value(reader(encode_value(Seq::empty(), v) + rest, 0), sig_bytes(v)) == (
            encode_value(Seq::empty(), v).len() as int,
            Ok::<ValueView, CodecErrorView>(v),
        ),
{
    lemma_agrees_start(encode_value(Seq::empty(), v), rest);
    lemma_value_reads_back(encode_value(Seq::empty(), v) + rest, Seq::empty(), v);
}

/// A message body round-trips: values written one after another into an
/// empty buffer are read back, in order, by the body reader given the
/// concatenation of their signatures.
pub proof fn lemma_body_round_trip(vs: Seq<ValueView>, rest: Seq<u8>)
    requires
        fields_carried(vs),
        all_fit(Seq::empty(), vs),
    ensures
        decode_fields(
            reader(encode_values(Seq::empty(), vs) + rest, 0),
            encode_utf8(signatures_of(vs)),
        ) == (
            encode_values(Seq::empty(), vs).len() as int,
            Ok::<Seq<ValueView>, CodecErrorView>(vs),
        ),
{
    lemma_agrees_start(encode_values(Seq::empty(), vs), rest);
    lemma_fields_read_back(encode_values(Seq::empty(), vs) + rest, Seq::empty(), vs);
}

} // verus!
