//! Why parsing a serialized message gives the message back.
//!
//! The header fields travel as an `a(yv)` array and the body as values one
//! after another, so the value round trip does most of the work; what is
//! left is the fixed header, the padding before the body, and the way the
//! header entries set the message's fields one by one.

use vstd::prelude::*;
use vstd::utf8::{encode_utf8, is_ascii_chars, is_ascii_chars_encode_utf8};
use crate::bytes::u32_le_bytes;
use crate::dbus::codec::{
    at_pos, decode_value, element_alignment, encode_value, encode_values, padded,
    lemma_encoding_extends, lemma_encodings_extend, read_u32, u32_at, CodecErrorView, DecoderState,
};
use crate::dbus::message::{
    apply_field, apply_fields, empty_message, field_value, framed_length_spec, header_element,
    header_fields, header_signature, lemma_message_types_round_trip, message_type_code,
    parse_spec, round_up_8, serialize_spec, with_text_field, MessageView, FIELD_DESTINATION,
    FIELD_ERROR_NAME, FIELD_INTERFACE, FIELD_MEMBER, FIELD_PATH, FIELD_REPLY_SERIAL,
    FIELD_SENDER, FIELD_SIGNATURE,
};
use crate::dbus::round_trip::{
    all_fit, all_hollow, bodies_fit, carried, hollow, fields_carried, items_carried, lemma_agrees_bytes,
    lemma_agrees_prefix, lemma_agrees_start, lemma_body_round_trip, lemma_padded_len,
    lemma_u32_read, lemma_value_reads_back, reader, sig_bytes,
};
use crate::dbus::signature::{complete_list, complete_type};
use crate::dbus::value::{
    items_of, type_len, peeled, signature_of, signatures_of, text_of, unsigned_of, ValueView,
};

verus! {

/// The header array a message is written with.
pub open spec fn header_array(m: MessageView) -> ValueView {
    ValueView::Array { element: header_element(), items: header_fields(m) }
}

/// The twelve fixed bytes that precede the header array.
pub open spec fn fixed_header(m: MessageView, serial: u32) -> Seq<u8> {
    let body = encode_values(Seq::empty(), m.body);
    let h0 = seq![0x6Cu8, message_type_code(m.message_type), m.flags, 1u8];
    let h1 = padded(h0, 4) + u32_le_bytes(body.len() as u32);
    padded(h1, 4) + u32_le_bytes(serial)
}

/// Optional text short enough for its length field.
pub open spec fn text_carried(t: Option<Seq<char>>) -> bool {
    match t {
        Some(s) => encode_utf8(s).len() <= u32::MAX,
        None => true,
    }
}

/// Messages whose every part survives the trip: text fields that fit their
/// length fields, a body the value codec carries whose signature fits its
/// length byte and whose bytes fit the body length, and a header array
/// whose length fits its four bytes.
pub open spec fn message_carried(m: MessageView, serial: u32) -> bool {
    &&& text_carried(m.path)
    &&& text_carried(m.interface)
    &&& text_carried(m.member)
    &&& text_carried(m.error_name)
    &&& text_carried(m.destination)
    &&& text_carried(m.sender)
    &&& fields_carried(m.body)
    &&& all_fit(Seq::empty(), m.body)
    &&& encode_utf8(signatures_of(m.body)).len() <= 255
    &&& encode_values(Seq::empty(), m.body).len() <= u32::MAX
    &&& bodies_fit(fixed_header(m, serial), header_array(m))
}

/// What parsing gives back: the message under the serial it was written
/// with; the count of descriptors is not written, so it reads as zero.
pub open spec fn as_received(m: MessageView, serial: u32) -> MessageView {
    MessageView { serial, unix_fds: 0, ..m }
}

// ── The header array ────────────────────────────────────────────────────────

proof fn lemma_header_bytes()
    ensures
        encode_utf8(header_element()) == seq![0x28u8, 0x79, 0x76, 0x29],
        encode_utf8(seq!['a'] + header_element()) == header_signature(),
{
    let e = header_element();
    assert(is_ascii_chars(e));
    is_ascii_chars_encode_utf8(e);
    assert(encode_utf8(e) =~= seq![0x28u8, 0x79, 0x76, 0x29]);
    let a = seq!['a'] + e;
    assert(is_ascii_chars(a));
    is_ascii_chars_encode_utf8(a);
    assert(encode_utf8(a) =~= header_signature());
}

/// One header entry: a code and a short scalar or text in a variant.
proof fn lemma_entry_carried(code: u8, x: ValueView)
    requires
        carried(x),
        x is Str || x is ObjectPath || x is Uint32 || x is Signature,
    ensures
        signature_of(field_value(code, x)) == header_element(),
        carried(field_value(code, x)),
        !hollow(field_value(code, x)),
{
    let parts = seq![ValueView::Byte(code), ValueView::Variant(Box::new(x))];
    let p1 = seq![ValueView::Byte(code)];
    assert(p1.drop_last() =~= Seq::<ValueView>::empty());
    assert(signatures_of(Seq::<ValueView>::empty()) =~= Seq::<char>::empty());
    assert(fields_carried(Seq::<ValueView>::empty()));
    assert(p1.last() == ValueView::Byte(code));
    assert(signature_of(ValueView::Byte(code)) =~= seq!['y']);
    assert(signatures_of(p1) =~= seq!['y']);
    assert(carried(ValueView::Byte(code)));
    assert(fields_carried(p1));
    assert(parts.drop_last() =~= p1);
    assert(parts.last() == ValueView::Variant(Box::new(x)));
    assert(signature_of(ValueView::Variant(Box::new(x))) =~= seq!['v']);
    assert(signatures_of(parts) =~= seq!['y', 'v']);
    assert(signature_of(field_value(code, x)) =~= header_element());
    let c = signature_of(x)[0];
    assert(signature_of(x) =~= seq![c]);
    assert(is_ascii_chars(seq![c]));
    is_ascii_chars_encode_utf8(seq![c]);
    assert(sig_bytes(x).len() == 1);
    assert(carried(ValueView::Variant(Box::new(x))));
    assert(fields_carried(parts));
    assert(!hollow(ValueView::Variant(Box::new(x))));
    assert(!all_hollow(parts));
}

proof fn lemma_items_push(f: Seq<ValueView>, e: ValueView)
    requires
        items_carried(f, header_element()),
        signature_of(e) == header_element(),
        carried(e),
        !hollow(e),
    ensures
        items_carried(f.push(e), header_element()),
{
    assert(f.push(e).drop_last() =~= f);
}

proof fn lemma_text_entry(f: Seq<ValueView>, code: u8, t: Option<Seq<char>>, path: bool)
    requires
        items_carried(f, header_element()),
        text_carried(t),
    ensures
        items_carried(with_text_field(f, code, t, path), header_element()),
{
    if let Some(s) = t {
        let x = if path {
            ValueView::ObjectPath(s)
        } else {
            ValueView::Str(s)
        };
        lemma_entry_carried(code, x);
        lemma_items_push(f, field_value(code, x));
    }
}

/// The header array of a carried message is carried.
proof fn lemma_header_carried(m: MessageView, serial: u32)
    requires
        message_carried(m, serial),
    ensures
        carried(header_array(m)),
{
    lemma_header_bytes();
    let e = header_element();
    let f0 = Seq::<ValueView>::empty();
    let f1 = with_text_field(f0, FIELD_PATH, m.path, true);
    let f2 = with_text_field(f1, FIELD_INTERFACE, m.interface, false);
    let f3 = with_text_field(f2, FIELD_MEMBER, m.member, false);
    let f4 = with_text_field(f3, FIELD_ERROR_NAME, m.error_name, false);
    let f5 = match m.reply_serial {
        Some(r) => f4.push(field_value(FIELD_REPLY_SERIAL, ValueView::Uint32(r))),
        None => f4,
    };
    let f6 = with_text_field(f5, FIELD_DESTINATION, m.destination, false);
    let f7 = with_text_field(f6, FIELD_SENDER, m.sender, false);
    assert(items_carried(f0, e));
    lemma_text_entry(f0, FIELD_PATH, m.path, true);
    lemma_text_entry(f1, FIELD_INTERFACE, m.interface, false);
    lemma_text_entry(f2, FIELD_MEMBER, m.member, false);
    lemma_text_entry(f3, FIELD_ERROR_NAME, m.error_name, false);
    if let Some(r) = m.reply_serial {
        lemma_entry_carried(FIELD_REPLY_SERIAL, ValueView::Uint32(r));
        lemma_items_push(f4, field_value(FIELD_REPLY_SERIAL, ValueView::Uint32(r)));
    }
    lemma_text_entry(f5, FIELD_DESTINATION, m.destination, false);
    lemma_text_entry(f6, FIELD_SENDER, m.sender, false);
    if m.body.len() > 0 {
        let x = ValueView::Signature(signatures_of(m.body));
        lemma_entry_carried(FIELD_SIGNATURE, x);
        lemma_items_push(f7, field_value(FIELD_SIGNATURE, x));
    }
    assert(items_carried(header_fields(m), e));
    let s = encode_utf8(e);
    let yv = seq![0x79u8, 0x76];
    let v1 = seq![0x76u8];
    assert(s.subrange(1, s.len() - 1) =~= yv);
    assert(yv.take(1) =~= seq![0x79u8]);
    assert(yv.skip(1) =~= v1);
    assert(v1.take(1) =~= v1);
    assert(v1.skip(1) =~= Seq::<u8>::empty());
    assert(type_len(v1) == Some(1nat));
    assert(complete_type(v1));
    assert(complete_list(Seq::<u8>::empty()));
    assert(complete_list(v1));
    assert(type_len(yv) == Some(1nat));
    assert(complete_type(seq![0x79u8]));
    assert(complete_list(yv));
    assert(complete_type(s));
}

// ── The header entries ──────────────────────────────────────────────────────

/// The parts of a header entry, as the reader takes them apart.
proof fn lemma_entry_parts(code: u8, x: ValueView)
    requires
        !(x is Variant),
    ensures
        items_of(field_value(code, x)) == Some(
            seq![ValueView::Byte(code), ValueView::Variant(Box::new(x))],
        ),
        unsigned_of(ValueView::Byte(code)) == Some(code as u64),
        (code as u64) as u8 == code,
        text_of(ValueView::Variant(Box::new(x))) == text_of(x),
        unsigned_of(ValueView::Variant(Box::new(x))) == unsigned_of(x),
{
    assert(peeled(x) == x);
    assert(peeled(ValueView::Variant(Box::new(x))) == peeled(x));
}

proof fn lemma_apply_push(m0: MessageView, s0: Seq<char>, f: Seq<ValueView>, e: ValueView)
    ensures
        apply_fields(m0, s0, f.push(e)) == apply_field(
            apply_fields(m0, s0, f).0,
            apply_fields(m0, s0, f).1,
            e,
        ),
{
    assert(f.push(e).drop_last() =~= f);
}

proof fn lemma_apply_text(m0: MessageView, s0: Seq<char>, f: Seq<ValueView>, code: u8, t: Option<Seq<char>>, path: bool)
    ensures
        apply_fields(m0, s0, with_text_field(f, code, t, path)) == match t {
            Some(s) => apply_field(
                apply_fields(m0, s0, f).0,
                apply_fields(m0, s0, f).1,
                field_value(
                    code,
                    if path {
                        ValueView::ObjectPath(s)
                    } else {
                        ValueView::Str(s)
                    },
                ),
            ),
            None => apply_fields(m0, s0, f),
        },
{
    if let Some(s) = t {
        let x = if path {
            ValueView::ObjectPath(s)
        } else {
            ValueView::Str(s)
        };
        lemma_apply_push(m0, s0, f, field_value(code, x));
        lemma_entry_parts(code, x);
    }
}

/// Reading back the entries a message was written with sets each field it
/// had, and names the body's signature when there is a body.
proof fn lemma_apply_header(m: MessageView, serial: u32)
    ensures
        apply_fields(
            MessageView { flags: m.flags, serial, ..empty_message(m.message_type) },
            Seq::empty(),
            header_fields(m),
        ) == (
            MessageView { body: Seq::empty(), ..as_received(m, serial) },
            if m.body.len() > 0 {
                signatures_of(m.body)
            } else {
                Seq::<char>::empty()
            },
        ),
{
    let st = MessageView { flags: m.flags, serial, ..empty_message(m.message_type) };
    let z = Seq::<char>::empty();
    let f0 = Seq::<ValueView>::empty();
    let f1 = with_text_field(f0, FIELD_PATH, m.path, true);
    let f2 = with_text_field(f1, FIELD_INTERFACE, m.interface, false);
    let f3 = with_text_field(f2, FIELD_MEMBER, m.member, false);
    let f4 = with_text_field(f3, FIELD_ERROR_NAME, m.error_name, false);
    let f5 = match m.reply_serial {
        Some(r) => f4.push(field_value(FIELD_REPLY_SERIAL, ValueView::Uint32(r))),
        None => f4,
    };
    let f6 = with_text_field(f5, FIELD_DESTINATION, m.destination, false);
    let f7 = with_text_field(f6, FIELD_SENDER, m.sender, false);
    assert(apply_fields(st, z, f0) == (st, z));
    lemma_apply_text(st, z, f0, FIELD_PATH, m.path, true);
    if let Some(t) = m.path {
        lemma_entry_parts(FIELD_PATH, ValueView::ObjectPath(t));
    }
    let a1 = MessageView { path: m.path, ..st };
    assert(apply_fields(st, z, f1) == (a1, z));
    lemma_apply_text(st, z, f1, FIELD_INTERFACE, m.interface, false);
    if let Some(t) = m.interface {
        lemma_entry_parts(FIELD_INTERFACE, ValueView::Str(t));
    }
    let a2 = MessageView { interface: m.interface, ..a1 };
    assert(apply_fields(st, z, f2) == (a2, z));
    lemma_apply_text(st, z, f2, FIELD_MEMBER, m.member, false);
    if let Some(t) = m.member {
        lemma_entry_parts(FIELD_MEMBER, ValueView::Str(t));
    }
    let a3 = MessageView { member: m.member, ..a2 };
    assert(apply_fields(st, z, f3) == (a3, z));
    lemma_apply_text(st, z, f3, FIELD_ERROR_NAME, m.error_name, false);
    if let Some(t) = m.error_name {
        lemma_entry_parts(FIELD_ERROR_NAME, ValueView::Str(t));
    }
    let a4 = MessageView { error_name: m.error_name, ..a3 };
    assert(apply_fields(st, z, f4) == (a4, z));
    let a5 = MessageView { reply_serial: m.reply_serial, ..a4 };
    if let Some(r) = m.reply_serial {
        lemma_apply_push(st, z, f4, field_value(FIELD_REPLY_SERIAL, ValueView::Uint32(r)));
        lemma_entry_parts(FIELD_REPLY_SERIAL, ValueView::Uint32(r));
    }
    assert(apply_fields(st, z, f5) == (a5, z));
    lemma_apply_text(st, z, f5, FIELD_DESTINATION, m.destination, false);
    if let Some(t) = m.destination {
        lemma_entry_parts(FIELD_DESTINATION, ValueView::Str(t));
    }
    let a6 = MessageView { destination: m.destination, ..a5 };
    assert(apply_fields(st, z, f6) == (a6, z));
    lemma_apply_text(st, z, f6, FIELD_SENDER, m.sender, false);
    if let Some(t) = m.sender {
        lemma_entry_parts(FIELD_SENDER, ValueView::Str(t));
    }
    let a7 = MessageView { sender: m.sender, ..a6 };
    assert(apply_fields(st, z, f7) == (a7, z));
    assert(a7 == MessageView { body: Seq::empty(), ..as_received(m, serial) });
    if m.body.len() > 0 {
        lemma_apply_push(
            st,
            z,
            f7,
            field_value(FIELD_SIGNATURE, ValueView::Signature(signatures_of(m.body))),
        );
        lemma_entry_parts(FIELD_SIGNATURE, ValueView::Signature(signatures_of(m.body)));
    }
}

// ── The whole message ───────────────────────────────────────────────────────

/// A value's signature is never empty.
proof fn lemma_signature_nonempty(vs: Seq<ValueView>)
    requires
        vs.len() > 0,
    ensures
        signatures_of(vs).len() > 0,
{
    assert(signature_of(vs.last()).len() > 0);
}

/// The bytes of the header array of `m` as written after the fixed header.
pub open spec fn written_header(m: MessageView, serial: u32) -> Seq<u8> {
    encode_value(fixed_header(m, serial), header_array(m))
}

/// Where each part of a serialized message is, and what reading it gives.
proof fn lemma_serialized_layout(m: MessageView, serial: u32)
    requires
        message_carried(m, serial),
    ensures
        ({
            let out = serialize_spec(m, serial);
            let body = encode_values(Seq::empty(), m.body);
            let h3 = written_header(m, serial);
            &&& out.len() >= 16
            &&& out[0] == 0x6C
            &&& out[1] == message_type_code(m.message_type)
            &&& out[2] == m.flags
            &&& read_u32(reader(out, 4)) == (8int, Ok::<u32, CodecErrorView>(body.len() as u32))
            &&& read_u32(reader(out, 8)) == (12int, Ok::<u32, CodecErrorView>(serial))
            &&& decode_value(reader(out, 12), header_signature()) == (
                h3.len() as int,
                Ok::<ValueView, CodecErrorView>(header_array(m)),
            )
            &&& round_up_8(h3.len() as int) + body.len() == out.len()
            &&& out.subrange(round_up_8(h3.len() as int), out.len() as int) == body
            &&& body.len() <= u32::MAX
            &&& u32_at(out, 4, true) == body.len()
            &&& u32_at(out, 12, true) + 16 == h3.len()
        }),
{
    let body = encode_values(Seq::empty(), m.body);
    let bl = body.len() as u32;
    let h0 = seq![0x6Cu8, message_type_code(m.message_type), m.flags, 1u8];
    let h1 = padded(h0, 4) + u32_le_bytes(bl);
    let h2 = padded(h1, 4) + u32_le_bytes(serial);
    let hv = header_array(m);
    let h3 = encode_value(h2, hv);
    let ph3 = padded(h3, 8);
    let out = serialize_spec(m, serial);
    assert(out == ph3 + body);
    assert(padded(h0, 4) =~= h0);
    assert(padded(h1, 4) =~= h1);
    assert(h1.len() == 8);
    assert(h2.len() == 12);
    assert(h2 == fixed_header(m, serial));
    // The header array, before and after its length was filled in.
    lemma_header_bytes();
    let b1 = padded(h2, 4);
    assert(b1 =~= h2);
    let b2 = b1 + u32_le_bytes(0);
    assert(element_alignment(header_element()) == 8);
    let b3 = padded(b2, 8);
    assert(b3 =~= b2);
    let b4 = encode_values(b3, header_fields(m));
    lemma_encodings_extend(b3, header_fields(m));
    let n = (b4.len() - b3.len()) as u32;
    assert(h3 == crate::dbus::codec::backfilled(b4, 12, n));
    assert(n as int == b4.len() - 16);
    assert(h3.len() == 16 + n);
    lemma_encoding_extends(h2, hv);
    lemma_padded_len(h3, 8);
    // What the buffer holds.
    lemma_agrees_start(ph3, body);
    assert(ph3.subrange(0, h3.len() as int) =~= h3);
    lemma_agrees_prefix(out, ph3, 0, h3, 0);
    lemma_agrees_prefix(out, h3, 0, h2, 0);
    assert(h2.subrange(0, 8) =~= h1);
    lemma_agrees_prefix(out, h2, 0, h1, 0);
    assert(h1.subrange(0, 4) =~= h0);
    lemma_agrees_prefix(out, h1, 0, h0, 0);
    assert(out[0] == h0[0]);
    assert(out[1] == h0[1]);
    assert(out[2] == h0[2]);
    // The fixed header.
    assert(h1.subrange(4, 8) =~= u32_le_bytes(bl));
    lemma_agrees_bytes(out, h1, 0, 4, u32_le_bytes(bl));
    lemma_u32_read(out, h0, bl);
    assert(h2.subrange(8, 12) =~= u32_le_bytes(serial));
    lemma_agrees_bytes(out, h2, 0, 8, u32_le_bytes(serial));
    lemma_u32_read(out, h1, serial);
    // The header array.
    lemma_header_carried(m, serial);
    assert(h3.subrange(0, h3.len() as int) =~= h3);
    lemma_agrees_prefix(out, h3, 0, h3, 12);
    lemma_value_reads_back(out, h2, hv);
    assert(sig_bytes(hv) == header_signature());
    // The body.
    assert(out.subrange(ph3.len() as int, out.len() as int) =~= body);
    // The lengths in the fixed header.
    assert(u32_at(out, 4, true) == bl);
    assert(h3.subrange(12, 16) =~= u32_le_bytes(n));
    lemma_agrees_bytes(out, h3, 0, 12, u32_le_bytes(n));
    lemma_u32_read(out, h2, n);
    assert(u32_at(out, 12, true) == n);
}

/// Parsing what `serialize` wrote gives the message back, under the serial
/// it was written with, and the framing read from its fixed header is the
/// length of what was written.
pub proof fn lemma_message_round_trip(m: MessageView, serial: u32)
    requires
        message_carried(m, serial),
    ensures
        parse_spec(serialize_spec(m, serial)) == Ok::<MessageView, CodecErrorView>(
            as_received(m, serial),
        ),
        framed_length_spec(serialize_spec(m, serial)) == Some(
            serialize_spec(m, serial).len() as int,
        ),
{
    let out = serialize_spec(m, serial);
    let body = encode_values(Seq::empty(), m.body);
    let h3 = written_header(m, serial);
    let hv = header_array(m);
    lemma_serialized_layout(m, serial);
    lemma_message_types_round_trip(m.message_type, 0);
    let d = DecoderState { buf: out, pos: 4, little_endian: true };
    assert(d == reader(out, 4));
    assert(at_pos(d, 8) == reader(out, 8));
    assert(at_pos(d, 12) == reader(out, 12));
    assert(items_of(hv) == Some(header_fields(m)));
    lemma_apply_header(m, serial);
    let body_start = round_up_8(h3.len() as int);
    if m.body.len() > 0 {
        lemma_signature_nonempty(m.body);
        assert(body + Seq::<u8>::empty() =~= body);
        lemma_body_round_trip(m.body, Seq::empty());
        assert(DecoderState { buf: out.subrange(body_start, body_start + body.len()), pos: 0, little_endian: true } == reader(body, 0));
    } else {
        assert(m.body =~= Seq::<ValueView>::empty());
    }
}

} // verus!
