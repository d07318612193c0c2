//! D-Bus message framing.
//!
//! ```text
//!   byte   endianness ('l' little, 'B' big)
//!   byte   message type
//!   byte   flags
//!   byte   protocol version (1)
//!   u32    body length
//!   u32    serial
//!   a(yv)  header fields: path, interface, member, signature, ...
//!   ---- padded to 8 ----
//!   body
//! ```

use vstd::prelude::*;
use vstd::slice::slice_subrange;
use vstd::string::StringSliceAdditionalSpecFns;
use vstd::utf8::encode_utf8;
use crate::dbus::codec::{
    at_pos, decode_fields, decode_value, encode_value, encode_values, padded, read_u32, u32_at,
    CodecError, CodecErrorView, Decoder, DecoderState, Encoder,
};
use crate::dbus::value::{
    items_of, lemma_values_view, signatures_of, text_of, unsigned_of, value_view, values_view,
    Value, ValueView,
};
use crate::bytes::u32_le_bytes;

verus! {

/// Header field codes.
pub const FIELD_PATH: u8 = 1;
pub const FIELD_INTERFACE: u8 = 2;
pub const FIELD_MEMBER: u8 = 3;
pub const FIELD_ERROR_NAME: u8 = 4;
pub const FIELD_REPLY_SERIAL: u8 = 5;
pub const FIELD_DESTINATION: u8 = 6;
pub const FIELD_SENDER: u8 = 7;
pub const FIELD_SIGNATURE: u8 = 8;
pub const FIELD_UNIX_FDS: u8 = 9;

/// `NO_REPLY_EXPECTED`.
pub const FLAG_NO_REPLY_EXPECTED: u8 = 0x01;

/// The four kinds of D-Bus message, as the header's type byte encodes them.
#[derive(Debug, Clone, Copy, PartialEq, Eq, Structural)]
pub enum MessageType {
    MethodCall,
    MethodReturn,
    Error,
    Signal,
}

/// The type byte of each kind.
pub open spec fn message_type_code(t: MessageType) -> u8 {
    match t {
        MessageType::MethodCall => 1,
        MessageType::MethodReturn => 2,
        MessageType::Error => 3,
        MessageType::Signal => 4,
    }
}

/// The kind a type byte names, if any.
pub open spec fn message_type_from(v: u8) -> Option<MessageType> {
    match v {
        1 => Some(MessageType::MethodCall),
        2 => Some(MessageType::MethodReturn),
        3 => Some(MessageType::Error),
        4 => Some(MessageType::Signal),
        _ => None,
    }
}

impl MessageType {
    pub fn from_u8(v: u8) -> (t: Option<Self>)
        ensures
            t == message_type_from(v),
    {
        match v {
            1 => Some(MessageType::MethodCall),
            2 => Some(MessageType::MethodReturn),
            3 => Some(MessageType::Error),
            4 => Some(MessageType::Signal),
            _ => None,
        }
    }

    /// The type byte of this kind.
    pub fn code(self) -> (c: u8)
        ensures
            c == message_type_code(self),
    {
        match self {
            MessageType::MethodCall => 1,
            MessageType::MethodReturn => 2,
            MessageType::Error => 3,
            MessageType::Signal => 4,
        }
    }
}

/// Every kind survives the trip to its type byte and back, and a byte names a
/// kind exactly when it is one of the four.
pub proof fn lemma_message_types_round_trip(t: MessageType, v: u8)
    ensures
        message_type_from(message_type_code(t)) == Some(t),
        message_type_from(v) is Some <==> 1 <= v <= 4,
{
}

/// The smallest multiple of 8 that is at least `n`.
pub open spec fn round_up_8(n: int) -> int {
    if n % 8 == 0 {
        n
    } else {
        n + (8 - n % 8)
    }
}

/// How long a message is, from its fixed header: twelve fixed bytes and the
/// header array's four-byte length, then the array, padded to 8, then the
/// body. The byte order is the one the first byte names.
pub open spec fn framed_length_spec(buf: Seq<u8>) -> Option<int> {
    if buf.len() < 16 {
        None
    } else {
        let le = buf[0] == 0x6C;
        let body_len = u32_at(buf, 4, le) as int;
        let fields_len = u32_at(buf, 12, le) as int;
        Some(round_up_8(16 + fields_len) + body_len)
    }
}

/// How long a message starting at `buf` is, or `None` if the fixed header has
/// not arrived yet. Used to know how much more to read. A length that no
/// `usize` can hold is `None` as well: such a message cannot be held.
pub fn framed_length(buf: &[u8]) -> (r: Option<usize>)
    ensures
        match r {
            Some(n) => framed_length_spec(buf@) == Some(n as int),
            None => framed_length_spec(buf@) is None || framed_length_spec(buf@).unwrap()
                > usize::MAX,
        },
{
    if buf.len() < 16 {
        return None;
    }
    let le = buf[0] == 0x6C;
    let body_len = read_u32_in(buf, 4, le) as u64;
    let fields_len = read_u32_in(buf, 12, le) as u64;
    let header_end = 16 + fields_len;
    let padded = if header_end % 8 == 0 {
        header_end
    } else {
        header_end + (8 - header_end % 8)
    };
    let total = padded + body_len;
    if total > usize::MAX as u64 {
        return None;
    }
    Some(total as usize)
}

/// A `u32` at `at`, in the given byte order.
fn read_u32_in(buf: &[u8], at: usize, le: bool) -> (v: u32)
    requires
        at + 4 <= buf@.len(),
    ensures
        v == u32_at(buf@, at as int, le),
{
    let b0 = buf[at];
    let b1 = buf[at + 1];
    let b2 = buf[at + 2];
    let b3 = buf[at + 3];
    if le {
        crate::bytes::read_u32_le(b0, b1, b2, b3)
    } else {
        crate::bytes::read_u32_le(b3, b2, b1, b0)
    }
}

// ── Messages ────────────────────────────────────────────────────────────────

/// One D-Bus message.
#[derive(Debug, Clone)]
pub struct Message {
    pub message_type: MessageType,
    pub flags: u8,
    pub serial: u32,
    pub path: Option<String>,
    pub interface: Option<String>,
    pub member: Option<String>,
    pub error_name: Option<String>,
    pub reply_serial: Option<u32>,
    pub destination: Option<String>,
    pub sender: Option<String>,
    pub body: Vec<Value>,
    /// How many file descriptors travelled beside this message. A `h` value
    /// in the body is an index into them.
    pub unix_fds: u32,
}

/// A message as values.
pub struct MessageView {
    pub message_type: MessageType,
    pub flags: u8,
    pub serial: u32,
    pub path: Option<Seq<char>>,
    pub interface: Option<Seq<char>>,
    pub member: Option<Seq<char>>,
    pub error_name: Option<Seq<char>>,
    pub reply_serial: Option<u32>,
    pub destination: Option<Seq<char>>,
    pub sender: Option<Seq<char>>,
    pub body: Seq<ValueView>,
    pub unix_fds: u32,
}

pub open spec fn text_view(o: Option<String>) -> Option<Seq<char>> {
    match o {
        Some(s) => Some(s@),
        None => None,
    }
}

impl View for Message {
    type V = MessageView;

    open spec fn view(&self) -> MessageView {
        MessageView {
            message_type: self.message_type,
            flags: self.flags,
            serial: self.serial,
            path: text_view(self.path),
            interface: text_view(self.interface),
            member: text_view(self.member),
            error_name: text_view(self.error_name),
            reply_serial: self.reply_serial,
            destination: text_view(self.destination),
            sender: text_view(self.sender),
            body: values_view(self.body@),
            unix_fds: self.unix_fds,
        }
    }
}

/// A message of the given kind with nothing else set.
pub open spec fn empty_message(t: MessageType) -> MessageView {
    MessageView {
        message_type: t,
        flags: 0,
        serial: 0,
        path: None,
        interface: None,
        member: None,
        error_name: None,
        reply_serial: None,
        destination: None,
        sender: None,
        body: Seq::empty(),
        unix_fds: 0,
    }
}

/// One header field: its code, and its value in a variant.
pub open spec fn field_value(code: u8, v: ValueView) -> ValueView {
    ValueView::Struct(seq![ValueView::Byte(code), ValueView::Variant(Box::new(v))])
}

pub open spec fn with_text_field(f: Seq<ValueView>, code: u8, t: Option<Seq<char>>, path: bool) -> Seq<
    ValueView,
> {
    match t {
        Some(s) => f.push(
            field_value(
                code,
                if path {
                    ValueView::ObjectPath(s)
                } else {
                    ValueView::Str(s)
                },
            ),
        ),
        None => f,
    }
}

/// The header fields a message carries, in the order they are written: the
/// ones that are set, and the body's signature when there is a body.
pub open spec fn header_fields(m: MessageView) -> Seq<ValueView> {
    let f1 = with_text_field(Seq::empty(), FIELD_PATH, m.path, true);
    let f2 = with_text_field(f1, FIELD_INTERFACE, m.interface, false);
    let f3 = with_text_field(f2, FIELD_MEMBER, m.member, false);
    let f4 = with_text_field(f3, FIELD_ERROR_NAME, m.error_name, false);
    let f5 = match m.reply_serial {
        Some(r) => f4.push(field_value(FIELD_REPLY_SERIAL, ValueView::Uint32(r))),
        None => f4,
    };
    let f6 = with_text_field(f5, FIELD_DESTINATION, m.destination, false);
    let f7 = with_text_field(f6, FIELD_SENDER, m.sender, false);
    if m.body.len() > 0 {
        f7.push(field_value(FIELD_SIGNATURE, ValueView::Signature(signatures_of(m.body))))
    } else {
        f7
    }
}

/// `(yv)`, the header array's element type.
pub open spec fn header_element() -> Seq<char> {
    seq!['(', 'y', 'v', ')']
}

/// A message on the wire: little-endian marker, type, flags, version 1, the
/// body's length, the serial, the header array, padding to 8, the body.
pub open spec fn serialize_spec(m: MessageView, serial: u32) -> Seq<u8> {
    let body = encode_values(Seq::empty(), m.body);
    let h0 = seq![0x6Cu8, message_type_code(m.message_type), m.flags, 1u8];
    let h1 = padded(h0, 4) + u32_le_bytes(body.len() as u32);
    let h2 = padded(h1, 4) + u32_le_bytes(serial);
    let h3 = encode_value(
        h2,
        ValueView::Array { element: header_element(), items: header_fields(m) },
    );
    padded(h3, 8) + body
}

/// Reading one header entry: its code and value set the field the code names;
/// an entry of any other shape, or a code nobody named, changes nothing. The
/// signature field is kept apart, as text.
pub open spec fn apply_field(m: MessageView, sig: Seq<char>, entry: ValueView) -> (MessageView, Seq<char>) {
    match items_of(entry) {
        None => (m, sig),
        Some(parts) => if parts.len() < 1 {
            (m, sig)
        } else {
            match unsigned_of(parts[0]) {
                None => (m, sig),
                Some(code) => if parts.len() < 2 {
                    (m, sig)
                } else {
                    let v = parts[1];
                    let c = code as u8;
                    if c == FIELD_PATH {
                        (MessageView { path: text_of(v), ..m }, sig)
                    } else if c == FIELD_INTERFACE {
                        (MessageView { interface: text_of(v), ..m }, sig)
                    } else if c == FIELD_MEMBER {
                        (MessageView { member: text_of(v), ..m }, sig)
                    } else if c == FIELD_ERROR_NAME {
                        (MessageView { error_name: text_of(v), ..m }, sig)
                    } else if c == FIELD_REPLY_SERIAL {
                        (
                            MessageView {
                                reply_serial: match unsigned_of(v) {
                                    Some(n) => Some(n as u32),
                                    None => None,
                                },
                                ..m
                            },
                            sig,
                        )
                    } else if c == FIELD_DESTINATION {
                        (MessageView { destination: text_of(v), ..m }, sig)
                    } else if c == FIELD_SENDER {
                        (MessageView { sender: text_of(v), ..m }, sig)
                    } else if c == FIELD_SIGNATURE {
                        (
                            m,
                            match text_of(v) {
                                Some(t) => t,
                                None => Seq::empty(),
                            },
                        )
                    } else if c == FIELD_UNIX_FDS {
                        (
                            MessageView {
                                unix_fds: match unsigned_of(v) {
                                    Some(n) => n as u32,
                                    None => 0,
                                },
                                ..m
                            },
                            sig,
                        )
                    } else {
                        (m, sig)
                    }
                },
            }
        },
    }
}

/// Every header entry applied in order.
pub open spec fn apply_fields(m: MessageView, sig: Seq<char>, entries: Seq<ValueView>) -> (
    MessageView,
    Seq<char>,
)
    decreases entries.len(),
{
    if entries.len() == 0 {
        (m, sig)
    } else {
        let (m1, s1) = apply_fields(m, sig, entries.drop_last());
        apply_field(m1, s1, entries.last())
    }
}

/// `a(yv)` as bytes.
pub open spec fn header_signature() -> Seq<u8> {
    seq![0x61u8, 0x28, 0x79, 0x76, 0x29]
}

/// Decoding one complete message: the fixed header, the header array read
/// from offset 12 with padding measured from the start, then, when the
/// header names a signature, the body, which starts at the next multiple
/// of 8 and is decoded from there.
pub open spec fn parse_spec(buf: Seq<u8>) -> Result<MessageView, CodecErrorView> {
    if buf.len() < 16 {
        Err(CodecErrorView::Truncated { wanted: 16, available: buf.len() as usize })
    } else {
        let le = buf[0] == 0x6C;
        match message_type_from(buf[1]) {
            None => Err(CodecErrorView::BadTypeCode(buf[1] as char)),
            Some(t) => {
                let d = DecoderState { buf, pos: 4, little_endian: le };
                let (p1, r1) = read_u32(d);
                match r1 {
                    Err(e) => Err(e),
                    Ok(body_len) => {
                        let (p2, r2) = read_u32(at_pos(d, p1));
                        match r2 {
                            Err(e) => Err(e),
                            Ok(serial) => {
                                let (p3, r3) = decode_value(at_pos(d, p2), header_signature());
                                match r3 {
                                    Err(e) => Err(e),
                                    Ok(fields) => {
                                        let entries = match items_of(fields) {
                                            Some(items) => items,
                                            None => Seq::empty(),
                                        };
                                        let start = MessageView {
                                            flags: buf[2],
                                            serial,
                                            ..empty_message(t)
                                        };
                                        let (m, sig) = apply_fields(start, Seq::empty(), entries);
                                        let body_start = round_up_8(p3);
                                        if sig.len() == 0 {
                                            Ok(m)
                                        } else if body_start + body_len > buf.len() {
                                            Err(
                                                CodecErrorView::Truncated {
                                                    wanted: body_len as usize,
                                                    available: (if buf.len() > body_start {
                                                        buf.len() - body_start
                                                    } else {
                                                        0
                                                    }) as usize,
                                                },
                                            )
                                        } else {
                                            let bd = DecoderState {
                                                buf: buf.subrange(body_start, body_start + body_len),
                                                pos: 0,
                                                little_endian: le,
                                            };
                                            match decode_fields(bd, encode_utf8(sig)).1 {
                                                Err(e) => Err(e),
                                                Ok(body) => Ok(MessageView { body, ..m }),
                                            }
                                        }
                                    },
                                }
                            },
                        }
                    },
                }
            },
        }
    }
}

/// One header field as a value.
fn header_field(code: u8, v: Value) -> (f: Value)
    ensures
        f@ == field_value(code, v@),
{
    let mut parts: Vec<Value> = Vec::new();
    let first = Value::Byte(code);
    let second = Value::Variant(Box::new(v));
    parts.push(first);
    parts.push(second);
    proof {
        lemma_values_view(parts@);
        assert(values_view(parts@) =~= seq![first@, second@]);
    }
    Value::Struct(parts)
}

/// A copy of optional text.
fn copy_text(o: &Option<String>) -> (c: Option<String>)
    ensures
        text_view(c) == text_view(*o),
{
    match o {
        Some(s) => Some(s.clone()),
        None => None,
    }
}

/// Append a header field carrying optional text.
fn push_text_field(fields: &mut Vec<Value>, code: u8, t: &Option<String>, path: bool)
    ensures
        values_view(final(fields)@) == with_text_field(values_view(old(fields)@), code, text_view(*t), path),
{
    match t {
        Some(s) => {
            let v = if path {
                Value::ObjectPath(s.clone())
            } else {
                Value::Str(s.clone())
            };
            let f = header_field(code, v);
            let ghost prev = fields@;
            fields.push(f);
            assert(fields@.drop_last() =~= prev);
        },
        None => {},
    }
}

impl Message {
    fn empty(message_type: MessageType) -> (m: Self)
        ensures
            m@ == empty_message(message_type),
    {
        let m = Message {
            message_type,
            flags: 0,
            serial: 0,
            path: None,
            interface: None,
            member: None,
            error_name: None,
            reply_serial: None,
            destination: None,
            sender: None,
            body: Vec::new(),
            unix_fds: 0,
        };
        assert(values_view(m.body@) =~= Seq::<ValueView>::empty());
        m
    }

    /// A method call.
    pub fn call(destination: &str, path: &str, interface: &str, member: &str) -> (m: Self)
        ensures
            m@ == (MessageView {
                destination: Some(destination@),
                path: Some(path@),
                interface: Some(interface@),
                member: Some(member@),
                ..empty_message(MessageType::MethodCall)
            }),
    {
        let mut m = Self::empty(MessageType::MethodCall);
        m.destination = Some(destination.to_string());
        m.path = Some(path.to_string());
        m.interface = Some(interface.to_string());
        m.member = Some(member.to_string());
        m
    }

    /// A signal.
    pub fn signal(path: &str, interface: &str, member: &str) -> (m: Self)
        ensures
            m@ == (MessageView {
                path: Some(path@),
                interface: Some(interface@),
                member: Some(member@),
                ..empty_message(MessageType::Signal)
            }),
    {
        let mut m = Self::empty(MessageType::Signal);
        m.path = Some(path.to_string());
        m.interface = Some(interface.to_string());
        m.member = Some(member.to_string());
        m
    }

    /// A successful reply to `call`, addressed to whoever sent it.
    pub fn reply_to(call: &Message) -> (m: Self)
        ensures
            m@ == (MessageView {
                reply_serial: Some(call.serial),
                destination: call@.sender,
                ..empty_message(MessageType::MethodReturn)
            }),
    {
        let mut m = Self::empty(MessageType::MethodReturn);
        m.reply_serial = Some(call.serial);
        m.destination = copy_text(&call.sender);
        m
    }

    /// An error reply to `call`: the error's name, and its text as the body.
    pub fn error_to(call: &Message, name: &str, text: &str) -> (m: Self)
        ensures
            m@ == (MessageView {
                reply_serial: Some(call.serial),
                destination: call@.sender,
                error_name: Some(name@),
                body: seq![ValueView::Str(text@)],
                ..empty_message(MessageType::Error)
            }),
    {
        let mut m = Self::empty(MessageType::Error);
        m.reply_serial = Some(call.serial);
        m.destination = copy_text(&call.sender);
        m.error_name = Some(name.to_string());
        let mut body: Vec<Value> = Vec::new();
        body.push(Value::Str(text.to_string()));
        proof {
            lemma_values_view(body@);
            assert(values_view(body@) =~= seq![ValueView::Str(text@)]);
        }
        m.body = body;
        m
    }

    /// Attach a body.
    pub fn with_body(self, body: Vec<Value>) -> (m: Self)
        ensures
            m@ == (MessageView { body: values_view(body@), ..self@ }),
    {
        let mut m = self;
        m.body = body;
        m
    }

    /// The body's signature, derived from the values themselves.
    pub fn signature(&self) -> (s: String)
        ensures
            s@ == signatures_of(self@.body),
    {
        let mut out = String::new();
        let mut i: usize = 0;
        while i < self.body.len()
            invariant
                i <= self.body@.len(),
                out@ == signatures_of(values_view(self.body@.take(i as int))),
            decreases self.body@.len() - i,
        {
            let sig = self.body[i].signature();
            crate::text::push_str(&mut out, sig.as_str());
            proof {
                let t = self.body@.take(i + 1);
                assert(t.drop_last() =~= self.body@.take(i as int));
                assert(t.last() == self.body@[i as int]);
                let vt = values_view(t);
                let prev = values_view(self.body@.take(i as int));
                assert(vt == prev.push(value_view(self.body@[i as int])));
                assert(vt.drop_last() =~= prev);
            }
            i = i + 1;
        }
        assert(self.body@.take(self.body@.len() as int) =~= self.body@);
        out
    }

    /// `body[i]`, if present.
    pub fn arg(&self, i: usize) -> (v: Option<&Value>)
        ensures
            match v {
                Some(x) => i < self@.body.len() && x@ == self@.body[i as int],
                None => i >= self@.body.len(),
            },
    {
        proof {
            lemma_values_view(self.body@);
        }
        if i < self.body.len() {
            Some(&self.body[i])
        } else {
            None
        }
    }

    /// The text of an error reply: its first argument, when that is text.
    pub fn error_text(&self) -> (t: Option<String>)
        ensures
            t is Some ==> self@.body.len() > 0,
            self@.body.len() > 0 ==> text_view(t) == text_of(self@.body[0]),
            self@.body.len() == 0 ==> t is None,
    {
        proof {
            lemma_values_view(self.body@);
        }
        if self.body.len() == 0 {
            return None;
        }
        match self.body[0].as_str() {
            Some(s) => Some(s.to_string()),
            None => None,
        }
    }

    /// Encode to the wire, under `serial`. The serial on the struct is not
    /// used: the connection assigns serials.
    pub fn serialize(&self, serial: u32) -> (out: Vec<u8>)
        ensures
            out@ == serialize_spec(self@, serial),
    {
        let mut body_encoder = Encoder::new();
        body_encoder.body(self.body.as_slice());
        let body = body_encoder.finish();

        let mut fields: Vec<Value> = Vec::new();
        proof {
            assert(values_view(fields@) =~= Seq::<ValueView>::empty());
        }
        push_text_field(&mut fields, FIELD_PATH, &self.path, true);
        push_text_field(&mut fields, FIELD_INTERFACE, &self.interface, false);
        push_text_field(&mut fields, FIELD_MEMBER, &self.member, false);
        push_text_field(&mut fields, FIELD_ERROR_NAME, &self.error_name, false);
        match self.reply_serial {
            Some(r) => {
                let f = header_field(FIELD_REPLY_SERIAL, Value::Uint32(r));
                let ghost prev = fields@;
                fields.push(f);
                assert(fields@.drop_last() =~= prev);
            },
            None => {},
        }
        push_text_field(&mut fields, FIELD_DESTINATION, &self.destination, false);
        push_text_field(&mut fields, FIELD_SENDER, &self.sender, false);
        if self.body.len() > 0 {
            let f = header_field(FIELD_SIGNATURE, Value::Signature(self.signature()));
            let ghost prev = fields@;
            fields.push(f);
            assert(fields@.drop_last() =~= prev);
        }
        proof {
            lemma_values_view(self.body@);
        }
        assert(values_view(fields@) == header_fields(self@));

        let mut encoder = Encoder::new();
        encoder.byte(0x6C);
        encoder.byte(self.message_type.code());
        encoder.byte(self.flags);
        encoder.byte(1);
        assert(encoder@ =~= seq![0x6Cu8, message_type_code(self.message_type), self.flags, 1u8]);
        #[verifier::truncate]
        let body_len = body.len() as u32;
        encoder.u32(body_len);
        encoder.u32(serial);
        let element = String::from_str("(yv)");
        proof {
            reveal_strlit("(yv)");
        }
        assert(element@ =~= header_element());
        let header = Value::Array { element, items: fields };
        encoder.value(&header);
        encoder.align(8);

        let mut out = encoder.finish();
        crate::dbus::codec::push_slice(&mut out, body.as_slice());
        out
    }

    /// How long a message starting at `buf` is, or `None` if the fixed
    /// header has not arrived yet.
    pub fn framed_length(buf: &[u8]) -> (r: Option<usize>)
        ensures
            match r {
                Some(n) => framed_length_spec(buf@) == Some(n as int),
                None => framed_length_spec(buf@) is None || framed_length_spec(buf@).unwrap()
                    > usize::MAX,
            },
    {
        framed_length(buf)
    }
}

impl Message {
    /// Decode one complete message.
    #[verifier::spinoff_prover]
    #[verifier::rlimit(40)]
    pub fn parse(buf: &[u8]) -> (r: Result<Message, CodecError>)
        ensures
            match r {
                Ok(m) => parse_spec(buf@) == Ok::<MessageView, CodecErrorView>(m@),
                Err(e) => parse_spec(buf@) == Err::<MessageView, CodecErrorView>(e@),
            },
    {
        if buf.len() < 16 {
            return Err(CodecError::Truncated { wanted: 16, available: buf.len() });
        }
        let little_endian = buf[0] == 0x6C;
        let message_type = match MessageType::from_u8(buf[1]) {
            Some(t) => t,
            None => {
                return Err(CodecError::BadTypeCode(buf[1] as char));
            },
        };
        let flags = buf[2];
        let ghost d = DecoderState { buf: buf@, pos: 4, little_endian };

        let mut decoder = Decoder::at(buf, 4, little_endian);
        let body_len = match decoder.u32() {
            Err(e) => {
                return Err(e);
            },
            Ok(n) => n,
        };
        let serial = match decoder.u32() {
            Err(e) => {
                return Err(e);
            },
            Ok(n) => n,
        };
        let ghost before_fields = decoder@;
        assert(before_fields == at_pos(d, before_fields.pos));
        let header_sig: [u8; 5] = [0x61, 0x28, 0x79, 0x76, 0x29];
        assert(header_sig@ =~= header_signature());
        let fields = match decoder.value_of(&header_sig) {
            Err(e) => {
                return Err(e);
            },
            Ok(v) => v,
        };

        let mut message = Self::empty(message_type);
        message.flags = flags;
        message.serial = serial;
        let mut signature = String::new();
        let ghost start = message@;

        let empty: [Value; 0] = [];
        let entries: &[Value] = match fields.as_array() {
            Some(items) => items,
            None => &empty,
        };
        proof {
            lemma_values_view(entries@);
            assert(values_view(entries@) == match items_of(fields@) {
                Some(items) => items,
                None => Seq::<ValueView>::empty(),
            }) by {
                if items_of(fields@) is None {
                    assert(values_view(entries@) =~= Seq::<ValueView>::empty());
                }
            }
        }
        let mut k: usize = 0;
        while k < entries.len()
            invariant
                k <= entries@.len(),
                values_view(entries@).len() == entries@.len(),
                forall|i: int| 0 <= i < entries@.len() ==> #[trigger] values_view(entries@)[i] == value_view(entries@[i]),
                (message@, signature@) == apply_fields(
                    start,
                    Seq::empty(),
                    values_view(entries@).take(k as int),
                ),
            decreases entries@.len() - k,
        {
            proof {
                let t = values_view(entries@).take(k + 1);
                assert(t.drop_last() =~= values_view(entries@).take(k as int));
                assert(t.last() == value_view(entries@[k as int]));
            }
            apply_entry(&mut message, &mut signature, &entries[k]);
            k = k + 1;
        }
        proof {
            assert(values_view(entries@).take(entries@.len() as int) =~= values_view(entries@));
        }

        if signature.as_str().is_empty() {
            return Ok(message);
        }
        // The body starts at the next multiple of 8 after the header array.
        let pos = decoder.position() as u128;
        let body_start: u128 = if pos % 8 == 0 {
            pos
        } else {
            pos + (8 - pos % 8)
        };
        let end: u128 = body_start + body_len as u128;
        if end > buf.len() as u128 {
            let available: usize = if buf.len() as u128 > body_start {
                (buf.len() as u128 - body_start) as usize
            } else {
                0
            };
            return Err(CodecError::Truncated { wanted: body_len as usize, available });
        }
        let piece = slice_subrange(buf, body_start as usize, end as usize);
        let mut body_decoder = Decoder::new(piece, little_endian);
        assert(signature@.len() != 0);
        match body_decoder.body(signature.as_str()) {
            Err(e) => Err(e),
            Ok(body) => {
                message.body = body;
                Ok(message)
            },
        }
    }
}

/// Apply one header entry to the message being read.
fn apply_entry(message: &mut Message, signature: &mut String, entry: &Value)
    ensures
        (final(message)@, final(signature)@) == apply_field(old(message)@, old(signature)@, entry@),
{
    let parts = match entry.as_array() {
        Some(parts) => parts,
        None => {
            return;
        },
    };
    proof {
        lemma_values_view(parts@);
    }
    if parts.len() < 1 {
        return;
    }
    let code = match parts[0].as_u64() {
        Some(c) => c,
        None => {
            return;
        },
    };
    if parts.len() < 2 {
        return;
    }
    let v = &parts[1];
    #[verifier::truncate]
    let c = code as u8;
    if c == FIELD_PATH {
        message.path = to_text(v.as_str());
    } else if c == FIELD_INTERFACE {
        message.interface = to_text(v.as_str());
    } else if c == FIELD_MEMBER {
        message.member = to_text(v.as_str());
    } else if c == FIELD_ERROR_NAME {
        message.error_name = to_text(v.as_str());
    } else if c == FIELD_REPLY_SERIAL {
        message.reply_serial = match v.as_u64() {
            Some(n) => {
                #[verifier::truncate]
                let r = n as u32;
                Some(r)
            },
            None => None,
        };
    } else if c == FIELD_DESTINATION {
        message.destination = to_text(v.as_str());
    } else if c == FIELD_SENDER {
        message.sender = to_text(v.as_str());
    } else if c == FIELD_SIGNATURE {
        *signature = match v.as_str() {
            Some(t) => t.to_string(),
            None => String::new(),
        };
    } else if c == FIELD_UNIX_FDS {
        message.unix_fds = match v.as_u64() {
            Some(n) => {
                #[verifier::truncate]
                let r = n as u32;
                r
            },
            None => 0,
        };
    }
}

/// Optional text, owned.
fn to_text(t: Option<&str>) -> (o: Option<String>)
    ensures
        text_view(o) == match t {
            Some(s) => Some(s@),
            None => None::<Seq<char>>,
        },
{
    match t {
        Some(s) => Some(s.to_string()),
        None => None,
    }
}

} // verus!
