//! Marshalling values to and from the D-Bus wire format.
//!
//! Every value is padded to its natural alignment, measured from the start
//! of the *message*, so an encoder carries a position, not just a buffer. The
//! bytes carry no type tags, so decoding is signature-directed and bounds-
//! checks every read instead of trusting lengths from the peer.

use vstd::prelude::*;
use vstd::slice::slice_subrange;
use vstd::string::StringSliceAdditionalSpecFns;
use vstd::utf8::{decode_utf8, encode_utf8, valid_utf8};
use crate::dbus::value::{
    alignment, alignment_of, lemma_type_len_bounds, lemma_values_view, signature_of, type_len,
    type_length, value_view, values_view, Value, ValueView,
};
use crate::bytes::{
    push_u16_le, push_u32_le, push_u64_le, read_u16_le, read_u32_le, read_u64_le, u16_le,
    u16_le_bytes, u32_le, u32_le_bytes, u64_le, u64_le_bytes,
};
use crate::text::{
    char_debug, debug_char, debug_str, decimal_digits, lossy_string, push_decimal, push_str,
    str_debug, utf8_lossy, utf8_string,
};

verus! {

/// A malformed or unexpected message.
#[derive(Debug, Clone, PartialEq)]
pub enum CodecError {
    /// The peer's length field ran past the end of the buffer.
    Truncated { wanted: usize, available: usize },
    /// A type code that is not in the specification.
    BadTypeCode(char),
    /// A signature that does not parse.
    BadSignature(String),
    /// A string field that was not valid UTF-8.
    BadUtf8,
    /// An array claimed a length that is not a whole number of elements.
    BadArrayLength(usize),
}

/// A codec error as a mathematical value.
pub enum CodecErrorView {
    Truncated { wanted: usize, available: usize },
    BadTypeCode(char),
    BadSignature(Seq<char>),
    BadUtf8,
    BadArrayLength(usize),
}

impl View for CodecError {
    type V = CodecErrorView;

    open spec fn view(&self) -> CodecErrorView {
        match self {
            CodecError::Truncated { wanted, available } => CodecErrorView::Truncated {
                wanted: *wanted,
                available: *available,
            },
            CodecError::BadTypeCode(c) => CodecErrorView::BadTypeCode(*c),
            CodecError::BadSignature(s) => CodecErrorView::BadSignature(s@),
            CodecError::BadUtf8 => CodecErrorView::BadUtf8,
            CodecError::BadArrayLength(n) => CodecErrorView::BadArrayLength(*n),
        }
    }
}

/// What a codec error says, in words.
pub open spec fn codec_error_text(e: CodecErrorView) -> Seq<char> {
    match e {
        CodecErrorView::Truncated { wanted, available } => "message truncated: wanted "@
            + decimal_digits(wanted as nat) + " bytes, "@ + decimal_digits(available as nat)
            + " available"@,
        CodecErrorView::BadTypeCode(c) => "unknown D-Bus type code "@ + char_debug(c),
        CodecErrorView::BadSignature(s) => "malformed signature "@ + str_debug(s),
        CodecErrorView::BadUtf8 => "string field was not valid UTF-8"@,
        CodecErrorView::BadArrayLength(n) => "array length "@ + decimal_digits(n as nat)
            + " is not a whole number of elements"@,
    }
}

impl CodecError {
    /// The error in words.
    pub fn to_string(&self) -> (s: String)
        ensures
            s@ == codec_error_text(self@),
    {
        match self {
            CodecError::Truncated { wanted, available } => {
                let mut s = String::from_str("message truncated: wanted ");
                push_decimal(&mut s, *wanted as u64);
                push_str(&mut s, " bytes, ");
                push_decimal(&mut s, *available as u64);
                push_str(&mut s, " available");
                s
            },
            CodecError::BadTypeCode(c) => {
                let mut s = String::from_str("unknown D-Bus type code ");
                let code = debug_char(*c);
                push_str(&mut s, code.as_str());
                s
            },
            CodecError::BadSignature(sig) => {
                let mut s = String::from_str("malformed signature ");
                let quoted = debug_str(sig.as_str());
                push_str(&mut s, quoted.as_str());
                s
            },
            CodecError::BadUtf8 => String::from_str("string field was not valid UTF-8"),
            CodecError::BadArrayLength(n) => {
                let mut s = String::from_str("array length ");
                push_decimal(&mut s, *n as u64);
                push_str(&mut s, " is not a whole number of elements");
                s
            },
        }
    }
}

pub open spec fn result_view<T>(r: Result<T, CodecError>) -> Result<T, CodecErrorView> {
    match r {
        Ok(v) => Ok(v),
        Err(e) => Err(e@),
    }
}

// ── Alignment ───────────────────────────────────────────────────────────────

/// How many zero bytes bring `len` up to a multiple of `n`.
pub open spec fn padding(len: int, n: int) -> int {
    if n <= 0 || len % n == 0 {
        0
    } else {
        n - len % n
    }
}

/// `n` zero bytes.
pub open spec fn zeros(n: int) -> Seq<u8> {
    Seq::new(n as nat, |i: int| 0u8)
}

/// `buf` padded with zeroes to a multiple of `n`.
pub open spec fn padded(buf: Seq<u8>, n: int) -> Seq<u8> {
    buf + zeros(padding(buf.len() as int, n))
}

// ── Encoding ────────────────────────────────────────────────────────────────

/// Writes values in little-endian, tracking position so padding is correct.
#[derive(Debug)]
pub struct Encoder {
    buf: Vec<u8>,
}

impl View for Encoder {
    type V = Seq<u8>;

    closed spec fn view(&self) -> Seq<u8> {
        self.buf@
    }
}

impl Encoder {
    pub fn new() -> (e: Self)
        ensures
            e@ == Seq::<u8>::empty(),
    {
        Encoder { buf: Vec::new() }
    }

    /// Start encoding at a non-zero offset, for a buffer that continues one
    /// that has already been written.
    pub fn at_offset(offset: usize) -> (e: Self)
        ensures
            e@ == zeros(offset as int),
    {
        let buf = vec![0u8; offset];
        assert(buf@ =~= zeros(offset as int));
        Encoder { buf }
    }

    pub fn len(&self) -> (n: usize)
        ensures
            n == self@.len(),
    {
        self.buf.len()
    }

    pub fn is_empty(&self) -> (b: bool)
        ensures
            b == (self@.len() == 0),
    {
        self.buf.len() == 0
    }

    /// The bytes written, discarding `skip` leading bytes of offset padding.
    pub fn finish_from(self, skip: usize) -> (out: Vec<u8>)
        ensures
            out@ == self@.skip(if skip <= self@.len() { skip as int } else { self@.len() as int }),
    {
        let from = if skip <= self.buf.len() {
            skip
        } else {
            self.buf.len()
        };
        let out = vstd::slice::slice_to_vec(slice_subrange(self.buf.as_slice(), from, self.buf.len()));
        assert(out@ =~= self@.skip(from as int));
        out
    }

    pub fn finish(self) -> (out: Vec<u8>)
        ensures
            out@ == self@,
    {
        self.buf
    }

    /// Pad with zeroes until the position is a multiple of `n`.
    ///
    /// With `n` zero no position is a multiple but zero itself, so padding a
    /// non-empty buffer would never end; that input is excluded.
    pub fn align(&mut self, n: usize)
        requires
            n > 0 || old(self)@.len() == 0,
        ensures
            final(self)@ == padded(old(self)@, n as int),
    {
        if n == 0 {
            assert(old(self)@ =~= padded(old(self)@, n as int));
            return;
        }
        while self.buf.len() % n != 0
            invariant
                n > 0,
                old(self)@.len() <= self.buf@.len() <= old(self)@.len() + padding(
                    old(self)@.len() as int,
                    n as int,
                ),
                self.buf@ == old(self)@ + zeros(self.buf@.len() - old(self)@.len()),
                (self.buf@.len() - old(self)@.len()) + padding(self.buf@.len() as int, n as int)
                    == padding(old(self)@.len() as int, n as int),
            decreases padding(self.buf@.len() as int, n as int),
        {
            let ghost before = self.buf@;
            self.buf.push(0);
            assert(self.buf@ =~= old(self)@ + zeros(self.buf@.len() - old(self)@.len()));
            proof {
                lemma_padding_step(before.len() as int, n as int);
            }
        }
        assert(self.buf@ =~= padded(old(self)@, n as int));
    }

    pub fn byte(&mut self, v: u8)
        ensures
            final(self)@ == old(self)@.push(v),
    {
        self.buf.push(v)
    }

    pub fn u16(&mut self, v: u16)
        ensures
            final(self)@ == padded(old(self)@, 2) + u16_le_bytes(v),
    {
        self.align(2);
        push_u16_le(&mut self.buf, v);
    }

    pub fn u32(&mut self, v: u32)
        ensures
            final(self)@ == padded(old(self)@, 4) + u32_le_bytes(v),
    {
        self.align(4);
        push_u32_le(&mut self.buf, v);
    }

    pub fn u64(&mut self, v: u64)
        ensures
            final(self)@ == padded(old(self)@, 8) + u64_le_bytes(v),
    {
        self.align(8);
        push_u64_le(&mut self.buf, v);
    }

    /// `s` / `o`: 32-bit length, bytes, then a NUL that is not counted.
    pub fn string(&mut self, s: &str)
        ensures
            final(self)@ == padded(old(self)@, 4) + u32_le_bytes(s.spec_bytes().len() as u32)
                + s.spec_bytes() + seq![0u8],
    {
        let bytes = s.as_bytes();
        self.u32(bytes.len() as u32);
        push_slice(&mut self.buf, bytes);
        self.buf.push(0);
    }

    /// `g`: 8-bit length, bytes, NUL. Signatures are short by definition.
    pub fn signature(&mut self, s: &str)
        ensures
            final(self)@ == old(self)@ + seq![s.spec_bytes().len() as u8] + s.spec_bytes() + seq![
                0u8,
            ],
    {
        let bytes = s.as_bytes();
        self.buf.push(bytes.len() as u8);
        push_slice(&mut self.buf, bytes);
        self.buf.push(0);
    }
}

/// The alignment of an array's elements: that of the first byte of their
/// signature, or 1 for an empty one.
pub open spec fn element_alignment(element: Seq<char>) -> int {
    let b = encode_utf8(element);
    if b.len() > 0 {
        alignment_of(b[0]) as int
    } else {
        1
    }
}

/// `b` with the four bytes at `at` replaced by `v`, little-endian.
pub open spec fn backfilled(b: Seq<u8>, at: int, v: u32) -> Seq<u8> {
    b.subrange(0, at) + u32_le_bytes(v) + b.subrange(at + 4, b.len() as int)
}

/// The buffer after writing one value after `buf`: every value padded to its
/// alignment, measured from the start of the buffer.
pub open spec fn encode_value(buf: Seq<u8>, v: ValueView) -> Seq<u8>
    decreases v,
{
    match v {
        ValueView::Byte(b) => buf.push(b),
        ValueView::Bool(b) => padded(buf, 4) + u32_le_bytes(
            if b {
                1
            } else {
                0
            },
        ),
        ValueView::Int16(n) => padded(buf, 2) + u16_le_bytes(n as u16),
        ValueView::Uint16(n) => padded(buf, 2) + u16_le_bytes(n),
        ValueView::Int32(n) => padded(buf, 4) + u32_le_bytes(n as u32),
        ValueView::Uint32(n) => padded(buf, 4) + u32_le_bytes(n),
        ValueView::UnixFd(n) => padded(buf, 4) + u32_le_bytes(n),
        ValueView::Int64(n) => padded(buf, 8) + u64_le_bytes(n as u64),
        ValueView::Uint64(n) => padded(buf, 8) + u64_le_bytes(n),
        ValueView::Double(n) => padded(buf, 8) + u64_le_bytes(n),
        ValueView::Str(s) => string_bytes(buf, s),
        ValueView::ObjectPath(s) => string_bytes(buf, s),
        ValueView::Signature(s) => signature_bytes(buf, s),
        ValueView::Array { element, items } => {
            // The length counts the element bytes only, so it is written
            // after them, into four bytes reserved before the padding.
            let b1 = padded(buf, 4);
            let b2 = b1 + u32_le_bytes(0);
            let b3 = padded(b2, element_alignment(element));
            let b4 = encode_values(b3, items);
            backfilled(b4, b1.len() as int, (b4.len() - b3.len()) as u32)
        },
        ValueView::Struct(fields) => encode_values(padded(buf, 8), fields),
        ValueView::DictEntry(k, v) => encode_value(encode_value(padded(buf, 8), *k), *v),
        ValueView::Variant(inner) => encode_value(signature_bytes(buf, signature_of(*inner)), *inner),
    }
}

/// The buffer after writing each value in turn.
pub open spec fn encode_values(buf: Seq<u8>, vs: Seq<ValueView>) -> Seq<u8>
    decreases vs,
{
    if vs.len() == 0 {
        buf
    } else {
        encode_value(encode_values(buf, vs.drop_last()), vs.last())
    }
}

/// `s` / `o`: a `u32` length, the UTF-8 bytes, and a NUL that is not counted.
pub open spec fn string_bytes(buf: Seq<u8>, s: Seq<char>) -> Seq<u8> {
    padded(buf, 4) + u32_le_bytes(encode_utf8(s).len() as u32) + encode_utf8(s) + seq![0u8]
}

/// `g`: a byte length, the UTF-8 bytes, and a NUL.
pub open spec fn signature_bytes(buf: Seq<u8>, s: Seq<char>) -> Seq<u8> {
    buf + seq![encode_utf8(s).len() as u8] + encode_utf8(s) + seq![0u8]
}

/// Writing never takes back what was already written.
pub proof fn lemma_encoding_extends(buf: Seq<u8>, v: ValueView)
    ensures
        encode_value(buf, v).len() >= buf.len(),
        encode_value(buf, v).subrange(0, buf.len() as int) == buf,
    decreases v,
{
    lemma_padded_extends(buf, 2);
    lemma_padded_extends(buf, 4);
    lemma_padded_extends(buf, 8);
    match v {
        ValueView::Array { element, items } => {
            let b1 = padded(buf, 4);
            let b2 = b1 + u32_le_bytes(0);
            let b3 = padded(b2, element_alignment(element));
            lemma_padded_extends(b2, element_alignment(element));
            lemma_encodings_extend(b3, items);
            let b4 = encode_values(b3, items);
            assert(b4.subrange(0, b3.len() as int) == b3);
            assert(b3.subrange(0, b2.len() as int) == b2);
            assert(encode_value(buf, v).subrange(0, buf.len() as int) =~= buf);
        },
        ValueView::Struct(fields) => {
            lemma_encodings_extend(padded(buf, 8), fields);
            let b = encode_values(padded(buf, 8), fields);
            assert(b.subrange(0, padded(buf, 8).len() as int) == padded(buf, 8));
            assert(b.subrange(0, buf.len() as int) =~= buf);
        },
        ValueView::DictEntry(k, x) => {
            let b1 = padded(buf, 8);
            lemma_encoding_extends(b1, *k);
            let b2 = encode_value(b1, *k);
            lemma_encoding_extends(b2, *x);
            let b3 = encode_value(b2, *x);
            assert(b3.subrange(0, b2.len() as int) == b2);
            assert(b2.subrange(0, b1.len() as int) == b1);
            assert(b3.subrange(0, buf.len() as int) =~= buf);
        },
        ValueView::Variant(inner) => {
            let b1 = signature_bytes(buf, signature_of(*inner));
            lemma_encoding_extends(b1, *inner);
            let b2 = encode_value(b1, *inner);
            assert(b2.subrange(0, b1.len() as int) == b1);
            assert(b2.subrange(0, buf.len() as int) =~= buf);
        },
        _ => {
            assert(encode_value(buf, v).subrange(0, buf.len() as int) =~= buf);
        },
    }
}

/// Writing several values never takes back what was already written.
pub proof fn lemma_encodings_extend(buf: Seq<u8>, vs: Seq<ValueView>)
    ensures
        encode_values(buf, vs).len() >= buf.len(),
        encode_values(buf, vs).subrange(0, buf.len() as int) == buf,
    decreases vs,
{
    if vs.len() == 0 {
        assert(buf.subrange(0, buf.len() as int) =~= buf);
    } else {
        lemma_encodings_extend(buf, vs.drop_last());
        let b1 = encodings_prefix(buf, vs);
        lemma_encoding_extends(b1, vs.last());
        let b2 = encode_value(b1, vs.last());
        assert(b2.subrange(0, b1.len() as int) == b1);
        assert(b2.subrange(0, buf.len() as int) =~= buf);
    }
}

spec fn encodings_prefix(buf: Seq<u8>, vs: Seq<ValueView>) -> Seq<u8>
    recommends
        vs.len() > 0,
{
    encode_values(buf, vs.drop_last())
}

proof fn lemma_padded_extends(buf: Seq<u8>, n: int)
    ensures
        padded(buf, n).len() >= buf.len(),
        padded(buf, n).subrange(0, buf.len() as int) == buf,
{
    assert(padded(buf, n).subrange(0, buf.len() as int) =~= buf);
}

impl Encoder {
    /// Write one value.
    pub fn value(&mut self, v: &Value)
        ensures
            final(self)@ == encode_value(old(self)@, v@),
        decreases v,
    {
        match v {
            Value::Byte(b) => self.byte(*b),
            Value::Bool(b) => self.u32(if *b {
                1
            } else {
                0
            }),
            Value::Int16(n) => self.u16(*n as u16),
            Value::Uint16(n) => self.u16(*n),
            Value::Int32(n) => self.u32(*n as u32),
            Value::Uint32(n) => self.u32(*n),
            Value::UnixFd(n) => self.u32(*n),
            Value::Int64(n) => self.u64(*n as u64),
            Value::Uint64(n) => self.u64(*n),
            Value::Double(n) => self.u64(*n),
            Value::Str(s) => self.string(s.as_str()),
            Value::ObjectPath(s) => self.string(s.as_str()),
            Value::Signature(s) => self.signature(s.as_str()),
            Value::Array { element, items } => {
                self.align(4);
                let ghost b1 = self@;
                let length_at = self.buf.len();
                push_u32_le(&mut self.buf, 0);
                let eb = element.as_str().as_bytes();
                let elem_align = if eb.len() > 0 {
                    alignment(eb[0])
                } else {
                    1
                };
                self.align(elem_align);
                let ghost b3 = self@;
                let body_start = self.buf.len();
                self.values(items);
                proof {
                    lemma_encodings_extend(b3, values_view(items@));
                }
                #[verifier::truncate]
                let length = (self.buf.len() - body_start) as u32;
                let ghost b4 = self@;
                self.buf[length_at] = (length % 0x100) as u8;
                self.buf[length_at + 1] = ((length / 0x100) % 0x100) as u8;
                self.buf[length_at + 2] = ((length / 0x10000) % 0x100) as u8;
                self.buf[length_at + 3] = (length / 0x1000000) as u8;
                assert(self@ =~= backfilled(b4, b1.len() as int, length));
            },
            Value::Struct(fields) => {
                self.align(8);
                self.values(fields);
            },
            Value::DictEntry(k, val) => {
                self.align(8);
                self.value(k);
                self.value(val);
            },
            Value::Variant(inner) => {
                let sig = inner.signature();
                self.signature(sig.as_str());
                self.value(inner);
            },
        }
    }

    /// Write each value in turn.
    fn values(&mut self, values: &Vec<Value>)
        ensures
            final(self)@ == encode_values(old(self)@, values_view(values@)),
        decreases values,
    {
        let mut i: usize = 0;
        proof {
            lemma_values_view(values@);
        }
        while i < values.len()
            invariant
                i <= values@.len(),
                self@ == encode_values(old(self)@, values_view(values@.take(i as int))),
            decreases values@.len() - i,
        {
            proof {
                assert(decreases_to!(values => values[i as int]));
            }
            self.value(&values[i]);
            proof {
                let t = values@.take(i + 1);
                assert(t.drop_last() =~= values@.take(i as int));
                assert(t.last() == values@[i as int]);
                let vt = values_view(t);
                let prev = values_view(values@.take(i as int));
                assert(vt == prev.push(value_view(values@[i as int])));
                assert(vt.drop_last() =~= prev);
            }
            i = i + 1;
        }
        assert(values@.take(values@.len() as int) =~= values@);
    }

    /// Write a sequence of values, as a message body.
    pub fn body(&mut self, values: &[Value])
        ensures
            final(self)@ == encode_values(old(self)@, values_view(values@)),
    {
        let mut i: usize = 0;
        while i < values.len()
            invariant
                i <= values@.len(),
                self@ == encode_values(old(self)@, values_view(values@.take(i as int))),
            decreases values@.len() - i,
        {
            self.value(&values[i]);
            proof {
                let t = values@.take(i + 1);
                assert(t.drop_last() =~= values@.take(i as int));
                assert(t.last() == values@[i as int]);
                let vt = values_view(t);
                let prev = values_view(values@.take(i as int));
                assert(vt == prev.push(value_view(values@[i as int])));
                assert(vt.drop_last() =~= prev);
            }
            i = i + 1;
        }
        assert(values@.take(values@.len() as int) =~= values@);
    }
}

/// Append all of `bytes`.
pub fn push_slice(out: &mut Vec<u8>, bytes: &[u8])
    ensures
        final(out)@ == old(out)@ + bytes@,
{
    let mut i: usize = 0;
    while i < bytes.len()
        invariant
            i <= bytes@.len(),
            out@ == old(out)@ + bytes@.take(i as int),
        decreases bytes@.len() - i,
    {
        out.push(bytes[i]);
        i = i + 1;
        assert(out@ =~= old(out)@ + bytes@.take(i as int));
    }
    assert(bytes@.take(bytes@.len() as int) =~= bytes@);
}

proof fn lemma_padding_step(len: int, n: int)
    requires
        n > 0,
        len >= 0,
        len % n != 0,
    ensures
        padding(len, n) == padding(len + 1, n) + 1,
{
    assert((len + 1) % n == if len % n + 1 == n { 0 } else { len % n + 1 }) by (nonlinear_arith)
        requires
            n > 0,
            len >= 0,
    ;
}

// ── Decoding ────────────────────────────────────────────────────────────────

/// Reads values, signature-directed, bounds-checking every access.
pub struct Decoder<'a> {
    buf: &'a [u8],
    pos: usize,
    little_endian: bool,
}

/// What a decoder holds: the message, where it is, and the byte order.
pub struct DecoderState {
    pub buf: Seq<u8>,
    pub pos: int,
    pub little_endian: bool,
}

impl<'a> View for Decoder<'a> {
    type V = DecoderState;

    closed spec fn view(&self) -> DecoderState {
        DecoderState { buf: self.buf@, pos: self.pos as int, little_endian: self.little_endian }
    }
}

/// Whether `pos` is a multiple of `n`; with `n` zero only zero is.
pub open spec fn aligned_to(pos: int, n: int) -> bool {
    if n == 0 {
        pos == 0
    } else {
        pos % n == 0
    }
}

/// Skipping padding up to a multiple of `n`: the new position, and whether
/// the padding was there. Running off the end stops at the end.
pub open spec fn align_step(len: int, pos: int, n: int) -> (int, Result<(), CodecErrorView>) {
    if aligned_to(pos, n) {
        (pos, Ok(()))
    } else if n > 0 && pos + padding(pos, n) <= len {
        (pos + padding(pos, n), Ok(()))
    } else {
        (
            if pos < len {
                len
            } else {
                pos
            },
            Err(CodecErrorView::Truncated { wanted: 1, available: 0 }),
        )
    }
}

/// What is left after `pos`, or zero past the end.
pub open spec fn left(len: int, pos: int) -> int {
    if pos < len {
        len - pos
    } else {
        0
    }
}

/// Taking `n` bytes: the new position, or the error naming what was wanted.
pub open spec fn take_step(len: int, pos: int, n: int) -> (int, Result<(), CodecErrorView>) {
    if pos + n <= len {
        (pos + n, Ok(()))
    } else {
        (pos, Err(CodecErrorView::Truncated { wanted: n as usize, available: left(len, pos) as usize }))
    }
}

/// Aligning to `n` and then taking `n` bytes: the new position, and where the
/// bytes start.
pub open spec fn fixed_step(len: int, pos: int, n: int) -> (int, Result<int, CodecErrorView>) {
    let (p1, r1) = align_step(len, pos, n);
    match r1 {
        Err(e) => (p1, Err(e)),
        Ok(_) => {
            let (p2, r2) = take_step(len, p1, n);
            match r2 {
                Err(e) => (p2, Err(e)),
                Ok(_) => (p2, Ok(p1)),
            }
        },
    }
}

/// A `u16` at `at` in the given byte order.
pub open spec fn u16_at(b: Seq<u8>, at: int, le: bool) -> u16 {
    if le {
        u16_le(b[at], b[at + 1])
    } else {
        u16_le(b[at + 1], b[at])
    }
}

/// A `u32` at `at` in the given byte order.
pub open spec fn u32_at(b: Seq<u8>, at: int, le: bool) -> u32 {
    if le {
        u32_le(b[at], b[at + 1], b[at + 2], b[at + 3])
    } else {
        u32_le(b[at + 3], b[at + 2], b[at + 1], b[at])
    }
}

/// A `u64` at `at` in the given byte order.
pub open spec fn u64_at(b: Seq<u8>, at: int, le: bool) -> u64 {
    if le {
        u64_le(b.subrange(at, at + 8))
    } else {
        u64_le(b.subrange(at, at + 8).reverse())
    }
}

pub open spec fn read_byte(d: DecoderState) -> (int, Result<u8, CodecErrorView>) {
    let (p, r) = take_step(d.buf.len() as int, d.pos, 1);
    match r {
        Err(e) => (p, Err(e)),
        Ok(_) => (p, Ok(d.buf[d.pos])),
    }
}

pub open spec fn read_u16(d: DecoderState) -> (int, Result<u16, CodecErrorView>) {
    let (p, r) = fixed_step(d.buf.len() as int, d.pos, 2);
    match r {
        Err(e) => (p, Err(e)),
        Ok(at) => (p, Ok(u16_at(d.buf, at, d.little_endian))),
    }
}

pub open spec fn read_u32(d: DecoderState) -> (int, Result<u32, CodecErrorView>) {
    let (p, r) = fixed_step(d.buf.len() as int, d.pos, 4);
    match r {
        Err(e) => (p, Err(e)),
        Ok(at) => (p, Ok(u32_at(d.buf, at, d.little_endian))),
    }
}

pub open spec fn read_u64(d: DecoderState) -> (int, Result<u64, CodecErrorView>) {
    let (p, r) = fixed_step(d.buf.len() as int, d.pos, 8);
    match r {
        Err(e) => (p, Err(e)),
        Ok(at) => (p, Ok(u64_at(d.buf, at, d.little_endian))),
    }
}

/// After a length has been read at `p1`: `n` bytes of UTF-8, then one byte
/// of terminator.
pub open spec fn read_text_body(d: DecoderState, p1: int, n: int) -> (
    int,
    Result<Seq<char>, CodecErrorView>,
) {
    let len = d.buf.len() as int;
    let (p2, r2) = take_step(len, p1, n);
    match r2 {
        Err(e) => (p2, Err(e)),
        Ok(_) => {
            let bytes = d.buf.subrange(p1, p1 + n);
            if !valid_utf8(bytes) {
                (p2, Err(CodecErrorView::BadUtf8))
            } else {
                let (p3, r3) = take_step(len, p2, 1);
                match r3 {
                    Err(e) => (p3, Err(e)),
                    Ok(_) => (p3, Ok(decode_utf8(bytes))),
                }
            }
        },
    }
}

/// `s` / `o`: a `u32` length, that many bytes of UTF-8, and a NUL.
pub open spec fn read_string(d: DecoderState) -> (int, Result<Seq<char>, CodecErrorView>) {
    let (p1, r1) = read_u32(d);
    match r1 {
        Err(e) => (p1, Err(e)),
        Ok(n) => read_text_body(d, p1, n as int),
    }
}

/// `g`: a byte length, that many bytes of UTF-8, and a NUL.
pub open spec fn read_signature(d: DecoderState) -> (int, Result<Seq<char>, CodecErrorView>) {
    let (p1, r1) = read_byte(d);
    match r1 {
        Err(e) => (p1, Err(e)),
        Ok(n) => read_text_body(d, p1, n as int),
    }
}

/// The same decoder at another position.
pub open spec fn moved(d: DecoderState, new: DecoderState, pos: int) -> bool {
    new.buf == d.buf && new.little_endian == d.little_endian && new.pos == pos
}

/// The same decoder at another position.
pub open spec fn at_pos(d: DecoderState, pos: int) -> DecoderState {
    DecoderState { pos, ..d }
}

/// `g` read as its bytes: a byte length, that many bytes of UTF-8, a NUL.
pub open spec fn read_signature_bytes(d: DecoderState) -> (int, Result<Seq<u8>, CodecErrorView>) {
    let len = d.buf.len() as int;
    let (p1, r1) = read_byte(d);
    match r1 {
        Err(e) => (p1, Err(e)),
        Ok(n) => {
            let (p2, r2) = take_step(len, p1, n as int);
            match r2 {
                Err(e) => (p2, Err(e)),
                Ok(_) => {
                    let bytes = d.buf.subrange(p1, p1 + n);
                    if !valid_utf8(bytes) {
                        (p2, Err(CodecErrorView::BadUtf8))
                    } else {
                        let (p3, r3) = take_step(len, p2, 1);
                        match r3 {
                            Err(e) => (p3, Err(e)),
                            Ok(_) => (p3, Ok(bytes)),
                        }
                    }
                },
            }
        },
    }
}

/// A read whose result becomes a value.
pub open spec fn as_value<T>(r: (int, Result<T, CodecErrorView>), f: spec_fn(T) -> ValueView) -> (
    int,
    Result<ValueView, CodecErrorView>,
) {
    match r.1 {
        Ok(x) => (r.0, Ok(f(x))),
        Err(e) => (r.0, Err(e)),
    }
}

/// Bytes as text: exactly, when they are UTF-8, which the signature of any
/// value read is; otherwise with invalid sequences replaced.
pub open spec fn text_of_bytes(b: Seq<u8>) -> Seq<char> {
    if valid_utf8(b) {
        decode_utf8(b)
    } else {
        utf8_lossy(b)
    }
}

/// A continuation byte of UTF-8: a string cannot be cut just before one.
pub open spec fn is_continuation(b: u8) -> bool {
    0x80 <= b < 0xC0
}

/// Whether a bracketed signature can be cut inside its brackets: at least
/// the two brackets, and the last one not part of a longer character.
pub open spec fn bracket_inside_ok(sig: Seq<u8>) -> bool {
    sig.len() >= 2 && !is_continuation(sig[sig.len() - 1])
}

/// Values put in front of what a read of more values gave.
pub open spec fn prepend(xs: Seq<ValueView>, r: (int, Result<Seq<ValueView>, CodecErrorView>)) -> (
    int,
    Result<Seq<ValueView>, CodecErrorView>,
) {
    match r.1 {
        Ok(vs) => (r.0, Ok(xs + vs)),
        Err(e) => (r.0, Err(e)),
    }
}

/// Reading one value of the type `sig` names: the position after it, and the
/// value or the error. An empty signature, or a bracketed one that cannot be
/// cut, is a bad signature; a code outside the specification is a bad type
/// code.
pub open spec fn decode_value(d: DecoderState, sig: Seq<u8>) -> (int, Result<ValueView, CodecErrorView>)
    decreases left(d.buf.len() as int, d.pos), sig.len(), 1int,
{
    let len = d.buf.len() as int;
    let bad = CodecErrorView::BadSignature(utf8_lossy(sig));
    if sig.len() == 0 {
        (d.pos, Err(bad))
    } else {
        let code = sig[0];
        if code == 0x79 {
            as_value(read_byte(d), |b: u8| ValueView::Byte(b))
        } else if code == 0x62 {
            as_value(read_u32(d), |n: u32| ValueView::Bool(n != 0))
        } else if code == 0x6E {
            as_value(read_u16(d), |n: u16| ValueView::Int16(n as i16))
        } else if code == 0x71 {
            as_value(read_u16(d), |n: u16| ValueView::Uint16(n))
        } else if code == 0x69 {
            as_value(read_u32(d), |n: u32| ValueView::Int32(n as i32))
        } else if code == 0x75 {
            as_value(read_u32(d), |n: u32| ValueView::Uint32(n))
        } else if code == 0x68 {
            as_value(read_u32(d), |n: u32| ValueView::UnixFd(n))
        } else if code == 0x78 {
            as_value(read_u64(d), |n: u64| ValueView::Int64(n as i64))
        } else if code == 0x74 {
            as_value(read_u64(d), |n: u64| ValueView::Uint64(n))
        } else if code == 0x64 {
            as_value(read_u64(d), |n: u64| ValueView::Double(n))
        } else if code == 0x73 {
            as_value(read_string(d), |t: Seq<char>| ValueView::Str(t))
        } else if code == 0x6F {
            as_value(read_string(d), |t: Seq<char>| ValueView::ObjectPath(t))
        } else if code == 0x67 {
            as_value(read_signature(d), |t: Seq<char>| ValueView::Signature(t))
        } else if code == 0x61 {
            let element = sig.skip(1);
            if element.len() == 0 {
                (d.pos, Err(bad))
            } else {
                let (p1, r1) = read_u32(d);
                match r1 {
                    Err(e) => (p1, Err(e)),
                    Ok(byte_len) => {
                        let (p2, r2) = align_step(len, p1, alignment_of(element[0]) as int);
                        match r2 {
                            Err(e) => (p2, Err(e)),
                            Ok(_) => {
                                let end = p2 + byte_len;
                                if end > len {
                                    (
                                        p2,
                                        Err(
                                            CodecErrorView::Truncated {
                                                wanted: byte_len as usize,
                                                available: left(len, p2) as usize,
                                            },
                                        ),
                                    )
                                } else {
                                    let (p3, r3) = decode_elements(
                                        at_pos(d, p2),
                                        end,
                                        element,
                                        byte_len as usize,
                                    );
                                    match r3 {
                                        Err(e) => (p3, Err(e)),
                                        Ok(items) => if p3 != end {
                                            (p3, Err(CodecErrorView::BadArrayLength(byte_len as usize)))
                                        } else {
                                            (
                                                p3,
                                                Ok(
                                                    ValueView::Array {
                                                        element: text_of_bytes(element),
                                                        items,
                                                    },
                                                ),
                                            )
                                        },
                                    }
                                }
                            },
                        }
                    },
                }
            }
        } else if code == 0x28 {
            let (p1, r1) = align_step(len, d.pos, 8);
            match r1 {
                Err(e) => (p1, Err(e)),
                Ok(_) => if !bracket_inside_ok(sig) {
                    (p1, Err(bad))
                } else {
                    let (p2, r2) = decode_fields(at_pos(d, p1), sig.subrange(1, sig.len() - 1));
                    match r2 {
                        Err(e) => (p2, Err(e)),
                        Ok(fields) => (p2, Ok(ValueView::Struct(fields))),
                    }
                },
            }
        } else if code == 0x7B {
            let (p1, r1) = align_step(len, d.pos, 8);
            match r1 {
                Err(e) => (p1, Err(e)),
                Ok(_) => if !bracket_inside_ok(sig) {
                    (p1, Err(bad))
                } else {
                    let inner = sig.subrange(1, sig.len() - 1);
                    match type_len(inner) {
                        None => (p1, Err(bad)),
                        Some(n1) => if !(0 < n1 <= inner.len()) {
                            (p1, Err(bad))
                        } else {
                            match type_len(inner.skip(n1 as int)) {
                                None => (p1, Err(bad)),
                                Some(n2) => if !(0 < n2 <= inner.len() - n1) {
                                    (p1, Err(bad))
                                } else {
                                    let (p2, r2) = decode_value(at_pos(d, p1), inner.take(n1 as int));
                                    match r2 {
                                        Err(e) => (p2, Err(e)),
                                        Ok(k) => if p2 < p1 {
                                            (p2, Err(bad))
                                        } else {
                                            let (p3, r3) = decode_value(
                                                at_pos(d, p2),
                                                inner.subrange(n1 as int, (n1 + n2) as int),
                                            );
                                            match r3 {
                                                Err(e) => (p3, Err(e)),
                                                Ok(v) => (
                                                    p3,
                                                    Ok(ValueView::DictEntry(Box::new(k), Box::new(v))),
                                                ),
                                            }
                                        },
                                    }
                                },
                            }
                        },
                    }
                },
            }
        } else if code == 0x76 {
            let (p1, r1) = read_signature_bytes(d);
            match r1 {
                Err(e) => (p1, Err(e)),
                Ok(inner) => if type_len(inner) != Some(inner.len()) {
                    (p1, Err(CodecErrorView::BadSignature(decode_utf8(inner))))
                } else {
                    let (p2, r2) = decode_value(at_pos(d, p1), inner);
                    match r2 {
                        Err(e) => (p2, Err(e)),
                        Ok(v) => (p2, Ok(ValueView::Variant(Box::new(v)))),
                    }
                },
            }
        } else {
            (d.pos, Err(CodecErrorView::BadTypeCode(code as char)))
        }
    }
}

/// An array's elements, each read where the last ended, until `end`. An
/// element that consumes nothing could never reach `end`, so it means the
/// length and the element type disagree.
pub open spec fn decode_elements(d: DecoderState, end: int, elem: Seq<u8>, byte_len: usize) -> (
    int,
    Result<Seq<ValueView>, CodecErrorView>,
)
    decreases left(d.buf.len() as int, d.pos), elem.len() + 1, 0int,
{
    if d.pos >= end || end > d.buf.len() {
        (d.pos, Ok(Seq::empty()))
    } else {
        let (p, r) = decode_value(d, elem);
        match r {
            Err(e) => (p, Err(e)),
            Ok(v) => if p <= d.pos {
                (p, Err(CodecErrorView::BadArrayLength(byte_len)))
            } else {
                prepend(seq![v], decode_elements(at_pos(d, p), end, elem, byte_len))
            },
        }
    }
}

/// The complete types of `rest`, each read where the last ended. Reading
/// stops where no complete type begins.
pub open spec fn decode_fields(d: DecoderState, rest: Seq<u8>) -> (
    int,
    Result<Seq<ValueView>, CodecErrorView>,
)
    decreases left(d.buf.len() as int, d.pos), rest.len() + 1, 0int,
{
    match type_len(rest) {
        None => (d.pos, Ok(Seq::empty())),
        Some(n) => if !(0 < n <= rest.len()) {
            (d.pos, Ok(Seq::empty()))
        } else {
            let (p, r) = decode_value(d, rest.take(n as int));
            match r {
                Err(e) => (p, Err(e)),
                Ok(v) => if p < d.pos {
                    (p, Ok(seq![v]))
                } else {
                    prepend(seq![v], decode_fields(at_pos(d, p), rest.skip(n as int)))
                },
            }
        },
    }
}

impl<'a> Decoder<'a> {
    /// Decode a buffer whose position 0 is the alignment origin.
    pub fn new(buf: &'a [u8], little_endian: bool) -> (d: Self)
        ensures
            d@ == (DecoderState { buf: buf@, pos: 0, little_endian }),
    {
        Decoder { buf, pos: 0, little_endian }
    }

    /// Decode starting at `pos`, keeping the same alignment origin — needed
    /// for a header array, whose padding is measured from the start of the
    /// message.
    pub fn at(buf: &'a [u8], pos: usize, little_endian: bool) -> (d: Self)
        ensures
            d@ == (DecoderState { buf: buf@, pos: pos as int, little_endian }),
    {
        Decoder { buf, pos, little_endian }
    }

    pub fn position(&self) -> (p: usize)
        ensures
            p == self@.pos,
    {
        self.pos
    }

    pub fn remaining(&self) -> (n: usize)
        ensures
            n == left(self@.buf.len() as int, self@.pos),
    {
        if self.pos < self.buf.len() {
            self.buf.len() - self.pos
        } else {
            0
        }
    }

    /// Take `n` bytes, returning where they start.
    fn take(&mut self, n: usize) -> (r: Result<usize, CodecError>)
        ensures
            ({
                let (p, s) = take_step(old(self)@.buf.len() as int, old(self)@.pos, n as int);
                &&& moved(old(self)@, final(self)@, p)
                &&& match r {
                    Ok(at) => s is Ok && at == old(self)@.pos,
                    Err(e) => s == Err::<(), CodecErrorView>(e@),
                }
            }),
    {
        if self.pos > self.buf.len() || n > self.buf.len() - self.pos {
            return Err(CodecError::Truncated { wanted: n, available: self.remaining() });
        }
        let at = self.pos;
        self.pos = self.pos + n;
        Ok(at)
    }

    pub fn align(&mut self, n: usize) -> (r: Result<(), CodecError>)
        ensures
            ({
                let (p, s) = align_step(old(self)@.buf.len() as int, old(self)@.pos, n as int);
                &&& moved(old(self)@, final(self)@, p)
                &&& result_view(r) == s
            }),
    {
        if n == 0 {
            if self.pos == 0 {
                return Ok(());
            }
            if self.pos < self.buf.len() {
                self.pos = self.buf.len();
            }
            return Err(CodecError::Truncated { wanted: 1, available: 0 });
        }
        let ghost start = self.pos as int;
        while self.pos % n != 0
            invariant
                n > 0,
                self.buf@ == old(self)@.buf,
                self.little_endian == old(self)@.little_endian,
                start == old(self)@.pos,
                start <= self.pos <= start + padding(start, n as int),
                self.pos > start ==> self.pos <= self.buf@.len(),
                (self.pos - start) + padding(self.pos as int, n as int) == padding(start, n as int),
            decreases padding(self.pos as int, n as int),
        {
            if self.pos >= self.buf.len() {
                return Err(CodecError::Truncated { wanted: 1, available: 0 });
            }
            proof {
                lemma_padding_step(self.pos as int, n as int);
            }
            self.pos = self.pos + 1;
        }
        Ok(())
    }

    /// Align to `n`, then take `n` bytes; returns where they start.
    fn fixed(&mut self, n: usize) -> (r: Result<usize, CodecError>)
        requires
            n > 0,
        ensures
            ({
                let (p, s) = fixed_step(old(self)@.buf.len() as int, old(self)@.pos, n as int);
                &&& moved(old(self)@, final(self)@, p)
                &&& match r {
                    Ok(at) => s == Ok::<int, CodecErrorView>(at as int) && at + n <= old(self)@.buf.len(),
                    Err(e) => s == Err::<int, CodecErrorView>(e@),
                }
            }),
    {
        match self.align(n) {
            Err(e) => Err(e),
            Ok(()) => self.take(n),
        }
    }

    pub fn byte(&mut self) -> (r: Result<u8, CodecError>)
        ensures
            ({
                let (p, s) = read_byte(old(self)@);
                moved(old(self)@, final(self)@, p) && result_view(r) == s
            }),
    {
        match self.take(1) {
            Err(e) => Err(e),
            Ok(at) => Ok(self.buf[at]),
        }
    }

    pub fn u16(&mut self) -> (r: Result<u16, CodecError>)
        ensures
            ({
                let (p, s) = read_u16(old(self)@);
                moved(old(self)@, final(self)@, p) && result_view(r) == s
            }),
    {
        match self.fixed(2) {
            Err(e) => Err(e),
            Ok(at) => Ok(
                if self.little_endian {
                    read_u16_le(self.buf[at], self.buf[at + 1])
                } else {
                    read_u16_le(self.buf[at + 1], self.buf[at])
                },
            ),
        }
    }

    pub fn u32(&mut self) -> (r: Result<u32, CodecError>)
        ensures
            ({
                let (p, s) = read_u32(old(self)@);
                moved(old(self)@, final(self)@, p) && result_view(r) == s
            }),
    {
        match self.fixed(4) {
            Err(e) => Err(e),
            Ok(at) => {
                let b = self.buf;
                Ok(
                    if self.little_endian {
                        read_u32_le(b[at], b[at + 1], b[at + 2], b[at + 3])
                    } else {
                        read_u32_le(b[at + 3], b[at + 2], b[at + 1], b[at])
                    },
                )
            },
        }
    }

    pub fn u64(&mut self) -> (r: Result<u64, CodecError>)
        ensures
            ({
                let (p, s) = read_u64(old(self)@);
                moved(old(self)@, final(self)@, p) && result_view(r) == s
            }),
    {
        match self.fixed(8) {
            Err(e) => Err(e),
            Ok(at) => {
                let b = self.buf;
                if self.little_endian {
                    Ok(read_u64_le(b, at))
                } else {
                    let rev: [u8; 8] = [
                        b[at + 7],
                        b[at + 6],
                        b[at + 5],
                        b[at + 4],
                        b[at + 3],
                        b[at + 2],
                        b[at + 1],
                        b[at],
                    ];
                    assert(rev@ =~= b@.subrange(at as int, at + 8).reverse());
                    assert(rev@.subrange(0, 8) =~= rev@);
                    Ok(read_u64_le(&rev, 0))
                }
            },
        }
    }

    /// After a length: that many bytes of UTF-8, then the terminator.
    fn text_body(&mut self, n: usize) -> (r: Result<String, CodecError>)
        ensures
            ({
                let (p, s) = read_text_body(old(self)@, old(self)@.pos, n as int);
                &&& moved(old(self)@, final(self)@, p)
                &&& match r {
                    Ok(t) => s == Ok::<Seq<char>, CodecErrorView>(t@),
                    Err(e) => s == Err::<Seq<char>, CodecErrorView>(e@),
                }
            }),
    {
        let at = match self.take(n) {
            Err(e) => {
                return Err(e);
            },
            Ok(at) => at,
        };
        let text = match utf8_string(slice_subrange(self.buf, at, at + n)) {
            None => {
                return Err(CodecError::BadUtf8);
            },
            Some(t) => t,
        };
        match self.take(1) {
            Err(e) => Err(e),
            Ok(_) => Ok(text),
        }
    }

    pub fn string(&mut self) -> (r: Result<String, CodecError>)
        ensures
            ({
                let (p, s) = read_string(old(self)@);
                &&& moved(old(self)@, final(self)@, p)
                &&& match r {
                    Ok(t) => s == Ok::<Seq<char>, CodecErrorView>(t@),
                    Err(e) => s == Err::<Seq<char>, CodecErrorView>(e@),
                }
            }),
    {
        match self.u32() {
            Err(e) => Err(e),
            Ok(n) => self.text_body(n as usize),
        }
    }

    pub fn signature(&mut self) -> (r: Result<String, CodecError>)
        ensures
            ({
                let (p, s) = read_signature(old(self)@);
                &&& moved(old(self)@, final(self)@, p)
                &&& match r {
                    Ok(t) => s == Ok::<Seq<char>, CodecErrorView>(t@),
                    Err(e) => s == Err::<Seq<char>, CodecErrorView>(e@),
                }
            }),
    {
        match self.byte() {
            Err(e) => Err(e),
            Ok(n) => self.text_body(n as usize),
        }
    }
}

impl<'a> Decoder<'a> {
    /// `g` as its bytes, checked to be UTF-8.
    fn signature_bytes(&mut self) -> (r: Result<&'a [u8], CodecError>)
        ensures
            ({
                let (p, s) = read_signature_bytes(old(self)@);
                &&& moved(old(self)@, final(self)@, p)
                &&& match r {
                    Ok(b) => s == Ok::<Seq<u8>, CodecErrorView>(b@),
                    Err(e) => s == Err::<Seq<u8>, CodecErrorView>(e@),
                }
            }),
    {
        let n = match self.byte() {
            Err(e) => {
                return Err(e);
            },
            Ok(n) => n as usize,
        };
        let at = match self.take(n) {
            Err(e) => {
                return Err(e);
            },
            Ok(at) => at,
        };
        let bytes = slice_subrange(self.buf, at, at + n);
        if utf8_string(bytes).is_none() {
            return Err(CodecError::BadUtf8);
        }
        match self.take(1) {
            Err(e) => Err(e),
            Ok(_) => Ok(bytes),
        }
    }

    /// Read one value of the type named by `signature`.
    pub fn value(&mut self, signature: &str) -> (r: Result<Value, CodecError>)
        ensures
            ({
                let (p, s) = decode_value(old(self)@, signature.spec_bytes());
                &&& moved(old(self)@, final(self)@, p)
                &&& match r {
                    Ok(v) => s == Ok::<ValueView, CodecErrorView>(v@),
                    Err(e) => s == Err::<ValueView, CodecErrorView>(e@),
                }
            }),
    {
        self.value_of(signature.as_bytes())
    }

    /// Read a whole message body described by `signature`: its complete
    /// types, in order.
    pub fn body(&mut self, signature: &str) -> (r: Result<Vec<Value>, CodecError>)
        ensures
            ({
                let (p, s) = decode_fields(old(self)@, signature.spec_bytes());
                &&& moved(old(self)@, final(self)@, p)
                &&& match r {
                    Ok(vs) => s == Ok::<Seq<ValueView>, CodecErrorView>(values_view(vs@)),
                    Err(e) => s == Err::<Seq<ValueView>, CodecErrorView>(e@),
                }
            }),
    {
        self.fields_of(signature.as_bytes())
    }

    pub(crate) fn value_of(&mut self, sig: &[u8]) -> (r: Result<Value, CodecError>)
        ensures
            ({
                let (p, s) = decode_value(old(self)@, sig@);
                &&& moved(old(self)@, final(self)@, p)
                &&& p >= old(self)@.pos
                &&& match r {
                    Ok(v) => s == Ok::<ValueView, CodecErrorView>(v@),
                    Err(e) => s == Err::<ValueView, CodecErrorView>(e@),
                }
            }),
        decreases left(old(self)@.buf.len() as int, old(self)@.pos), sig@.len(), 2int,
    {
        if sig.len() == 0 {
            return Err(CodecError::BadSignature(lossy_string(sig)));
        }
        let code = sig[0];
        if code == 0x61 {
            self.array_of(sig)
        } else if code == 0x28 {
            self.struct_of(sig)
        } else if code == 0x7B {
            self.entry_of(sig)
        } else if code == 0x76 {
            self.variant_of(sig)
        } else {
            self.basic_of(sig)
        }
    }

    /// A value whose type code names no container.
    #[verifier::spinoff_prover]
    fn basic_of(&mut self, sig: &[u8]) -> (r: Result<Value, CodecError>)
        requires
            sig@.len() > 0,
            sig@[0] != 0x61 && sig@[0] != 0x28 && sig@[0] != 0x7B && sig@[0] != 0x76,
        ensures
            ({
                let (p, s) = decode_value(old(self)@, sig@);
                &&& moved(old(self)@, final(self)@, p)
                &&& p >= old(self)@.pos
                &&& match r {
                    Ok(v) => s == Ok::<ValueView, CodecErrorView>(v@),
                    Err(e) => s == Err::<ValueView, CodecErrorView>(e@),
                }
            }),
    {
        let code = sig[0];
        if code == 0x79 {
            match self.byte() {
                Ok(b) => Ok(Value::Byte(b)),
                Err(e) => Err(e),
            }
        } else if code == 0x62 {
            match self.u32() {
                Ok(n) => Ok(Value::Bool(n != 0)),
                Err(e) => Err(e),
            }
        } else if code == 0x6E {
            match self.u16() {
                Ok(n) => Ok(Value::Int16(n as i16)),
                Err(e) => Err(e),
            }
        } else if code == 0x71 {
            match self.u16() {
                Ok(n) => Ok(Value::Uint16(n)),
                Err(e) => Err(e),
            }
        } else if code == 0x69 {
            match self.u32() {
                Ok(n) => Ok(Value::Int32(n as i32)),
                Err(e) => Err(e),
            }
        } else if code == 0x75 {
            match self.u32() {
                Ok(n) => Ok(Value::Uint32(n)),
                Err(e) => Err(e),
            }
        } else if code == 0x68 {
            match self.u32() {
                Ok(n) => Ok(Value::UnixFd(n)),
                Err(e) => Err(e),
            }
        } else if code == 0x78 {
            match self.u64() {
                Ok(n) => Ok(Value::Int64(n as i64)),
                Err(e) => Err(e),
            }
        } else if code == 0x74 {
            match self.u64() {
                Ok(n) => Ok(Value::Uint64(n)),
                Err(e) => Err(e),
            }
        } else if code == 0x64 {
            match self.u64() {
                Ok(n) => Ok(Value::Double(n)),
                Err(e) => Err(e),
            }
        } else if code == 0x73 {
            match self.string() {
                Ok(t) => Ok(Value::Str(t)),
                Err(e) => Err(e),
            }
        } else if code == 0x6F {
            match self.string() {
                Ok(t) => Ok(Value::ObjectPath(t)),
                Err(e) => Err(e),
            }
        } else if code == 0x67 {
            match self.signature() {
                Ok(t) => Ok(Value::Signature(t)),
                Err(e) => Err(e),
            }
        } else {
            Err(CodecError::BadTypeCode(code as char))
        }
    }

    /// `(...)`: padding to 8, then the complete types inside the brackets.
    fn struct_of(&mut self, sig: &[u8]) -> (r: Result<Value, CodecError>)
        requires
            sig@.len() > 0,
            sig@[0] == 0x28,
        ensures
            ({
                let (p, s) = decode_value(old(self)@, sig@);
                &&& moved(old(self)@, final(self)@, p)
                &&& p >= old(self)@.pos
                &&& match r {
                    Ok(v) => s == Ok::<ValueView, CodecErrorView>(v@),
                    Err(e) => s == Err::<ValueView, CodecErrorView>(e@),
                }
            }),
        decreases left(old(self)@.buf.len() as int, old(self)@.pos), sig@.len(), 1int,
    {
        match self.align(8) {
            Err(e) => {
                return Err(e);
            },
            Ok(()) => {},
        }
        let n = sig.len();
        if n < 2 || (0x80 <= sig[n - 1] && sig[n - 1] < 0xC0) {
            return Err(CodecError::BadSignature(lossy_string(sig)));
        }
        let inner = slice_subrange(sig, 1, n - 1);
        match self.fields_of(inner) {
            Ok(fields) => Ok(Value::Struct(fields)),
            Err(e) => Err(e),
        }
    }

    /// `v`: a signature, which must be one complete type, then a value of it.
    fn variant_of(&mut self, sig: &[u8]) -> (r: Result<Value, CodecError>)
        requires
            sig@.len() > 0,
            sig@[0] == 0x76,
        ensures
            ({
                let (p, s) = decode_value(old(self)@, sig@);
                &&& moved(old(self)@, final(self)@, p)
                &&& p >= old(self)@.pos
                &&& match r {
                    Ok(v) => s == Ok::<ValueView, CodecErrorView>(v@),
                    Err(e) => s == Err::<ValueView, CodecErrorView>(e@),
                }
            }),
        decreases left(old(self)@.buf.len() as int, old(self)@.pos), sig@.len(), 1int,
    {
        let inner = match self.signature_bytes() {
            Err(e) => {
                return Err(e);
            },
            Ok(b) => b,
        };
        match type_length(inner) {
            Some(n) => {
                if n != inner.len() {
                    return Err(CodecError::BadSignature(lossy_string(inner)));
                }
            },
            None => {
                return Err(CodecError::BadSignature(lossy_string(inner)));
            },
        }
        match self.value_of(inner) {
            Ok(v) => Ok(Value::Variant(Box::new(v))),
            Err(e) => Err(e),
        }
    }

    /// `a<elem>`: a byte length, padding to the element's alignment, then
    /// elements until the length is used up exactly.
    fn array_of(&mut self, sig: &[u8]) -> (r: Result<Value, CodecError>)
        requires
            sig@.len() > 0,
            sig@[0] == 0x61,
        ensures
            ({
                let (p, s) = decode_value(old(self)@, sig@);
                &&& moved(old(self)@, final(self)@, p)
                &&& p >= old(self)@.pos
                &&& match r {
                    Ok(v) => s == Ok::<ValueView, CodecErrorView>(v@),
                    Err(e) => s == Err::<ValueView, CodecErrorView>(e@),
                }
            }),
        decreases left(old(self)@.buf.len() as int, old(self)@.pos), sig@.len(), 1int,
    {
        let ghost d0 = self@;
        let element = slice_subrange(sig, 1, sig.len());
        assert(element@ =~= sig@.skip(1));
        if element.len() == 0 {
            return Err(CodecError::BadSignature(lossy_string(sig)));
        }
        let byte_len = match self.u32() {
            Err(e) => {
                return Err(e);
            },
            Ok(n) => n,
        };
        match self.align(alignment(element[0])) {
            Err(e) => {
                return Err(e);
            },
            Ok(()) => {},
        }
        let ghost p2 = self@.pos;
        if self.pos > self.buf.len() || byte_len as usize > self.buf.len() - self.pos {
            return Err(
                CodecError::Truncated { wanted: byte_len as usize, available: self.remaining() },
            );
        }
        let end = self.pos + byte_len as usize;
        let ghost here = self@;
        assert(here == at_pos(d0, p2));
        let items = match self.elements_of(element, end, byte_len) {
            Err(e) => {
                return Err(e);
            },
            Ok(items) => items,
        };
        if self.pos != end {
            return Err(CodecError::BadArrayLength(byte_len as usize));
        }
        let text = match utf8_string(element) {
            Some(t) => t,
            None => lossy_string(element),
        };
        Ok(Value::Array { element: text, items })
    }

    /// `{kv}`: padding to 8, then the key and the value, whose types are the
    /// first two complete types inside the braces.
    fn entry_of(&mut self, sig: &[u8]) -> (r: Result<Value, CodecError>)
        requires
            sig@.len() > 0,
            sig@[0] == 0x7B,
        ensures
            ({
                let (p, s) = decode_value(old(self)@, sig@);
                &&& moved(old(self)@, final(self)@, p)
                &&& p >= old(self)@.pos
                &&& match r {
                    Ok(v) => s == Ok::<ValueView, CodecErrorView>(v@),
                    Err(e) => s == Err::<ValueView, CodecErrorView>(e@),
                }
            }),
        decreases left(old(self)@.buf.len() as int, old(self)@.pos), sig@.len(), 1int,
    {
        match self.align(8) {
            Err(e) => {
                return Err(e);
            },
            Ok(()) => {},
        }
        let n = sig.len();
        if n < 2 || (0x80 <= sig[n - 1] && sig[n - 1] < 0xC0) {
            return Err(CodecError::BadSignature(lossy_string(sig)));
        }
        let inner = slice_subrange(sig, 1, n - 1);
        proof {
            lemma_type_len_bounds(inner@);
        }
        let n1 = match type_length(inner) {
            None => {
                return Err(CodecError::BadSignature(lossy_string(sig)));
            },
            Some(n1) => n1,
        };
        let after = slice_subrange(inner, n1, inner.len());
        assert(after@ =~= inner@.skip(n1 as int));
        proof {
            lemma_type_len_bounds(after@);
        }
        let n2 = match type_length(after) {
            None => {
                return Err(CodecError::BadSignature(lossy_string(sig)));
            },
            Some(n2) => n2,
        };
        let kt = slice_subrange(inner, 0, n1);
        let vt = slice_subrange(inner, n1, n1 + n2);
        assert(kt@ =~= inner@.take(n1 as int));
        let k = match self.value_of(kt) {
            Err(e) => {
                return Err(e);
            },
            Ok(k) => k,
        };
        let v = match self.value_of(vt) {
            Err(e) => {
                return Err(e);
            },
            Ok(v) => v,
        };
        Ok(Value::DictEntry(Box::new(k), Box::new(v)))
    }

    /// An array's elements, each read where the last ended, until `end`.
    fn elements_of(&mut self, element: &[u8], end: usize, byte_len: u32) -> (r: Result<
        Vec<Value>,
        CodecError,
    >)
        requires
            end <= old(self)@.buf.len(),
        ensures
            ({
                let (p, s) = decode_elements(old(self)@, end as int, element@, byte_len as usize);
                &&& moved(old(self)@, final(self)@, p)
                &&& p >= old(self)@.pos
                &&& match r {
                    Ok(vs) => s == Ok::<Seq<ValueView>, CodecErrorView>(values_view(vs@)),
                    Err(e) => s == Err::<Seq<ValueView>, CodecErrorView>(e@),
                }
            }),
        decreases left(old(self)@.buf.len() as int, old(self)@.pos), element@.len() + 1, 0int,
    {
        let ghost d0 = self@;
        let mut items: Vec<Value> = Vec::new();
        while self.pos < end
            invariant
                d0 == old(self)@,
                self@.buf == d0.buf,
                self@.little_endian == d0.little_endian,
                d0.pos <= self@.pos,
                end <= self@.buf.len(),
                decode_elements(d0, end as int, element@, byte_len as usize) == prepend(
                    values_view(items@),
                    decode_elements(self@, end as int, element@, byte_len as usize),
                ),
            decreases if self@.pos < end {
                end - self@.pos
            } else {
                0
            },
        {
            let before = self.pos;
            let v = match self.value_of(element) {
                Err(e) => {
                    return Err(e);
                },
                Ok(v) => v,
            };
            if self.pos <= before {
                return Err(CodecError::BadArrayLength(byte_len as usize));
            }
            let ghost vv = v@;
            let ghost prev = items@;
            items.push(v);
            proof {
                assert(items@.drop_last() =~= prev);
                assert(values_view(items@) == values_view(prev).push(vv));
                let rest = decode_elements(self@, end as int, element@, byte_len as usize);
                match rest.1 {
                    Ok(vs) => {
                        assert(values_view(prev) + (seq![vv] + vs) =~= values_view(items@) + vs);
                    },
                    Err(_) => {},
                }
            }
        }
        proof {
            assert(values_view(items@) + Seq::<ValueView>::empty() =~= values_view(items@));
        }
        Ok(items)
    }

    /// The complete types of `rest`, each read where the last ended, until
    /// no complete type begins.
    fn fields_of(&mut self, rest: &[u8]) -> (r: Result<Vec<Value>, CodecError>)
        ensures
            ({
                let (p, s) = decode_fields(old(self)@, rest@);
                &&& moved(old(self)@, final(self)@, p)
                &&& p >= old(self)@.pos
                &&& match r {
                    Ok(vs) => s == Ok::<Seq<ValueView>, CodecErrorView>(values_view(vs@)),
                    Err(e) => s == Err::<Seq<ValueView>, CodecErrorView>(e@),
                }
            }),
        decreases left(old(self)@.buf.len() as int, old(self)@.pos), rest@.len() + 1, 0int,
    {
        let ghost d0 = self@;
        let mut fields: Vec<Value> = Vec::new();
        let mut left_over = rest;
        loop
            invariant
                d0 == old(self)@,
                self@.buf == d0.buf,
                self@.little_endian == d0.little_endian,
                d0.pos <= self@.pos,
                left_over@.len() <= rest@.len(),
                decode_fields(d0, rest@) == prepend(
                    values_view(fields@),
                    decode_fields(self@, left_over@),
                ),
            ensures
                self@.buf == d0.buf,
                self@.little_endian == d0.little_endian,
                d0.pos <= self@.pos,
                type_len(left_over@) is None,
                decode_fields(d0, rest@) == prepend(
                    values_view(fields@),
                    decode_fields(self@, left_over@),
                ),
            decreases left_over@.len(),
        {
            proof {
                lemma_type_len_bounds(left_over@);
            }
            let n = match type_length(left_over) {
                None => {
                    break;
                },
                Some(n) => n,
            };
            let piece = slice_subrange(left_over, 0, n);
            assert(piece@ =~= left_over@.take(n as int));
            let ghost here = self@;
            assert(here == at_pos(d0, here.pos));
            let v = match self.value_of(piece) {
                Err(e) => {
                    return Err(e);
                },
                Ok(v) => v,
            };
            let ghost vv = v@;
            let ghost prev = fields@;
            fields.push(v);
            let next = slice_subrange(left_over, n, left_over.len());
            assert(next@ =~= left_over@.skip(n as int));
            proof {
                assert(fields@.drop_last() =~= prev);
                assert(values_view(fields@) == values_view(prev).push(vv));
                let later = decode_fields(self@, next@);
                match later.1 {
                    Ok(vs) => {
                        assert(values_view(prev) + (seq![vv] + vs) =~= values_view(fields@) + vs);
                    },
                    Err(_) => {},
                }
            }
            left_over = next;
        }
        proof {
            assert(values_view(fields@) + Seq::<ValueView>::empty() =~= values_view(fields@));
        }
        Ok(fields)
    }
}

} // verus!
