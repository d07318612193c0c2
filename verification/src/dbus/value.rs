//! The D-Bus type system.
//!
//! Every value on the bus is one of these, and every message body is
//! described by a *signature*: a string of type codes like `a{sv}` (array of
//! string to variant). Marshalling is signature-directed: the bytes carry no
//! type tags, so the decoder must be told what it is reading.

use vstd::prelude::*;
use vstd::string::StringSliceAdditionalSpecFns;
use vstd::utf8::{decode_utf8, valid_utf8};
use crate::text::{push_char, push_str, utf8_string};

verus! {

/// A D-Bus value.
#[derive(Debug, PartialEq)]
pub enum Value {
    Byte(u8),
    Bool(bool),
    Int16(i16),
    Uint16(u16),
    Int32(i32),
    Uint32(u32),
    Int64(i64),
    Uint64(u64),
    /// `d`, held as its IEEE 754 bit pattern, which is what travels.
    Double(u64),
    /// `s`
    Str(String),
    /// `o`: syntactically a string, semantically a path.
    ObjectPath(String),
    /// `g`
    Signature(String),
    /// `h`: an index into the message's file-descriptor array.
    UnixFd(u32),
    /// `a<elem>`. The element signature is carried so an empty array still
    /// marshals with the right type.
    Array { element: String, items: Vec<Value> },
    /// `(...)`
    Struct(Vec<Value>),
    /// `v`: a value that carries its own signature.
    Variant(Box<Value>),
    /// `{kv}`, only ever valid as an array element.
    DictEntry(Box<Value>, Box<Value>),
}

/// A value as mathematics: text as characters, sequences for vectors.
pub enum ValueView {
    Byte(u8),
    Bool(bool),
    Int16(i16),
    Uint16(u16),
    Int32(i32),
    Uint32(u32),
    Int64(i64),
    Uint64(u64),
    Double(u64),
    Str(Seq<char>),
    ObjectPath(Seq<char>),
    Signature(Seq<char>),
    UnixFd(u32),
    Array { element: Seq<char>, items: Seq<ValueView> },
    Struct(Seq<ValueView>),
    Variant(Box<ValueView>),
    DictEntry(Box<ValueView>, Box<ValueView>),
}

pub open spec fn value_view(v: Value) -> ValueView
    decreases v,
{
    match v {
        Value::Byte(b) => ValueView::Byte(b),
        Value::Bool(b) => ValueView::Bool(b),
        Value::Int16(n) => ValueView::Int16(n),
        Value::Uint16(n) => ValueView::Uint16(n),
        Value::Int32(n) => ValueView::Int32(n),
        Value::Uint32(n) => ValueView::Uint32(n),
        Value::Int64(n) => ValueView::Int64(n),
        Value::Uint64(n) => ValueView::Uint64(n),
        Value::Double(n) => ValueView::Double(n),
        Value::Str(s) => ValueView::Str(s@),
        Value::ObjectPath(s) => ValueView::ObjectPath(s@),
        Value::Signature(s) => ValueView::Signature(s@),
        Value::UnixFd(n) => ValueView::UnixFd(n),
        Value::Array { element, items } => ValueView::Array {
            element: element@,
            items: values_view(items@),
        },
        Value::Struct(fields) => ValueView::Struct(values_view(fields@)),
        Value::Variant(inner) => ValueView::Variant(Box::new(value_view(*inner))),
        Value::DictEntry(k, v) => ValueView::DictEntry(
            Box::new(value_view(*k)),
            Box::new(value_view(*v)),
        ),
    }
}

pub open spec fn values_view(s: Seq<Value>) -> Seq<ValueView>
    decreases s,
{
    if s.len() == 0 {
        Seq::empty()
    } else {
        values_view(s.drop_last()).push(value_view(s.last()))
    }
}

impl View for Value {
    type V = ValueView;

    open spec fn view(&self) -> ValueView {
        value_view(*self)
    }
}

/// The views of a sequence of values are the values' views, one for one.
pub proof fn lemma_values_view(s: Seq<Value>)
    ensures
        values_view(s).len() == s.len(),
        forall|i: int| 0 <= i < s.len() ==> #[trigger] values_view(s)[i] == value_view(s[i]),
    decreases s.len(),
{
    if s.len() > 0 {
        lemma_values_view(s.drop_last());
    }
}

/// The view of a prefix is the prefix of the view.
pub proof fn lemma_values_view_take(s: Seq<Value>, k: int)
    requires
        0 <= k <= s.len(),
    ensures
        values_view(s.take(k)) == values_view(s).take(k),
{
    lemma_values_view(s);
    lemma_values_view(s.take(k));
    assert(values_view(s.take(k)) =~= values_view(s).take(k));
}

/// The signature of a value, as text.
pub open spec fn signature_of(v: ValueView) -> Seq<char>
    decreases v,
{
    match v {
        ValueView::Byte(_) => seq!['y'],
        ValueView::Bool(_) => seq!['b'],
        ValueView::Int16(_) => seq!['n'],
        ValueView::Uint16(_) => seq!['q'],
        ValueView::Int32(_) => seq!['i'],
        ValueView::Uint32(_) => seq!['u'],
        ValueView::Int64(_) => seq!['x'],
        ValueView::Uint64(_) => seq!['t'],
        ValueView::Double(_) => seq!['d'],
        ValueView::Str(_) => seq!['s'],
        ValueView::ObjectPath(_) => seq!['o'],
        ValueView::Signature(_) => seq!['g'],
        ValueView::UnixFd(_) => seq!['h'],
        ValueView::Array { element, .. } => seq!['a'] + element,
        ValueView::Struct(fields) => seq!['('] + signatures_of(fields) + seq![')'],
        ValueView::Variant(_) => seq!['v'],
        ValueView::DictEntry(k, v) => seq!['{'] + signature_of(*k) + signature_of(*v) + seq!['}'],
    }
}

/// The signatures of several values, concatenated: a struct's or a body's.
pub open spec fn signatures_of(s: Seq<ValueView>) -> Seq<char>
    decreases s,
{
    if s.len() == 0 {
        Seq::empty()
    } else {
        signatures_of(s.drop_last()) + signature_of(s.last())
    }
}

impl Value {
    /// The signature of this value.
    pub fn signature(&self) -> (s: String)
        ensures
            s@ == signature_of(self@),
        decreases self,
    {
        let mut out = String::new();
        self.push_signature(&mut out);
        out
    }

    fn push_signature(&self, out: &mut String)
        ensures
            final(out)@ == old(out)@ + signature_of(self@),
        decreases self,
    {
        let c = match self {
            Value::Byte(_) => 'y',
            Value::Bool(_) => 'b',
            Value::Int16(_) => 'n',
            Value::Uint16(_) => 'q',
            Value::Int32(_) => 'i',
            Value::Uint32(_) => 'u',
            Value::Int64(_) => 'x',
            Value::Uint64(_) => 't',
            Value::Double(_) => 'd',
            Value::Str(_) => 's',
            Value::ObjectPath(_) => 'o',
            Value::Signature(_) => 'g',
            Value::UnixFd(_) => 'h',
            Value::Variant(_) => 'v',
            Value::Array { element, .. } => {
                push_char(out, 'a');
                push_str(out, element.as_str());
                assert(out@ =~= old(out)@ + signature_of(self@));
                return;
            },
            Value::Struct(fields) => {
                push_char(out, '(');
                push_signatures(fields, out);
                push_char(out, ')');
                assert(out@ =~= old(out)@ + signature_of(self@));
                return;
            },
            Value::DictEntry(k, v) => {
                push_char(out, '{');
                k.push_signature(out);
                v.push_signature(out);
                push_char(out, '}');
                assert(out@ =~= old(out)@ + signature_of(self@));
                return;
            },
        };
        push_char(out, c);
        assert(out@ =~= old(out)@ + signature_of(self@));
    }
}

// ── Copies, builders and accessors ─────────────────────────────────────────

impl Clone for Value {
    fn clone(&self) -> (c: Self)
        ensures
            c@ == self@,
        decreases self,
    {
        match self {
            Value::Byte(b) => Value::Byte(*b),
            Value::Bool(b) => Value::Bool(*b),
            Value::Int16(n) => Value::Int16(*n),
            Value::Uint16(n) => Value::Uint16(*n),
            Value::Int32(n) => Value::Int32(*n),
            Value::Uint32(n) => Value::Uint32(*n),
            Value::Int64(n) => Value::Int64(*n),
            Value::Uint64(n) => Value::Uint64(*n),
            Value::Double(n) => Value::Double(*n),
            Value::Str(s) => Value::Str(s.clone()),
            Value::ObjectPath(s) => Value::ObjectPath(s.clone()),
            Value::Signature(s) => Value::Signature(s.clone()),
            Value::UnixFd(n) => Value::UnixFd(*n),
            Value::Array { element, items } => Value::Array {
                element: element.clone(),
                items: clone_values(items),
            },
            Value::Struct(fields) => Value::Struct(clone_values(fields)),
            Value::Variant(inner) => Value::Variant(Box::new((**inner).clone())),
            Value::DictEntry(k, v) => Value::DictEntry(
                Box::new((**k).clone()),
                Box::new((**v).clone()),
            ),
        }
    }
}

/// A copy of every value, in order.
fn clone_values(values: &Vec<Value>) -> (out: Vec<Value>)
    ensures
        values_view(out@) == values_view(values@),
    decreases values,
{
    let mut out: Vec<Value> = Vec::new();
    let mut i: usize = 0;
    while i < values.len()
        invariant
            i <= values@.len(),
            values_view(out@) == values_view(values@.take(i as int)),
        decreases values@.len() - i,
    {
        proof {
            assert(decreases_to!(values => values[i as int]));
        }
        let c = values[i].clone();
        let ghost prev = out@;
        out.push(c);
        proof {
            let t = values@.take(i + 1);
            assert(t.drop_last() =~= values@.take(i as int));
            assert(t.last() == values@[i as int]);
            assert(out@.drop_last() =~= prev);
            assert(out@.last() == c);
            assert(values_view(out@) == values_view(prev).push(value_view(c)));
            assert(values_view(t) == values_view(values@.take(i as int)).push(value_view(values@[i as int])));
        }
        i = i + 1;
    }
    assert(values@.take(values@.len() as int) =~= values@);
    out
}

/// `Variant` wrappers peeled off, however many there are.
pub open spec fn peeled(v: ValueView) -> ValueView
    decreases v,
{
    match v {
        ValueView::Variant(inner) => peeled(*inner),
        _ => v,
    }
}

/// The text of a string, path or signature.
pub open spec fn text_of(v: ValueView) -> Option<Seq<char>> {
    match peeled(v) {
        ValueView::Str(s) => Some(s),
        ValueView::ObjectPath(s) => Some(s),
        ValueView::Signature(s) => Some(s),
        _ => None,
    }
}

/// An unsigned number, widened.
pub open spec fn unsigned_of(v: ValueView) -> Option<u64> {
    match peeled(v) {
        ValueView::Byte(n) => Some(n as u64),
        ValueView::Uint16(n) => Some(n as u64),
        ValueView::Uint32(n) => Some(n as u64),
        ValueView::Uint64(n) => Some(n),
        _ => None,
    }
}

/// A signed number, widened, from any type that fits.
pub open spec fn signed_of(v: ValueView) -> Option<i64> {
    match peeled(v) {
        ValueView::Byte(n) => Some(n as i64),
        ValueView::Int16(n) => Some(n as i64),
        ValueView::Uint16(n) => Some(n as i64),
        ValueView::Int32(n) => Some(n as i64),
        ValueView::Uint32(n) => Some(n as i64),
        ValueView::Int64(n) => Some(n),
        _ => None,
    }
}

/// The items of an array or the fields of a struct.
pub open spec fn items_of(v: ValueView) -> Option<Seq<ValueView>> {
    match peeled(v) {
        ValueView::Array { items, .. } => Some(items),
        ValueView::Struct(fields) => Some(fields),
        _ => None,
    }
}

/// Every item a byte, once peeled; otherwise nothing.
pub open spec fn bytes_of(items: Seq<ValueView>) -> Option<Seq<u8>>
    decreases items.len(),
{
    if items.len() == 0 {
        Some(Seq::empty())
    } else {
        match (bytes_of(items.drop_last()), peeled(items.last())) {
            (Some(b), ValueView::Byte(x)) => Some(b.push(x)),
            _ => None,
        }
    }
}

/// The items that are text, in order; the others are skipped.
pub open spec fn texts_of(items: Seq<ValueView>) -> Seq<Seq<char>>
    decreases items.len(),
{
    if items.len() == 0 {
        Seq::empty()
    } else {
        match text_of(items.last()) {
            Some(t) => texts_of(items.drop_last()).push(t),
            None => texts_of(items.drop_last()),
        }
    }
}

/// The value of the first dictionary entry whose key reads as `key`.
pub open spec fn lookup(items: Seq<ValueView>, key: Seq<char>) -> Option<ValueView>
    decreases items.len(),
{
    if items.len() == 0 {
        None
    } else {
        match peeled(items[0]) {
            ValueView::DictEntry(k, v) => if text_of(*k) == Some(key) {
                Some(*v)
            } else {
                lookup(items.drop_first(), key)
            },
            _ => lookup(items.drop_first(), key),
        }
    }
}

/// A key and a value as an `{sv}` entry: the value wrapped in a variant.
pub open spec fn dict_entry_view(e: (String, Value)) -> ValueView {
    ValueView::DictEntry(
        Box::new(ValueView::Str(e.0@)),
        Box::new(ValueView::Variant(Box::new(e.1@))),
    )
}

pub open spec fn dict_items(entries: Seq<(String, Value)>) -> Seq<ValueView> {
    Seq::new(entries.len(), |i: int| dict_entry_view(entries[i]))
}

/// The text that the `Debug` impl `derive` wrote for `Value` gives for a
/// value: a function of the value alone.
pub uninterp spec fn value_debug(v: ValueView) -> Seq<char>;

/// A value as `Debug` writes it.
///
/// Formats with `{:?}`, through the `Debug` impl that `derive` wrote for
/// `Value`. The contract claims only that the text depends on the value
/// alone: it is `value_debug` of the value, whose characters are not stated.
#[verifier::external_body]
fn debug_value(v: &Value) -> (s: String)
    ensures
        s@ == value_debug(v@),
{
    format!("{v:?}")
}

impl Value {
    /// The value as text, for people: a string, path or signature as its
    /// characters, looking through variants; anything else in its `Debug`
    /// form.
    pub fn to_string(&self) -> (s: String)
        ensures
            text_of(self@) matches Some(t) ==> s@ == t,
            text_of(self@) is None ==> s@ == value_debug(peeled(self@)),
    {
        match self.peel() {
            Value::Str(t) => t.clone(),
            Value::ObjectPath(t) => t.clone(),
            Value::Signature(t) => t.clone(),
            other => debug_value(other),
        }
    }
}

impl Value {
    /// Build an `a{sv}` from pairs, the shape of nearly every BlueZ argument.
    pub fn dict(entries: Vec<(String, Value)>) -> (v: Self)
        ensures
            v@ == (ValueView::Array {
                element: seq!['{', 's', 'v', '}'],
                items: dict_items(entries@),
            }),
    {
        let ghost input = entries@;
        let mut items: Vec<Value> = Vec::new();
        let mut rest = entries;
        let mut k: usize = 0;
        let n = rest.len();
        while k < n
            invariant
                n == input.len(),
                k <= n,
                rest@ == input.skip(k as int),
                values_view(items@) == dict_items(input.take(k as int)),
            decreases n - k,
        {
            let ghost before = items@;
            let (key, value) = rest.remove(0);
            assert(input[k as int] == (key, value));
            let ghost gk = key;
            let ghost gv = value;
            assert(value_view(Value::Str(gk)) == ValueView::Str(gk@));
            assert(value_view(Value::Variant(Box::new(gv))) == ValueView::Variant(
                Box::new(value_view(gv)),
            ));
            let entry = Value::DictEntry(
                Box::new(Value::Str(key)),
                Box::new(Value::Variant(Box::new(value))),
            );
            items.push(entry);
            proof {
                assert(items@.drop_last() =~= before);
                assert(values_view(items@) == values_view(before).push(value_view(entry)));
                assert(value_view(entry) == dict_entry_view(input[k as int]));
                assert(dict_items(input.take(k + 1)) =~= dict_items(input.take(k as int)).push(
                    dict_entry_view(input[k as int]),
                ));
            }
            assert(rest@ =~= input.skip(k + 1));
            k = k + 1;
        }
        let element = String::from_str("{sv}");
        proof {
            reveal_strlit("{sv}");
        }
        assert(element@ =~= seq!['{', 's', 'v', '}']);
        assert(input.take(n as int) =~= input);
        Value::Array { element, items }
    }
}

impl Value {
    /// Build an `as` from strings.
    pub fn string_array(strings: Vec<String>) -> (v: Self)
        ensures
            v@ == (ValueView::Array {
                element: seq!['s'],
                items: Seq::new(strings@.len(), |i: int| ValueView::Str(strings@[i]@)),
            }),
    {
        let ghost input = strings@;
        let mut items: Vec<Value> = Vec::new();
        let mut rest = strings;
        let mut k: usize = 0;
        let n = rest.len();
        while k < n
            invariant
                n == input.len(),
                k <= n,
                rest@ == input.skip(k as int),
                values_view(items@) =~= Seq::new(k as nat, |i: int| ValueView::Str(input[i]@)),
            decreases n - k,
        {
            let ghost before = items@;
            let s = rest.remove(0);
            assert(input[k as int] == s);
            let item = Value::Str(s);
            items.push(item);
            proof {
                assert(items@.drop_last() =~= before);
                assert(values_view(items@) == values_view(before).push(value_view(item)));
            }
            assert(rest@ =~= input.skip(k + 1));
            k = k + 1;
        }
        let element = String::from_str("s");
        proof {
            reveal_strlit("s");
        }
        assert(element@ =~= seq!['s']);
        Value::Array { element, items }
    }

    /// Build an `ay` from bytes.
    pub fn bytes(data: &[u8]) -> (v: Self)
        ensures
            v@ == (ValueView::Array {
                element: seq!['y'],
                items: Seq::new(data@.len(), |i: int| ValueView::Byte(data@[i])),
            }),
    {
        let mut items: Vec<Value> = Vec::new();
        let mut k: usize = 0;
        while k < data.len()
            invariant
                k <= data@.len(),
                values_view(items@) =~= Seq::new(k as nat, |i: int| ValueView::Byte(data@[i])),
            decreases data@.len() - k,
        {
            let ghost before = items@;
            let item = Value::Byte(data[k]);
            items.push(item);
            proof {
                assert(items@.drop_last() =~= before);
                assert(values_view(items@) == values_view(before).push(value_view(item)));
            }
            k = k + 1;
        }
        let element = String::from_str("y");
        proof {
            reveal_strlit("y");
        }
        assert(element@ =~= seq!['y']);
        Value::Array { element, items }
    }

    // A value that came off the bus may be wrapped in a variant, sometimes
    // several deep, so every accessor unwraps first.

    /// Peel off any `Variant` wrappers.
    pub fn peel(&self) -> (v: &Value)
        ensures
            v@ == peeled(self@),
        decreases self,
    {
        match self {
            Value::Variant(inner) => (**inner).peel(),
            _ => self,
        }
    }

    pub fn as_str(&self) -> (s: Option<&str>)
        ensures
            match s {
                Some(t) => text_of(self@) == Some(t@),
                None => text_of(self@) is None,
            },
    {
        match self.peel() {
            Value::Str(s) => Some(s.as_str()),
            Value::ObjectPath(s) => Some(s.as_str()),
            Value::Signature(s) => Some(s.as_str()),
            _ => None,
        }
    }

    pub fn as_bool(&self) -> (b: Option<bool>)
        ensures
            b == match peeled(self@) {
                ValueView::Bool(x) => Some(x),
                _ => None,
            },
    {
        match self.peel() {
            Value::Bool(b) => Some(*b),
            _ => None,
        }
    }

    pub fn as_u64(&self) -> (n: Option<u64>)
        ensures
            n == unsigned_of(self@),
    {
        match self.peel() {
            Value::Byte(v) => Some(*v as u64),
            Value::Uint16(v) => Some(*v as u64),
            Value::Uint32(v) => Some(*v as u64),
            Value::Uint64(v) => Some(*v),
            _ => None,
        }
    }

    pub fn as_i64(&self) -> (n: Option<i64>)
        ensures
            n == signed_of(self@),
    {
        match self.peel() {
            Value::Byte(v) => Some(*v as i64),
            Value::Int16(v) => Some(*v as i64),
            Value::Uint16(v) => Some(*v as i64),
            Value::Int32(v) => Some(*v as i64),
            Value::Uint32(v) => Some(*v as i64),
            Value::Int64(v) => Some(*v),
            _ => None,
        }
    }

    pub fn as_array(&self) -> (items: Option<&[Value]>)
        ensures
            match items {
                Some(s) => items_of(self@) == Some(values_view(s@)),
                None => items_of(self@) is None,
            },
    {
        match self.peel() {
            Value::Array { items, .. } => Some(items.as_slice()),
            Value::Struct(fields) => Some(fields.as_slice()),
            _ => None,
        }
    }

    /// Collect an `ay` into bytes.
    pub fn as_bytes(&self) -> (b: Option<Vec<u8>>)
        ensures
            match b {
                Some(x) => items_of(self@) matches Some(items) && bytes_of(items) == Some(x@),
                None => items_of(self@) matches Some(items) ==> bytes_of(items) is None,
            },
    {
        let items = match self.as_array() {
            Some(items) => items,
            None => {
                return None;
            },
        };
        proof {
            lemma_values_view(items@);
        }
        let mut out: Vec<u8> = Vec::new();
        let mut k: usize = 0;
        while k < items.len()
            invariant
                k <= items@.len(),
                values_view(items@).len() == items@.len(),
                forall|i: int| 0 <= i < items@.len() ==> #[trigger] values_view(items@)[i] == value_view(items@[i]),
                bytes_of(values_view(items@).take(k as int)) == Some(out@),
                items_of(self@) == Some(values_view(items@)),
            decreases items@.len() - k,
        {
            assert(values_view(items@).take(k + 1).drop_last() =~= values_view(items@).take(k as int));
            match items[k].peel() {
                Value::Byte(b) => out.push(*b),
                _ => {
                    proof {
                        let t = values_view(items@).take(k + 1);
                        assert(t.last() == value_view(items@[k as int]));
                        assert(bytes_of(t) is None);
                        lemma_bytes_of_stays_none(values_view(items@), (k + 1) as int);
                    }
                    assert(values_view(items@).take(items@.len() as int) =~= values_view(items@));
                    return None;
                },
            }
            k = k + 1;
        }
        assert(values_view(items@).take(items@.len() as int) =~= values_view(items@));
        Some(out)
    }

    /// Collect an `as` or `ao` into strings, skipping what is not text.
    pub fn as_strings(&self) -> (v: Vec<String>)
        ensures
            match items_of(self@) {
                Some(items) => strings_view(v@) == texts_of(items),
                None => v@.len() == 0,
            },
    {
        let mut out: Vec<String> = Vec::new();
        let items = match self.as_array() {
            Some(items) => items,
            None => {
                return out;
            },
        };
        proof {
            lemma_values_view(items@);
        }
        let mut k: usize = 0;
        while k < items.len()
            invariant
                k <= items@.len(),
                values_view(items@).len() == items@.len(),
                forall|i: int| 0 <= i < items@.len() ==> #[trigger] values_view(items@)[i] == value_view(items@[i]),
                strings_view(out@) == texts_of(values_view(items@).take(k as int)),
                items_of(self@) == Some(values_view(items@)),
            decreases items@.len() - k,
        {
            assert(values_view(items@).take(k + 1).drop_last() =~= values_view(items@).take(k as int));
            match items[k].as_str() {
                Some(s) => {
                    let ghost before = out@;
                    out.push(s.to_string());
                    assert(strings_view(out@) =~= strings_view(before).push(s@));
                },
                None => {},
            }
            k = k + 1;
        }
        assert(values_view(items@).take(items@.len() as int) =~= values_view(items@));
        out
    }

    /// Look a key up in an `a{sv}`: the first entry whose key reads as `key`.
    pub fn get(&self, key: &str) -> (v: Option<Value>)
        ensures
            match items_of(self@) {
                Some(items) => match v {
                    Some(x) => lookup(items, key@) == Some(x@),
                    None => lookup(items, key@) is None,
                },
                None => v is None,
            },
    {
        let items = match self.as_array() {
            Some(items) => items,
            None => {
                return None;
            },
        };
        proof {
            lemma_values_view(items@);
        }
        let ghost all = values_view(items@);
        let mut k: usize = 0;
        assert(all.skip(0) =~= all);
        while k < items.len()
            invariant
                k <= items@.len(),
                all == values_view(items@),
                all.len() == items@.len(),
                forall|i: int| 0 <= i < items@.len() ==> #[trigger] all[i] == value_view(items@[i]),
                lookup(all, key@) == lookup(all.skip(k as int), key@),
                items_of(self@) == Some(all),
            decreases items@.len() - k,
        {
            assert(all.skip(k as int)[0] == all[k as int]);
            assert(all.skip(k as int).drop_first() =~= all.skip(k + 1));
            match items[k].peel() {
                Value::DictEntry(ek, ev) => {
                    match (**ek).as_str() {
                        Some(s) => {
                            if str_equal(s, key) {
                                let found = (**ev).clone();
                                assert(peeled(all[k as int]) == ValueView::DictEntry(
                                    Box::new(value_view(**ek)),
                                    Box::new(value_view(**ev)),
                                ));
                                return Some(found);
                            }
                        },
                        None => {},
                    }
                },
                _ => {},
            }
            k = k + 1;
        }
        None
    }
}

/// An `a{..}` read as a map from key text to value: entries whose key is
/// not text, and items that are not entries, are skipped; of two entries with
/// one key the later wins. Values are kept as they are, variants included.
pub open spec fn dict_map(items: Seq<ValueView>) -> Map<Seq<char>, ValueView>
    decreases items.len(),
{
    if items.len() == 0 {
        Map::empty()
    } else {
        let m = dict_map(items.drop_last());
        match peeled(items.last()) {
            ValueView::DictEntry(k, v) => match text_of(*k) {
                Some(key) => m.insert(key, *v),
                None => m,
            },
            _ => m,
        }
    }
}

/// Key and value pairs as text and values.
pub open spec fn entries_view(es: Seq<(String, Value)>) -> Seq<(Seq<char>, ValueView)> {
    es.map_values(|e: (String, Value)| (e.0@, e.1@))
}

/// The map that pairs make, a later pair replacing an earlier one.
pub open spec fn entries_map<V>(es: Seq<(Seq<char>, V)>) -> Map<Seq<char>, V>
    decreases es.len(),
{
    if es.len() == 0 {
        Map::empty()
    } else {
        entries_map(es.drop_last()).insert(es.last().0, es.last().1)
    }
}

/// No key occurs twice.
pub open spec fn distinct_keys<V>(es: Seq<(Seq<char>, V)>) -> bool {
    forall|i: int, j: int| 0 <= i < j < es.len() ==> es[i].0 != es[j].0
}

/// Replacing the value of a key that occurs once replaces it in the map.
pub(crate) proof fn lemma_entries_update<V>(es: Seq<(Seq<char>, V)>, j: int, v: V)
    requires
        distinct_keys(es),
        0 <= j < es.len(),
    ensures
        entries_map(es.update(j, (es[j].0, v))) == entries_map(es).insert(es[j].0, v),
        distinct_keys(es.update(j, (es[j].0, v))),
    decreases es.len(),
{
    let k = es[j].0;
    let u = es.update(j, (k, v));
    if j == es.len() - 1 {
        assert(u.drop_last() =~= es.drop_last());
        assert(entries_map(u) =~= entries_map(es).insert(k, v));
    } else {
        let init = es.drop_last();
        lemma_entries_update(init, j, v);
        assert(u.drop_last() =~= init.update(j, (k, v)));
        assert(u.last() == es.last());
        assert(es.last().0 != k);
        assert(entries_map(u) =~= entries_map(es).insert(k, v));
    }
}

/// Removing a pair whose key occurs once removes the key from the map.
pub(crate) proof fn lemma_entries_remove<V>(es: Seq<(Seq<char>, V)>, j: int)
    requires
        distinct_keys(es),
        0 <= j < es.len(),
    ensures
        entries_map(es.remove(j)) == entries_map(es).remove(es[j].0),
        distinct_keys(es.remove(j)),
    decreases es.len(),
{
    let k = es[j].0;
    let r = es.remove(j);
    assert forall|a: int, b: int| 0 <= a < b < r.len() implies r[a].0 != r[b].0 by {
        let oa = if a < j {
            a
        } else {
            a + 1
        };
        let ob = if b < j {
            b
        } else {
            b + 1
        };
        assert(r[a] == es[oa]);
        assert(r[b] == es[ob]);
    }
    if j == es.len() - 1 {
        assert(r =~= es.drop_last());
        lemma_entries_lookup(es.drop_last(), k, 0);
        if entries_map(es.drop_last()).contains_key(k) {
            let i = choose|i: int| 0 <= i < es.drop_last().len() && es.drop_last()[i].0 == k;
            assert(es[i].0 == k);
        }
        assert(entries_map(r) =~= entries_map(es).remove(k));
    } else {
        let init = es.drop_last();
        lemma_entries_remove(init, j);
        assert(r.drop_last() =~= init.remove(j));
        assert(r.last() == es.last());
        assert(es.last().0 != k);
        assert(entries_map(r) =~= entries_map(es).remove(k));
    }
}

/// Pairs make the empty map exactly when there are none.
pub(crate) proof fn lemma_entries_empty<V>(es: Seq<(Seq<char>, V)>)
    ensures
        (es.len() == 0) <==> (entries_map(es) == Map::<Seq<char>, V>::empty()),
{
    if es.len() > 0 {
        assert(entries_map(es).contains_key(es.last().0));
    } else {
        assert(entries_map(es) =~= Map::<Seq<char>, V>::empty());
    }
}

/// Where `key` is among the pairs, if it is.
pub(crate) fn find_key(es: &Vec<(String, Value)>, key: &str) -> (r: Option<usize>)
    ensures
        match r {
            Some(j) => j < es@.len() && entries_view(es@)[j as int].0 == key@,
            None => forall|i: int| 0 <= i < es@.len() ==> #[trigger] entries_view(es@)[i].0 != key@,
        },
{
    let mut j: usize = 0;
    while j < es.len()
        invariant
            j <= es@.len(),
            forall|i: int| 0 <= i < j ==> #[trigger] entries_view(es@)[i].0 != key@,
        decreases es@.len() - j,
    {
        if str_equal(es[j].0.as_str(), key) {
            return Some(j);
        }
        j = j + 1;
    }
    None
}

/// A value read as a map: a dictionary's entries, or nothing.
pub open spec fn map_of(v: ValueView) -> Map<Seq<char>, ValueView> {
    match items_of(v) {
        Some(items) => dict_map(items),
        None => Map::empty(),
    }
}

/// A key is in the map exactly when some pair has it, and with distinct keys
/// the map holds that pair's value.
pub(crate) proof fn lemma_entries_lookup<V>(es: Seq<(Seq<char>, V)>, k: Seq<char>, i: int)
    requires
        distinct_keys(es),
    ensures
        entries_map(es).contains_key(k) <==> exists|j: int| 0 <= j < es.len() && es[j].0 == k,
        0 <= i < es.len() && es[i].0 == k ==> entries_map(es)[k] == es[i].1,
    decreases es.len(),
{
    if es.len() > 0 {
        let init = es.drop_last();
        lemma_entries_lookup(init, k, i);
        if entries_map(es).contains_key(k) && es.last().0 != k {
            let j = choose|j: int| 0 <= j < init.len() && init[j].0 == k;
            assert(es[j] == init[j]);
        }
        if exists|j: int| 0 <= j < es.len() && es[j].0 == k {
            let j = choose|j: int| 0 <= j < es.len() && es[j].0 == k;
            if j < init.len() {
                assert(init[j] == es[j]);
            }
        }
        if 0 <= i < init.len() && es[i].0 == k {
            assert(init[i] == es[i]);
        }
    }
}

/// The value under `key`.
pub(crate) fn lookup_entry<'a>(es: &'a Vec<(String, Value)>, key: &str) -> (r: Option<&'a Value>)
    requires
        distinct_keys(entries_view(es@)),
    ensures
        match r {
            Some(v) => entries_map(entries_view(es@)).contains_key(key@) && entries_map(
                entries_view(es@),
            )[key@] == v@,
            None => !entries_map(entries_view(es@)).contains_key(key@),
        },
{
    let ghost ev = entries_view(es@);
    match find_key(es, key) {
        Some(j) => {
            proof {
                lemma_entries_lookup(ev, key@, j as int);
            }
            Some(&es[j].1)
        },
        None => {
            proof {
                lemma_entries_lookup(ev, key@, 0);
            }
            None
        },
    }
}

impl Value {
    /// Interpret an `a{sv}` (or any dict) as a map: one pair per key, the
    /// value of the last entry with that key, values as they were sent.
    pub fn as_map(&self) -> (out: Vec<(String, Value)>)
        ensures
            distinct_keys(entries_view(out@)),
            entries_map(entries_view(out@)) == match items_of(self@) {
                Some(items) => dict_map(items),
                None => Map::empty(),
            },
    {
        let mut out: Vec<(String, Value)> = Vec::new();
        assert(entries_view(out@) =~= Seq::<(Seq<char>, ValueView)>::empty());
        let items = match self.as_array() {
            Some(items) => items,
            None => {
                return out;
            },
        };
        proof {
            lemma_values_view(items@);
        }
        let ghost all = values_view(items@);
        let mut k: usize = 0;
        assert(all.take(0) =~= Seq::<ValueView>::empty());
        while k < items.len()
            invariant
                k <= items@.len(),
                all == values_view(items@),
                all.len() == items@.len(),
                forall|i: int| 0 <= i < items@.len() ==> #[trigger] all[i] == value_view(items@[i]),
                items_of(self@) == Some(all),
                distinct_keys(entries_view(out@)),
                entries_map(entries_view(out@)) == dict_map(all.take(k as int)),
            decreases items@.len() - k,
        {
            let ghost before = entries_view(out@);
            assert(all.take(k + 1).drop_last() =~= all.take(k as int));
            assert(all.take(k + 1).last() == all[k as int]);
            match items[k].peel() {
                Value::DictEntry(ek, ev) => {
                    match (**ek).as_str() {
                        Some(key) => {
                            let v = (**ev).clone();
                            let pair = (key.to_string(), v);
                            match find_key(&out, key) {
                                Some(j) => {
                                    proof {
                                        lemma_entries_update(before, j as int, v@);
                                    }
                                    out.set(j, pair);
                                    assert(entries_view(out@) =~= before.update(
                                        j as int,
                                        (before[j as int].0, v@),
                                    ));
                                },
                                None => {
                                    out.push(pair);
                                    assert(entries_view(out@).drop_last() =~= before);
                                    assert forall|i: int, j: int|
                                        0 <= i < j < entries_view(out@).len() implies entries_view(
                                        out@,
                                    )[i].0 != entries_view(out@)[j].0 by {
                                        if j == before.len() {
                                            assert(entries_view(out@)[i] == before[i]);
                                        } else {
                                            assert(entries_view(out@)[i] == before[i]);
                                            assert(entries_view(out@)[j] == before[j]);
                                        }
                                    }
                                },
                            }
                        },
                        None => {},
                    }
                },
                _ => {},
            }
            k = k + 1;
        }
        assert(all.take(items@.len() as int) =~= all);
        out
    }
}

/// Whether two strings hold the same characters.
pub(crate) fn str_equal(a: &str, b: &str) -> (r: bool)
    ensures
        r == (a@ == b@),
{
    let n = a.unicode_len();
    if n != b.unicode_len() {
        return false;
    }
    let mut k: usize = 0;
    while k < n
        invariant
            k <= n == a@.len() == b@.len(),
            a@.take(k as int) == b@.take(k as int),
        decreases n - k,
    {
        if a.get_char(k) != b.get_char(k) {
            return false;
        }
        assert(a@.take(k + 1) =~= a@.take(k as int).push(a@[k as int]));
        assert(b@.take(k + 1) =~= b@.take(k as int).push(b@[k as int]));
        k = k + 1;
    }
    assert(a@ =~= a@.take(n as int));
    assert(b@ =~= b@.take(n as int));
    true
}

/// Once an item is not a byte, no longer prefix is bytes either.
proof fn lemma_bytes_of_stays_none(items: Seq<ValueView>, k: int)
    requires
        0 <= k <= items.len(),
        bytes_of(items.take(k)) is None,
    ensures
        bytes_of(items) is None,
    decreases items.len() - k,
{
    if k < items.len() {
        assert(items.take(k + 1).drop_last() =~= items.take(k));
        lemma_bytes_of_stays_none(items, k + 1);
    } else {
        assert(items.take(k) =~= items);
    }
}

/// Strings as their characters.
pub open spec fn strings_view(v: Seq<String>) -> Seq<Seq<char>> {
    v.map_values(|s: String| s@)
}

/// Append the signatures of `values`, in order.
fn push_signatures(values: &Vec<Value>, out: &mut String)
    ensures
        final(out)@ == old(out)@ + signatures_of(values_view(values@)),
    decreases values,
{
    let mut i: usize = 0;
    proof {
        lemma_values_view(values@);
    }
    while i < values.len()
        invariant
            i <= values@.len(),
            out@ == old(out)@ + signatures_of(values_view(values@.take(i as int))),
        decreases values@.len() - i,
    {
        proof {
            assert(decreases_to!(values => values[i as int]));
        }
        values[i].push_signature(out);
        proof {
            let t = values@.take(i + 1);
            assert(t.drop_last() =~= values@.take(i as int));
            assert(t.last() == values@[i as int]);
            let vt = values_view(t);
            let prev = values_view(values@.take(i as int));
            assert(vt == prev.push(value_view(values@[i as int])));
            assert(vt.drop_last() =~= prev);
            assert(signatures_of(vt) == signatures_of(prev) + signature_of(vt.last()));
        }
        i = i + 1;
        assert(out@ =~= old(out)@ + signatures_of(values_view(values@.take(i as int))));
    }
    assert(values@.take(values@.len() as int) =~= values@);
}

/// The natural alignment of a type code, in bytes.
pub open spec fn alignment_of(code: u8) -> usize {
    if code == 0x79 || code == 0x67 || code == 0x76 {
        // y g v
        1
    } else if code == 0x6E || code == 0x71 {
        // n q
        2
    } else if code == 0x62 || code == 0x69 || code == 0x75 || code == 0x73 || code == 0x6F || code
        == 0x61 || code == 0x68 {
        // b i u s o a h
        4
    } else if code == 0x78 || code == 0x74 || code == 0x64 || code == 0x28 || code == 0x29 || code
        == 0x7B || code == 0x7D || code == 0x72 || code == 0x65 {
        // x t d ( ) { } r e
        8
    } else {
        1
    }
}

/// The natural alignment of a type code, in bytes.
///
/// Every value starts at a multiple of its alignment, counted from the start
/// of the message.
pub fn alignment(code: u8) -> (a: usize)
    ensures
        a == alignment_of(code),
        a == 1 || a == 2 || a == 4 || a == 8,
{
    if code == 0x79 || code == 0x67 || code == 0x76 {
        1
    } else if code == 0x6E || code == 0x71 {
        2
    } else if code == 0x62 || code == 0x69 || code == 0x75 || code == 0x73 || code == 0x6F || code
        == 0x61 || code == 0x68 {
        4
    } else if code == 0x78 || code == 0x74 || code == 0x64 || code == 0x28 || code == 0x29 || code
        == 0x7B || code == 0x7D || code == 0x72 || code == 0x65 {
        8
    } else {
        1
    }
}

/// Scanning a bracketed type from `i` with `depth` brackets open: the length
/// up to and including the bracket that closes the first, or `None` if the
/// signature ends first. Only the first bracket's own kind is counted.
pub open spec fn bracket_end(s: Seq<u8>, open: u8, close: u8, i: int, depth: int) -> Option<nat>
    decreases s.len() - i,
{
    if i < 0 || i >= s.len() {
        None
    } else if s[i] == open {
        bracket_end(s, open, close, i + 1, depth + 1)
    } else if s[i] == close {
        if depth - 1 == 0 {
            Some((i + 1) as nat)
        } else {
            bracket_end(s, open, close, i + 1, depth - 1)
        }
    } else {
        bracket_end(s, open, close, i + 1, depth)
    }
}

/// How many bytes of a signature its first complete type occupies.
pub open spec fn type_len(s: Seq<u8>) -> Option<nat>
    decreases s.len(),
{
    if s.len() == 0 {
        None
    } else if s[0] == 0x61 {
        // `a` is followed by exactly one complete type.
        match type_len(s.drop_first()) {
            Some(n) => Some(n + 1),
            None => None,
        }
    } else if s[0] == 0x28 {
        bracket_end(s, 0x28, 0x29, 0, 0)
    } else if s[0] == 0x7B {
        bracket_end(s, 0x7B, 0x7D, 0, 0)
    } else {
        Some(1)
    }
}

pub proof fn lemma_bracket_end_bounds(s: Seq<u8>, open: u8, close: u8, i: int, depth: int)
    ensures
        bracket_end(s, open, close, i, depth) matches Some(n) ==> i < n <= s.len(),
    decreases s.len() - i,
{
    if 0 <= i < s.len() {
        lemma_bracket_end_bounds(s, open, close, i + 1, depth + 1);
        lemma_bracket_end_bounds(s, open, close, i + 1, depth - 1);
        lemma_bracket_end_bounds(s, open, close, i + 1, depth);
    }
}

pub proof fn lemma_type_len_bounds(s: Seq<u8>)
    ensures
        type_len(s) matches Some(n) ==> 0 < n <= s.len(),
    decreases s.len(),
{
    if s.len() > 0 {
        if s[0] == 0x61 {
            lemma_type_len_bounds(s.drop_first());
        } else {
            lemma_bracket_end_bounds(s, s[0], if s[0] == 0x28 { 0x29 } else { 0x7D }, 0, 0);
        }
    }
}

fn bracket_length(signature: &[u8], open: u8, close: u8) -> (r: Option<usize>)
    requires
        signature@.len() > 0,
        signature@[0] == open,
        open != close,
    ensures
        match r {
            Some(n) => bracket_end(signature@, open, close, 0, 0) == Some(n as nat),
            None => bracket_end(signature@, open, close, 0, 0) is None,
        },
{
    let mut depth: usize = 0;
    let mut i: usize = 0;
    while i < signature.len()
        invariant
            i <= signature@.len(),
            depth <= i,
            i > 0 ==> depth >= 1,
            signature@.len() > 0,
            signature@[0] == open,
            open != close,
            bracket_end(signature@, open, close, 0, 0) == bracket_end(
                signature@,
                open,
                close,
                i as int,
                depth as int,
            ),
        decreases signature@.len() - i,
    {
        let c = signature[i];
        if c == open {
            depth = depth + 1;
        } else if c == close {
            depth = depth - 1;
            if depth == 0 {
                return Some(i + 1);
            }
        }
        i = i + 1;
    }
    None
}

/// How many bytes of `signature` the first complete type occupies.
pub fn type_length(signature: &[u8]) -> (r: Option<usize>)
    ensures
        match r {
            Some(n) => type_len(signature@) == Some(n as nat),
            None => type_len(signature@) is None,
        },
    decreases signature@.len(),
{
    if signature.len() == 0 {
        return None;
    }
    let first = signature[0];
    if first == 0x61 {
        let rest = vstd::slice::slice_subrange(signature, 1, signature.len());
        assert(rest@ =~= signature@.drop_first());
        proof {
            lemma_type_len_bounds(rest@);
        }
        match type_length(rest) {
            Some(n) => Some(1 + n),
            None => None,
        }
    } else if first == 0x28 {
        bracket_length(signature, 0x28, 0x29)
    } else if first == 0x7B {
        bracket_length(signature, 0x7B, 0x7D)
    } else {
        Some(1)
    }
}

/// A signature cut into its complete top-level types, in order. Cutting
/// stops at the first place no complete type begins.
pub open spec fn type_pieces(s: Seq<u8>) -> Seq<Seq<u8>>
    decreases s.len(),
{
    if s.len() == 0 {
        seq![]
    } else {
        match type_len(s) {
            None => seq![],
            Some(n) => if 0 < n <= s.len() {
                seq![s.take(n as int)] + type_pieces(s.skip(n as int))
            } else {
                seq![]
            },
        }
    }
}

/// Whether every piece is whole characters, so that cutting the string there
/// never splits one.
pub open spec fn pieces_are_text(pieces: Seq<Seq<u8>>) -> bool {
    forall|k: int| 0 <= k < pieces.len() ==> valid_utf8(#[trigger] pieces[k])
}

pub open spec fn string_views(v: Seq<String>) -> Seq<Seq<char>> {
    v.map_values(|s: String| s@)
}

/// Split a signature into its complete top-level types.
///
/// `"sa{sv}u"` → `["s", "a{sv}", "u"]`. The cuts are made on bytes, so every
/// piece must be whole characters, which any signature of type codes is.
pub fn complete_types(signature: &str) -> (out: Vec<String>)
    requires
        pieces_are_text(type_pieces(signature.spec_bytes())),
    ensures
        string_views(out@) == type_pieces(signature.spec_bytes()).map_values(
            |p: Seq<u8>| decode_utf8(p),
        ),
{
    let bytes = signature.as_bytes();
    let ghost all = bytes@;
    let mut out: Vec<String> = Vec::new();
    let mut i: usize = 0;
    assert(all.skip(0) =~= all);
    while i < bytes.len()
        invariant
            i <= all.len(),
            all == bytes@,
            all == signature.spec_bytes(),
            pieces_are_text(type_pieces(all)),
            string_views(out@) + type_pieces(all.skip(i as int)).map_values(
                |p: Seq<u8>| decode_utf8(p),
            ) == type_pieces(all).map_values(|p: Seq<u8>| decode_utf8(p)),
            forall|k: int|
                0 <= k < type_pieces(all.skip(i as int)).len() ==> valid_utf8(
                    #[trigger] type_pieces(all.skip(i as int))[k],
                ),
        ensures
            type_pieces(all.skip(i as int)) == Seq::<Seq<u8>>::empty(),
        decreases all.len() - i,
    {
        let rest = vstd::slice::slice_subrange(bytes, i, bytes.len());
        assert(rest@ =~= all.skip(i as int));
        proof {
            lemma_type_len_bounds(rest@);
        }
        let len = match type_length(rest) {
            Some(n) => n,
            None => {
                break;
            },
        };
        let ghost piece = all.skip(i as int).take(len as int);
        assert(type_pieces(all.skip(i as int))[0] == piece);
        let part = vstd::slice::slice_subrange(bytes, i, i + len);
        assert(part@ =~= piece);
        let s = match utf8_string(part) {
            Some(s) => s,
            None => {
                assert(false);
                String::new()
            },
        };
        let ghost before = string_views(out@);
        out.push(s);
        assert(string_views(out@) =~= before.push(s@));
        assert(all.skip(i as int).skip(len as int) =~= all.skip(i + len));
        let ghost tail = type_pieces(all.skip(i + len));
        assert(type_pieces(all.skip(i as int)) =~= seq![piece] + tail);
        assert forall|k: int| 0 <= k < tail.len() implies valid_utf8(#[trigger] tail[k]) by {
            assert(tail[k] == type_pieces(all.skip(i as int))[k + 1]);
        }
        assert((seq![piece] + tail).map_values(|p: Seq<u8>| decode_utf8(p)) =~= seq![
            decode_utf8(piece),
        ] + tail.map_values(|p: Seq<u8>| decode_utf8(p)));
        i = i + len;
    }
    assert(string_views(out@) =~= string_views(out@) + Seq::<Seq<char>>::empty());
    out
}

} // verus!
