//! What can go wrong on the bus, where each inbound message goes, and how
//! a method call made of us is answered.

use vstd::prelude::*;
use crate::bluez::{child_of, is_child};
use crate::dbus::codec::{codec_error_text, CodecError};
use crate::dbus::message::{
    empty_message, Message, MessageType, MessageView, FLAG_NO_REPLY_EXPECTED,
};
use crate::dbus::value::{str_equal, text_of, values_view, Value, ValueView};
use crate::text::{decimal_digits, hex_char_lower, hex_lower, hex_pair_lower, push_char, push_str};

verus! {

/// Something went wrong on the bus.
#[derive(Debug, Clone)]
pub enum Error {
    /// The socket could not be reached, or died.
    Io(String),
    /// SASL did not complete.
    Auth(String),
    /// A malformed message.
    Codec(CodecError),
    /// The peer replied with an error.
    Call { name: String, message: String },
    /// No reply within the deadline.
    Timeout,
    /// The connection is shutting down.
    Disconnected,
    /// `DBUS_SYSTEM_BUS_ADDRESS` was unparseable, or names no socket.
    BadAddress(String),
}

/// What a connection error says, in words.
pub open spec fn error_text(e: Error) -> Seq<char> {
    match e {
        Error::Io(m) => "D-Bus I/O error: "@ + m@,
        Error::Auth(m) => "D-Bus authentication failed: "@ + m@,
        Error::Codec(c) => "D-Bus protocol error: "@ + codec_error_text(c@),
        Error::Call { name, message } => name@ + ": "@ + message@,
        Error::Timeout => "D-Bus call timed out"@,
        Error::Disconnected => "D-Bus connection closed"@,
        Error::BadAddress(a) => "unusable D-Bus address: "@ + a@,
    }
}

impl Error {
    /// The error in words.
    pub fn to_string(&self) -> (s: String)
        ensures
            s@ == error_text(*self),
    {
        let (prefix, rest): (&str, String) = match self {
            Error::Io(m) => ("D-Bus I/O error: ", m.clone()),
            Error::Auth(m) => ("D-Bus authentication failed: ", m.clone()),
            Error::Codec(c) => ("D-Bus protocol error: ", c.to_string()),
            Error::Call { name, message } => {
                let mut s = name.clone();
                push_str(&mut s, ": ");
                push_str(&mut s, message.as_str());
                return s;
            },
            Error::Timeout => return String::from_str("D-Bus call timed out"),
            Error::Disconnected => return String::from_str("D-Bus connection closed"),
            Error::BadAddress(a) => ("unusable D-Bus address: ", a.clone()),
        };
        let mut s = String::from_str(prefix);
        push_str(&mut s, rest.as_str());
        s
    }
}

// ── Routing ─────────────────────────────────────────────────────────────────

/// Where an inbound message goes.
#[derive(Debug)]
pub enum Route {
    /// The answer to our call `serial`: the reply, or the error it carries.
    Reply { serial: u32, outcome: Result<Message, Error> },
    /// A signal, for every signal handler.
    Signal(Message),
    /// A method call made of us, to be answered.
    Call(Message),
    /// A reply that names no call.
    Dropped,
}

/// Optional text, or nothing.
pub open spec fn text_or_empty(t: Option<Seq<char>>) -> Seq<char> {
    match t {
        Some(s) => s,
        None => Seq::empty(),
    }
}

/// The text an error reply carries: its first argument when that is text.
pub open spec fn error_text_of(m: MessageView) -> Seq<char> {
    if m.body.len() > 0 {
        text_or_empty(text_of(m.body[0]))
    } else {
        Seq::empty()
    }
}

/// Route one inbound message: replies to the call they answer, by serial,
/// with an error reply turned into the error it names; signals and calls by
/// their kind.
pub fn route(message: Message) -> (r: Route)
    ensures
        match r {
            Route::Reply { serial, outcome } => {
                &&& message@.reply_serial == Some(serial)
                &&& match outcome {
                    Ok(reply) => message@.message_type == MessageType::MethodReturn && reply@
                        == message@,
                    Err(Error::Call { name, message: text }) => {
                        &&& message@.message_type == MessageType::Error
                        &&& name@ == text_or_empty(message@.error_name)
                        &&& text@ == error_text_of(message@)
                    },
                    Err(_) => false,
                }
            },
            Route::Signal(m) => message@.message_type == MessageType::Signal && m@ == message@,
            Route::Call(m) => message@.message_type == MessageType::MethodCall && m@ == message@,
            Route::Dropped => (message@.message_type == MessageType::MethodReturn
                || message@.message_type == MessageType::Error) && message@.reply_serial is None,
        },
{
    match message.message_type {
        MessageType::MethodReturn => match message.reply_serial {
            Some(serial) => Route::Reply { serial, outcome: Ok(message) },
            None => Route::Dropped,
        },
        MessageType::Error => match message.reply_serial {
            Some(serial) => {
                let name = match &message.error_name {
                    Some(n) => n.clone(),
                    None => String::new(),
                };
                let text = match message.error_text() {
                    Some(t) => t,
                    None => String::new(),
                };
                proof {
                    crate::dbus::value::lemma_values_view(message.body@);
                }
                Route::Reply { serial, outcome: Err(Error::Call { name, message: text }) }
            },
            None => Route::Dropped,
        },
        MessageType::Signal => Route::Signal(message),
        MessageType::MethodCall => Route::Call(message),
    }
}

// ── Answering calls ─────────────────────────────────────────────────────────

/// Whether an object exported at `exported` serves calls to `path`: the
/// object itself, or anything below it.
pub open spec fn serves_spec(exported: Seq<char>, path: Seq<char>) -> bool {
    path == exported || child_of(path, exported)
}

pub fn serves(exported: &str, path: &str) -> (r: bool)
    ensures
        r == serves_spec(exported@, path@),
{
    str_equal(path, exported) || is_child(path, exported)
}

/// The reply to a call made of us, if one is wanted: the body the handler
/// returned, or the error it named with its text; an error naming the path
/// when no object serves it. A call marked `NO_REPLY_EXPECTED` gets none.
pub open spec fn reply_spec(
    call: MessageView,
    outcome: Option<Result<Seq<ValueView>, (Seq<char>, Seq<char>)>>,
) -> Option<MessageView> {
    if call.flags & FLAG_NO_REPLY_EXPECTED != 0 {
        None
    } else {
        let answer = |t: MessageType|
            MessageView {
                reply_serial: Some(call.serial),
                destination: call.sender,
                ..empty_message(t)
            };
        let failure = |name: Seq<char>, text: Seq<char>|
            MessageView {
                error_name: Some(name),
                body: seq![ValueView::Str(text)],
                ..answer(MessageType::Error)
            };
        Some(
            match outcome {
                Some(Ok(body)) => MessageView { body, ..answer(MessageType::MethodReturn) },
                Some(Err((name, text))) => failure(name, text),
                None => failure(
                    "org.freedesktop.DBus.Error.UnknownObject"@,
                    "no object at "@ + text_or_empty(call.path),
                ),
            },
        )
    }
}

/// Build the reply to a call from what its handler gave: `None` when no
/// object serves the path.
pub fn reply_for(call: &Message, outcome: Option<Result<Vec<Value>, (String, String)>>) -> (r:
    Option<Message>)
    ensures
        r matches Some(m) ==> reply_spec(
            call@,
            match outcome {
                Some(Ok(body)) => Some(Ok(values_view(body@))),
                Some(Err((n, t))) => Some(Err((n@, t@))),
                None => None,
            },
        ) == Some(m@),
        r is None ==> reply_spec(
            call@,
            match outcome {
                Some(Ok(body)) => Some(Ok(values_view(body@))),
                Some(Err((n, t))) => Some(Err((n@, t@))),
                None => None,
            },
        ) is None,
{
    if call.flags & FLAG_NO_REPLY_EXPECTED != 0 {
        return None;
    }
    let reply = match outcome {
        Some(Ok(body)) => Message::reply_to(call).with_body(body),
        Some(Err((name, text))) => Message::error_to(call, name.as_str(), text.as_str()),
        None => {
            let mut text = String::from_str("no object at ");
            match &call.path {
                Some(p) => crate::text::push_str(&mut text, p.as_str()),
                None => {
                    assert(text@ =~= text@ + Seq::<char>::empty());
                },
            }
            Message::error_to(call, "org.freedesktop.DBus.Error.UnknownObject", text.as_str())
        },
    };
    Some(reply)
}

// ── Authentication ──────────────────────────────────────────────────────────
//
// Before any message the client sends one NUL byte, then a line-based SASL
// exchange: `AUTH EXTERNAL` with the user id, which the kernel vouches for
// on a Unix socket, and `AUTH ANONYMOUS` for buses configured to allow it.

/// The ASCII codes of the decimal digits of `n`.
pub open spec fn digit_bytes(n: nat) -> Seq<u8> {
    decimal_digits(n).map_values(|c: char| c as u8)
}

/// `AUTH EXTERNAL` naming the user: its decimal digits, each sent as the
/// two hexadecimal digits of its ASCII code.
pub open spec fn external_auth_spec(uid: u32) -> Seq<char> {
    "AUTH EXTERNAL "@ + hex_lower(digit_bytes(uid as nat)) + "\r\n"@
}

/// Append the ASCII codes of the decimal digits of `n` in hexadecimal.
fn push_hex_decimal(out: &mut String, n: u32)
    ensures
        final(out)@ == old(out)@ + hex_lower(digit_bytes(n as nat)),
    decreases n,
{
    let d: u8 = (n % 10) as u8 + 48;
    if n >= 10 {
        push_hex_decimal(out, n / 10);
    }
    push_char(out, hex_char_lower(d / 16));
    push_char(out, hex_char_lower(d % 16));
    proof {
        let digits = decimal_digits(n as nat);
        if n >= 10 {
            assert(digits == decimal_digits((n / 10) as nat) + seq![((n % 10) + 48) as char]);
            assert(digit_bytes(n as nat) =~= digit_bytes((n / 10) as nat).push(d));
        } else {
            assert(digit_bytes(n as nat) =~= seq![d]);
            assert(seq![d].drop_last() =~= Seq::<u8>::empty());
        }
        assert(digit_bytes(n as nat).last() == d);
        assert(digit_bytes(n as nat).drop_last() =~= if n >= 10 {
            digit_bytes((n / 10) as nat)
        } else {
            Seq::<u8>::empty()
        });
        assert(hex_lower(digit_bytes(n as nat)) == hex_lower(digit_bytes(n as nat).drop_last())
            + hex_pair_lower(d));
        assert(out@ =~= old(out)@ + hex_lower(digit_bytes(n as nat)));
    }
}

/// The authentication lines to try, in order.
pub fn auth_lines(uid: u32) -> (lines: Vec<String>)
    ensures
        lines@.len() == 2,
        lines@[0]@ == external_auth_spec(uid),
        lines@[1]@ == "AUTH ANONYMOUS\r\n"@,
{
    let mut external = String::from_str("AUTH EXTERNAL ");
    push_hex_decimal(&mut external, uid);
    push_str(&mut external, "\r\n");
    let mut lines: Vec<String> = Vec::new();
    lines.push(external);
    lines.push(String::from_str("AUTH ANONYMOUS\r\n"));
    lines
}

/// What the bus said to an authentication line.
#[derive(Debug, Clone, Copy, PartialEq, Eq, Structural)]
pub enum SaslReply {
    /// `OK`: send `BEGIN`, and the exchange is over.
    Accepted,
    /// `REJECTED`: try the next mechanism.
    Rejected,
    /// Anything else ends the exchange with an error.
    Failed,
}

/// How a reply line is read: by how it starts.
pub open spec fn sasl_reply_spec(line: Seq<char>) -> SaslReply {
    if "OK"@.is_prefix_of(line) {
        SaslReply::Accepted
    } else if "REJECTED"@.is_prefix_of(line) {
        SaslReply::Rejected
    } else {
        SaslReply::Failed
    }
}

/// Whether `s` starts with `p`.
pub fn starts_with(s: &str, p: &str) -> (r: bool)
    ensures
        r == p@.is_prefix_of(s@),
{
    let n = p.unicode_len();
    if n > s.unicode_len() {
        return false;
    }
    let mut k: usize = 0;
    while k < n
        invariant
            k <= n == p@.len() <= s@.len(),
            forall|i: int| 0 <= i < k ==> #[trigger] s@[i] == p@[i],
        decreases n - k,
    {
        if s.get_char(k) != p.get_char(k) {
            return false;
        }
        k = k + 1;
    }
    true
}

pub fn sasl_reply(line: &str) -> (r: SaslReply)
    ensures
        r == sasl_reply_spec(line@),
{
    if starts_with(line, "OK") {
        SaslReply::Accepted
    } else if starts_with(line, "REJECTED") {
        SaslReply::Rejected
    } else {
        SaslReply::Failed
    }
}

/// Take one byte of a reply line: a line feed ends it, a carriage return is
/// dropped, anything else is kept.
pub fn line_byte(line: &mut Vec<u8>, byte: u8) -> (done: bool)
    ensures
        done == (byte == 10),
        final(line)@ == if byte == 10 || byte == 13 {
            old(line)@
        } else {
            old(line)@.push(byte)
        },
{
    if byte == 10 {
        true
    } else {
        if byte != 13 {
            line.push(byte);
        }
        false
    }
}

// ── Bus addresses ───────────────────────────────────────────────────────────
//
// An address is a `;`-separated list of transports to try, in order; of
// them only `unix:` ones are used, whose `,`-separated keys name a socket by
// `path=` or, on Linux, by `abstract=` name.

/// Unicode's `White_Space`, which `char::is_whitespace` tests.
pub open spec fn is_white(c: char) -> bool {
    ('\t' <= c && c <= '\r') || c == ' ' || c == '\u{85}' || c == '\u{a0}' || c == '\u{1680}'
        || ('\u{2000}' <= c && c <= '\u{200a}') || c == '\u{2028}' || c == '\u{2029}' || c
        == '\u{202f}' || c == '\u{205f}' || c == '\u{3000}'
}

fn white(c: char) -> (r: bool)
    ensures
        r == is_white(c),
{
    ('\t' <= c && c <= '\r') || c == ' ' || c == '\u{85}' || c == '\u{a0}' || c == '\u{1680}'
        || ('\u{2000}' <= c && c <= '\u{200a}') || c == '\u{2028}' || c == '\u{2029}' || c
        == '\u{202f}' || c == '\u{205f}' || c == '\u{3000}'
}

/// `s` without the white space it starts with.
pub open spec fn trim_start_spec(s: Seq<char>) -> Seq<char>
    decreases s.len(),
{
    if s.len() > 0 && is_white(s[0]) {
        trim_start_spec(s.drop_first())
    } else {
        s
    }
}

/// `s` without the white space it ends with.
pub open spec fn trim_end_spec(s: Seq<char>) -> Seq<char>
    decreases s.len(),
{
    if s.len() > 0 && is_white(s.last()) {
        trim_end_spec(s.drop_last())
    } else {
        s
    }
}

/// `s` without white space at either end.
pub open spec fn trim_spec(s: Seq<char>) -> Seq<char> {
    trim_end_spec(trim_start_spec(s))
}

/// `s` without white space at either end.
pub fn trim(s: &str) -> (t: &str)
    ensures
        t@ == trim_spec(s@),
{
    let n = s.unicode_len();
    let mut i: usize = 0;
    assert(s@.skip(0) =~= s@);
    while i < n && white(s.get_char(i))
        invariant
            i <= n == s@.len(),
            trim_start_spec(s@) == trim_start_spec(s@.skip(i as int)),
        decreases n - i,
    {
        assert(s@.skip(i as int).drop_first() =~= s@.skip(i + 1));
        i = i + 1;
    }
    let mut j: usize = n;
    assert(s@.subrange(i as int, n as int) =~= s@.skip(i as int));
    while j > i && white(s.get_char(j - 1))
        invariant
            i <= j <= n == s@.len(),
            trim_start_spec(s@) == s@.skip(i as int),
            trim_spec(s@) == trim_end_spec(s@.subrange(i as int, j as int)),
        decreases j - i,
    {
        assert(s@.subrange(i as int, j as int).drop_last() =~= s@.subrange(i as int, j - 1));
        j = j - 1;
    }
    s.substring_char(i, j)
}

/// Where `c` first occurs in `s`, or the length of `s`.
pub open spec fn first_index(s: Seq<char>, c: char) -> int
    decreases s.len(),
{
    if s.len() == 0 {
        0
    } else if s[0] == c {
        0
    } else {
        1 + first_index(s.drop_first(), c)
    }
}

proof fn lemma_first_index(s: Seq<char>, c: char)
    ensures
        0 <= first_index(s, c) <= s.len(),
        first_index(s, c) < s.len() ==> s[first_index(s, c)] == c,
        forall|k: int| 0 <= k < first_index(s, c) ==> s[k] != c,
    decreases s.len(),
{
    if s.len() > 0 && s[0] != c {
        lemma_first_index(s.drop_first(), c);
        assert forall|k: int| 0 <= k < first_index(s, c) implies s[k] != c by {
            if k > 0 {
                assert(s[k] == s.drop_first()[k - 1]);
            }
        }
    }
}

/// Find where `c` first occurs in `s`, or its length.
fn find_first(s: &str, c: char) -> (i: usize)
    ensures
        i as int == first_index(s@, c),
        i <= s@.len(),
{
    proof {
        lemma_first_index(s@, c);
    }
    let n = s.unicode_len();
    let mut k: usize = 0;
    while k < n
        invariant
            k <= n == s@.len(),
            forall|i: int| 0 <= i < k ==> s@[i] != c,
            0 <= first_index(s@, c) <= s@.len(),
            first_index(s@, c) < s@.len() ==> s@[first_index(s@, c)] == c,
            forall|i: int| 0 <= i < first_index(s@, c) ==> s@[i] != c,
        decreases n - k,
    {
        if s.get_char(k) == c {
            return k;
        }
        k = k + 1;
    }
    k
}

/// `s` cut at each `sep`, the separators dropped: never empty, as with
/// `str::split`.
pub open spec fn split_spec(s: Seq<char>, sep: char) -> Seq<Seq<char>>
    decreases s.len(),
{
    let i = first_index(s, sep);
    if i < 0 || i >= s.len() {
        seq![s]
    } else {
        seq![s.take(i)] + split_spec(s.skip(i + 1), sep)
    }
}

/// Where a bus socket is.
#[derive(Debug, Clone, PartialEq, Eq)]
pub enum Endpoint {
    /// A socket in the file system.
    Path(String),
    /// A Linux abstract socket, by name.
    Abstract(String),
}

pub enum EndpointView {
    Path(Seq<char>),
    Abstract(Seq<char>),
}

impl View for Endpoint {
    type V = EndpointView;

    open spec fn view(&self) -> EndpointView {
        match self {
            Endpoint::Path(p) => EndpointView::Path(p@),
            Endpoint::Abstract(n) => EndpointView::Abstract(n@),
        }
    }
}

pub open spec fn endpoints_view(es: Seq<Endpoint>) -> Seq<EndpointView> {
    es.map_values(|e: Endpoint| e@)
}

/// What one key of a `unix:` transport names.
pub open spec fn key_endpoints(key: Seq<char>) -> Seq<EndpointView> {
    (if "path="@.is_prefix_of(key) {
        seq![EndpointView::Path(key.skip(5))]
    } else {
        Seq::empty()
    }) + (if "abstract="@.is_prefix_of(key) {
        seq![EndpointView::Abstract(key.skip(9))]
    } else {
        Seq::empty()
    })
}

pub open spec fn keys_endpoints(keys: Seq<Seq<char>>) -> Seq<EndpointView>
    decreases keys.len(),
{
    if keys.len() == 0 {
        Seq::empty()
    } else {
        key_endpoints(keys[0]) + keys_endpoints(keys.drop_first())
    }
}

/// What one transport names: a `unix:` one's keys, after trimming; nothing
/// for any other kind.
pub open spec fn transport_endpoints(t: Seq<char>) -> Seq<EndpointView> {
    let t = trim_spec(t);
    if "unix:"@.is_prefix_of(t) {
        keys_endpoints(split_spec(t.skip(5), ','))
    } else {
        Seq::empty()
    }
}

pub open spec fn transports_endpoints(ts: Seq<Seq<char>>) -> Seq<EndpointView>
    decreases ts.len(),
{
    if ts.len() == 0 {
        Seq::empty()
    } else {
        transport_endpoints(ts[0]) + transports_endpoints(ts.drop_first())
    }
}

/// The sockets an address names, in the order to try them.
pub open spec fn endpoints_spec(address: Seq<char>) -> Seq<EndpointView> {
    transports_endpoints(split_spec(address, ';'))
}

/// Append what one key names.
fn push_key(out: &mut Vec<Endpoint>, key: &str)
    ensures
        endpoints_view(final(out)@) == endpoints_view(old(out)@) + key_endpoints(key@),
{
    let ghost start = endpoints_view(out@);
    if starts_with(key, "path=") {
        proof {
            reveal_strlit("path=");
        }
        let p = key.substring_char(5, key.unicode_len());
        out.push(Endpoint::Path(p.to_string()));
    }
    let ghost mid = endpoints_view(out@);
    if starts_with(key, "abstract=") {
        proof {
            reveal_strlit("abstract=");
        }
        let n = key.substring_char(9, key.unicode_len());
        out.push(Endpoint::Abstract(n.to_string()));
    }
    proof {
        reveal_strlit("path=");
        reveal_strlit("abstract=");
        assert(endpoints_view(out@) =~= start + key_endpoints(key@));
    }
}

/// Append what one transport names.
fn push_transport(out: &mut Vec<Endpoint>, transport: &str)
    ensures
        endpoints_view(final(out)@) == endpoints_view(old(out)@) + transport_endpoints(
            transport@,
        ),
{
    let t = trim(transport);
    if !starts_with(t, "unix:") {
        assert(endpoints_view(out@) =~= endpoints_view(out@) + Seq::<EndpointView>::empty());
        return;
    }
    proof {
        reveal_strlit("unix:");
    }
    let mut rest = t.substring_char(5, t.unicode_len());
    let ghost whole = keys_endpoints(split_spec(rest@, ','));
    let ghost start = endpoints_view(out@);
    assert(start + whole =~= start + keys_endpoints(split_spec(rest@, ',')));
    loop
        invariant_except_break
            endpoints_view(out@) + keys_endpoints(split_spec(rest@, ',')) == start + whole,
        ensures
            endpoints_view(out@) == start + whole,
        decreases rest@.len(),
    {
        let i = find_first(rest, ',');
        let key = rest.substring_char(0, i);
        let ghost before = endpoints_view(out@);
        push_key(out, key);
        if i >= rest.unicode_len() {
            proof {
                assert(key@ =~= rest@);
                assert(split_spec(rest@, ',') == seq![rest@]);
                assert(seq![rest@].drop_first() =~= Seq::<Seq<char>>::empty());
                assert(keys_endpoints(Seq::<Seq<char>>::empty()) =~= Seq::<EndpointView>::empty());
                assert(keys_endpoints(seq![rest@]) =~= key_endpoints(rest@));
                assert(endpoints_view(out@) =~= start + whole);
            }
            break;
        }
        let next = rest.substring_char(i + 1, rest.unicode_len());
        proof {
            assert(key@ =~= rest@.take(i as int));
            assert(next@ =~= rest@.skip(i + 1));
            let parts = split_spec(rest@, ',');
            assert(parts == seq![rest@.take(i as int)] + split_spec(rest@.skip(i + 1), ','));
            assert(parts[0] == key@);
            assert(parts.drop_first() =~= split_spec(next@, ','));
            assert(endpoints_view(out@) + keys_endpoints(split_spec(next@, ',')) =~= before
                + keys_endpoints(parts));
        }
        rest = next;
    }
}

/// The sockets a bus address names, in the order to try them.
pub fn endpoints(address: &str) -> (es: Vec<Endpoint>)
    ensures
        endpoints_view(es@) == endpoints_spec(address@),
{
    let mut out: Vec<Endpoint> = Vec::new();
    let mut rest = address;
    let ghost whole = endpoints_spec(address@);
    assert(endpoints_view(out@) + transports_endpoints(split_spec(rest@, ';')) =~= whole);
    loop
        invariant_except_break
            endpoints_view(out@) + transports_endpoints(split_spec(rest@, ';')) == whole,
        ensures
            endpoints_view(out@) == whole,
        decreases rest@.len(),
    {
        let i = find_first(rest, ';');
        let transport = rest.substring_char(0, i);
        let ghost before = endpoints_view(out@);
        push_transport(&mut out, transport);
        if i >= rest.unicode_len() {
            proof {
                assert(transport@ =~= rest@);
                assert(split_spec(rest@, ';') == seq![rest@]);
                assert(seq![rest@].drop_first() =~= Seq::<Seq<char>>::empty());
                assert(transports_endpoints(Seq::<Seq<char>>::empty()) =~= Seq::<
                    EndpointView,
                >::empty());
                assert(transports_endpoints(seq![rest@]) =~= transport_endpoints(rest@));
                assert(endpoints_view(out@) =~= whole);
            }
            break;
        }
        let next = rest.substring_char(i + 1, rest.unicode_len());
        proof {
            assert(transport@ =~= rest@.take(i as int));
            assert(next@ =~= rest@.skip(i + 1));
            let parts = split_spec(rest@, ';');
            assert(parts == seq![rest@.take(i as int)] + split_spec(rest@.skip(i + 1), ';'));
            assert(parts[0] == transport@);
            assert(parts.drop_first() =~= split_spec(next@, ';'));
            assert(endpoints_view(out@) + transports_endpoints(split_spec(next@, ';')) =~= before
                + transports_endpoints(parts));
        }
        rest = next;
    }
    out
}

} // verus!
