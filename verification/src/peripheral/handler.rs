//! How the published objects answer the method calls BlueZ makes on them.
//!
//! Most calls are answered from the tree at once. Reading, writing and
//! subscribing to a characteristic go to the application, which answers when
//! it likes; what it answered then decides the reply.

use vstd::prelude::*;
use super::objects::{
    bluez_error_name, bytes_value, characteristic_index, descriptor_index,
    managed_view, pairs_view, properties_at, property_at, att_error_name, CharacteristicState,
    ServiceState,
};
use super::{option_in, option_u64, options_view};
use crate::att::{att_error_description, AttError};
use crate::dbus::message::{Message, MessageView};
use crate::dbus::value::{
    bytes_of, items_of, text_of, unsigned_of, values_view, Value, ValueView,
};
use crate::dbus::value::str_equal;
use crate::text::{hex_pair_lower, push_str};

verus! {

/// What a method call on our objects asks for.
#[derive(Debug, Clone, Copy, PartialEq, Eq, Structural)]
pub enum Call {
    /// `ObjectManager.GetManagedObjects`: the whole tree.
    ManagedObjects,
    /// `Properties.GetAll`.
    AllProperties,
    /// `Properties.Get`.
    Property,
    /// `GattCharacteristic1.ReadValue`.
    ReadValue,
    /// `GattCharacteristic1.WriteValue`.
    WriteValue,
    /// `GattCharacteristic1.StartNotify`.
    StartNotify,
    /// `GattCharacteristic1.StopNotify`.
    StopNotify,
    /// `GattDescriptor1.ReadValue`: a descriptor's value is fixed when it is
    /// published, so it needs no round trip to the application.
    ReadDescriptor,
    /// `LEAdvertisement1.Release`: BlueZ dropped the advertisement.
    Release,
    /// Anything else.
    Unknown,
}

/// The call an interface and member name.
pub open spec fn call_kind(interface: Seq<char>, member: Seq<char>) -> Call {
    if interface == "org.freedesktop.DBus.ObjectManager"@ && member == "GetManagedObjects"@ {
        Call::ManagedObjects
    } else if interface == "org.freedesktop.DBus.Properties"@ && member == "GetAll"@ {
        Call::AllProperties
    } else if interface == "org.freedesktop.DBus.Properties"@ && member == "Get"@ {
        Call::Property
    } else if interface == "org.bluez.GattCharacteristic1"@ && member == "ReadValue"@ {
        Call::ReadValue
    } else if interface == "org.bluez.GattCharacteristic1"@ && member == "WriteValue"@ {
        Call::WriteValue
    } else if interface == "org.bluez.GattCharacteristic1"@ && member == "StartNotify"@ {
        Call::StartNotify
    } else if interface == "org.bluez.GattCharacteristic1"@ && member == "StopNotify"@ {
        Call::StopNotify
    } else if interface == "org.bluez.GattDescriptor1"@ && member == "ReadValue"@ {
        Call::ReadDescriptor
    } else if interface == "org.bluez.LEAdvertisement1"@ && member == "Release"@ {
        Call::Release
    } else {
        Call::Unknown
    }
}

/// Which call an interface and member name.
pub fn classify(interface: &str, member: &str) -> (c: Call)
    ensures
        c == call_kind(interface@, member@),
{
    if str_equal(interface, "org.freedesktop.DBus.ObjectManager") && str_equal(member, "GetManagedObjects") {
        Call::ManagedObjects
    } else if str_equal(interface, "org.freedesktop.DBus.Properties") && str_equal(member, "GetAll") {
        Call::AllProperties
    } else if str_equal(interface, "org.freedesktop.DBus.Properties") && str_equal(member, "Get") {
        Call::Property
    } else if str_equal(interface, "org.bluez.GattCharacteristic1") && str_equal(member, "ReadValue") {
        Call::ReadValue
    } else if str_equal(interface, "org.bluez.GattCharacteristic1") && str_equal(member, "WriteValue") {
        Call::WriteValue
    } else if str_equal(interface, "org.bluez.GattCharacteristic1") && str_equal(member, "StartNotify") {
        Call::StartNotify
    } else if str_equal(interface, "org.bluez.GattCharacteristic1") && str_equal(member, "StopNotify") {
        Call::StopNotify
    } else if str_equal(interface, "org.bluez.GattDescriptor1") && str_equal(member, "ReadValue") {
        Call::ReadDescriptor
    } else if str_equal(interface, "org.bluez.LEAdvertisement1") && str_equal(member, "Release") {
        Call::Release
    } else {
        Call::Unknown
    }
}

/// How a call is answered.
pub enum Handling {
    /// At once: the reply's values, or an error name and text.
    Reply(Result<Vec<Value>, (String, String)>),
    /// By the application: the call is on characteristic `characteristic` of
    /// service `service`.
    Characteristic { call: Call, service: usize, characteristic: usize },
}

/// An optional header's text, empty when it is absent.
pub open spec fn text_or_empty(t: Option<Seq<char>>) -> Seq<char> {
    match t {
        Some(s) => s,
        None => Seq::empty(),
    }
}

/// The property `Properties.Get` asks for: its second argument, if it is
/// text.
pub open spec fn property_name(body: Seq<ValueView>) -> Seq<char> {
    if body.len() > 1 {
        text_or_empty(text_of(body[1]))
    } else {
        Seq::empty()
    }
}

/// `h` answers at once with `values`.
pub open spec fn replies(h: Handling, values: Seq<ValueView>) -> bool {
    h matches Handling::Reply(Ok(vs)) && values_view(vs@) == values
}

/// `h` answers at once with the error `name` and `text`.
pub open spec fn refuses(h: Handling, name: Seq<char>, text: Seq<char>) -> bool {
    h matches Handling::Reply(Err(e)) && e.0@ == name && e.1@ == text
}

/// How the call `m` is answered, given the published tree and the
/// advertisement's properties.
pub open spec fn handled(
    h: Handling,
    services: Seq<ServiceState>,
    advertisement: Seq<(ValueView, ValueView)>,
    m: MessageView,
) -> bool {
    let path = text_or_empty(m.path);
    let interface = text_or_empty(m.interface);
    let member = text_or_empty(m.member);
    let call = call_kind(interface, member);
    match call {
        Call::ManagedObjects => replies(h, seq![managed_view(services)]),
        Call::AllProperties => replies(h, seq![properties_at(services, advertisement, path)]),
        Call::Property => match property_at(services, path, property_name(m.body)) {
            Some(v) => replies(h, seq![ValueView::Variant(Box::new(v))]),
            None => refuses(
                h,
                "org.freedesktop.DBus.Error.InvalidArgs"@,
                "no property "@ + property_name(m.body) + " at "@ + path,
            ),
        },
        Call::ReadDescriptor => match descriptor_index(services, path) {
            Some((i, j, k)) => replies(
                h,
                seq![bytes_value(services[i].characteristics@[j].descriptors@[k].value@)],
            ),
            None => refuses(h, "org.bluez.Error.Failed"@, "no descriptor at "@ + path),
        },
        Call::Release => replies(h, Seq::empty()),
        Call::Unknown => refuses(
            h,
            "org.freedesktop.DBus.Error.UnknownMethod"@,
            interface + "."@ + member + " is not implemented"@,
        ),
        _ => match characteristic_index(services, path) {
            Some((i, j)) => h == Handling::Characteristic {
                call,
                service: i as usize,
                characteristic: j as usize,
            },
            None => refuses(h, "org.bluez.Error.Failed"@, "no characteristic at "@ + path),
        },
    }
}

/// An optional header as text, empty when it is absent.
fn header_text(t: &Option<String>) -> (s: &str)
    ensures
        s@ == text_or_empty(match t {
            Some(x) => Some(x@),
            None => None,
        }),
{
    match t {
        Some(x) => x.as_str(),
        None => {
            proof {
                reveal_strlit("");
            }
            ""
        },
    }
}

/// `prefix` followed by `rest`.
fn joined(prefix: &str, rest: &str) -> (s: String)
    ensures
        s@ == prefix@ + rest@,
{
    let mut s = String::from_str(prefix);
    push_str(&mut s, rest);
    s
}

/// An error reply.
fn refusal(name: &str, text: String) -> (h: Handling)
    ensures
        refuses(h, name@, text@),
{
    Handling::Reply(Err((String::from_str(name), text)))
}

/// A reply of one value.
fn one_value(v: Value) -> (h: Handling)
    ensures
        replies(h, seq![v@]),
{
    let ghost g = v;
    let mut values: Vec<Value> = Vec::new();
    values.push(v);
    proof {
        assert(values@.drop_last() =~= Seq::<Value>::empty());
        assert(values_view(Seq::<Value>::empty()) == Seq::<ValueView>::empty());
        assert(values_view(values@) =~= seq![g@]);
    }
    Handling::Reply(Ok(values))
}

impl ServiceState {
    /// Answer a method call on the published objects, or say which
    /// characteristic the application has to deal with.
    pub fn handle(
        services: &Vec<ServiceState>,
        advertisement: &Vec<(Value, Value)>,
        call: &Message,
    ) -> (h: Handling)
        ensures
            handled(h, services@, pairs_view(advertisement@), call@),
    {
        let path = header_text(&call.path);
        let interface = header_text(&call.interface);
        let member = header_text(&call.member);
        let kind = classify(interface, member);
        match kind {
            Call::ManagedObjects => one_value(ServiceState::managed_objects(services)),
            Call::AllProperties => one_value(ServiceState::properties_of(services, advertisement, path)),
            Call::Property => {
                let name = match call.arg(1) {
                    Some(v) => match v.as_str() {
                        Some(t) => t,
                        None => header_text(&None),
                    },
                    None => header_text(&None),
                };
                match ServiceState::property(services, path, name) {
                    Some(v) => one_value(Value::Variant(Box::new(v))),
                    None => {
                        let mut text = String::from_str("no property ");
                        push_str(&mut text, name);
                        push_str(&mut text, " at ");
                        push_str(&mut text, path);
                        refusal("org.freedesktop.DBus.Error.InvalidArgs", text)
                    },
                }
            },
            Call::ReadDescriptor => match ServiceState::descriptor_at(services, path) {
                Some((i, j, k)) => one_value(
                    Value::bytes(services[i].characteristics[j].descriptors[k].value.as_slice()),
                ),
                None => refusal("org.bluez.Error.Failed", joined("no descriptor at ", path)),
            },
            Call::Release => {
                let values: Vec<Value> = Vec::new();
                Handling::Reply(Ok(values))
            },
            Call::Unknown => {
                let mut text = String::from_str(interface);
                push_str(&mut text, ".");
                push_str(&mut text, member);
                push_str(&mut text, " is not implemented");
                refusal("org.freedesktop.DBus.Error.UnknownMethod", text)
            },
            _ => match ServiceState::characteristic_at(services, path) {
                Some((i, j)) => Handling::Characteristic { call: kind, service: i, characteristic: j },
                None => refusal("org.bluez.Error.Failed", joined("no characteristic at ", path)),
            },
        }
    }
}

// ── Calls the application answers ───────────────────────────────────────────

/// What became of a read handed to the application.
pub enum ReadOutcome {
    /// Nobody is listening for requests.
    NoListener,
    /// The application answered with a value.
    Answered(Vec<u8>),
    /// The application refused, with an ATT error for the central.
    Refused(AttError),
    /// The application did not answer in time; why, in words.
    Unanswered(String),
}

/// The one answer a central's read or write is owed.
///
/// The application answers a request once; a request it lets go of without
/// answering is answered for it, with `RequestNotSupported`, rather than
/// leaving the central waiting until the ATT timeout.
#[derive(Debug, Clone, Copy, PartialEq, Eq, Structural)]
pub struct AnswerOnce {
    answered: bool,
}

/// Giving an answer: whether this one is the first, and the state after.
pub open spec fn claim_spec(answered: bool) -> (bool, bool) {
    (!answered, true)
}

/// Letting go of a request: the refusal it is answered with, if nothing
/// answered it yet, and the state after.
pub open spec fn release_spec(answered: bool) -> (Option<AttError>, bool) {
    (if answered {
        None
    } else {
        Some(AttError(AttError::REQUEST_NOT_SUPPORTED))
    }, true)
}

impl AnswerOnce {
    /// A request nobody has answered.
    pub fn new() -> (a: Self)
        ensures
            !a.is_answered(),
    {
        AnswerOnce { answered: false }
    }

    pub closed spec fn is_answered(&self) -> bool {
        self.answered
    }

    /// Claim the right to answer: granted the first time only.
    pub fn claim(&mut self) -> (first: bool)
        ensures
            (first, final(self).is_answered()) == claim_spec(old(self).is_answered()),
    {
        let first = !self.answered;
        self.answered = true;
        first
    }

    /// The request is let go of: the refusal to send, if it was never
    /// answered.
    pub fn release(&mut self) -> (refusal: Option<AttError>)
        ensures
            (refusal, final(self).is_answered()) == release_spec(old(self).is_answered()),
    {
        if self.answered {
            None
        } else {
            self.answered = true;
            Some(AttError(AttError::REQUEST_NOT_SUPPORTED))
        }
    }
}

/// Every request gets exactly one answer: one the application gave, or the
/// refusal sent when it let go of the request unanswered; never both, and a
/// second answer is never granted.
pub proof fn lemma_answered_exactly_once(answered: bool)
    ensures
        ({
            let (first, after) = claim_spec(answered);
            let (refusal, _) = release_spec(after);
            &&& refusal is None
            &&& claim_spec(after).0 == false
        }),
        !answered ==> claim_spec(answered).0,
        !answered ==> release_spec(answered).0 == Some(AttError(AttError::REQUEST_NOT_SUPPORTED)),
        release_spec(release_spec(answered).1).0 is None,
{
}

/// What became of a write handed to the application.
pub enum WriteOutcome {
    /// Nobody is listening for requests.
    NoListener,
    /// The application accepted the write.
    Accepted,
    /// The application refused, with an ATT error for the central.
    Refused(AttError),
    /// The application did not answer in time; why, in words.
    Unanswered(String),
}

/// An ATT error in words, with its code: `read not permitted (0x02)`.
pub open spec fn att_error_text(code: u8) -> Seq<char> {
    att_error_description(code) + seq![' ', '(', '0', 'x'] + hex_pair_lower(code) + seq![')']
}

/// The characteristic is the same but for its value.
pub open spec fn same_but_value(a: CharacteristicState, b: CharacteristicState) -> bool {
    &&& a.uuid == b.uuid
    &&& a.path == b.path
    &&& a.flags == b.flags
    &&& a.subscribers == b.subscribers
    &&& a.descriptors == b.descriptors
}

/// `r` is the error `name` with the text `text`.
pub open spec fn is_failure(r: Result<Vec<Value>, (String, String)>, name: Seq<char>, text: Seq<char>) -> bool {
    r matches Err(e) && e.0@ == name && e.1@ == text
}

/// `r` is the reply `values`.
pub open spec fn is_success(r: Result<Vec<Value>, (String, String)>, values: Seq<ValueView>) -> bool {
    r matches Ok(vs) && values_view(vs@) == values
}

/// Where in the attribute a central reads or writes: the `offset` option, or
/// the start.
pub open spec fn offset_in(options: Option<ValueView>) -> usize {
    match option_in(options, "offset"@) {
        Some(v) => match unsigned_of(v) {
            Some(n) => n as usize,
            None => 0,
        },
        None => 0,
    }
}

/// The bytes a `WriteValue` carries: its first argument, if it is an array of
/// bytes; none otherwise.
pub open spec fn written_in(value: Option<ValueView>) -> Seq<u8> {
    match value {
        Some(v) => match items_of(v) {
            Some(items) => match bytes_of(items) {
                Some(b) => b,
                None => Seq::empty(),
            },
            None => Seq::empty(),
        },
        None => Seq::empty(),
    }
}

/// The offset option of a read or write.
pub fn request_offset(options: Option<&Value>) -> (offset: usize)
    ensures
        offset == offset_in(options_view(options)),
{
    match option_u64(options, "offset") {
        Some(n) => {
            #[verifier::truncate]
            let offset = n as usize;
            offset
        },
        None => 0,
    }
}

/// The bytes a write carries.
pub fn written_bytes(value: Option<&Value>) -> (bytes: Vec<u8>)
    ensures
        bytes@ == written_in(options_view(value)),
{
    match value {
        Some(v) => match v.as_bytes() {
            Some(b) => b,
            None => Vec::new(),
        },
        None => Vec::new(),
    }
}

/// `text` after `prefix`, as a `Failed` error.
fn failure(prefix: &str, text: &str) -> (r: Result<Vec<Value>, (String, String)>)
    ensures
        is_failure(r, "org.bluez.Error.Failed"@, prefix@ + text@),
{
    let mut t = String::from_str(prefix);
    push_str(&mut t, text);
    Err((String::from_str("org.bluez.Error.Failed"), t))
}

/// An ATT error the application gave, as the reply's error.
fn refused(prefix: &str, error: AttError) -> (r: Result<Vec<Value>, (String, String)>)
    ensures
        is_failure(r, bluez_error_name(error.0), prefix@ + att_error_text(error.0)),
{
    let mut t = String::from_str(prefix);
    let words = error.to_string();
    push_str(&mut t, words.as_str());
    Err((att_error_name(error), t))
}

/// The reply of one byte array.
fn bytes_reply(b: &[u8]) -> (r: Result<Vec<Value>, (String, String)>)
    ensures
        is_success(r, seq![bytes_value(b@)]),
{
    let v = Value::bytes(b);
    let ghost g = v;
    let mut values: Vec<Value> = Vec::new();
    values.push(v);
    proof {
        assert(values@.drop_last() =~= Seq::<Value>::empty());
        assert(values_view(Seq::<Value>::empty()) == Seq::<ValueView>::empty());
        assert(values_view(values@) =~= seq![g@]);
    }
    Ok(values)
}

impl CharacteristicState {
    /// The reply to a `ReadValue`, from what the application did with it. A
    /// value it answered with becomes the characteristic's value; with nobody
    /// listening, the last value is the best answer there is, which is also
    /// what a static characteristic would give.
    pub fn finish_read(&mut self, outcome: ReadOutcome) -> (r: Result<Vec<Value>, (String, String)>)
        ensures
            same_but_value(*final(self), *old(self)),
            match outcome {
                ReadOutcome::NoListener => final(self).value == old(self).value && is_success(
                    r,
                    seq![bytes_value(old(self).value@)],
                ),
                ReadOutcome::Answered(v) => final(self).value@ == v@ && is_success(
                    r,
                    seq![bytes_value(v@)],
                ),
                ReadOutcome::Refused(e) => final(self).value == old(self).value && is_failure(
                    r,
                    bluez_error_name(e.0),
                    "read refused: "@ + att_error_text(e.0),
                ),
                ReadOutcome::Unanswered(reason) => final(self).value == old(self).value
                    && is_failure(
                    r,
                    "org.bluez.Error.Failed"@,
                    "the application did not answer the read: "@ + reason@,
                ),
            },
    {
        match outcome {
            ReadOutcome::NoListener => bytes_reply(self.value.as_slice()),
            ReadOutcome::Answered(v) => {
                let r = bytes_reply(v.as_slice());
                self.value = v;
                r
            },
            ReadOutcome::Refused(e) => refused("read refused: ", e),
            ReadOutcome::Unanswered(reason) => failure(
                "the application did not answer the read: ",
                reason.as_str(),
            ),
        }
    }

    /// The reply to a `WriteValue` of `written`, from what the application
    /// did with it. An accepted write, or one nobody was listening for,
    /// becomes the characteristic's value.
    pub fn finish_write(&mut self, written: Vec<u8>, outcome: WriteOutcome) -> (r: Result<
        Vec<Value>,
        (String, String),
    >)
        ensures
            same_but_value(*final(self), *old(self)),
            match outcome {
                WriteOutcome::NoListener | WriteOutcome::Accepted => final(self).value@ == written@
                    && is_success(r, Seq::empty()),
                WriteOutcome::Refused(e) => final(self).value == old(self).value && is_failure(
                    r,
                    bluez_error_name(e.0),
                    "write refused: "@ + att_error_text(e.0),
                ),
                WriteOutcome::Unanswered(reason) => final(self).value == old(self).value
                    && is_failure(
                    r,
                    "org.bluez.Error.Failed"@,
                    "the application did not answer the write: "@ + reason@,
                ),
            },
    {
        match outcome {
            WriteOutcome::NoListener | WriteOutcome::Accepted => {
                self.value = written;
                let values: Vec<Value> = Vec::new();
                Ok(values)
            },
            WriteOutcome::Refused(e) => refused("write refused: ", e),
            WriteOutcome::Unanswered(reason) => failure(
                "the application did not answer the write: ",
                reason.as_str(),
            ),
        }
    }
}

} // verus!
