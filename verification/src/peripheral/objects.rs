//! The object tree a peripheral publishes, held as plain values, and the
//! dictionaries BlueZ reads off it.
//!
//! ```text
//! /io/webbluetooth/peripheral            org.freedesktop.DBus.ObjectManager
//!   service0                             org.bluez.GattService1
//!     service0/char0                     org.bluez.GattCharacteristic1
//!       service0/char0/desc0             org.bluez.GattDescriptor1
//! ```

use vstd::prelude::*;
use super::RemoteCentral;
use crate::att::AttError;
use crate::text::{decimal_digits, push_decimal, push_str};
use crate::dbus::value::{lemma_values_view, str_equal, value_view, values_view, Value, ValueView};

verus! {

/// Key and value pairs, each taken by its view.
pub open spec fn pairs_view(entries: Seq<(Value, Value)>) -> Seq<(ValueView, ValueView)> {
    entries.map_values(|e: (Value, Value)| (e.0@, e.1@))
}

/// Key and value pairs as dictionary entries.
pub open spec fn entries_of(entries: Seq<(ValueView, ValueView)>) -> Seq<ValueView> {
    entries.map_values(|e: (ValueView, ValueView)| ValueView::DictEntry(Box::new(e.0), Box::new(e.1)))
}

/// A dictionary with entries of type `element`, in the order given.
pub fn dict_of(element: &str, entries: Vec<(Value, Value)>) -> (v: Value)
    ensures
        v@ == (ValueView::Array {
            element: element@,
            items: entries_of(pairs_view(entries@)),
        }),
{
    let ghost input = pairs_view(entries@);
    let mut items: Vec<Value> = Vec::new();
    let mut rest = entries;
    let n = rest.len();
    let mut k: usize = 0;
    assert(values_view(items@) =~= entries_of(input.take(0))) by {
        lemma_values_view(items@);
    }
    while k < n
        invariant
            n == input.len(),
            k <= n,
            rest@.len() == n - k,
            pairs_view(rest@) == input.skip(k as int),
            values_view(items@) == entries_of(input.take(k as int)),
        decreases n - k,
    {
        let ghost before = items@;
        let ghost rv = pairs_view(rest@);
        let (key, value) = rest.remove(0);
        assert(rv[0] == input[k as int]);
        assert(pairs_view(rest@) =~= rv.drop_first());
        assert(rv.drop_first() =~= input.skip(k + 1));
        let entry = Value::DictEntry(Box::new(key), Box::new(value));
        items.push(entry);
        proof {
            lemma_values_view(items@);
            lemma_values_view(before);
            assert(values_view(items@) =~= values_view(before).push(value_view(entry)));
            assert(entries_of(input.take(k + 1)) =~= entries_of(input.take(k as int)).push(
                value_view(entry),
            ));
        }
        k = k + 1;
    }
    assert(input.take(n as int) =~= input);
    let v = Value::Array { element: element.to_string(), items };
    v
}

/// Named values as key and value pairs, the key as a string value.
fn keyed_by_name(entries: Vec<(String, Value)>) -> (pairs: Vec<(Value, Value)>)
    ensures
        pairs_view(pairs@) == entries@.map_values(
            |e: (String, Value)| (ValueView::Str(e.0@), e.1@),
        ),
{
    let ghost input = entries@.map_values(|e: (String, Value)| (ValueView::Str(e.0@), e.1@));
    let mut pairs: Vec<(Value, Value)> = Vec::new();
    let mut rest = entries;
    let n = rest.len();
    let mut k: usize = 0;
    assert(pairs_view(pairs@) =~= input.take(0));
    while k < n
        invariant
            n == input.len(),
            k <= n,
            rest@.len() == n - k,
            rest@.map_values(|e: (String, Value)| (ValueView::Str(e.0@), e.1@)) == input.skip(
                k as int,
            ),
            pairs_view(pairs@) == input.take(k as int),
        decreases n - k,
    {
        let ghost rv = rest@.map_values(|e: (String, Value)| (ValueView::Str(e.0@), e.1@));
        let ghost before = pairs@;
        let (name, value) = rest.remove(0);
        assert(rv[0] == input[k as int]);
        assert(rest@.map_values(|e: (String, Value)| (ValueView::Str(e.0@), e.1@))
            =~= rv.drop_first());
        assert(rv.drop_first() =~= input.skip(k + 1));
        let ghost gname = name;
        let ghost gval = value;
        assert(input[k as int] == (ValueView::Str(gname@), gval@));
        let key = Value::Str(name);
        assert(key@ == ValueView::Str(gname@));
        pairs.push((key, value));
        assert(pairs@ =~= before.push((key, gval)));
        assert(input.take(k + 1) =~= input.take(k as int).push(input[k as int]));
        assert(pairs_view(pairs@) =~= pairs_view(before).push((key@, gval@)));
        assert(pairs_view(pairs@) =~= input.take(k + 1));
        k = k + 1;
    }
    assert(input.take(n as int) =~= input);
    pairs
}

/// `a{sa{sv}}`: one object's interfaces, each with its property dictionary.
pub fn interfaces_of(entries: Vec<(String, Value)>) -> (v: Value)
    ensures
        v@ == (ValueView::Array {
            element: "{sa{sv}}"@,
            items: entries_of(
                entries@.map_values(|e: (String, Value)| (ValueView::Str(e.0@), e.1@)),
            ),
        }),
{
    dict_of("{sa{sv}}", keyed_by_name(entries))
}

/// A property dictionary, `a{sv}`, from names and values in the order given.
pub open spec fn property_dict(props: Seq<(Seq<char>, ValueView)>) -> ValueView {
    ValueView::Array {
        element: "{sv}"@,
        items: entries_of(
            props.map_values(
                |p: (Seq<char>, ValueView)| (ValueView::Str(p.0), ValueView::Variant(Box::new(p.1))),
            ),
        ),
    }
}

/// `a{sv}`: a property dictionary, whose values are variants.
pub fn properties(entries: Vec<(String, Value)>) -> (v: Value)
    ensures
        v@ == property_dict(entries@.map_values(|e: (String, Value)| (e.0@, e.1@))),
{
    let ghost input = entries@;
    let mut pairs: Vec<(Value, Value)> = Vec::new();
    let mut rest = entries;
    let n = rest.len();
    let mut k: usize = 0;
    while k < n
        invariant
            n == input.len(),
            k <= n,
            rest@ == input.skip(k as int),
            pairs_view(pairs@) == input.take(k as int).map_values(
                |e: (String, Value)| (ValueView::Str(e.0@), ValueView::Variant(Box::new(e.1@))),
            ),
        decreases n - k,
    {
        let ghost before = pairs@;
        let (name, value) = rest.remove(0);
        assert(input[k as int] == (name, value));
        assert(rest@ =~= input.skip(k + 1));
        let ghost gname = name;
        let ghost gval = value;
        let key = Value::Str(name);
        let wrapped = Value::Variant(Box::new(value));
        assert(key@ == ValueView::Str(gname@));
        assert(wrapped@ == ValueView::Variant(Box::new(gval@)));
        pairs.push((key, wrapped));
        assert(pairs@ =~= before.push((key, wrapped)));
        assert(input.take(k + 1) =~= input.take(k as int).push(input[k as int]));
        assert(pairs_view(pairs@) =~= pairs_view(before).push((key@, wrapped@)));
        assert(input.take(k + 1).map_values(
            |e: (String, Value)| (ValueView::Str(e.0@), ValueView::Variant(Box::new(e.1@))),
        ) =~= input.take(k as int).map_values(
            |e: (String, Value)| (ValueView::Str(e.0@), ValueView::Variant(Box::new(e.1@))),
        ).push((key@, wrapped@)));
        k = k + 1;
    }
    assert(input.take(n as int) =~= input);
    let v = dict_of("{sv}", pairs);
    proof {
        let named = input.map_values(|e: (String, Value)| (e.0@, e.1@));
        assert(input.map_values(
            |e: (String, Value)| (ValueView::Str(e.0@), ValueView::Variant(Box::new(e.1@))),
        ) =~= named.map_values(
            |p: (Seq<char>, ValueView)| (ValueView::Str(p.0), ValueView::Variant(Box::new(p.1))),
        ));
    }
    v
}


// ── The tree ─────────────────────────────────────────────────────────────────

/// A published descriptor. Its value is fixed when it is published.
pub struct DescriptorState {
    pub uuid: String,
    pub path: String,
    pub value: Vec<u8>,
}

/// A published characteristic and its live state.
pub struct CharacteristicState {
    pub uuid: String,
    pub path: String,
    /// The flag strings BlueZ expects, such as `read` and `notify`.
    pub flags: Vec<String>,
    /// The last value: what a `Value` property read returns and what a
    /// notification carries.
    pub value: Vec<u8>,
    /// Centrals BlueZ has told us are subscribed.
    pub subscribers: Vec<RemoteCentral>,
    pub descriptors: Vec<DescriptorState>,
}

/// A published service.
pub struct ServiceState {
    pub uuid: String,
    pub path: String,
    pub primary: bool,
    pub characteristics: Vec<CharacteristicState>,
}

/// The interfaces of an object that implements one interface, with the given
/// properties.
pub open spec fn one_interface(interface: Seq<char>, props: Seq<(Seq<char>, ValueView)>) -> ValueView {
    ValueView::Array {
        element: "{sa{sv}}"@,
        items: entries_of(seq![(ValueView::Str(interface), property_dict(props))]),
    }
}

/// An `as` value.
pub open spec fn strings_value(s: Seq<String>) -> ValueView {
    ValueView::Array {
        element: seq!['s'],
        items: Seq::new(s.len(), |i: int| ValueView::Str(s[i]@)),
    }
}

/// An `ay` value.
pub open spec fn bytes_value(b: Seq<u8>) -> ValueView {
    ValueView::Array { element: seq!['y'], items: Seq::new(b.len(), |i: int| ValueView::Byte(b[i])) }
}

/// A service's entry in `GetManagedObjects`.
pub open spec fn service_pair(s: ServiceState) -> (ValueView, ValueView) {
    (
        ValueView::ObjectPath(s.path@),
        one_interface(
            "org.bluez.GattService1"@,
            seq![("UUID"@, ValueView::Str(s.uuid@)), ("Primary"@, ValueView::Bool(s.primary))],
        ),
    )
}

/// A characteristic's entry, which names the service it belongs to.
pub open spec fn characteristic_pair(service: Seq<char>, c: CharacteristicState) -> (
    ValueView,
    ValueView,
) {
    (
        ValueView::ObjectPath(c.path@),
        one_interface(
            "org.bluez.GattCharacteristic1"@,
            seq![
                ("UUID"@, ValueView::Str(c.uuid@)),
                ("Service"@, ValueView::ObjectPath(service)),
                ("Flags"@, strings_value(c.flags@)),
            ],
        ),
    )
}

/// A descriptor's entry, which names its characteristic; descriptors are
/// published readable.
pub open spec fn descriptor_pair(characteristic: Seq<char>, d: DescriptorState) -> (
    ValueView,
    ValueView,
) {
    (
        ValueView::ObjectPath(d.path@),
        one_interface(
            "org.bluez.GattDescriptor1"@,
            seq![
                ("UUID"@, ValueView::Str(d.uuid@)),
                ("Characteristic"@, ValueView::ObjectPath(characteristic)),
                ("Flags"@, ValueView::Array { element: seq!['s'], items: seq![ValueView::Str("read"@)] }),
            ],
        ),
    )
}

/// A characteristic's entry followed by those of its descriptors.
pub open spec fn characteristic_pairs(service: Seq<char>, c: CharacteristicState) -> Seq<
    (ValueView, ValueView),
> {
    seq![characteristic_pair(service, c)] + c.descriptors@.map_values(
        |d: DescriptorState| descriptor_pair(c.path@, d),
    )
}

/// The entries of a service's characteristics, in order.
pub open spec fn characteristics_pairs(service: Seq<char>, cs: Seq<CharacteristicState>) -> Seq<
    (ValueView, ValueView),
>
    decreases cs.len(),
{
    if cs.len() == 0 {
        Seq::empty()
    } else {
        characteristics_pairs(service, cs.drop_last()) + characteristic_pairs(service, cs.last())
    }
}

/// A service's entry followed by those of everything under it.
pub open spec fn service_pairs(s: ServiceState) -> Seq<(ValueView, ValueView)> {
    seq![service_pair(s)] + characteristics_pairs(s.path@, s.characteristics@)
}

/// Every object's entry: each service, then each of its characteristics
/// followed by that characteristic's descriptors.
pub open spec fn object_pairs(services: Seq<ServiceState>) -> Seq<(ValueView, ValueView)>
    decreases services.len(),
{
    if services.len() == 0 {
        Seq::empty()
    } else {
        object_pairs(services.drop_last()) + service_pairs(services.last())
    }
}

/// What `GetManagedObjects` returns: `a{oa{sa{sv}}}`.
pub open spec fn managed_view(services: Seq<ServiceState>) -> ValueView {
    ValueView::Array { element: "{oa{sa{sv}}}"@, items: entries_of(object_pairs(services)) }
}

/// A copy of some strings.
fn copy_strings(v: &Vec<String>) -> (out: Vec<String>)
    ensures
        out@ == v@,
{
    let mut out: Vec<String> = Vec::new();
    let mut k: usize = 0;
    while k < v.len()
        invariant
            k <= v@.len(),
            out@ == v@.take(k as int),
        decreases v@.len() - k,
    {
        out.push(v[k].clone());
        assert(v@.take(k + 1) =~= v@.take(k as int).push(v@[k as int]));
        k = k + 1;
    }
    assert(v@.take(v@.len() as int) =~= v@);
    out
}

/// One interface with its properties, as an object's interfaces value.
fn one_interface_value(interface: &str, props: Vec<(String, Value)>) -> (v: Value)
    ensures
        v@ == one_interface(interface@, props@.map_values(|e: (String, Value)| (e.0@, e.1@))),
{
    let ghost named = props@.map_values(|e: (String, Value)| (e.0@, e.1@));
    let dict = properties(props);
    let ghost d = dict@;
    let mut entries: Vec<(String, Value)> = Vec::new();
    entries.push((String::from_str(interface), dict));
    let v = interfaces_of(entries);
    assert(entries@.map_values(|e: (String, Value)| (ValueView::Str(e.0@), e.1@)) =~= seq![
        (ValueView::Str(interface@), d),
    ]);
    v
}

/// A service's entry.
fn service_entry(s: &ServiceState) -> (p: (Value, Value))
    ensures
        (p.0@, p.1@) == service_pair(*s),
{
    let mut props: Vec<(String, Value)> = Vec::new();
    props.push((String::from_str("UUID"), Value::Str(s.uuid.clone())));
    props.push((String::from_str("Primary"), Value::Bool(s.primary)));
    let v = one_interface_value("org.bluez.GattService1", props);
    assert(props@.map_values(|e: (String, Value)| (e.0@, e.1@)) =~= seq![
        ("UUID"@, ValueView::Str(s.uuid@)),
        ("Primary"@, ValueView::Bool(s.primary)),
    ]);
    (Value::ObjectPath(s.path.clone()), v)
}

/// A characteristic's entry.
fn characteristic_entry(service: &String, c: &CharacteristicState) -> (p: (Value, Value))
    ensures
        (p.0@, p.1@) == characteristic_pair(service@, *c),
{
    let flags = Value::string_array(copy_strings(&c.flags));
    let mut props: Vec<(String, Value)> = Vec::new();
    props.push((String::from_str("UUID"), Value::Str(c.uuid.clone())));
    props.push((String::from_str("Service"), Value::ObjectPath(service.clone())));
    props.push((String::from_str("Flags"), flags));
    let v = one_interface_value("org.bluez.GattCharacteristic1", props);
    assert(props@.map_values(|e: (String, Value)| (e.0@, e.1@)) =~= seq![
        ("UUID"@, ValueView::Str(c.uuid@)),
        ("Service"@, ValueView::ObjectPath(service@)),
        ("Flags"@, strings_value(c.flags@)),
    ]);
    (Value::ObjectPath(c.path.clone()), v)
}

/// A descriptor's entry.
fn descriptor_entry(characteristic: &String, d: &DescriptorState) -> (p: (Value, Value))
    ensures
        (p.0@, p.1@) == descriptor_pair(characteristic@, *d),
{
    let mut read: Vec<String> = Vec::new();
    read.push(String::from_str("read"));
    let flags = Value::string_array(read);
    assert(flags@ == (ValueView::Array { element: seq!['s'], items: seq![ValueView::Str("read"@)] }))
        by {
        assert(Seq::new(1, |i: int| ValueView::Str(read@[i]@)) =~= seq![ValueView::Str("read"@)]);
    }
    let mut props: Vec<(String, Value)> = Vec::new();
    props.push((String::from_str("UUID"), Value::Str(d.uuid.clone())));
    props.push((String::from_str("Characteristic"), Value::ObjectPath(characteristic.clone())));
    props.push((String::from_str("Flags"), flags));
    let v = one_interface_value("org.bluez.GattDescriptor1", props);
    assert(props@.map_values(|e: (String, Value)| (e.0@, e.1@)) =~= seq![
        ("UUID"@, ValueView::Str(d.uuid@)),
        ("Characteristic"@, ValueView::ObjectPath(characteristic@)),
        ("Flags"@, ValueView::Array { element: seq!['s'], items: seq![ValueView::Str("read"@)] }),
    ]);
    (Value::ObjectPath(d.path.clone()), v)
}

/// Append a characteristic's entry and its descriptors' entries.
fn push_characteristic_objects(
    objects: &mut Vec<(Value, Value)>,
    service: &String,
    c: &CharacteristicState,
)
    ensures
        pairs_view(final(objects)@) == pairs_view(old(objects)@) + characteristic_pairs(service@, *c),
{
    let ghost start = pairs_view(objects@);
    let ghost ds = c.descriptors@;
    let entry = characteristic_entry(service, c);
    objects.push(entry);
    assert(pairs_view(objects@) =~= start + seq![characteristic_pair(service@, *c)]);
    let mut k: usize = 0;
    while k < c.descriptors.len()
        invariant
            k <= ds.len(),
            ds == c.descriptors@,
            pairs_view(objects@) == start + seq![characteristic_pair(service@, *c)] + ds.take(
                k as int,
            ).map_values(|d: DescriptorState| descriptor_pair(c.path@, d)),
        decreases ds.len() - k,
    {
        let ghost before = pairs_view(objects@);
        let entry = descriptor_entry(&c.path, &c.descriptors[k]);
        objects.push(entry);
        assert(pairs_view(objects@) =~= before.push((entry.0@, entry.1@)));
        assert(ds.take(k + 1).map_values(|d: DescriptorState| descriptor_pair(c.path@, d))
            =~= ds.take(k as int).map_values(|d: DescriptorState| descriptor_pair(c.path@, d)).push(
            descriptor_pair(c.path@, ds[k as int]),
        ));
        k = k + 1;
    }
    assert(ds.take(ds.len() as int) =~= ds);
    assert(pairs_view(objects@) =~= start + characteristic_pairs(service@, *c));
}

/// Append a service's entry and the entries of everything under it.
fn push_service_objects(objects: &mut Vec<(Value, Value)>, s: &ServiceState)
    ensures
        pairs_view(final(objects)@) == pairs_view(old(objects)@) + service_pairs(*s),
{
    let ghost start = pairs_view(objects@);
    let ghost cs = s.characteristics@;
    let entry = service_entry(s);
    objects.push(entry);
    assert(pairs_view(objects@) =~= start + seq![service_pair(*s)]);
    let mut j: usize = 0;
    while j < s.characteristics.len()
        invariant
            j <= cs.len(),
            cs == s.characteristics@,
            pairs_view(objects@) == start + seq![service_pair(*s)] + characteristics_pairs(
                s.path@,
                cs.take(j as int),
            ),
        decreases cs.len() - j,
    {
        let ghost before = pairs_view(objects@);
        push_characteristic_objects(objects, &s.path, &s.characteristics[j]);
        assert(cs.take(j + 1).drop_last() =~= cs.take(j as int));
        assert(pairs_view(objects@) =~= start + seq![service_pair(*s)] + characteristics_pairs(
            s.path@,
            cs.take(j + 1),
        ));
        j = j + 1;
    }
    assert(cs.take(cs.len() as int) =~= cs);
    assert(pairs_view(objects@) =~= start + service_pairs(*s));
}

impl ServiceState {
    /// The whole tree, in the shape `GetManagedObjects` must return.
    pub fn managed_objects(services: &Vec<ServiceState>) -> (v: Value)
        ensures
            v@ == managed_view(services@),
    {
        let mut objects: Vec<(Value, Value)> = Vec::new();
        let mut i: usize = 0;
        assert(pairs_view(objects@) =~= object_pairs(services@.take(0)));
        while i < services.len()
            invariant
                i <= services@.len(),
                pairs_view(objects@) == object_pairs(services@.take(i as int)),
            decreases services@.len() - i,
        {
            push_service_objects(&mut objects, &services[i]);
            assert(services@.take(i + 1).drop_last() =~= services@.take(i as int));
            i = i + 1;
        }
        assert(services@.take(services@.len() as int) =~= services@);
        dict_of("{oa{sa{sv}}}", objects)
    }
}

// ── Finding objects by path ──────────────────────────────────────────────────

/// Characteristic `j` of service `i` lives at `path`.
pub open spec fn characteristic_is_at(services: Seq<ServiceState>, i: int, j: int, path: Seq<char>) -> bool {
    &&& 0 <= i < services.len()
    &&& 0 <= j < services[i].characteristics@.len()
    &&& services[i].characteristics@[j].path@ == path
}

/// `(a, b)` comes before `(i, j)` in the order the tree is walked.
pub open spec fn earlier(a: int, b: int, i: int, j: int) -> bool {
    a < i || (a == i && b < j)
}

/// `(i, j)` is the first characteristic at `path`.
pub open spec fn first_characteristic_at(services: Seq<ServiceState>, i: int, j: int, path: Seq<char>) -> bool {
    &&& characteristic_is_at(services, i, j, path)
    &&& forall|a: int, b: int|
        #![trigger characteristic_is_at(services, a, b, path)]
        earlier(a, b, i, j) ==> !characteristic_is_at(services, a, b, path)
}

/// Where the characteristic at `path` is, the first one if several are.
pub open spec fn characteristic_index(services: Seq<ServiceState>, path: Seq<char>) -> Option<(int, int)> {
    if exists|i: int, j: int| first_characteristic_at(services, i, j, path) {
        Some(choose|i: int, j: int| first_characteristic_at(services, i, j, path))
    } else {
        None
    }
}

/// There is one first characteristic at a path.
pub proof fn lemma_first_characteristic_unique(
    services: Seq<ServiceState>,
    path: Seq<char>,
    i: int,
    j: int,
)
    requires
        first_characteristic_at(services, i, j, path),
    ensures
        characteristic_index(services, path) == Some((i, j)),
{
    let (a, b) = choose|a: int, b: int| first_characteristic_at(services, a, b, path);
    assert(first_characteristic_at(services, a, b, path));
    if earlier(a, b, i, j) {
        assert(!characteristic_is_at(services, a, b, path));
    } else if earlier(i, j, a, b) {
        assert(!characteristic_is_at(services, i, j, path));
    }
}

/// Descriptor `k` of characteristic `j` of service `i` lives at `path`.
pub open spec fn descriptor_is_at(services: Seq<ServiceState>, i: int, j: int, k: int, path: Seq<char>) -> bool {
    &&& 0 <= i < services.len()
    &&& 0 <= j < services[i].characteristics@.len()
    &&& 0 <= k < services[i].characteristics@[j].descriptors@.len()
    &&& services[i].characteristics@[j].descriptors@[k].path@ == path
}

/// `(a, b, c)` comes before `(i, j, k)` in the order the tree is walked.
pub open spec fn earlier3(a: int, b: int, c: int, i: int, j: int, k: int) -> bool {
    a < i || (a == i && b < j) || (a == i && b == j && c < k)
}

/// `(i, j, k)` is the first descriptor at `path`.
pub open spec fn first_descriptor_at(services: Seq<ServiceState>, i: int, j: int, k: int, path: Seq<char>) -> bool {
    &&& descriptor_is_at(services, i, j, k, path)
    &&& forall|a: int, b: int, c: int|
        #![trigger descriptor_is_at(services, a, b, c, path)]
        earlier3(a, b, c, i, j, k) ==> !descriptor_is_at(services, a, b, c, path)
}

/// Where the descriptor at `path` is, the first one if several are.
pub open spec fn descriptor_index(services: Seq<ServiceState>, path: Seq<char>) -> Option<(int, int, int)> {
    if exists|i: int, j: int, k: int| first_descriptor_at(services, i, j, k, path) {
        Some(choose|i: int, j: int, k: int| first_descriptor_at(services, i, j, k, path))
    } else {
        None
    }
}

/// There is one first descriptor at a path.
pub proof fn lemma_first_descriptor_unique(
    services: Seq<ServiceState>,
    path: Seq<char>,
    i: int,
    j: int,
    k: int,
)
    requires
        first_descriptor_at(services, i, j, k, path),
    ensures
        descriptor_index(services, path) == Some((i, j, k)),
{
    let (a, b, c) = choose|a: int, b: int, c: int| first_descriptor_at(services, a, b, c, path);
    assert(first_descriptor_at(services, a, b, c, path));
    if earlier3(a, b, c, i, j, k) {
        assert(!descriptor_is_at(services, a, b, c, path));
    } else if earlier3(i, j, k, a, b, c) {
        assert(!descriptor_is_at(services, i, j, k, path));
    }
}

impl ServiceState {
    /// The characteristic at `path`, as the index of its service and its
    /// index there: the first in the tree, if several share the path.
    pub fn characteristic_at(services: &Vec<ServiceState>, path: &str) -> (r: Option<(usize, usize)>)
        ensures
            match r {
                Some((i, j)) => first_characteristic_at(services@, i as int, j as int, path@),
                None => forall|a: int, b: int| !characteristic_is_at(services@, a, b, path@),
            },
            match r {
                Some((i, j)) => characteristic_index(services@, path@) == Some((i as int, j as int)),
                None => characteristic_index(services@, path@) is None,
            },
    {
        let mut i: usize = 0;
        while i < services.len()
            invariant
                i <= services@.len(),
                forall|a: int, b: int| a < i ==> !characteristic_is_at(services@, a, b, path@),
            decreases services@.len() - i,
        {
            let cs = &services[i].characteristics;
            let mut j: usize = 0;
            while j < cs.len()
                invariant
                    i < services@.len(),
                    cs@ == services@[i as int].characteristics@,
                    j <= cs@.len(),
                    forall|a: int, b: int| a < i ==> !characteristic_is_at(services@, a, b, path@),
                    forall|b: int| b < j ==> !characteristic_is_at(services@, i as int, b, path@),
                decreases cs@.len() - j,
            {
                if str_equal(cs[j].path.as_str(), path) {
                    proof {
                        assert(characteristic_is_at(services@, i as int, j as int, path@));
                        lemma_first_characteristic_unique(services@, path@, i as int, j as int);
                    }
                    return Some((i, j));
                }
                j = j + 1;
            }
            i = i + 1;
        }
        proof {
            assert forall|i: int, j: int| !first_characteristic_at(services@, i, j, path@) by {
                if first_characteristic_at(services@, i, j, path@) {
                    assert(characteristic_is_at(services@, i, j, path@));
                }
            }
        }
        None
    }

    /// The descriptor at `path`: the index of its service, of its
    /// characteristic there, and its own; the first, if several share it.
    pub fn descriptor_at(services: &Vec<ServiceState>, path: &str) -> (r: Option<(usize, usize, usize)>)
        ensures
            match r {
                Some((i, j, k)) => first_descriptor_at(services@, i as int, j as int, k as int, path@),
                None => forall|a: int, b: int, c: int| !descriptor_is_at(services@, a, b, c, path@),
            },
            match r {
                Some((i, j, k)) => descriptor_index(services@, path@) == Some(
                    (i as int, j as int, k as int),
                ),
                None => descriptor_index(services@, path@) is None,
            },
    {
        let mut i: usize = 0;
        while i < services.len()
            invariant
                i <= services@.len(),
                forall|a: int, b: int, c: int| a < i ==> !descriptor_is_at(services@, a, b, c, path@),
            decreases services@.len() - i,
        {
            let cs = &services[i].characteristics;
            let mut j: usize = 0;
            while j < cs.len()
                invariant
                    i < services@.len(),
                    cs@ == services@[i as int].characteristics@,
                    j <= cs@.len(),
                    forall|a: int, b: int, c: int|
                        a < i ==> !descriptor_is_at(services@, a, b, c, path@),
                    forall|b: int, c: int| b < j ==> !descriptor_is_at(services@, i as int, b, c, path@),
                decreases cs@.len() - j,
            {
                let ds = &cs[j].descriptors;
                let mut k: usize = 0;
                while k < ds.len()
                    invariant
                        i < services@.len(),
                        j < services@[i as int].characteristics@.len(),
                        ds@ == services@[i as int].characteristics@[j as int].descriptors@,
                        k <= ds@.len(),
                        forall|a: int, b: int, c: int|
                            a < i ==> !descriptor_is_at(services@, a, b, c, path@),
                        forall|b: int, c: int|
                            b < j ==> !descriptor_is_at(services@, i as int, b, c, path@),
                        forall|c: int| c < k ==> !descriptor_is_at(services@, i as int, j as int, c, path@),
                    decreases ds@.len() - k,
                {
                    if str_equal(ds[k].path.as_str(), path) {
                        proof {
                            assert(descriptor_is_at(services@, i as int, j as int, k as int, path@));
                            lemma_first_descriptor_unique(services@, path@, i as int, j as int, k as int);
                        }
                        return Some((i, j, k));
                    }
                    k = k + 1;
                }
                j = j + 1;
            }
            i = i + 1;
        }
        proof {
            assert forall|i: int, j: int, k: int| !first_descriptor_at(services@, i, j, k, path@) by {
                if first_descriptor_at(services@, i, j, k, path@) {
                    assert(descriptor_is_at(services@, i, j, k, path@));
                }
            }
        }
        None
    }
}

// ── What BlueZ reads ────────────────────────────────────────────────────────

/// Where the advertisement object lives.
pub open spec fn advertisement_path() -> Seq<char> {
    "/io/webbluetooth/peripheral/advertisement0"@
}

/// A characteristic's properties, as `GetAll` returns them.
pub open spec fn characteristic_properties(c: CharacteristicState) -> ValueView {
    property_dict(
        seq![
            ("UUID"@, ValueView::Str(c.uuid@)),
            ("Flags"@, strings_value(c.flags@)),
            ("Value"@, bytes_value(c.value@)),
        ],
    )
}

/// What `GetAll` returns for the object at `path`: the advertisement's
/// properties, a characteristic's, or none.
pub open spec fn properties_at(
    services: Seq<ServiceState>,
    advertisement: Seq<(ValueView, ValueView)>,
    path: Seq<char>,
) -> ValueView {
    if path == advertisement_path() {
        ValueView::Array { element: "{sv}"@, items: entries_of(advertisement) }
    } else {
        match characteristic_index(services, path) {
            Some((i, j)) => characteristic_properties(services[i].characteristics@[j]),
            None => property_dict(Seq::empty()),
        }
    }
}

/// What `Get` returns for property `name` of the object at `path`; only a
/// characteristic has any.
pub open spec fn property_at(services: Seq<ServiceState>, path: Seq<char>, name: Seq<char>) -> Option<
    ValueView,
> {
    match characteristic_index(services, path) {
        Some((i, j)) => {
            let c = services[i].characteristics@[j];
            if name == "UUID"@ {
                Some(ValueView::Str(c.uuid@))
            } else if name == "Value"@ {
                Some(bytes_value(c.value@))
            } else if name == "Flags"@ {
                Some(strings_value(c.flags@))
            } else {
                None
            }
        },
        None => None,
    }
}

/// A copy of some key and value pairs.
fn copy_pairs(v: &Vec<(Value, Value)>) -> (out: Vec<(Value, Value)>)
    ensures
        pairs_view(out@) == pairs_view(v@),
{
    let mut out: Vec<(Value, Value)> = Vec::new();
    let mut k: usize = 0;
    while k < v.len()
        invariant
            k <= v@.len(),
            pairs_view(out@) == pairs_view(v@.take(k as int)),
        decreases v@.len() - k,
    {
        let ghost before = out@;
        let key = v[k].0.clone();
        let value = v[k].1.clone();
        assert((key@, value@) == (v@[k as int].0@, v@[k as int].1@));
        out.push((key, value));
        assert(pairs_view(out@) =~= pairs_view(before).push((key@, value@)));
        assert(v@.take(k + 1) =~= v@.take(k as int).push(v@[k as int]));
        assert(pairs_view(v@.take(k + 1)) =~= pairs_view(v@.take(k as int)).push(
            (v@[k as int].0@, v@[k as int].1@),
        ));
        k = k + 1;
    }
    assert(v@.take(v@.len() as int) =~= v@);
    out
}

/// A characteristic's properties.
fn characteristic_property_dict(c: &CharacteristicState) -> (v: Value)
    ensures
        v@ == characteristic_properties(*c),
{
    let flags = Value::string_array(copy_strings(&c.flags));
    let value = Value::bytes(c.value.as_slice());
    let mut props: Vec<(String, Value)> = Vec::new();
    props.push((String::from_str("UUID"), Value::Str(c.uuid.clone())));
    props.push((String::from_str("Flags"), flags));
    props.push((String::from_str("Value"), value));
    let v = properties(props);
    assert(props@.map_values(|e: (String, Value)| (e.0@, e.1@)) =~= seq![
        ("UUID"@, ValueView::Str(c.uuid@)),
        ("Flags"@, strings_value(c.flags@)),
        ("Value"@, bytes_value(c.value@)),
    ]);
    v
}

impl ServiceState {
    /// What `Properties.GetAll` answers for the object at `path`.
    pub fn properties_of(
        services: &Vec<ServiceState>,
        advertisement: &Vec<(Value, Value)>,
        path: &str,
    ) -> (v: Value)
        ensures
            v@ == properties_at(services@, pairs_view(advertisement@), path@),
    {
        if str_equal(path, "/io/webbluetooth/peripheral/advertisement0") {
            // BlueZ reads the advertisement's properties rather than taking
            // them as arguments to RegisterAdvertisement.
            return dict_of("{sv}", copy_pairs(advertisement));
        }
        match Self::characteristic_at(services, path) {
            Some((i, j)) => characteristic_property_dict(&services[i].characteristics[j]),
            None => {
                let v = properties(Vec::new());
                assert(Seq::<(String, Value)>::empty().map_values(
                    |e: (String, Value)| (e.0@, e.1@),
                ) =~= Seq::<(Seq<char>, ValueView)>::empty());
                v
            },
        }
    }

    /// What `Properties.Get` answers for property `name` of the object at
    /// `path`, if it has one.
    pub fn property(services: &Vec<ServiceState>, path: &str, name: &str) -> (v: Option<Value>)
        ensures
            match v {
                Some(x) => property_at(services@, path@, name@) == Some(x@),
                None => property_at(services@, path@, name@) is None,
            },
    {
        let (i, j) = match Self::characteristic_at(services, path) {
            Some(found) => found,
            None => return None,
        };
        let c = &services[i].characteristics[j];
        if str_equal(name, "UUID") {
            Some(Value::Str(c.uuid.clone()))
        } else if str_equal(name, "Value") {
            Some(Value::bytes(c.value.as_slice()))
        } else if str_equal(name, "Flags") {
            Some(Value::string_array(copy_strings(&c.flags)))
        } else {
            None
        }
    }
}

// ── Names BlueZ understands ──────────────────────────────────────────────────

/// The flag strings BlueZ expects for characteristic property bits: read,
/// write, write without response, notify and indicate, in that order.
pub open spec fn flag_names(properties: u32) -> Seq<Seq<char>> {
    (if properties & 0x02 != 0 { seq!["read"@] } else { Seq::empty() }) + (if properties & 0x08
        != 0 {
        seq!["write"@]
    } else {
        Seq::empty()
    }) + (if properties & 0x04 != 0 { seq!["write-without-response"@] } else { Seq::empty() })
        + (if properties & 0x10 != 0 { seq!["notify"@] } else { Seq::empty() }) + (if properties
        & 0x20 != 0 {
        seq!["indicate"@]
    } else {
        Seq::empty()
    })
}

/// Strings as their characters.
pub open spec fn texts(v: Seq<String>) -> Seq<Seq<char>> {
    v.map_values(|s: String| s@)
}

/// The flag strings for a characteristic's property bits.
pub fn flags_for(properties: u32) -> (flags: Vec<String>)
    ensures
        texts(flags@) == flag_names(properties),
{
    let mut flags: Vec<String> = Vec::new();
    let ghost mut expected: Seq<Seq<char>> = Seq::empty();
    if properties & 0x02 != 0 {
        flags.push(String::from_str("read"));
        proof { expected = expected.push("read"@); }
    }
    assert(texts(flags@) =~= expected);
    if properties & 0x08 != 0 {
        flags.push(String::from_str("write"));
        proof { expected = expected.push("write"@); }
    }
    assert(texts(flags@) =~= expected);
    if properties & 0x04 != 0 {
        flags.push(String::from_str("write-without-response"));
        proof { expected = expected.push("write-without-response"@); }
    }
    assert(texts(flags@) =~= expected);
    if properties & 0x10 != 0 {
        flags.push(String::from_str("notify"));
        proof { expected = expected.push("notify"@); }
    }
    assert(texts(flags@) =~= expected);
    if properties & 0x20 != 0 {
        flags.push(String::from_str("indicate"));
        proof { expected = expected.push("indicate"@); }
    }
    assert(texts(flags@) =~= expected);
    assert(expected =~= flag_names(properties));
    flags
}

/// The BlueZ error name for an ATT error, which BlueZ maps back onto the
/// code the central sees; anything without a name is `Failed`, which reaches
/// the central as an unlikely error.
pub open spec fn bluez_error_name(code: u8) -> Seq<char> {
    if code == 0x02 || code == 0x03 {
        "org.bluez.Error.NotPermitted"@
    } else if code == 0x05 || code == 0x0F {
        "org.bluez.Error.NotPaired"@
    } else if code == 0x08 {
        "org.bluez.Error.NotAuthorized"@
    } else if code == 0x06 {
        "org.bluez.Error.NotSupported"@
    } else if code == 0x07 {
        "org.bluez.Error.InvalidOffset"@
    } else if code == 0x0D {
        "org.bluez.Error.InvalidValueLength"@
    } else {
        "org.bluez.Error.Failed"@
    }
}

/// The error name a GATT reply carries for an ATT error.
pub fn att_error_name(error: AttError) -> (name: String)
    ensures
        name@ == bluez_error_name(error.0),
{
    let name = match error.0 {
        0x02 | 0x03 => "org.bluez.Error.NotPermitted",
        0x05 | 0x0F => "org.bluez.Error.NotPaired",
        0x08 => "org.bluez.Error.NotAuthorized",
        0x06 => "org.bluez.Error.NotSupported",
        0x07 => "org.bluez.Error.InvalidOffset",
        0x0D => "org.bluez.Error.InvalidValueLength",
        _ => "org.bluez.Error.Failed",
    };
    String::from_str(name)
}

// ── Publishing ───────────────────────────────────────────────────────────────

/// A descriptor to publish.
pub struct DescriptorDefinition {
    pub uuid: String,
    pub value: Vec<u8>,
}

/// A characteristic to publish, with its property bits as the Bluetooth
/// specification numbers them.
pub struct CharacteristicDefinition {
    pub uuid: String,
    pub properties: u32,
    pub value: Option<Vec<u8>>,
    pub descriptors: Vec<DescriptorDefinition>,
}

/// The path of the `index`th service we publish.
pub open spec fn service_path(index: nat) -> Seq<char> {
    "/io/webbluetooth/peripheral/service"@ + decimal_digits(index)
}

/// The path of the `index`th child of `parent` of a kind: `char` or `desc`.
pub open spec fn child_path(parent: Seq<char>, kind: Seq<char>, index: nat) -> Seq<char> {
    parent + kind + decimal_digits(index)
}

/// A published descriptor as its definition and its path make it.
pub open spec fn descriptor_from(d: DescriptorState, def: DescriptorDefinition, path: Seq<char>) -> bool {
    &&& d.uuid@ == def.uuid@
    &&& d.path@ == path
    &&& d.value@ == def.value@
}

/// A published characteristic as its definition and its path make it: no
/// subscribers yet, no value unless one was given, and descriptors at
/// `path/desc0`, `path/desc1`, and so on.
pub open spec fn characteristic_from(
    c: CharacteristicState,
    def: CharacteristicDefinition,
    path: Seq<char>,
) -> bool {
    &&& c.uuid@ == def.uuid@
    &&& c.path@ == path
    &&& texts(c.flags@) == flag_names(def.properties)
    &&& c.value@ == match def.value {
        Some(v) => v@,
        None => Seq::empty(),
    }
    &&& c.subscribers@.len() == 0
    &&& c.descriptors@.len() == def.descriptors@.len()
    &&& forall|k: int|
        0 <= k < c.descriptors@.len() ==> #[trigger] descriptor_from(
            c.descriptors@[k],
            def.descriptors@[k],
            child_path(path, "/desc"@, k as nat),
        )
}

/// `parent` followed by a kind and an index.
fn child(parent: &String, kind: &str, index: usize) -> (p: String)
    ensures
        p@ == child_path(parent@, kind@, index as nat),
{
    let mut p = parent.clone();
    push_str(&mut p, kind);
    push_decimal(&mut p, index as u64);
    p
}

/// A characteristic, published at `path`.
fn characteristic_from_definition(path: String, def: CharacteristicDefinition) -> (c:
    CharacteristicState)
    ensures
        characteristic_from(c, def, path@),
{
    let ghost whole = def;
    let CharacteristicDefinition { uuid, properties, value, descriptors: defs } = def;
    let ghost input = defs@;
    let mut descriptors: Vec<DescriptorState> = Vec::new();
    let mut rest = defs;
    let n = rest.len();
    let mut k: usize = 0;
    while k < n
        invariant
            n == input.len(),
            k <= n,
            rest@ == input.skip(k as int),
            descriptors@.len() == k,
            forall|a: int|
                0 <= a < k ==> #[trigger] descriptor_from(
                    descriptors@[a],
                    input[a],
                    child_path(path@, "/desc"@, a as nat),
                ),
        decreases n - k,
    {
        let d = rest.remove(0);
        assert(input[k as int] == d);
        assert(rest@ =~= input.skip(k + 1));
        let p = child(&path, "/desc", k);
        descriptors.push(DescriptorState { uuid: d.uuid, path: p, value: d.value });
        k = k + 1;
    }
    let value = match value {
        Some(v) => v,
        None => Vec::new(),
    };
    CharacteristicState {
        uuid,
        path,
        flags: flags_for(properties),
        value,
        subscribers: Vec::new(),
        descriptors,
    }
}

impl ServiceState {
    /// The `index`th service we publish, with its characteristics at
    /// `service<index>/char0`, `service<index>/char1`, and so on, each with its
    /// descriptors under it.
    pub fn new(
        index: usize,
        uuid: String,
        primary: bool,
        characteristics: Vec<CharacteristicDefinition>,
    ) -> (s: ServiceState)
        ensures
            s.uuid@ == uuid@,
            s.primary == primary,
            s.path@ == service_path(index as nat),
            s.characteristics@.len() == characteristics@.len(),
            forall|i: int|
                0 <= i < s.characteristics@.len() ==> #[trigger] characteristic_from(
                    s.characteristics@[i],
                    characteristics@[i],
                    child_path(s.path@, "/char"@, i as nat),
                ),
    {
        let mut path = String::from_str("/io/webbluetooth/peripheral/service");
        push_decimal(&mut path, index as u64);
        let ghost input = characteristics@;
        let mut published: Vec<CharacteristicState> = Vec::new();
        let mut rest = characteristics;
        let n = rest.len();
        let mut i: usize = 0;
        while i < n
            invariant
                n == input.len(),
                i <= n,
                rest@ == input.skip(i as int),
                published@.len() == i,
                forall|a: int|
                    0 <= a < i ==> #[trigger] characteristic_from(
                        published@[a],
                        input[a],
                        child_path(path@, "/char"@, a as nat),
                    ),
            decreases n - i,
        {
            let def = rest.remove(0);
            assert(input[i as int] == def);
            assert(rest@ =~= input.skip(i + 1));
            let p = child(&path, "/char", i);
            published.push(characteristic_from_definition(p, def));
            i = i + 1;
        }
        ServiceState { uuid, path, primary, characteristics: published }
    }
}

// ── Advertising ─────────────────────────────────────────────────────────────

/// The advertisement's properties: its type, the services it lists if there
/// are any, and its local name if it has one.
pub open spec fn advertisement_entries(services: Seq<String>, local_name: Option<String>) -> Seq<
    (ValueView, ValueView),
> {
    seq![(ValueView::Str("Type"@), ValueView::Variant(Box::new(ValueView::Str("peripheral"@))))]
        + (if services.len() > 0 {
        seq![
            (
                ValueView::Str("ServiceUUIDs"@),
                ValueView::Variant(Box::new(strings_value(services))),
            ),
        ]
    } else {
        Seq::empty()
    }) + match local_name {
        Some(name) => seq![
            (ValueView::Str("LocalName"@), ValueView::Variant(Box::new(ValueView::Str(name@)))),
        ],
        None => Seq::empty(),
    }
}

/// The `a{sv}` entries of the advertisement object, which BlueZ reads off it
/// rather than taking as call arguments.
pub fn advertisement(services: Vec<String>, local_name: Option<String>) -> (entries: Vec<
    (Value, Value),
>)
    ensures
        pairs_view(entries@) == advertisement_entries(services@, local_name),
{
    let ghost expected_services = services@;
    let mut entries: Vec<(Value, Value)> = Vec::new();
    let key = Value::Str(String::from_str("Type"));
    let kind = Value::Str(String::from_str("peripheral"));
    assert(kind@ == ValueView::Str("peripheral"@));
    let value = Value::Variant(Box::new(kind));
    assert(key@ == ValueView::Str("Type"@));
    assert(value@ == ValueView::Variant(Box::new(ValueView::Str("peripheral"@))));
    entries.push((key, value));
    let ghost mut expected: Seq<(ValueView, ValueView)> = seq![(key@, value@)];
    assert(pairs_view(entries@) =~= expected);
    if services.len() > 0 {
        let key = Value::Str(String::from_str("ServiceUUIDs"));
        let value = Value::Variant(Box::new(Value::string_array(services)));
        assert(key@ == ValueView::Str("ServiceUUIDs"@));
        assert(value@ == ValueView::Variant(Box::new(strings_value(expected_services))));
        let ghost before = entries@;
        entries.push((key, value));
        assert(pairs_view(entries@) =~= pairs_view(before).push((key@, value@)));
        proof {
            expected = expected.push((key@, value@));
        }
    }
    assert(pairs_view(entries@) =~= expected);
    match local_name {
        Some(name) => {
            let ghost n = name;
            let key = Value::Str(String::from_str("LocalName"));
            let text = Value::Str(name);
            assert(text@ == ValueView::Str(n@));
            let value = Value::Variant(Box::new(text));
            assert(key@ == ValueView::Str("LocalName"@));
            assert(value@ == ValueView::Variant(Box::new(ValueView::Str(n@))));
            let ghost before = entries@;
            entries.push((key, value));
            assert(pairs_view(entries@) =~= pairs_view(before).push((key@, value@)));
            proof {
                expected = expected.push((key@, value@));
            }
        },
        None => {},
    }
    assert(pairs_view(entries@) =~= expected);
    assert(expected =~= advertisement_entries(expected_services, local_name));
    entries
}

// ── Subscriptions ───────────────────────────────────────────────────────────

/// The subscriber a `StartNotify` records. BlueZ passes no options with it,
/// so there is no device or MTU to read: it is described as far as it can be.
pub open spec fn is_unnamed_subscriber(c: RemoteCentral) -> bool {
    &&& c.id_view() == "subscribed"@
    &&& c.max_notification_length_view() == 20
}

impl CharacteristicState {
    /// Record a `StartNotify` (a subscriber more) or a `StopNotify` (no
    /// subscribers), and give the central to report to the application.
    pub fn set_subscribed(&mut self, subscribed: bool) -> (central: RemoteCentral)
        ensures
            is_unnamed_subscriber(central),
            final(self).uuid == old(self).uuid,
            final(self).path == old(self).path,
            final(self).flags == old(self).flags,
            final(self).value == old(self).value,
            final(self).descriptors == old(self).descriptors,
            subscribed ==> {
                &&& final(self).subscribers@.len() == old(self).subscribers@.len() + 1
                &&& final(self).subscribers@.take(old(self).subscribers@.len() as int)
                    == old(self).subscribers@
                &&& is_unnamed_subscriber(final(self).subscribers@.last())
            },
            !subscribed ==> final(self).subscribers@.len() == 0,
    {
        let central = RemoteCentral::unnamed_subscriber();
        if subscribed {
            let ghost before = self.subscribers@;
            self.subscribers.push(RemoteCentral::unnamed_subscriber());
            assert(self.subscribers@.take(before.len() as int) =~= before);
        } else {
            self.subscribers.clear();
        }
        central
    }
}

// ── Laws ────────────────────────────────────────────────────────────────────

/// No digit is a `/`.
proof fn lemma_digits_have_no_slash(n: nat)
    ensures
        forall|k: int| 0 <= k < decimal_digits(n).len() ==> #[trigger] decimal_digits(n)[k] != '/',
    decreases n,
{
    if n >= 10 {
        lemma_digits_have_no_slash(n / 10);
        let d = decimal_digits(n);
        assert forall|k: int| 0 <= k < d.len() implies #[trigger] d[k] != '/' by {
            if k < decimal_digits(n / 10).len() {
                assert(d[k] == decimal_digits(n / 10)[k]);
            } else {
                assert(d[k] == ((n % 10) + 48) as char);
            }
        }
    } else {
        assert(decimal_digits(n)[0] == (n + 48) as char);
    }
}

/// A number has one way of being written in decimal.
proof fn lemma_digits_injective(a: nat, b: nat)
    requires
        decimal_digits(a) == decimal_digits(b),
    ensures
        a == b,
    decreases a + b,
{
    lemma_digits_long(a);
    lemma_digits_long(b);
    if a < 10 && b < 10 {
        assert(decimal_digits(a)[0] == (a + 48) as char);
        assert(decimal_digits(b)[0] == (b + 48) as char);
    } else if a >= 10 && b >= 10 {
        let da = decimal_digits(a);
        let db = decimal_digits(b);
        assert(da.last() == ((a % 10) + 48) as char);
        assert(db.last() == ((b % 10) + 48) as char);
        assert(da.drop_last() =~= decimal_digits(a / 10));
        assert(db.drop_last() =~= decimal_digits(b / 10));
        lemma_digits_injective(a / 10, b / 10);
    }
}

/// A number of two digits or more is written with more than one.
proof fn lemma_digits_long(n: nat)
    ensures
        decimal_digits(n).len() >= 1,
        n >= 10 ==> decimal_digits(n).len() >= 2,
        n < 10 ==> decimal_digits(n).len() == 1,
    decreases n,
{
    if n >= 10 {
        lemma_digits_long(n / 10);
    }
}

/// Two paths built as `x`, a separator that starts with `/`, then `y`, are the
/// same only if their parts are, when neither `x` holds a `/`.
proof fn lemma_split_at_separator(x: Seq<char>, y: Seq<char>, u: Seq<char>, v: Seq<char>, sep: Seq<char>)
    requires
        sep.len() > 0,
        sep[0] == '/',
        forall|k: int| 0 <= k < x.len() ==> x[k] != '/',
        forall|k: int| 0 <= k < u.len() ==> u[k] != '/',
        x + sep + y == u + sep + v,
    ensures
        x == u,
        y == v,
{
    let l = x + sep + y;
    let r = u + sep + v;
    if x.len() < u.len() {
        assert(l[x.len() as int] == '/');
        assert(r[x.len() as int] == u[x.len() as int]);
    } else if u.len() < x.len() {
        assert(r[u.len() as int] == '/');
        assert(l[u.len() as int] == x[u.len() as int]);
    }
    assert(x =~= l.take(x.len() as int));
    assert(u =~= r.take(u.len() as int));
    assert(y =~= l.skip((x.len() + sep.len()) as int));
    assert(v =~= r.skip((u.len() + sep.len()) as int));
}

/// Where a characteristic of a published service lives: the service's path,
/// `/char` and its index.
pub open spec fn char_path(index: nat, j: nat) -> Seq<char> {
    child_path(service_path(index), "/char"@, j)
}

/// Services laid out as publishing lays them out: each at the path of its
/// index, no index twice, each characteristic at the path of its place, each
/// descriptor at the path of its place under it.
pub open spec fn laid_out(services: Seq<ServiceState>, indices: Seq<nat>) -> bool {
    &&& services.len() == indices.len()
    &&& forall|i: int| 0 <= i < services.len() ==> #[trigger] services[i].path@ == service_path(indices[i])
    &&& forall|i: int, a: int| 0 <= i < a < services.len() ==> indices[i] != indices[a]
    &&& forall|i: int, j: int|
        0 <= i < services.len() && 0 <= j < services[i].characteristics@.len() ==> #[trigger] services[i].characteristics@[j].path@
            == child_path(services[i].path@, "/char"@, j as nat)
    &&& forall|i: int, j: int, k: int|
        0 <= i < services.len() && 0 <= j < services[i].characteristics@.len() && 0 <= k
            < services[i].characteristics@[j].descriptors@.len()
            ==> #[trigger] services[i].characteristics@[j].descriptors@[k].path@ == child_path(
            services[i].characteristics@[j].path@,
            "/desc"@,
            k as nat,
        )
}

/// Two characteristic paths of a published tree are the same only for the
/// same service index and place.
proof fn lemma_char_paths_apart(a: nat, b: nat, i: nat, j: nat)
    requires
        char_path(a, b) == char_path(i, j),
    ensures
        a == i,
        b == j,
{
    reveal_strlit("/char");
    let root = "/io/webbluetooth/peripheral/service"@;
    lemma_digits_have_no_slash(a);
    lemma_digits_have_no_slash(i);
    let l = decimal_digits(a) + "/char"@ + decimal_digits(b);
    let r = decimal_digits(i) + "/char"@ + decimal_digits(j);
    assert(char_path(a, b) =~= root + l);
    assert(char_path(i, j) =~= root + r);
    assert(l =~= (root + l).skip(root.len() as int));
    assert(r =~= (root + r).skip(root.len() as int));
    lemma_split_at_separator(decimal_digits(a), decimal_digits(b), decimal_digits(i), decimal_digits(j), "/char"@);
    lemma_digits_injective(a, i);
    lemma_digits_injective(b, j);
}

/// Every characteristic a published tree holds is found at its own path,
/// and nothing else is found there first.
pub proof fn lemma_published_characteristics_are_found(
    services: Seq<ServiceState>,
    indices: Seq<nat>,
    i: int,
    j: int,
)
    requires
        laid_out(services, indices),
        0 <= i < services.len(),
        0 <= j < services[i].characteristics@.len(),
    ensures
        characteristic_index(services, services[i].characteristics@[j].path@) == Some((i, j)),
{
    let path = services[i].characteristics@[j].path@;
    assert(path == char_path(indices[i], j as nat));
    assert forall|a: int, b: int|
        #![trigger characteristic_is_at(services, a, b, path)]
        earlier(a, b, i, j) implies !characteristic_is_at(services, a, b, path) by {
        if characteristic_is_at(services, a, b, path) {
            assert(services[a].characteristics@[b].path@ == char_path(indices[a], b as nat));
            lemma_char_paths_apart(indices[a], b as nat, indices[i], j as nat);
            if a != i {
                if a < i {
                    assert(indices[a] != indices[i]);
                } else {
                    assert(indices[i] != indices[a]);
                }
            }
        }
    }
    assert(characteristic_is_at(services, i, j, path));
    lemma_first_characteristic_unique(services, path, i, j);
}

/// Every descriptor a published tree holds is found at its own path, and
/// nothing else is found there first.
pub proof fn lemma_published_descriptors_are_found(
    services: Seq<ServiceState>,
    indices: Seq<nat>,
    i: int,
    j: int,
    k: int,
)
    requires
        laid_out(services, indices),
        0 <= i < services.len(),
        0 <= j < services[i].characteristics@.len(),
        0 <= k < services[i].characteristics@[j].descriptors@.len(),
    ensures
        descriptor_index(services, services[i].characteristics@[j].descriptors@[k].path@) == Some(
            (i, j, k),
        ),
{
    reveal_strlit("/desc");
    let path = services[i].characteristics@[j].descriptors@[k].path@;
    assert forall|a: int, b: int, c: int|
        #![trigger descriptor_is_at(services, a, b, c, path)]
        earlier3(a, b, c, i, j, k) implies !descriptor_is_at(services, a, b, c, path) by {
        if descriptor_is_at(services, a, b, c, path) {
            let ca = char_path(indices[a], b as nat);
            let ci = char_path(indices[i], j as nat);
            assert(services[a].characteristics@[b].path@ == ca);
            assert(services[i].characteristics@[j].path@ == ci);
            lemma_desc_paths_apart(ca, ci, c as nat, k as nat);
            lemma_char_paths_apart(indices[a], b as nat, indices[i], j as nat);
            if a != i {
                if a < i {
                    assert(indices[a] != indices[i]);
                } else {
                    assert(indices[i] != indices[a]);
                }
            }
        }
    }
    assert(descriptor_is_at(services, i, j, k, path));
    lemma_first_descriptor_unique(services, path, i, j, k);
}

/// Two descriptor paths under characteristic paths are the same only for
/// the same characteristic path and place.
proof fn lemma_desc_paths_apart(ca: Seq<char>, ci: Seq<char>, c: nat, k: nat)
    requires
        child_path(ca, "/desc"@, c) == child_path(ci, "/desc"@, k),
    ensures
        ca == ci,
        c == k,
{
    reveal_strlit("/desc");
    lemma_digits_have_no_slash(c);
    lemma_digits_have_no_slash(k);
    let sep = "/desc"@;
    let dc = decimal_digits(c);
    let dk = decimal_digits(k);
    // Read backwards: the digits are what follows the last `/`.
    let l = ca + sep + dc;
    let r = ci + sep + dk;
    assert(l == r);
    if dc.len() < dk.len() {
        let t = l.len() - dc.len() - 5;
        assert(l[t] == '/');
        assert(r[t] == dk[t - ci.len() - 5]);
    } else if dk.len() < dc.len() {
        let t = r.len() - dk.len() - 5;
        assert(r[t] == '/');
        assert(l[t] == dc[t - ca.len() - 5]);
    }
    assert(dc =~= l.skip(l.len() - dc.len()));
    assert(dk =~= r.skip(r.len() - dk.len()));
    assert(ca =~= l.take(ca.len() as int));
    assert(ci =~= r.take(ci.len() as int));
    lemma_digits_injective(c, k);
}

} // verus!
