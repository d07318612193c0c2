//! What a device object says of the advertisement that made BlueZ see it.
//!
//! A `PropertiesChanged` sighting carries only what changed, so it is laid
//! over the properties the tree already holds before it is read.

use vstd::prelude::*;
use crate::bluez::tree::{props_map, put_prop, Props};
use crate::dbus::value::{
    bytes_of, distinct_keys, entries_map, entries_view, items_of, lemma_entries_lookup, peeled,
    signed_of, strings_view, text_of, texts_of, unsigned_of, Value, ValueView,
};
use crate::dbus::value::lookup_entry;

verus! {

/// An advertisement as a device object describes it.
pub struct Sighting {
    /// The address, as BlueZ writes it.
    pub address: String,
    /// The `Name`, or the `Alias` when there is no name.
    pub local_name: Option<String>,
    pub tx_power: Option<i16>,
    pub appearance: Option<u16>,
    /// The service UUIDs, as BlueZ lists them.
    pub service_uuids: Vec<String>,
    /// Company identifier and payload, in the order listed: a later entry
    /// for a company replaces an earlier one.
    pub manufacturer_data: Vec<(u16, Vec<u8>)>,
    /// Service UUID, as BlueZ writes it, and payload; each UUID once.
    pub service_data: Vec<(String, Vec<u8>)>,
    /// The signal strength, or 127 when BlueZ gives none.
    pub rssi: i32,
}

/// The value of a property, if there is one.
pub open spec fn prop_of(props: Map<Seq<char>, ValueView>, key: Seq<char>) -> Option<ValueView> {
    if props.contains_key(key) {
        Some(props[key])
    } else {
        None
    }
}

/// The text of a property, if it is there and is text.
pub open spec fn text_prop(props: Map<Seq<char>, ValueView>, key: Seq<char>) -> Option<Seq<char>> {
    match prop_of(props, key) {
        Some(v) => text_of(v),
        None => None,
    }
}

/// The name: `Name` if BlueZ gave one, else `Alias`.
pub open spec fn name_in(props: Map<Seq<char>, ValueView>) -> Option<Seq<char>> {
    match prop_of(props, "Name"@) {
        Some(v) => text_of(v),
        None => text_prop(props, "Alias"@),
    }
}

/// An array of bytes, if the value is one.
pub open spec fn bytes_in(v: ValueView) -> Option<Seq<u8>> {
    match items_of(v) {
        Some(items) => bytes_of(items),
        None => None,
    }
}

/// One `a{qv}` entry of manufacturer data: a number for the company and
/// bytes for the payload, or nothing.
pub open spec fn maker_entry(item: ValueView) -> Option<(u16, Seq<u8>)> {
    match peeled(item) {
        ValueView::DictEntry(k, v) => match (unsigned_of(*k), bytes_in(*v)) {
            (Some(c), Some(b)) => Some((c as u16, b)),
            _ => None,
        },
        _ => None,
    }
}

/// The manufacturer data entries that read, in order.
pub open spec fn maker_entries(items: Seq<ValueView>) -> Seq<(u16, Seq<u8>)>
    decreases items.len(),
{
    if items.len() == 0 {
        Seq::empty()
    } else {
        match maker_entry(items.last()) {
            Some(e) => maker_entries(items.drop_last()).push(e),
            None => maker_entries(items.drop_last()),
        }
    }
}

/// The items of a property that is an array or a struct; none otherwise.
pub open spec fn items_in(props: Map<Seq<char>, ValueView>, key: Seq<char>) -> Seq<ValueView> {
    match prop_of(props, key) {
        Some(v) => match items_of(v) {
            Some(items) => items,
            None => Seq::empty(),
        },
        None => Seq::empty(),
    }
}

/// The service data by UUID: the entries of the `ServiceData` dictionary
/// whose values are bytes.
pub open spec fn service_data_map(props: Map<Seq<char>, ValueView>) -> Map<Seq<char>, Seq<u8>> {
    let m = match prop_of(props, "ServiceData"@) {
        Some(v) => match items_of(v) {
            Some(items) => crate::dbus::value::dict_map(items),
            None => Map::empty(),
        },
        None => Map::empty(),
    };
    Map::new(|k: Seq<char>| m.contains_key(k) && bytes_in(m[k]) is Some, |k: Seq<char>| bytes_in(m[k]).unwrap())
}

/// Pairs of text and bytes, as values.
pub open spec fn data_view(es: Seq<(String, Vec<u8>)>) -> Seq<(Seq<char>, Seq<u8>)> {
    es.map_values(|e: (String, Vec<u8>)| (e.0@, e.1@))
}

/// Pairs of a number and bytes, as values.
pub open spec fn makers_view(es: Seq<(u16, Vec<u8>)>) -> Seq<(u16, Seq<u8>)> {
    es.map_values(|e: (u16, Vec<u8>)| (e.0, e.1@))
}

/// What a device's properties say of its advertisement, if they give its
/// address.
pub open spec fn sighting_of(s: Sighting, props: Map<Seq<char>, ValueView>) -> bool {
    &&& text_prop(props, "Address"@) == Some(s.address@)
    &&& match s.local_name {
        Some(n) => name_in(props) == Some(n@),
        None => name_in(props) is None,
    }
    &&& s.tx_power == match prop_of(props, "TxPower"@) {
        Some(v) => match signed_of(v) {
            Some(n) => Some(n as i16),
            None => None,
        },
        None => None,
    }
    &&& s.appearance == match prop_of(props, "Appearance"@) {
        Some(v) => match unsigned_of(v) {
            Some(n) => Some(n as u16),
            None => None,
        },
        None => None,
    }
    &&& strings_view(s.service_uuids@) == texts_of(items_in(props, "UUIDs"@))
    &&& makers_view(s.manufacturer_data@) == maker_entries(items_in(props, "ManufacturerData"@))
    &&& distinct_keys(data_view(s.service_data@))
    &&& entries_map(data_view(s.service_data@)) == service_data_map(props)
    &&& s.rssi == match prop_of(props, "RSSI"@) {
        Some(v) => match signed_of(v) {
            Some(n) => n as i32,
            None => 127,
        },
        None => 127,
    }
}

/// The entries whose values are bytes, in order.
pub open spec fn kept(es: Seq<(Seq<char>, ValueView)>) -> Seq<(Seq<char>, Seq<u8>)>
    decreases es.len(),
{
    if es.len() == 0 {
        Seq::empty()
    } else {
        match bytes_in(es.last().1) {
            Some(b) => kept(es.drop_last()).push((es.last().0, b)),
            None => kept(es.drop_last()),
        }
    }
}

/// Keeping the entries whose values are bytes keeps the keys apart, and
/// makes the map of those entries.
proof fn lemma_kept(es: Seq<(Seq<char>, ValueView)>)
    requires
        distinct_keys(es),
    ensures
        distinct_keys(kept(es)),
        forall|k: Seq<char>|
            #[trigger] entries_map(kept(es)).contains_key(k) <==> (entries_map(es).contains_key(k)
                && bytes_in(entries_map(es)[k]) is Some),
        forall|k: Seq<char>|
            #[trigger] entries_map(kept(es)).contains_key(k) ==> entries_map(kept(es))[k]
                == bytes_in(entries_map(es)[k]).unwrap(),
        forall|k: Seq<char>|
            #[trigger] entries_map(kept(es)).contains_key(k) ==> exists|i: int|
                0 <= i < es.len() && es[i].0 == k,
    decreases es.len(),
{
    if es.len() > 0 {
        let init = es.drop_last();
        assert(distinct_keys(init));
        lemma_kept(init);
        let last = es.last();
        // The last key is new to what came before.
        assert forall|i: int| 0 <= i < init.len() implies init[i].0 != last.0 by {
            assert(es[i] == init[i]);
        }
        assert(!entries_map(init).contains_key(last.0)) by {
            lemma_entries_lookup(init, last.0, 0);
        }
        assert(!entries_map(kept(init)).contains_key(last.0));
        match bytes_in(last.1) {
            Some(b) => {
                let k2 = kept(init).push((last.0, b));
                assert(k2.drop_last() =~= kept(init));
                assert forall|a: int, c: int| 0 <= a < c < k2.len() implies k2[a].0 != k2[c].0 by {
                    if c == k2.len() - 1 {
                        assert(k2[a] == kept(init)[a]);
                        if k2[a].0 == last.0 {
                            lemma_entries_lookup(kept(init), last.0, a);
                        }
                    } else {
                        assert(k2[a] == kept(init)[a]);
                        assert(k2[c] == kept(init)[c]);
                    }
                }
                assert forall|k: Seq<char>| #[trigger] entries_map(kept(es)).contains_key(k) implies exists|i: int|
                    0 <= i < es.len() && es[i].0 == k by {
                    if k == last.0 {
                        assert(es[es.len() - 1].0 == k);
                    } else {
                        assert(entries_map(kept(init)).contains_key(k));
                        let i = choose|i: int| 0 <= i < init.len() && init[i].0 == k;
                        assert(es[i] == init[i]);
                    }
                }
            },
            None => {
                assert forall|k: Seq<char>| #[trigger] entries_map(kept(es)).contains_key(k) implies exists|i: int|
                    0 <= i < es.len() && es[i].0 == k by {
                    let i = choose|i: int| 0 <= i < init.len() && init[i].0 == k;
                    assert(es[i] == init[i]);
                }
            },
        }
    }
}

/// The payload of each manufacturer data entry that reads, in order.
fn maker_data(items: &[Value]) -> (out: Vec<(u16, Vec<u8>)>)
    ensures
        makers_view(out@) == maker_entries(crate::dbus::value::values_view(items@)),
{
    let ghost vs = crate::dbus::value::values_view(items@);
    proof {
        crate::dbus::value::lemma_values_view(items@);
    }
    let mut out: Vec<(u16, Vec<u8>)> = Vec::new();
    let mut i: usize = 0;
    while i < items.len()
        invariant
            i <= items@.len(),
            vs == crate::dbus::value::values_view(items@),
            vs.len() == items@.len(),
            forall|j: int| 0 <= j < items@.len() ==> #[trigger] vs[j] == items@[j]@,
            makers_view(out@) == maker_entries(vs.take(i as int)),
        decreases items@.len() - i,
    {
        assert(vs.take(i + 1).drop_last() =~= vs.take(i as int));
        assert(vs.take(i + 1).last() == items@[i as int]@);
        let item = items[i].peel();
        match item {
            Value::DictEntry(k, v) => {
                match (k.as_u64(), v.as_bytes()) {
                    (Some(company), Some(bytes)) => {
                        #[verifier::truncate]
                        let c = company as u16;
                        let ghost before = out@;
                        let ghost b = bytes@;
                        out.push((c, bytes));
                        assert(makers_view(out@) =~= makers_view(before).push((c, b)));
                    },
                    _ => {},
                }
            },
            _ => {},
        }
        i = i + 1;
    }
    assert(vs.take(items@.len() as int) =~= vs);
    out
}

/// The entries of a dictionary, already split into pairs, whose values are
/// bytes.
fn byte_entries(pairs: &Vec<(String, Value)>) -> (out: Vec<(String, Vec<u8>)>)
    ensures
        data_view(out@) == kept(entries_view(pairs@)),
{
    let ghost es = entries_view(pairs@);
    let mut out: Vec<(String, Vec<u8>)> = Vec::new();
    let mut i: usize = 0;
    while i < pairs.len()
        invariant
            i <= pairs@.len(),
            es == entries_view(pairs@),
            data_view(out@) == kept(es.take(i as int)),
        decreases pairs@.len() - i,
    {
        assert(es.take(i + 1).drop_last() =~= es.take(i as int));
        assert(es.take(i + 1).last() == (pairs@[i as int].0@, pairs@[i as int].1@));
        match pairs[i].1.as_bytes() {
            Some(bytes) => {
                let ghost before = out@;
                let key = pairs[i].0.clone();
                let ghost entry = (key@, bytes@);
                out.push((key, bytes));
                assert(data_view(out@) =~= data_view(before).push(entry));
            },
            None => {},
        }
        i = i + 1;
    }
    assert(es.take(pairs@.len() as int) =~= es);
    out
}

/// The items of a property that is an array or struct.
fn items_at<'a>(props: &'a Props, key: &str) -> (items: &'a [Value])
    requires
        distinct_keys(entries_view(props@)),
    ensures
        crate::dbus::value::values_view(items@) == items_in(props_map(props@), key@),
{
    match lookup_entry(props, key) {
        Some(v) => match v.as_array() {
            Some(items) => items,
            None => {
                let none: &[Value] = &[];
                assert(none@ =~= Seq::<Value>::empty());
                none
            },
        },
        None => {
            let none: &[Value] = &[];
            assert(none@ =~= Seq::<Value>::empty());
            none
        },
    }
}

impl Sighting {
    /// What a device's properties say of its advertisement; nothing if they
    /// do not give its address as text.
    pub fn from_properties(props: &Props) -> (s: Option<Sighting>)
        requires
            distinct_keys(entries_view(props@)),
        ensures
            match s {
                Some(x) => sighting_of(x, props_map(props@)),
                None => text_prop(props_map(props@), "Address"@) is None,
            },
    {
        let ghost m = props_map(props@);
        let address = match lookup_entry(props, "Address") {
            Some(v) => match v.as_str() {
                Some(a) => a.to_string(),
                None => return None,
            },
            None => return None,
        };
        let local_name = match lookup_entry(props, "Name") {
            Some(v) => v.as_str(),
            None => match lookup_entry(props, "Alias") {
                Some(v) => v.as_str(),
                None => None,
            },
        };
        let local_name = match local_name {
            Some(n) => Some(n.to_string()),
            None => None,
        };
        let tx_power = match lookup_entry(props, "TxPower") {
            Some(v) => match v.as_i64() {
                Some(n) => {
                    #[verifier::truncate]
                    let p = n as i16;
                    Some(p)
                },
                None => None,
            },
            None => None,
        };
        let appearance = match lookup_entry(props, "Appearance") {
            Some(v) => match v.as_u64() {
                Some(n) => {
                    #[verifier::truncate]
                    let a = n as u16;
                    Some(a)
                },
                None => None,
            },
            None => None,
        };
        let service_uuids = match lookup_entry(props, "UUIDs") {
            Some(v) => v.as_strings(),
            None => Vec::new(),
        };
        proof {
            if prop_of(m, "UUIDs"@) is None {
                assert(texts_of(Seq::<ValueView>::empty()) == Seq::<Seq<char>>::empty());
                assert(strings_view(service_uuids@) =~= Seq::<Seq<char>>::empty());
            } else if items_of(prop_of(m, "UUIDs"@).unwrap()) is None {
                assert(strings_view(service_uuids@) =~= Seq::<Seq<char>>::empty());
            }
        }
        let manufacturer_data = maker_data(items_at(props, "ManufacturerData"));
        let service_data = match lookup_entry(props, "ServiceData") {
            Some(v) => {
                let pairs = v.as_map();
                let out = byte_entries(&pairs);
                proof {
                    lemma_kept(entries_view(pairs@));
                    assert(entries_map(data_view(out@)) =~= service_data_map(m));
                }
                out
            },
            None => {
                let out: Vec<(String, Vec<u8>)> = Vec::new();
                assert(entries_map(data_view(out@)) =~= service_data_map(m)) by {
                    assert(data_view(out@) =~= Seq::<(Seq<char>, Seq<u8>)>::empty());
                }
                out
            },
        };
        let rssi = match lookup_entry(props, "RSSI") {
            Some(v) => match v.as_i64() {
                Some(n) => {
                    #[verifier::truncate]
                    let r = n as i32;
                    r
                },
                None => 127,
            },
            None => 127,
        };
        Some(Sighting {
            address,
            local_name,
            tx_power,
            appearance,
            service_uuids,
            manufacturer_data,
            service_data,
            rssi,
        })
    }
}

/// Properties with the changes a signal carried laid over them.
pub fn merged_properties(base: Props, changes: &Props) -> (m: Props)
    requires
        distinct_keys(entries_view(base@)),
    ensures
        distinct_keys(entries_view(m@)),
        props_map(m@) == props_map(base@).union_prefer_right(props_map(changes@)),
{
    let ghost start = props_map(base@);
    let ghost cv = entries_view(changes@);
    let mut m = base;
    let mut i: usize = 0;
    assert(start.union_prefer_right(entries_map(cv.take(0))) =~= start);
    while i < changes.len()
        invariant
            i <= changes@.len(),
            cv == entries_view(changes@),
            distinct_keys(entries_view(m@)),
            props_map(m@) == start.union_prefer_right(entries_map(cv.take(i as int))),
        decreases changes@.len() - i,
    {
        let key = changes[i].0.clone();
        let value = changes[i].1.clone();
        put_prop(&mut m, key, value);
        assert(cv.take(i + 1).drop_last() =~= cv.take(i as int));
        assert(start.union_prefer_right(entries_map(cv.take(i + 1))) =~= start.union_prefer_right(
            entries_map(cv.take(i as int)),
        ).insert(cv[i as int].0, cv[i as int].1));
        i = i + 1;
    }
    assert(cv.take(changes@.len() as int) =~= cv);
    m
}

} // verus!
