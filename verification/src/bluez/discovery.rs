//! The filter a scan asks bluetoothd to apply.

use vstd::prelude::*;
use crate::dbus::value::{dict_items, Value, ValueView};

verus! {

/// The filter's entries: LE only, which keeps classic devices out of the
/// results entirely; the services wanted, if any are; and whether every
/// advertisement is reported or only changes.
pub open spec fn filter_entries(services: Seq<String>, duplicates: bool) -> Seq<(Seq<char>, ValueView)> {
    seq![("Transport"@, ValueView::Str("le"@))] + (if services.len() > 0 {
        seq![
            (
                "UUIDs"@,
                ValueView::Array {
                    element: seq!['s'],
                    items: Seq::new(services.len(), |i: int| ValueView::Str(services[i]@)),
                },
            ),
        ]
    } else {
        Seq::empty()
    }) + seq![("DuplicateData"@, ValueView::Bool(duplicates))]
}

/// Named values as the items of an `a{sv}`.
pub open spec fn sv_items(es: Seq<(Seq<char>, ValueView)>) -> Seq<ValueView> {
    Seq::new(
        es.len(),
        |i: int|
            ValueView::DictEntry(
                Box::new(ValueView::Str(es[i].0)),
                Box::new(ValueView::Variant(Box::new(es[i].1))),
            ),
    )
}

/// The argument of `SetDiscoveryFilter`.
pub fn discovery_filter(services: Vec<String>, duplicates: bool) -> (v: Value)
    ensures
        v@ == (ValueView::Array {
            element: seq!['{', 's', 'v', '}'],
            items: sv_items(filter_entries(services@, duplicates)),
        }),
{
    let ghost wanted = services@;
    let mut entries: Vec<(String, Value)> = Vec::new();
    entries.push((String::from_str("Transport"), Value::Str(String::from_str("le"))));
    if services.len() > 0 {
        entries.push((String::from_str("UUIDs"), Value::string_array(services)));
    }
    entries.push((String::from_str("DuplicateData"), Value::Bool(duplicates)));
    let ghost named = entries@.map_values(|e: (String, Value)| (e.0@, e.1@));
    assert(named =~= filter_entries(wanted, duplicates));
    let v = Value::dict(entries);
    assert(dict_items(entries@) =~= sv_items(filter_entries(wanted, duplicates))) by {
        assert forall|i: int| 0 <= i < entries@.len() implies entries@[i].0@ == named[i].0
            && entries@[i].1@ == named[i].1 by {}
    }
    v
}

} // verus!
