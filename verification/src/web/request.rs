//! A device request as the page receives it: the filters a device must
//! match, those it must not, and what else the page may reach.

use vstd::prelude::*;
use vstd::utf8::encode_utf8;
use crate::bytes::{u16_le_bytes, u32_le_bytes};
use super::codec::{framed, framed_option, Writer};

verus! {

/// Bytes a value's data must start with, where `mask` has bits set.
pub struct PrefixParts {
    pub bytes: Vec<u8>,
    pub mask: Option<Vec<u8>>,
}

/// One filter of a device request.
pub struct FilterParts {
    /// Service UUIDs, as text.
    pub services: Vec<String>,
    pub name: Option<String>,
    pub name_prefix: Option<String>,
    /// Company identifier and the prefix its data must have.
    pub manufacturer_data: Vec<(u16, PrefixParts)>,
    /// Service UUID, as text, and the prefix its data must have.
    pub service_data: Vec<(String, PrefixParts)>,
}

/// What a device request asks of the page.
pub struct RequestParts {
    pub filters: Vec<FilterParts>,
    pub exclusion_filters: Vec<FilterParts>,
    pub optional_services: Vec<String>,
    pub optional_manufacturer_data: Vec<u16>,
    pub accept_all_devices: bool,
}

/// A count, as a `u32`.
pub open spec fn count_bytes(n: nat) -> Seq<u8> {
    u32_le_bytes(n as u32)
}

/// A string's UTF-8 bytes, framed.
pub open spec fn text_bytes(s: String) -> Seq<u8> {
    framed(encode_utf8(s@))
}

/// An optional string.
pub open spec fn option_text_bytes(o: Option<String>) -> Seq<u8> {
    framed_option(
        match o {
            Some(s) => Some(encode_utf8(s@)),
            None => None,
        },
    )
}

/// A prefix: its bytes, then a flag and the mask if there is one.
pub open spec fn prefix_bytes(p: PrefixParts) -> Seq<u8> {
    framed(p.bytes@) + match p.mask {
        Some(m) => seq![1u8] + framed(m@),
        None => seq![0u8],
    }
}

/// Strings, one after another.
pub open spec fn texts_bytes(ss: Seq<String>) -> Seq<u8>
    decreases ss.len(),
{
    if ss.len() == 0 {
        Seq::empty()
    } else {
        texts_bytes(ss.drop_last()) + text_bytes(ss.last())
    }
}

/// Company identifiers, one after another.
pub open spec fn ids_bytes(ids: Seq<u16>) -> Seq<u8>
    decreases ids.len(),
{
    if ids.len() == 0 {
        Seq::empty()
    } else {
        ids_bytes(ids.drop_last()) + u16_le_bytes(ids.last())
    }
}

/// Manufacturer data filters, one after another.
pub open spec fn makers_bytes(ms: Seq<(u16, PrefixParts)>) -> Seq<u8>
    decreases ms.len(),
{
    if ms.len() == 0 {
        Seq::empty()
    } else {
        makers_bytes(ms.drop_last()) + u16_le_bytes(ms.last().0) + prefix_bytes(ms.last().1)
    }
}

/// Service data filters, one after another.
pub open spec fn service_data_bytes(sd: Seq<(String, PrefixParts)>) -> Seq<u8>
    decreases sd.len(),
{
    if sd.len() == 0 {
        Seq::empty()
    } else {
        service_data_bytes(sd.drop_last()) + text_bytes(sd.last().0) + prefix_bytes(sd.last().1)
    }
}

/// One filter: its services, name and name prefix, then its manufacturer
/// and service data, each list counted.
pub open spec fn filter_bytes(f: FilterParts) -> Seq<u8> {
    count_bytes(f.services@.len()) + texts_bytes(f.services@) + option_text_bytes(f.name)
        + option_text_bytes(f.name_prefix) + count_bytes(f.manufacturer_data@.len()) + makers_bytes(
        f.manufacturer_data@,
    ) + count_bytes(f.service_data@.len()) + service_data_bytes(f.service_data@)
}

/// Filters, one after another.
pub open spec fn filters_bytes(fs: Seq<FilterParts>) -> Seq<u8>
    decreases fs.len(),
{
    if fs.len() == 0 {
        Seq::empty()
    } else {
        filters_bytes(fs.drop_last()) + filter_bytes(fs.last())
    }
}

/// A whole request: the filters, the exclusion filters, the optional
/// services and manufacturer data, each counted, and whether any device
/// will do.
pub open spec fn request_bytes(o: RequestParts) -> Seq<u8> {
    count_bytes(o.filters@.len()) + filters_bytes(o.filters@) + count_bytes(
        o.exclusion_filters@.len(),
    ) + filters_bytes(o.exclusion_filters@) + count_bytes(o.optional_services@.len())
        + texts_bytes(o.optional_services@) + count_bytes(o.optional_manufacturer_data@.len())
        + ids_bytes(o.optional_manufacturer_data@) + seq![
        if o.accept_all_devices {
            1u8
        } else {
            0u8
        },
    ]
}

/// Append a count.
fn put_count(w: &mut Writer, n: usize)
    ensures
        final(w)@ == old(w)@ + count_bytes(n as nat),
{
    #[verifier::truncate]
    let c = n as u32;
    assert(c == (n as nat) as u32);
    w.u32(c);
}

/// Append strings, counted.
fn put_texts(w: &mut Writer, ss: &Vec<String>)
    ensures
        final(w)@ == old(w)@ + count_bytes(ss@.len()) + texts_bytes(ss@),
{
    let ghost start = w@;
    put_count(w, ss.len());
    let mut i: usize = 0;
    while i < ss.len()
        invariant
            i <= ss@.len(),
            w@ == start + count_bytes(ss@.len()) + texts_bytes(ss@.take(i as int)),
        decreases ss@.len() - i,
    {
        w.str(ss[i].as_str());
        assert(ss@.take(i + 1).drop_last() =~= ss@.take(i as int));
        i = i + 1;
    }
    assert(ss@.take(ss@.len() as int) =~= ss@);
}

/// Append an optional string.
fn put_option_text(w: &mut Writer, o: &Option<String>)
    ensures
        final(w)@ == old(w)@ + option_text_bytes(*o),
{
    match o {
        Some(s) => {
            w.option_str(Some(s.as_str()));
        },
        None => {
            w.option_str(None);
        },
    }
}

/// Append a prefix.
fn put_prefix(w: &mut Writer, p: &PrefixParts)
    ensures
        final(w)@ == old(w)@ + prefix_bytes(*p),
{
    let ghost start = w@;
    w.bytes(p.bytes.as_slice());
    match &p.mask {
        Some(mask) => {
            w.bool(true);
            w.bytes(mask.as_slice());
            assert(w@ =~= start + prefix_bytes(*p));
        },
        None => {
            w.bool(false);
            assert(w@ =~= start + prefix_bytes(*p));
        },
    }
}

/// Append manufacturer data filters, counted.
fn put_makers(w: &mut Writer, ms: &Vec<(u16, PrefixParts)>)
    ensures
        final(w)@ == old(w)@ + count_bytes(ms@.len()) + makers_bytes(ms@),
{
    let ghost start = w@;
    put_count(w, ms.len());
    let mut i: usize = 0;
    while i < ms.len()
        invariant
            i <= ms@.len(),
            w@ == start + count_bytes(ms@.len()) + makers_bytes(ms@.take(i as int)),
        decreases ms@.len() - i,
    {
        w.u16(ms[i].0);
        put_prefix(w, &ms[i].1);
        assert(ms@.take(i + 1).drop_last() =~= ms@.take(i as int));
        i = i + 1;
    }
    assert(ms@.take(ms@.len() as int) =~= ms@);
}

/// Append service data filters, counted.
fn put_service_data(w: &mut Writer, sd: &Vec<(String, PrefixParts)>)
    ensures
        final(w)@ == old(w)@ + count_bytes(sd@.len()) + service_data_bytes(sd@),
{
    let ghost start = w@;
    put_count(w, sd.len());
    let mut j: usize = 0;
    while j < sd.len()
        invariant
            j <= sd@.len(),
            w@ == start + count_bytes(sd@.len()) + service_data_bytes(sd@.take(j as int)),
        decreases sd@.len() - j,
    {
        w.str(sd[j].0.as_str());
        put_prefix(w, &sd[j].1);
        assert(sd@.take(j + 1).drop_last() =~= sd@.take(j as int));
        j = j + 1;
    }
    assert(sd@.take(sd@.len() as int) =~= sd@);
}

/// Append one filter.
fn put_filter(w: &mut Writer, f: &FilterParts)
    ensures
        final(w)@ == old(w)@ + filter_bytes(*f),
{
    let ghost start = w@;
    put_texts(w, &f.services);
    put_option_text(w, &f.name);
    put_option_text(w, &f.name_prefix);
    put_makers(w, &f.manufacturer_data);
    put_service_data(w, &f.service_data);
    assert(w@ =~= start + filter_bytes(*f));
}

/// Append filters, counted.
fn put_filters(w: &mut Writer, fs: &Vec<FilterParts>)
    ensures
        final(w)@ == old(w)@ + count_bytes(fs@.len()) + filters_bytes(fs@),
{
    let ghost start = w@;
    put_count(w, fs.len());
    let mut i: usize = 0;
    while i < fs.len()
        invariant
            i <= fs@.len(),
            w@ == start + count_bytes(fs@.len()) + filters_bytes(fs@.take(i as int)),
        decreases fs@.len() - i,
    {
        put_filter(w, &fs[i]);
        assert(fs@.take(i + 1).drop_last() =~= fs@.take(i as int));
        i = i + 1;
    }
    assert(fs@.take(fs@.len() as int) =~= fs@);
}

impl RequestParts {
    /// The request as the page receives it.
    pub fn encode(&self) -> (out: Vec<u8>)
        ensures
            out@ == request_bytes(*self),
    {
        let mut w = Writer::new();
        put_filters(&mut w, &self.filters);
        put_filters(&mut w, &self.exclusion_filters);
        put_texts(&mut w, &self.optional_services);
        let ghost before_ids = w@;
        let ids = &self.optional_manufacturer_data;
        put_count(&mut w, ids.len());
        let mut i: usize = 0;
        while i < ids.len()
            invariant
                i <= ids@.len(),
                w@ == before_ids + count_bytes(ids@.len()) + ids_bytes(ids@.take(i as int)),
            decreases ids@.len() - i,
        {
            w.u16(ids[i]);
            assert(ids@.take(i + 1).drop_last() =~= ids@.take(i as int));
            i = i + 1;
        }
        assert(ids@.take(ids@.len() as int) =~= ids@);
        w.bool(self.accept_all_devices);
        assert(w@ =~= request_bytes(*self));
        w.finish()
    }
}

} // verus!
