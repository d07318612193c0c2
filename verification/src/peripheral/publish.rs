//! Publishing a service: the decisions around BlueZ's `GattManager1`.
//!
//! BlueZ walks an application's object tree once, when it is registered, and
//! has no call to add a service to an application it already walked. So a
//! publish adds the service to the tree and registers again, unregistering
//! first when the application is registered already; and a service BlueZ
//! refused comes out of the tree again, or the next registration would fail
//! the same way. The calls themselves are made by whoever holds the bus.

use vstd::prelude::*;
use crate::dbus::value::str_equal;
use crate::peripheral::objects::{
    characteristic_from, child_path, service_path, CharacteristicDefinition, ServiceState,
};

verus! {

/// Whether the application is registered with BlueZ, and the index the next
/// published service takes.
#[derive(Debug, Clone, Copy, PartialEq, Eq, Structural)]
pub struct Registration {
    pub registered: bool,
    pub next_index: usize,
}

/// A `GattManager1` call on the adapter, with the application's root path.
#[derive(Debug, Clone, Copy, PartialEq, Eq, Structural)]
pub enum ManagerCall {
    UnregisterApplication,
    RegisterApplication,
}

/// Why a service was not published.
#[derive(Debug, Clone, Copy, PartialEq, Eq, Structural)]
pub enum PublishRefused {
    /// The adapter is off: nothing could reach the service.
    PoweredOff,
}

/// `s` is the service `ServiceState::new` makes from these arguments.
pub open spec fn made_from(
    s: ServiceState,
    index: nat,
    uuid: Seq<char>,
    primary: bool,
    defs: Seq<CharacteristicDefinition>,
) -> bool {
    &&& s.uuid@ == uuid
    &&& s.primary == primary
    &&& s.path@ == service_path(index)
    &&& s.characteristics@.len() == defs.len()
    &&& forall|i: int|
        0 <= i < defs.len() ==> #[trigger] characteristic_from(
            s.characteristics@[i],
            defs[i],
            child_path(s.path@, "/char"@, i as nat),
        )
}

/// The index after `i`, wrapping as a counter does.
pub open spec fn next(i: usize) -> usize {
    if i == usize::MAX {
        0
    } else {
        (i + 1) as usize
    }
}

/// Whether a service is not the one at `path`.
pub open spec fn elsewhere(path: Seq<char>) -> spec_fn(ServiceState) -> bool {
    |s: ServiceState| s.path@ != path
}

impl Registration {
    /// Not registered, and no service published yet.
    pub fn new() -> (r: Self)
        ensures
            !r.registered,
            r.next_index == 0,
    {
        Registration { registered: false, next_index: 0 }
    }
}

/// Start publishing a service: refused while the adapter is off; otherwise
/// the service takes the next index and joins the tree, the application is
/// marked registered, and the calls to make are returned: unregistering
/// first when it was registered already, then registering.
pub fn begin_publish(
    reg: &mut Registration,
    services: &mut Vec<ServiceState>,
    powered: bool,
    uuid: String,
    primary: bool,
    characteristics: Vec<CharacteristicDefinition>,
) -> (r: Result<Vec<ManagerCall>, PublishRefused>)
    ensures
        !powered ==> r == Err::<Vec<ManagerCall>, PublishRefused>(PublishRefused::PoweredOff)
            && *final(reg) == *old(reg) && final(services)@ == old(services)@,
        powered ==> {
            &&& r matches Ok(calls) && calls@ == if old(reg).registered {
                seq![ManagerCall::UnregisterApplication, ManagerCall::RegisterApplication]
            } else {
                seq![ManagerCall::RegisterApplication]
            }
            &&& final(reg).registered
            &&& final(reg).next_index == next(old(reg).next_index)
            &&& final(services)@.len() == old(services)@.len() + 1
            &&& final(services)@.take(old(services)@.len() as int) == old(services)@
            &&& made_from(
                final(services)@.last(),
                old(reg).next_index as nat,
                uuid@,
                primary,
                characteristics@,
            )
        },
{
    if !powered {
        return Err(PublishRefused::PoweredOff);
    }
    let index = reg.next_index;
    reg.next_index = if index == usize::MAX {
        0
    } else {
        index + 1
    };
    let ghost defs = characteristics@;
    let ghost before = services@;
    let state = ServiceState::new(index, uuid, primary, characteristics);
    services.push(state);
    assert(services@.take(before.len() as int) =~= before);
    let mut calls: Vec<ManagerCall> = Vec::new();
    if reg.registered {
        calls.push(ManagerCall::UnregisterApplication);
    }
    reg.registered = true;
    calls.push(ManagerCall::RegisterApplication);
    proof {
        if old(reg).registered {
            assert(calls@ =~= seq![
                ManagerCall::UnregisterApplication,
                ManagerCall::RegisterApplication,
            ]);
        } else {
            assert(calls@ =~= seq![ManagerCall::RegisterApplication]);
        }
    }
    Ok(calls)
}

/// BlueZ's answer to the registration: when it refused, the service at
/// `path` comes out of the tree again and the application counts as not
/// registered; when it accepted, nothing changes.
pub fn finish_publish(
    reg: &mut Registration,
    services: &mut Vec<ServiceState>,
    path: &str,
    accepted: bool,
)
    ensures
        accepted ==> *final(reg) == *old(reg) && final(services)@ == old(services)@,
        !accepted ==> final(reg).next_index == old(reg).next_index && !final(reg).registered
            && final(services)@ == old(services)@.filter(elsewhere(path@)),
{
    if accepted {
        return;
    }
    let ghost input = services@;
    let ghost keep = elsewhere(path@);
    let mut rest: Vec<ServiceState> = Vec::new();
    std::mem::swap(&mut rest, services);
    let mut kept: Vec<ServiceState> = Vec::new();
    let n = rest.len();
    let mut k: usize = 0;
    while k < n
        invariant
            n == input.len(),
            k <= n,
            rest@ == input.skip(k as int),
            kept@ == input.take(k as int).filter(keep),
            keep == elsewhere(path@),
        decreases n - k,
    {
        let s = rest.remove(0);
        proof {
            assert(input[k as int] == s);
            assert(rest@ =~= input.skip(k + 1));
            assert(input.take(k + 1) =~= input.take(k as int).push(s));
            input.take(k as int).lemma_filter_push(s, keep);
        }
        if !str_equal(s.path.as_str(), path) {
            kept.push(s);
        }
        k = k + 1;
    }
    assert(input.take(n as int) =~= input);
    *services = kept;
    reg.registered = false;
}

// ── Laws ────────────────────────────────────────────────────────────────────

/// A refused registration undoes the publish: with no other service at the
/// new one's path, taking it out again leaves the tree as it was.
pub proof fn lemma_refusal_undoes_publish(before: Seq<ServiceState>, added: ServiceState)
    requires
        forall|i: int| 0 <= i < before.len() ==> #[trigger] before[i].path@ != added.path@,
    ensures
        before.push(added).filter(elsewhere(added.path@)) == before,
{
    let keep = elsewhere(added.path@);
    before.lemma_filter_push(added, keep);
    lemma_filter_keeps_all(before, added.path@);
}

/// Nothing is taken out when nothing is at the path.
proof fn lemma_filter_keeps_all(s: Seq<ServiceState>, path: Seq<char>)
    requires
        forall|i: int| 0 <= i < s.len() ==> #[trigger] s[i].path@ != path,
    ensures
        s.filter(elsewhere(path)) == s,
    decreases s.len(),
{
    if s.len() > 0 {
        let init = s.drop_last();
        assert forall|i: int| 0 <= i < init.len() implies #[trigger] init[i].path@ != path by {
            assert(init[i] == s[i]);
        }
        lemma_filter_keeps_all(init, path);
        init.lemma_filter_push(s.last(), elsewhere(path));
        assert(s[s.len() - 1].path@ != path);
        assert(init.push(s.last()) =~= s);
    }
}

} // verus!
