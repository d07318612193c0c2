//! A characteristic's properties, read from the flag strings BlueZ lists
//! rather than the bit field on the wire.

use vstd::prelude::*;
use crate::dbus::value::str_equal;

verus! {

/// Which properties a characteristic has.
#[derive(Debug, Clone, Copy, PartialEq, Eq, Structural)]
pub struct PropertyFlags {
    pub broadcast: bool,
    pub read: bool,
    pub write_without_response: bool,
    pub write: bool,
    pub notify: bool,
    pub indicate: bool,
    pub authenticated_signed_writes: bool,
    /// The extended properties descriptor is present. BlueZ lists it apart
    /// from what it says: the two are different questions.
    pub extended_properties: bool,
    pub reliable_write: bool,
    pub writable_auxiliaries: bool,
    /// `encrypt-notify` or `encrypt-authenticated-notify`.
    pub notify_encryption_required: bool,
    /// `encrypt-indicate` or `encrypt-authenticated-indicate`.
    pub indicate_encryption_required: bool,
}

/// Some flag names `names` includes.
pub open spec fn listed(names: Seq<Seq<char>>, wanted: Seq<char>) -> bool {
    names.contains(wanted)
}

/// The properties the flag strings name; names BlueZ may add later are
/// ignored.
pub open spec fn flags_named(names: Seq<Seq<char>>) -> PropertyFlags {
    PropertyFlags {
        broadcast: listed(names, "broadcast"@),
        read: listed(names, "read"@),
        write_without_response: listed(names, "write-without-response"@),
        write: listed(names, "write"@),
        notify: listed(names, "notify"@),
        indicate: listed(names, "indicate"@),
        authenticated_signed_writes: listed(names, "authenticated-signed-writes"@),
        extended_properties: listed(names, "extended-properties"@),
        reliable_write: listed(names, "reliable-write"@),
        writable_auxiliaries: listed(names, "writable-auxiliaries"@),
        notify_encryption_required: listed(names, "encrypt-notify"@) || listed(
            names,
            "encrypt-authenticated-notify"@,
        ),
        indicate_encryption_required: listed(names, "encrypt-indicate"@) || listed(
            names,
            "encrypt-authenticated-indicate"@,
        ),
    }
}

/// The properties with one more flag name taken into account.
pub open spec fn with_name(f: PropertyFlags, name: Seq<char>) -> PropertyFlags {
    PropertyFlags {
        broadcast: f.broadcast || name == "broadcast"@,
        read: f.read || name == "read"@,
        write_without_response: f.write_without_response || name == "write-without-response"@,
        write: f.write || name == "write"@,
        notify: f.notify || name == "notify"@,
        indicate: f.indicate || name == "indicate"@,
        authenticated_signed_writes: f.authenticated_signed_writes || name
            == "authenticated-signed-writes"@,
        extended_properties: f.extended_properties || name == "extended-properties"@,
        reliable_write: f.reliable_write || name == "reliable-write"@,
        writable_auxiliaries: f.writable_auxiliaries || name == "writable-auxiliaries"@,
        notify_encryption_required: f.notify_encryption_required || name == "encrypt-notify"@
            || name == "encrypt-authenticated-notify"@,
        indicate_encryption_required: f.indicate_encryption_required || name
            == "encrypt-indicate"@ || name == "encrypt-authenticated-indicate"@,
    }
}

/// Taking the names one at a time gives the properties they name.
proof fn lemma_with_name(names: Seq<Seq<char>>, name: Seq<char>)
    ensures
        with_name(flags_named(names), name) == flags_named(names.push(name)),
{
    let more = names.push(name);
    assert forall|w: Seq<char>| listed(more, w) == (listed(names, w) || w == name) by {
        if listed(more, w) && !listed(names, w) {
            let i = choose|i: int| 0 <= i < more.len() && more[i] == w;
            if i < names.len() {
                assert(names[i] == w);
            }
        }
        if listed(names, w) {
            let i = choose|i: int| 0 <= i < names.len() && names[i] == w;
            assert(more[i] == w);
        }
        if w == name {
            assert(more[names.len() as int] == w);
        }
    }
}

/// One more flag name taken into account.
fn add_name(f: PropertyFlags, n: &str) -> (g: PropertyFlags)
    ensures
        g == with_name(f, n@),
{
    PropertyFlags {
        broadcast: f.broadcast || str_equal(n, "broadcast"),
        read: f.read || str_equal(n, "read"),
        write_without_response: f.write_without_response || str_equal(n, "write-without-response"),
        write: f.write || str_equal(n, "write"),
        notify: f.notify || str_equal(n, "notify"),
        indicate: f.indicate || str_equal(n, "indicate"),
        authenticated_signed_writes: f.authenticated_signed_writes || str_equal(
            n,
            "authenticated-signed-writes",
        ),
        extended_properties: f.extended_properties || str_equal(n, "extended-properties"),
        reliable_write: f.reliable_write || str_equal(n, "reliable-write"),
        writable_auxiliaries: f.writable_auxiliaries || str_equal(n, "writable-auxiliaries"),
        notify_encryption_required: f.notify_encryption_required || str_equal(n, "encrypt-notify")
            || str_equal(n, "encrypt-authenticated-notify"),
        indicate_encryption_required: f.indicate_encryption_required || str_equal(
            n,
            "encrypt-indicate",
        ) || str_equal(n, "encrypt-authenticated-indicate"),
    }
}

impl PropertyFlags {
    /// The properties BlueZ's `Flags` strings name.
    pub fn from_names(names: &Vec<String>) -> (f: PropertyFlags)
        ensures
            f == flags_named(names@.map_values(|s: String| s@)),
    {
        let ghost all = names@.map_values(|s: String| s@);
        let mut f = PropertyFlags {
            broadcast: false,
            read: false,
            write_without_response: false,
            write: false,
            notify: false,
            indicate: false,
            authenticated_signed_writes: false,
            extended_properties: false,
            reliable_write: false,
            writable_auxiliaries: false,
            notify_encryption_required: false,
            indicate_encryption_required: false,
        };
        assert(f == flags_named(all.take(0))) by {
            assert forall|w: Seq<char>| !listed(all.take(0), w) by {}
        }
        let mut i: usize = 0;
        while i < names.len()
            invariant
                i <= names@.len(),
                all == names@.map_values(|s: String| s@),
                f == flags_named(all.take(i as int)),
            decreases names@.len() - i,
        {
            let n = names[i].as_str();
            proof {
                lemma_with_name(all.take(i as int), n@);
                assert(all.take(i + 1) =~= all.take(i as int).push(n@));
            }
            f = add_name(f, n);
            i = i + 1;
        }
        assert(all.take(names@.len() as int) =~= all);
        f
    }
}

} // verus!
