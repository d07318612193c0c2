//! BlueZ object paths.
//!
//! BlueZ has no "parent" property: the path *is* the relationship, so a
//! service's device is its path with the last element removed.

use vstd::prelude::*;
use std::sync::Arc;

pub mod discovery;
pub mod flags;
pub mod links;
pub mod sighting;
pub mod signals;
pub mod tree;

verus! {

/// A D-Bus object path, cheap to clone and hash.
pub type Path = Arc<str>;

/// A shared copy of a string.
///
/// Calls `Arc::<str>::from`, which the standard library documents as copying
/// the string into a new shared allocation; the contract says the copy holds
/// the same characters.
#[verifier::external_body]
fn shared_str(s: &str) -> (p: Arc<str>)
    ensures
        (*p)@ == s@,
{
    Arc::from(s)
}

/// A path, as held by the object tree.
pub fn path(s: &str) -> (p: Path)
    ensures
        (*p)@ == s@,
{
    shared_str(s)
}

/// The index of the last `c` in `s`, or -1.
pub open spec fn last_index_of(s: Seq<char>, c: char) -> int
    decreases s.len(),
{
    if s.len() == 0 {
        -1
    } else if s.last() == c {
        s.len() - 1
    } else {
        last_index_of(s.drop_last(), c)
    }
}

proof fn lemma_last_index_bounds(s: Seq<char>, c: char)
    ensures
        -1 <= last_index_of(s, c) < s.len(),
        last_index_of(s, c) >= 0 ==> s[last_index_of(s, c)] == c,
    decreases s.len(),
{
    if s.len() > 0 && s.last() != c {
        lemma_last_index_bounds(s.drop_last(), c);
    }
}

/// Find the last `c`, scanning from the end.
fn find_last(s: &str, c: char) -> (r: Option<usize>)
    ensures
        match r {
            Some(i) => last_index_of(s@, c) == i as int,
            None => last_index_of(s@, c) == -1,
        },
{
    let n = s.unicode_len();
    let mut k: usize = n;
    assert(s@.take(n as int) =~= s@);
    while k > 0
        invariant
            k <= n == s@.len(),
            last_index_of(s@, c) == last_index_of(s@.take(k as int), c),
        decreases k,
    {
        let ch = s.get_char(k - 1);
        if ch == c {
            return Some(k - 1);
        }
        assert(s@.take(k as int).drop_last() =~= s@.take(k - 1));
        k = k - 1;
    }
    None
}

/// The device a service (or anything else) belongs to: its path without the
/// last element. `None` when there is no parent to name.
pub open spec fn parent_path(p: Seq<char>) -> Option<Seq<char>> {
    let i = last_index_of(p, '/');
    if i <= 0 {
        None
    } else {
        Some(p.take(i))
    }
}

/// The object path a child path hangs from.
///
/// A path with no parent is reported as such rather than guessed at, so a
/// malformed signal cannot be attributed to some other device.
pub fn device_of(service_path: &str) -> (r: Option<&str>)
    ensures
        match r {
            Some(d) => parent_path(service_path@) == Some(d@),
            None => parent_path(service_path@) is None,
        },
{
    proof {
        lemma_last_index_bounds(service_path@, '/');
    }
    match find_last(service_path, '/') {
        Some(i) => {
            if i == 0 {
                None
            } else {
                let d = service_path.substring_char(0, i);
                assert(d@ =~= service_path@.take(i as int));
                Some(d)
            }
        },
        None => None,
    }
}

/// The last element of a path, or the whole string when it has no `/`:
/// `hci0` for `/org/bluez/hci0`.
pub open spec fn last_element(p: Seq<char>) -> Seq<char> {
    p.skip(last_index_of(p, '/') + 1)
}

/// The short name `hciconfig` and `bluetoothctl` use for an adapter.
pub fn short_adapter_name(path: &str) -> (name: String)
    ensures
        name@ == last_element(path@),
{
    proof {
        lemma_last_index_bounds(path@, '/');
    }
    let n = path.unicode_len();
    let from = match find_last(path, '/') {
        Some(i) => i + 1,
        None => 0,
    };
    let s = path.substring_char(from, n);
    assert(s@ =~= last_element(path@));
    String::from_str(s)
}

// ── Adapters ────────────────────────────────────────────────────────────────

/// `hci1` and `/org/bluez/hci1` name the same adapter.
pub open spec fn adapter_path_spec(name: Seq<char>) -> Seq<char> {
    if name.len() > 0 && name[0] == '/' {
        name
    } else {
        "/org/bluez/"@ + name
    }
}

/// The object path of an adapter given by its short name or its path.
pub fn adapter_path(name: &str) -> (p: String)
    ensures
        p@ == adapter_path_spec(name@),
{
    if name.unicode_len() > 0 && name.get_char(0) == '/' {
        name.to_string()
    } else {
        let mut p = String::from_str("/org/bluez/");
        crate::text::push_str(&mut p, name);
        p
    }
}

/// Which adapter a session uses once the tree has been read: the one it had,
/// if it is still there, so a session is never moved to another controller;
/// else the one asked for by name, if there is such an adapter; else the
/// first, which sorts to `hci0`.
pub open spec fn chosen_adapter(
    adapters: Seq<Seq<char>>,
    current: Option<Seq<char>>,
    wanted: Option<Seq<char>>,
) -> Option<Seq<char>> {
    if current is Some && adapters.contains(current->0) {
        current
    } else if wanted is Some && adapters.contains(adapter_path_spec(wanted->0)) {
        Some(adapter_path_spec(wanted->0))
    } else if adapters.len() > 0 {
        Some(adapters[0])
    } else {
        None
    }
}

/// Choose the adapter after the tree has been read; `adapters` is every
/// adapter path, sorted.
pub fn choose_adapter(adapters: &Vec<String>, current: Option<String>, wanted: Option<&str>) -> (r:
    Option<String>)
    ensures
        match r {
            Some(a) => chosen_adapter(
                crate::dbus::value::strings_view(adapters@),
                text_opt(current),
                match wanted {
                    Some(w) => Some(w@),
                    None => None,
                },
            ) == Some(a@),
            None => chosen_adapter(
                crate::dbus::value::strings_view(adapters@),
                text_opt(current),
                match wanted {
                    Some(w) => Some(w@),
                    None => None,
                },
            ) is None,
        },
{
    if let Some(c) = current {
        if crate::bluez::signals::contains_str(adapters, c.as_str()) {
            return Some(c);
        }
    }
    if let Some(w) = wanted {
        let p = adapter_path(w);
        if crate::bluez::signals::contains_str(adapters, p.as_str()) {
            return Some(p);
        }
    }
    if adapters.len() > 0 {
        proof {
            assert(crate::dbus::value::strings_view(adapters@)[0] == adapters@[0]@);
        }
        Some(adapters[0].clone())
    } else {
        None
    }
}

/// Optional text as characters.
pub open spec fn text_opt(o: Option<String>) -> Option<Seq<char>> {
    match o {
        Some(s) => Some(s@),
        None => None,
    }
}

/// Whether `p` lies below `parent` in the tree: it starts with `parent/`.
pub open spec fn child_of(p: Seq<char>, parent: Seq<char>) -> bool {
    (parent + seq!['/']).is_prefix_of(p)
}

/// Whether `path` lies below `parent`, which is how the GATT tree is walked
/// since BlueZ encodes the hierarchy in the path.
pub fn is_child(path: &str, parent: &str) -> (r: bool)
    ensures
        r == child_of(path@, parent@),
{
    let n = parent.unicode_len();
    let m = path.unicode_len();
    if m <= n {
        return false;
    }
    if path.get_char(n) != '/' {
        proof {
            assert((parent@ + seq!['/'])[n as int] == '/');
        }
        return false;
    }
    let mut k: usize = 0;
    while k < n
        invariant
            k <= n == parent@.len() < m == path@.len(),
            forall|i: int| 0 <= i < k ==> #[trigger] path@[i] == parent@[i],
        decreases n - k,
    {
        if path.get_char(k) != parent.get_char(k) {
            proof {
                assert((parent@ + seq!['/'])[k as int] == parent@[k as int]);
            }
            return false;
        }
        k = k + 1;
    }
    proof {
        let q = parent@ + seq!['/'];
        assert forall|i: int| 0 <= i < q.len() implies q[i] == path@[i] by {
            if i < n {
                assert(q[i] == parent@[i]);
            }
        }
    }
    true
}

} // verus!
