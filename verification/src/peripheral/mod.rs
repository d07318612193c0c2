//! The peripheral role: the centrals connected to us, the object tree we
//! publish through BlueZ, and how it answers BlueZ's calls.

use vstd::prelude::*;

pub mod handler;
pub mod objects;
pub mod publish;

use crate::bluez::last_element;
use crate::dbus::value::{
    lookup_entry, map_of, text_of, unsigned_of, Value,
    ValueView,
};

verus! {

/// A central that is connected to us.
///
/// BlueZ names it by its device object path, whose last element carries the
/// address.
#[derive(Debug, Clone)]
pub struct RemoteCentral {
    id: String,
    mtu: usize,
}

/// `_` becomes `:`, as in an address taken from a device path.
pub open spec fn colons(s: Seq<char>) -> Seq<char> {
    s.map_values(|c: char| if c == '_' { ':' } else { c })
}

/// How a central is named: the address in its device path, from
/// `…/dev_AA_BB_CC_DD_EE_FF`; the whole path when its last element is not a
/// device; `unknown` when BlueZ gave no device.
pub open spec fn central_id(device: Option<Seq<char>>) -> Seq<char> {
    match device {
        None => seq!['u', 'n', 'k', 'n', 'o', 'w', 'n'],
        Some(d) => {
            let last = last_element(d);
            if last.len() >= 4 && last.take(4) == seq!['d', 'e', 'v', '_'] {
                colons(last.skip(4))
            } else {
                d
            }
        },
    }
}

/// How many bytes one notification can carry: the ATT MTU less the three
/// bytes of header, or the fallback when no MTU was given.
pub open spec fn notification_room(mtu: Option<u64>, fallback: usize) -> usize {
    match mtu {
        Some(v) => if (v as usize) < 3 {
            0
        } else {
            ((v as usize) - 3) as usize
        },
        None => fallback,
    }
}

/// The value under `key` in a request's options dictionary.
pub open spec fn option_in(options: Option<ValueView>, key: Seq<char>) -> Option<ValueView> {
    match options {
        Some(o) => if map_of(o).contains_key(key) {
            Some(map_of(o)[key])
        } else {
            None
        },
        None => None,
    }
}

/// What a notification can carry before the MTU has been negotiated.
pub const DEFAULT_NOTIFY_LEN: usize = 20;

/// An options dictionary taken by its view.
pub open spec fn options_view(options: Option<&Value>) -> Option<ValueView> {
    match options {
        Some(v) => Some(v@),
        None => None,
    }
}

/// One unsigned number out of a BlueZ options dictionary.
pub fn option_u64(options: Option<&Value>, key: &str) -> (n: Option<u64>)
    ensures
        n == match option_in(options_view(options), key@) {
            Some(v) => unsigned_of(v),
            None => None,
        },
{
    match options {
        Some(o) => {
            let m = o.as_map();
            match lookup_entry(&m, key) {
                Some(v) => v.as_u64(),
                None => None,
            }
        },
        None => None,
    }
}

impl RemoteCentral {
    /// A central from the options BlueZ passes with a request: the `device`
    /// entry, if it is text, names it; the `mtu` entry, if it is an unsigned
    /// number, sizes its notifications.
    pub fn from_options(options: Option<&Value>, fallback_mtu: usize) -> (c: Self)
        ensures
            ({
                let o = match options {
                    Some(v) => Some(v@),
                    None => None,
                };
                &&& c.id_view() == central_id(
                    match option_in(o, "device"@) {
                        Some(v) => text_of(v),
                        None => None,
                    },
                )
                &&& c.max_notification_length_view() == notification_room(
                    match option_in(o, "mtu"@) {
                        Some(v) => unsigned_of(v),
                        None => None,
                    },
                    fallback_mtu,
                )
            }),
    {
        match options {
            Some(o) => {
                let m = o.as_map();
                let device = match lookup_entry(&m, "device") {
                    Some(v) => v.as_str(),
                    None => None,
                };
                let mtu = match lookup_entry(&m, "mtu") {
                    Some(v) => v.as_u64(),
                    None => None,
                };
                Self::from_parts(device, mtu, fallback_mtu)
            },
            None => Self::from_parts(None, None, fallback_mtu),
        }
    }

    /// A central from what BlueZ passed with a request: the `device` option,
    /// if it was a string, and the `mtu` option, if it was a number.
    pub fn from_parts(device: Option<&str>, mtu: Option<u64>, fallback_mtu: usize) -> (c: Self)
        ensures
            c.id_view() == central_id(
                match device {
                    Some(d) => Some(d@),
                    None => None,
                },
            ),
            c.max_notification_length_view() == notification_room(mtu, fallback_mtu),
    {
        let id = match device {
            None => {
                let s = String::from_str("unknown");
                proof {
                    reveal_strlit("unknown");
                }
                assert(s@ =~= seq!['u', 'n', 'k', 'n', 'o', 'w', 'n']);
                s
            },
            Some(d) => address_of_device(d),
        };
        let room = match mtu {
            Some(v) => {
                #[verifier::truncate]
                let m = v as usize;
                if m < 3 {
                    0
                } else {
                    m - 3
                }
            },
            None => fallback_mtu,
        };
        RemoteCentral { id, mtu: room }
    }

    /// The central a subscription is recorded against when BlueZ does not say
    /// which one it is.
    fn unnamed_subscriber() -> (c: Self)
        ensures
            c.id_view() == "subscribed"@,
            c.max_notification_length_view() == 20,
    {
        RemoteCentral { id: String::from_str("subscribed"), mtu: 20 }
    }

    pub closed spec fn id_view(&self) -> Seq<char> {
        self.id@
    }

    pub closed spec fn max_notification_length_view(&self) -> usize {
        self.mtu
    }

    pub fn id(&self) -> (s: &str)
        ensures
            s@ == self.id_view(),
    {
        self.id.as_str()
    }

    /// The most bytes one notification to this central can carry.
    pub fn max_notification_length(&self) -> (n: usize)
        ensures
            n == self.max_notification_length_view(),
    {
        self.mtu
    }
}

/// The address in a device path, or the path itself.
fn address_of_device(d: &str) -> (id: String)
    ensures
        id@ == central_id(Some(d@)),
{
    let n = d.unicode_len();
    let mut k: usize = n;
    // Find where the last element starts.
    while k > 0 && d.get_char(k - 1) != '/'
        invariant
            k <= n == d@.len(),
            forall|j: int| k <= j < n ==> d@[j] != '/',
        decreases k,
    {
        k = k - 1;
    }
    proof {
        lemma_last_element_starts_after_slash(d@, k as int);
    }
    if n - k >= 4 && d.get_char(k) == 'd' && d.get_char(k + 1) == 'e' && d.get_char(k + 2) == 'v'
        && d.get_char(k + 3) == '_' {
        let mut out = String::new();
        let mut j: usize = k + 4;
        while j < n
            invariant
                k + 4 <= j <= n == d@.len(),
                out@ == colons(d@.subrange(k + 4, j as int)),
            decreases n - j,
        {
            let c = d.get_char(j);
            crate::text::push_char(&mut out, if c == '_' { ':' } else { c });
            assert(d@.subrange(k + 4, j + 1) =~= d@.subrange(k + 4, j as int).push(c));
            assert(colons(d@.subrange(k + 4, j + 1)) =~= colons(d@.subrange(k + 4, j as int)).push(
                if c == '_' { ':' } else { c },
            ));
            j = j + 1;
        }
        let ghost last = last_element(d@);
        assert(last.take(4) =~= seq!['d', 'e', 'v', '_']);
        assert(last.skip(4) =~= d@.subrange(k + 4, n as int));
        out
    } else {
        proof {
            let last = last_element(d@);
            if last.len() >= 4 && last.take(4) == seq!['d', 'e', 'v', '_'] {
                assert(last.take(4)[0] == d@[k as int]);
                assert(last.take(4)[1] == d@[k + 1]);
                assert(last.take(4)[2] == d@[k + 2]);
                assert(last.take(4)[3] == d@[k + 3]);
            }
        }
        String::from_str(d)
    }
}

/// The last element starts just after the last `/`, found by scanning back.
proof fn lemma_last_element_starts_after_slash(s: Seq<char>, k: int)
    requires
        0 <= k <= s.len(),
        k > 0 ==> s[k - 1] == '/',
        forall|j: int| k <= j < s.len() ==> s[j] != '/',
    ensures
        crate::bluez::last_index_of(s, '/') == k - 1,
        last_element(s) == s.skip(k),
    decreases s.len(),
{
    if s.len() > 0 && s.last() != '/' {
        lemma_last_element_starts_after_slash(s.drop_last(), k);
    }
}

} // verus!
