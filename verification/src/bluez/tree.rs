//! The mirrored object tree: every object BlueZ publishes, by path, with its
//! interfaces and their properties, kept in step with BlueZ's signals.

use vstd::prelude::*;
use crate::bluez::{child_of, is_child, last_element, short_adapter_name};
use crate::bluez::signals::{
    nested_map, signal_events, signal_events_spec, tree_change, tree_change_spec, Event,
    TreeChange, TreeChangeView, events_view,
};
use crate::dbus::message::Message;
use crate::dbus::value::{
    distinct_keys, entries_map, entries_view, lemma_entries_empty, lemma_entries_lookup,
    lemma_entries_remove, lemma_entries_update, map_of, peeled, str_equal, strings_view, text_of,
    Value, ValueView,
};

verus! {

/// Properties by name.
pub type Props = Vec<(String, Value)>;

/// Interfaces by name, each with its properties.
pub type Interfaces = Vec<(String, Props)>;

/// Properties as a map.
pub open spec fn props_map(ps: Seq<(String, Value)>) -> Map<Seq<char>, ValueView> {
    entries_map(entries_view(ps))
}

pub open spec fn interfaces_entries(is: Seq<(String, Props)>) -> Seq<
    (Seq<char>, Map<Seq<char>, ValueView>),
> {
    is.map_values(|e: (String, Props)| (e.0@, props_map(e.1@)))
}

/// Interfaces as a map.
pub open spec fn interfaces_map(is: Seq<(String, Props)>) -> Map<
    Seq<char>,
    Map<Seq<char>, ValueView>,
> {
    entries_map(interfaces_entries(is))
}

pub open spec fn objects_entries(os: Seq<(String, Interfaces)>) -> Seq<
    (Seq<char>, Map<Seq<char>, Map<Seq<char>, ValueView>>),
> {
    os.map_values(|e: (String, Interfaces)| (e.0@, interfaces_map(e.1@)))
}

/// Interfaces held once each, with their properties held once each.
pub open spec fn interfaces_wf(is: Seq<(String, Props)>) -> bool {
    &&& distinct_keys(interfaces_entries(is))
    &&& forall|j: int| 0 <= j < is.len() ==> distinct_keys(#[trigger] entries_view(is[j].1@))
}

/// The object tree.
pub struct Tree {
    objects: Vec<(String, Interfaces)>,
}

/// A tree as values: objects by path, their interfaces by name, and the
/// properties of each by name.
pub type TreeView = Map<Seq<char>, Map<Seq<char>, Map<Seq<char>, ValueView>>>;

impl View for Tree {
    type V = TreeView;

    closed spec fn view(&self) -> TreeView {
        entries_map(objects_entries(self.objects@))
    }
}

/// Objects held once each, each well formed.
pub open spec fn objects_wf(os: Seq<(String, Interfaces)>) -> bool {
    &&& distinct_keys(objects_entries(os))
    &&& forall|i: int| 0 <= i < os.len() ==> interfaces_wf(#[trigger] os[i].1@)
}

impl Tree {
    #[verifier::type_invariant]
    closed spec fn wf(self) -> bool {
        objects_wf(self.objects@)
    }

    /// An empty tree.
    pub fn new() -> (t: Self)
        ensures
            t@ == TreeView::empty(),
    {
        let t = Tree { objects: Vec::new() };
        assert(objects_entries(t.objects@) =~= Seq::empty());
        assert(t@ =~= TreeView::empty());
        t
    }
}

// ── Pairs by key ────────────────────────────────────────────────────────────

/// Where `key` is among the pairs, if it is.
fn find<T>(es: &Vec<(String, T)>, key: &str) -> (r: Option<usize>)
    ensures
        match r {
            Some(j) => j < es@.len() && es@[j as int].0@ == key@,
            None => forall|i: int| 0 <= i < es@.len() ==> #[trigger] es@[i].0@ != key@,
        },
{
    let mut j: usize = 0;
    while j < es.len()
        invariant
            j <= es@.len(),
            forall|i: int| 0 <= i < j ==> #[trigger] es@[i].0@ != key@,
        decreases es@.len() - j,
    {
        if str_equal(es[j].0.as_str(), key) {
            return Some(j);
        }
        j = j + 1;
    }
    None
}

/// Set one property, replacing any value it had.
pub(crate) fn put_prop(ps: &mut Props, key: String, v: Value)
    requires
        distinct_keys(entries_view(old(ps)@)),
    ensures
        distinct_keys(entries_view(final(ps)@)),
        props_map(final(ps)@) == props_map(old(ps)@).insert(key@, v@),
{
    let ghost before = entries_view(ps@);
    let ghost k = key@;
    let ghost x = v@;
    match find(ps, key.as_str()) {
        Some(j) => {
            proof {
                assert(before[j as int].0 == k);
                lemma_entries_update(before, j as int, x);
            }
            ps.set(j, (key, v));
            assert(entries_view(ps@) =~= before.update(j as int, (k, x)));
        },
        None => {
            ps.push((key, v));
            assert(entries_view(ps@) =~= before.push((k, x)));
            assert(before.push((k, x)).drop_last() =~= before);
            assert forall|a: int, b: int|
                0 <= a < b < entries_view(ps@).len() implies entries_view(ps@)[a].0
                != entries_view(ps@)[b].0 by {
                assert(entries_view(ps@)[a] == before.push((k, x))[a]);
                assert(entries_view(ps@)[b] == before.push((k, x))[b]);
                if b == before.len() {
                    assert(before[a].0 == ps@[a].0@);
                }
            }
        },
    }
}

/// Forget one property.
fn remove_prop(ps: &mut Props, key: &str)
    requires
        distinct_keys(entries_view(old(ps)@)),
    ensures
        distinct_keys(entries_view(final(ps)@)),
        props_map(final(ps)@) == props_map(old(ps)@).remove(key@),
{
    let ghost before = entries_view(ps@);
    match find(ps, key) {
        Some(j) => {
            proof {
                lemma_entries_remove(before, j as int);
            }
            ps.remove(j);
            assert(entries_view(ps@) =~= before.remove(j as int));
        },
        None => {
            proof {
                lemma_entries_lookup(before, key@, 0);
                if props_map(ps@).contains_key(key@) {
                    let i = choose|i: int| 0 <= i < before.len() && before[i].0 == key@;
                    assert(before[i].0 == ps@[i].0@);
                }
            }
            assert(props_map(ps@) =~= props_map(ps@).remove(key@));
        },
    }
}

/// Properties held once each, the later of two with one name winning.
fn normalized(ps: &Props) -> (r: Props)
    ensures
        distinct_keys(entries_view(r@)),
        props_map(r@) == props_map(ps@),
{
    let mut r: Props = Vec::new();
    let mut k: usize = 0;
    assert(entries_view(r@) =~= Seq::empty());
    assert(entries_view(ps@).take(0) =~= Seq::empty());
    while k < ps.len()
        invariant
            k <= ps@.len(),
            distinct_keys(entries_view(r@)),
            props_map(r@) == entries_map(entries_view(ps@).take(k as int)),
        decreases ps@.len() - k,
    {
        put_prop(&mut r, ps[k].0.clone(), ps[k].1.clone());
        assert(entries_view(ps@).take(k + 1).drop_last() =~= entries_view(ps@).take(k as int));
        k = k + 1;
    }
    assert(entries_view(ps@).take(ps@.len() as int) =~= entries_view(ps@));
    r
}

/// Take out the properties of one interface, which leaves the interfaces.
fn take_interface(is: &mut Interfaces, name: &str) -> (ps: Props)
    requires
        interfaces_wf(old(is)@),
    ensures
        interfaces_wf(final(is)@),
        interfaces_map(final(is)@) == interfaces_map(old(is)@).remove(name@),
        forall|i: int| 0 <= i < final(is)@.len() ==> #[trigger] final(is)@[i].0@ != name@,
        distinct_keys(entries_view(ps@)),
        props_map(ps@) == if interfaces_map(old(is)@).contains_key(name@) {
            interfaces_map(old(is)@)[name@]
        } else {
            Map::empty()
        },
{
    let ghost before = interfaces_entries(is@);
    let ghost old_is = is@;
    match find(is, name) {
        Some(j) => {
            proof {
                assert(before[j as int].0 == name@);
                lemma_entries_remove(before, j as int);
                lemma_entries_lookup(before, name@, j as int);
            }
            let (_, ps) = is.remove(j);
            assert(interfaces_entries(is@) =~= before.remove(j as int));
            assert forall|i: int| 0 <= i < is@.len() implies #[trigger] is@[i].0@ != name@ by {
                let o = if i < j {
                    i
                } else {
                    i + 1
                };
                assert(is@[i] == old_is[o]);
                assert(before[o].0 == old_is[o].0@);
                assert(before[j as int].0 == old_is[j as int].0@);
            }
            assert forall|i: int| 0 <= i < is@.len() implies distinct_keys(
                #[trigger] entries_view(is@[i].1@),
            ) by {
                let o = if i < j {
                    i
                } else {
                    i + 1
                };
                assert(is@[i] == old_is[o]);
            }
            assert(distinct_keys(entries_view(old_is[j as int].1@)));
            ps
        },
        None => {
            proof {
                lemma_entries_lookup(before, name@, 0);
                if interfaces_map(is@).contains_key(name@) {
                    let i = choose|i: int| 0 <= i < before.len() && before[i].0 == name@;
                    assert(before[i].0 == is@[i].0@);
                }
            }
            assert(interfaces_map(is@) =~= interfaces_map(is@).remove(name@));
            let ps: Props = Vec::new();
            assert(entries_view(ps@) =~= Seq::empty());
            assert(props_map(ps@) =~= Map::empty());
            ps
        },
    }
}

/// Put back the properties of an interface that is not there.
fn put_interface(is: &mut Interfaces, name: String, ps: Props)
    requires
        interfaces_wf(old(is)@),
        forall|i: int| 0 <= i < old(is)@.len() ==> #[trigger] old(is)@[i].0@ != name@,
        distinct_keys(entries_view(ps@)),
    ensures
        interfaces_wf(final(is)@),
        interfaces_map(final(is)@) == interfaces_map(old(is)@).insert(name@, props_map(ps@)),
{
    let ghost before = interfaces_entries(is@);
    let ghost old_is = is@;
    let ghost entry = (name@, props_map(ps@));
    is.push((name, ps));
    assert(interfaces_entries(is@) =~= before.push(entry));
    assert(before.push(entry).drop_last() =~= before);
    assert forall|a: int, b: int|
        0 <= a < b < interfaces_entries(is@).len() implies interfaces_entries(is@)[a].0
        != interfaces_entries(is@)[b].0 by {
        assert(interfaces_entries(is@)[a] == before.push(entry)[a]);
        assert(interfaces_entries(is@)[b] == before.push(entry)[b]);
        assert(before[a].0 == old_is[a].0@);
    }
    assert forall|i: int| 0 <= i < is@.len() implies distinct_keys(
        #[trigger] entries_view(is@[i].1@),
    ) by {
        if i < old_is.len() {
            assert(is@[i] == old_is[i]);
        }
    }
}

/// Take out the interfaces of one object, which leaves the others.
fn take_object(os: &mut Vec<(String, Interfaces)>, path: &str) -> (is: Interfaces)
    requires
        objects_wf(old(os)@),
    ensures
        objects_wf(final(os)@),
        entries_map(objects_entries(final(os)@)) == entries_map(objects_entries(old(os)@)).remove(
            path@,
        ),
        forall|i: int| 0 <= i < final(os)@.len() ==> #[trigger] final(os)@[i].0@ != path@,
        interfaces_wf(is@),
        interfaces_map(is@) == object_of(entries_map(objects_entries(old(os)@)), path@),
{
    let ghost before = objects_entries(os@);
    let ghost old_os = os@;
    match find(os, path) {
        Some(j) => {
            proof {
                assert(before[j as int].0 == path@);
                lemma_entries_remove(before, j as int);
                lemma_entries_lookup(before, path@, j as int);
            }
            let (_, is) = os.remove(j);
            assert(objects_entries(os@) =~= before.remove(j as int));
            assert forall|i: int| 0 <= i < os@.len() implies #[trigger] os@[i].0@ != path@ by {
                let o = if i < j {
                    i
                } else {
                    i + 1
                };
                assert(os@[i] == old_os[o]);
                assert(before[o].0 == old_os[o].0@);
            }
            assert forall|i: int| 0 <= i < os@.len() implies interfaces_wf(#[trigger] os@[i].1@) by {
                let o = if i < j {
                    i
                } else {
                    i + 1
                };
                assert(os@[i] == old_os[o]);
            }
            assert(interfaces_wf(old_os[j as int].1@));
            is
        },
        None => {
            proof {
                lemma_entries_lookup(before, path@, 0);
                if entries_map(before).contains_key(path@) {
                    let i = choose|i: int| 0 <= i < before.len() && before[i].0 == path@;
                    assert(before[i].0 == os@[i].0@);
                }
            }
            assert(entries_map(before) =~= entries_map(before).remove(path@));
            let is: Interfaces = Vec::new();
            assert(interfaces_entries(is@) =~= Seq::empty());
            assert(interfaces_map(is@) =~= Map::empty());
            is
        },
    }
}

/// Put back the interfaces of an object that is not there.
fn put_object(os: &mut Vec<(String, Interfaces)>, path: String, is: Interfaces)
    requires
        objects_wf(old(os)@),
        forall|i: int| 0 <= i < old(os)@.len() ==> #[trigger] old(os)@[i].0@ != path@,
        interfaces_wf(is@),
    ensures
        objects_wf(final(os)@),
        entries_map(objects_entries(final(os)@)) == entries_map(objects_entries(old(os)@)).insert(
            path@,
            interfaces_map(is@),
        ),
{
    let ghost before = objects_entries(os@);
    let ghost old_os = os@;
    let ghost entry = (path@, interfaces_map(is@));
    os.push((path, is));
    assert(objects_entries(os@) =~= before.push(entry));
    assert(before.push(entry).drop_last() =~= before);
    assert forall|a: int, b: int|
        0 <= a < b < objects_entries(os@).len() implies objects_entries(os@)[a].0
        != objects_entries(os@)[b].0 by {
        assert(objects_entries(os@)[a] == before.push(entry)[a]);
        assert(objects_entries(os@)[b] == before.push(entry)[b]);
        assert(before[a].0 == old_os[a].0@);
    }
    assert forall|i: int| 0 <= i < os@.len() implies interfaces_wf(#[trigger] os@[i].1@) by {
        if i < old_os.len() {
            assert(os@[i] == old_os[i]);
        }
    }
}

// ── Applying a change ───────────────────────────────────────────────────────

/// A map without the given keys.
pub open spec fn without<V>(m: Map<Seq<char>, V>, keys: Seq<Seq<char>>) -> Map<Seq<char>, V>
    decreases keys.len(),
{
    if keys.len() == 0 {
        m
    } else {
        without(m, keys.drop_last()).remove(keys.last())
    }
}

/// An object's interfaces, or none when it is not in the tree.
pub open spec fn object_of(t: TreeView, path: Seq<char>) -> Map<
    Seq<char>,
    Map<Seq<char>, ValueView>,
> {
    if t.contains_key(path) {
        t[path]
    } else {
        Map::empty()
    }
}

/// What a change does to the tree, and whether it left an object with no
/// interfaces, which then leaves the tree: added interfaces replace any of
/// the same name; removed ones go; changed properties are set, then the
/// invalidated ones forgotten.
pub open spec fn apply_spec(t: TreeView, c: TreeChangeView) -> (TreeView, bool) {
    match c {
        TreeChangeView::Added { path, interfaces } => (
            t.insert(path, object_of(t, path).union_prefer_right(interfaces)),
            false,
        ),
        TreeChangeView::Removed { path, names } => if !t.contains_key(path) {
            (t, false)
        } else {
            let left = without(t[path], names);
            if left == Map::<Seq<char>, Map<Seq<char>, ValueView>>::empty() {
                (t.remove(path), true)
            } else {
                (t.insert(path, left), false)
            }
        },
        TreeChangeView::Changed { path, interface, changed, invalidated } => {
            let obj = object_of(t, path);
            let props = if obj.contains_key(interface) {
                obj[interface]
            } else {
                Map::empty()
            };
            (
                t.insert(
                    path,
                    obj.insert(interface, without(props.union_prefer_right(changed), invalidated)),
                ),
                false,
            )
        },
        TreeChangeView::Unchanged => (t, false),
    }
}

fn apply_added(os: &mut Vec<(String, Interfaces)>, path: String, interfaces: Interfaces)
    requires
        objects_wf(old(os)@),
    ensures
        objects_wf(final(os)@),
        entries_map(objects_entries(final(os)@)) == apply_spec(
            entries_map(objects_entries(old(os)@)),
            TreeChangeView::Added { path: path@, interfaces: nested_map(interfaces@) },
        ).0,
{
    let ghost t = entries_map(objects_entries(os@));
    let mut obj = take_object(os, path.as_str());
    let ghost start = interfaces_map(obj@);
    let mut k: usize = 0;
    assert(interfaces@.take(0) =~= Seq::empty());
    assert(start.union_prefer_right(nested_map(interfaces@.take(0))) =~= start);
    while k < interfaces.len()
        invariant
            k <= interfaces@.len(),
            objects_wf(os@),
            forall|i: int| 0 <= i < os@.len() ==> #[trigger] os@[i].0@ != path@,
            entries_map(objects_entries(os@)) == t.remove(path@),
            interfaces_wf(obj@),
            interfaces_map(obj@) == start.union_prefer_right(nested_map(interfaces@.take(k as int))),
        decreases interfaces@.len() - k,
    {
        let norm = normalized(&interfaces[k].1);
        let ghost m0 = interfaces_map(obj@);
        let _ = take_interface(&mut obj, interfaces[k].0.as_str());
        put_interface(&mut obj, interfaces[k].0.clone(), norm);
        proof {
            let name = interfaces@[k as int].0@;
            let pm = props_map(interfaces@[k as int].1@);
            assert(interfaces_map(obj@) =~= m0.insert(name, pm));
            let tk = interfaces@.take(k + 1);
            assert(tk.drop_last() =~= interfaces@.take(k as int));
            assert(tk.last() == interfaces@[k as int]);
            assert(nested_map(tk) == nested_map(interfaces@.take(k as int)).insert(name, pm));
            assert(interfaces_map(obj@) =~= start.union_prefer_right(nested_map(tk)));
        }
        k = k + 1;
    }
    assert(interfaces@.take(interfaces@.len() as int) =~= interfaces@);
    put_object(os, path, obj);
    assert(entries_map(objects_entries(os@)) =~= apply_spec(
        t,
        TreeChangeView::Added { path: path@, interfaces: nested_map(interfaces@) },
    ).0);
}

fn apply_removed(os: &mut Vec<(String, Interfaces)>, path: String, names: Vec<String>) -> (now_empty:
    bool)
    requires
        objects_wf(old(os)@),
    ensures
        objects_wf(final(os)@),
        (entries_map(objects_entries(final(os)@)), now_empty) == apply_spec(
            entries_map(objects_entries(old(os)@)),
            TreeChangeView::Removed { path: path@, names: strings_view(names@) },
        ),
{
    let ghost t = entries_map(objects_entries(os@));
    let ghost ns = strings_view(names@);
    match find(os, path.as_str()) {
        None => {
            proof {
                lemma_entries_lookup(objects_entries(os@), path@, 0);
                if t.contains_key(path@) {
                    let i = choose|i: int|
                        0 <= i < objects_entries(os@).len() && objects_entries(os@)[i].0 == path@;
                    assert(objects_entries(os@)[i].0 == os@[i].0@);
                }
            }
            return false;
        },
        Some(j) => {
            proof {
                lemma_entries_lookup(objects_entries(os@), path@, j as int);
                assert(objects_entries(os@)[j as int].0 == path@);
            }
        },
    }
    let mut obj = take_object(os, path.as_str());
    let ghost start = interfaces_map(obj@);
    let mut k: usize = 0;
    assert(ns.take(0) =~= Seq::<Seq<char>>::empty());
    while k < names.len()
        invariant
            k <= names@.len(),
            ns == strings_view(names@),
            objects_wf(os@),
            forall|i: int| 0 <= i < os@.len() ==> #[trigger] os@[i].0@ != path@,
            entries_map(objects_entries(os@)) == t.remove(path@),
            interfaces_wf(obj@),
            interfaces_map(obj@) == without(start, ns.take(k as int)),
        decreases names@.len() - k,
    {
        let _ = take_interface(&mut obj, names[k].as_str());
        proof {
            let tk = ns.take(k + 1);
            assert(tk.drop_last() =~= ns.take(k as int));
            assert(tk.last() == names@[k as int]@);
        }
        k = k + 1;
    }
    assert(ns.take(ns.len() as int) =~= ns);
    proof {
        lemma_entries_empty(interfaces_entries(obj@));
    }
    if obj.len() == 0 {
        true
    } else {
        let ghost left = interfaces_map(obj@);
        put_object(os, path, obj);
        assert(entries_map(objects_entries(os@)) =~= t.insert(path@, left));
        false
    }
}

fn apply_changed(
    os: &mut Vec<(String, Interfaces)>,
    path: String,
    interface: String,
    changed: Props,
    invalidated: Vec<String>,
)
    requires
        objects_wf(old(os)@),
    ensures
        objects_wf(final(os)@),
        entries_map(objects_entries(final(os)@)) == apply_spec(
            entries_map(objects_entries(old(os)@)),
            TreeChangeView::Changed {
                path: path@,
                interface: interface@,
                changed: entries_map(entries_view(changed@)),
                invalidated: strings_view(invalidated@),
            },
        ).0,
{
    let ghost t = entries_map(objects_entries(os@));
    let mut obj = take_object(os, path.as_str());
    let ghost o = interfaces_map(obj@);
    let mut props = take_interface(&mut obj, interface.as_str());
    let ghost p0 = props_map(props@);
    let ghost cv = entries_view(changed@);
    let mut k: usize = 0;
    assert(cv.take(0) =~= Seq::<(Seq<char>, ValueView)>::empty());
    assert(p0.union_prefer_right(entries_map(cv.take(0))) =~= p0);
    while k < changed.len()
        invariant
            k <= changed@.len(),
            cv == entries_view(changed@),
            distinct_keys(entries_view(props@)),
            props_map(props@) == p0.union_prefer_right(entries_map(cv.take(k as int))),
        decreases changed@.len() - k,
    {
        let ghost m0 = props_map(props@);
        put_prop(&mut props, changed[k].0.clone(), changed[k].1.clone());
        proof {
            let tk = cv.take(k + 1);
            assert(tk.drop_last() =~= cv.take(k as int));
            assert(tk.last() == cv[k as int]);
            assert(props_map(props@) =~= p0.union_prefer_right(entries_map(tk)));
        }
        k = k + 1;
    }
    assert(cv.take(cv.len() as int) =~= cv);
    let ghost base = props_map(props@);
    let ghost iv = strings_view(invalidated@);
    let mut j: usize = 0;
    assert(iv.take(0) =~= Seq::<Seq<char>>::empty());
    while j < invalidated.len()
        invariant
            j <= invalidated@.len(),
            iv == strings_view(invalidated@),
            distinct_keys(entries_view(props@)),
            props_map(props@) == without(base, iv.take(j as int)),
        decreases invalidated@.len() - j,
    {
        remove_prop(&mut props, invalidated[j].as_str());
        proof {
            let tj = iv.take(j + 1);
            assert(tj.drop_last() =~= iv.take(j as int));
            assert(tj.last() == invalidated@[j as int]@);
        }
        j = j + 1;
    }
    assert(iv.take(iv.len() as int) =~= iv);
    let ghost x = props_map(props@);
    put_interface(&mut obj, interface, props);
    assert(interfaces_map(obj@) =~= o.insert(interface@, x));
    let ghost y = interfaces_map(obj@);
    put_object(os, path, obj);
    assert(entries_map(objects_entries(os@)) =~= t.insert(path@, y));
    assert(entries_map(objects_entries(os@)) =~= apply_spec(
        t,
        TreeChangeView::Changed {
            path: path@,
            interface: interface@,
            changed: entries_map(cv),
            invalidated: iv,
        },
    ).0);
}

impl Tree {
    /// Make the change a signal asks for; says whether it left an object with
    /// no interfaces, which is then dropped.
    pub fn apply(&mut self, change: TreeChange) -> (now_empty: bool)
        ensures
            (final(self)@, now_empty) == apply_spec(old(self)@, change@),
    {
        proof {
            use_type_invariant(&*self);
        }
        let mut os: Vec<(String, Interfaces)> = Vec::new();
        std::mem::swap(&mut os, &mut self.objects);
        let now_empty = match change {
            TreeChange::Added { path, interfaces } => {
                apply_added(&mut os, path, interfaces);
                false
            },
            TreeChange::Removed { path, names } => apply_removed(&mut os, path, names),
            TreeChange::Changed { path, interface, changed, invalidated } => {
                apply_changed(&mut os, path, interface, changed, invalidated);
                false
            },
            TreeChange::Unchanged => false,
        };
        self.objects = os;
        now_empty
    }

    /// Apply a signal to the tree, and say what it means: the events for
    /// whoever listens, in order.
    pub fn on_signal(&mut self, message: &Message) -> (events: Vec<Event>)
        ensures
            final(self)@ == apply_spec(old(self)@, tree_change_spec(message@)).0,
            events_view(events@) == signal_events_spec(message@),
    {
        self.apply(tree_change(message));
        signal_events(message)
    }
}

// ── Reading the tree ────────────────────────────────────────────────────────

/// The object at an index is what the tree holds under its path.
proof fn lemma_object_at(os: Seq<(String, Interfaces)>, i: int)
    requires
        objects_wf(os),
        0 <= i < os.len(),
    ensures
        entries_map(objects_entries(os)).contains_key(os[i].0@),
        entries_map(objects_entries(os))[os[i].0@] == interfaces_map(os[i].1@),
{
    lemma_entries_lookup(objects_entries(os), os[i].0@, i);
    assert(objects_entries(os)[i].0 == os[i].0@);
}

/// A path in the tree is at some index.
proof fn lemma_path_at(os: Seq<(String, Interfaces)>, p: Seq<char>) -> (i: int)
    requires
        objects_wf(os),
        entries_map(objects_entries(os)).contains_key(p),
    ensures
        0 <= i < os.len(),
        os[i].0@ == p,
{
    lemma_entries_lookup(objects_entries(os), p, 0);
    let i = choose|i: int| 0 <= i < objects_entries(os).len() && objects_entries(os)[i].0 == p;
    assert(objects_entries(os)[i].0 == os[i].0@);
    i
}

/// Whether the interfaces include `name`.
fn has_interface(is: &Interfaces, name: &str) -> (r: bool)
    requires
        interfaces_wf(is@),
    ensures
        r == interfaces_map(is@).contains_key(name@),
{
    proof {
        lemma_entries_lookup(interfaces_entries(is@), name@, 0);
    }
    match find(is, name) {
        Some(j) => {
            proof {
                assert(interfaces_entries(is@)[j as int].0 == name@);
            }
            true
        },
        None => {
            proof {
                if interfaces_map(is@).contains_key(name@) {
                    let i = choose|i: int|
                        0 <= i < interfaces_entries(is@).len() && interfaces_entries(is@)[i].0
                            == name@;
                    assert(interfaces_entries(is@)[i].0 == is@[i].0@);
                }
            }
            false
        },
    }
}

/// Whether an object at `p` is one a listing under `parent` (if any) of
/// the objects carrying `interface` names.
pub open spec fn listed(t: TreeView, p: Seq<char>, parent: Option<Seq<char>>, interface: Seq<char>) -> bool {
    &&& t.contains_key(p)
    &&& t[p].contains_key(interface)
    &&& match parent {
        Some(q) => child_of(p, q),
        None => true,
    }
}

impl Tree {
    fn listing(&self, parent: Option<&str>, interface: &str) -> (ps: Vec<String>)
        ensures
            forall|p: Seq<char>|
                strings_view(ps@).contains(p) <==> listed(
                    self@,
                    p,
                    match parent {
                        Some(q) => Some(q@),
                        None => None,
                    },
                    interface@,
                ),
            forall|a: int, b: int| 0 <= a < b < ps@.len() ==> ps@[a]@ != ps@[b]@,
    {
        proof {
            use_type_invariant(self);
        }
        let ghost os = self.objects@;
        let ghost q = match parent {
            Some(q) => Some(q@),
            None => None,
        };
        let mut ps: Vec<String> = Vec::new();
        let mut k: usize = 0;
        while k < self.objects.len()
            invariant
                k <= os.len(),
                os == self.objects@,
                objects_wf(os),
                q == match parent {
                    Some(q) => Some(q@),
                    None => None,
                },
                forall|p: Seq<char>|
                    strings_view(ps@).contains(p) <==> exists|i: int|
                        0 <= i < k && #[trigger] os[i].0@ == p && listed(self@, p, q, interface@),
                forall|a: int, b: int| 0 <= a < b < ps@.len() ==> ps@[a]@ != ps@[b]@,
                forall|a: int|
                    #![trigger ps@[a]]
                    0 <= a < ps@.len() ==> exists|i: int| 0 <= i < k && #[trigger] os[i].0@ == ps@[a]@,
            decreases os.len() - k,
        {
            proof {
                lemma_object_at(os, k as int);
            }
            let under = match parent {
                Some(q) => is_child(self.objects[k].0.as_str(), q),
                None => true,
            };
            let ghost before = ps@;
            if under && has_interface(&self.objects[k].1, interface) {
                ps.push(self.objects[k].0.clone());
                proof {
                    assert(strings_view(ps@) =~= strings_view(before).push(os[k as int].0@));
                    assert forall|a: int| 0 <= a < before.len() implies ps@[a]@ != os[k as int].0@ by {
                        let i = choose|i: int| 0 <= i < k && #[trigger] os[i].0@ == before[a]@;
                        assert(objects_entries(os)[i].0 == os[i].0@);
                        assert(objects_entries(os)[k as int].0 == os[k as int].0@);
                    }
                }
            }
            proof {
                assert forall|p: Seq<char>|
                    strings_view(ps@).contains(p) <==> exists|i: int|
                        0 <= i < k + 1 && #[trigger] os[i].0@ == p && listed(self@, p, q, interface@) by {
                    if strings_view(ps@).contains(p) && !strings_view(before).contains(p) {
                        assert(os[k as int].0@ == p);
                    }
                    if exists|i: int| 0 <= i < k + 1 && #[trigger] os[i].0@ == p && listed(self@, p, q, interface@) {
                        let i = choose|i: int| 0 <= i < k + 1 && #[trigger] os[i].0@ == p && listed(self@, p, q, interface@);
                        if i == k {
                            assert(strings_view(ps@).last() == p);
                        } else {
                            assert(strings_view(before).contains(p));
                            let a = choose|a: int| 0 <= a < strings_view(before).len() && strings_view(before)[a] == p;
                            assert(strings_view(ps@)[a] == p);
                        }
                    }
                }
            }
            k = k + 1;
        }
        proof {
            assert forall|p: Seq<char>| listed(self@, p, q, interface@) implies exists|i: int|
                0 <= i < os.len() && #[trigger] os[i].0@ == p && listed(self@, p, q, interface@) by {
                let i = lemma_path_at(os, p);
            }
        }
        ps
    }

    /// Every object path carrying `interface`, each once.
    pub fn paths_with(&self, interface: &str) -> (ps: Vec<String>)
        ensures
            forall|p: Seq<char>|
                strings_view(ps@).contains(p) <==> listed(self@, p, None, interface@),
            forall|a: int, b: int| 0 <= a < b < ps@.len() ==> ps@[a]@ != ps@[b]@,
    {
        self.listing(None, interface)
    }

    /// The objects below `parent` carrying `interface`, each once: how the
    /// GATT tree is walked, since BlueZ encodes the hierarchy in the path.
    pub fn children_with(&self, parent: &str, interface: &str) -> (ps: Vec<String>)
        ensures
            forall|p: Seq<char>|
                strings_view(ps@).contains(p) <==> listed(self@, p, Some(parent@), interface@),
            forall|a: int, b: int| 0 <= a < b < ps@.len() ==> ps@[a]@ != ps@[b]@,
    {
        self.listing(Some(parent), interface)
    }
}

// ── The whole tree at once ──────────────────────────────────────────────────

/// A property dictionary's pair, read as a map.
pub open spec fn props_entry(e: (Seq<char>, ValueView)) -> (Seq<char>, Map<Seq<char>, ValueView>) {
    (e.0, map_of(e.1))
}

/// An object's pair, its interfaces read as maps of maps.
pub open spec fn object_entry(e: (Seq<char>, ValueView)) -> (
    Seq<char>,
    Map<Seq<char>, Map<Seq<char>, ValueView>>,
) {
    (e.0, map_of(e.1).map_values(|p: ValueView| map_of(p)))
}

/// Mapping the values of pairs maps the values of the map they make.
proof fn lemma_entries_map_values(es: Seq<(Seq<char>, ValueView)>)
    ensures
        entries_map(es.map_values(|e: (Seq<char>, ValueView)| props_entry(e)))
            == entries_map(es).map_values(|v: ValueView| map_of(v)),
    decreases es.len(),
{
    let mapped = es.map_values(|e: (Seq<char>, ValueView)| props_entry(e));
    if es.len() == 0 {
        assert(entries_map(mapped) =~= entries_map(es).map_values(|v: ValueView| map_of(v)));
    } else {
        lemma_entries_map_values(es.drop_last());
        assert(mapped.drop_last() =~= es.drop_last().map_values(
            |e: (Seq<char>, ValueView)| props_entry(e),
        ));
        assert(mapped.last() == props_entry(es.last()));
        assert(entries_map(mapped) =~= entries_map(es).map_values(|v: ValueView| map_of(v)));
    }
}

/// A `GetManagedObjects` reply as a tree: objects by path, interfaces by
/// name, properties by name, each dictionary read as `as_map` reads it.
pub open spec fn managed_view(objects: ValueView) -> TreeView {
    map_of(objects).map_values(
        |v: ValueView| map_of(v).map_values(|p: ValueView| map_of(p)),
    )
}

/// One object's interfaces from its `a{sa{sv}}`.
fn interfaces_from(v: &Value) -> (is: Interfaces)
    ensures
        interfaces_wf(is@),
        interfaces_map(is@) == map_of(v@).map_values(|p: ValueView| map_of(p)),
{
    let inner = v.as_map();
    let ghost iv = entries_view(inner@);
    let mut is: Interfaces = Vec::new();
    let mut k: usize = 0;
    assert(interfaces_entries(is@) =~= iv.take(0).map_values(|e: (Seq<char>, ValueView)| props_entry(e)));
    while k < inner.len()
        invariant
            k <= inner@.len(),
            iv == entries_view(inner@),
            distinct_keys(iv),
            interfaces_entries(is@) == iv.take(k as int).map_values(|e: (Seq<char>, ValueView)| props_entry(e)),
            is@.len() == k,
            forall|j: int| 0 <= j < is@.len() ==> distinct_keys(#[trigger] entries_view(is@[j].1@)),
        decreases inner@.len() - k,
    {
        let ghost before = is@;
        let props = inner[k].1.as_map();
        let name = inner[k].0.clone();
        let ghost entry = (name@, props_map(props@));
        is.push((name, props));
        proof {
            assert(iv[k as int] == (inner@[k as int].0@, inner@[k as int].1@));
            assert(entry == props_entry(iv[k as int]));
            assert(interfaces_entries(is@) =~= interfaces_entries(before).push(entry));
            assert(iv.take(k + 1).map_values(|e: (Seq<char>, ValueView)| props_entry(e))
                =~= iv.take(k as int).map_values(|e: (Seq<char>, ValueView)| props_entry(e)).push(
                entry,
            ));
            assert(interfaces_entries(is@) =~= iv.take(k + 1).map_values(|e: (Seq<char>, ValueView)| props_entry(e)));
            assert forall|j: int| 0 <= j < is@.len() implies distinct_keys(
                #[trigger] entries_view(is@[j].1@),
            ) by {
                if j < before.len() {
                    assert(is@[j] == before[j]);
                }
            }
        }
        k = k + 1;
    }
    assert(iv.take(iv.len() as int) =~= iv);
    proof {
        lemma_entries_map_values(iv);
        assert forall|a: int, b: int|
            0 <= a < b < interfaces_entries(is@).len() implies interfaces_entries(is@)[a].0
            != interfaces_entries(is@)[b].0 by {
            assert(interfaces_entries(is@)[a].0 == iv[a].0);
            assert(interfaces_entries(is@)[b].0 == iv[b].0);
        }
    }
    is
}

impl Tree {
    /// The tree a `GetManagedObjects` reply describes.
    pub fn from_managed(objects: &Value) -> (t: Self)
        ensures
            t@ == managed_view(objects@),
    {
        let outer = objects.as_map();
        let ghost ov = entries_view(outer@);
        let mut os: Vec<(String, Interfaces)> = Vec::new();
        let mut k: usize = 0;
        assert(objects_entries(os@) =~= ov.take(0).map_values(|e: (Seq<char>, ValueView)| object_entry(e)));
        while k < outer.len()
            invariant
                k <= outer@.len(),
                ov == entries_view(outer@),
                distinct_keys(ov),
                objects_entries(os@) == ov.take(k as int).map_values(|e: (Seq<char>, ValueView)| object_entry(e)),
                os@.len() == k,
                forall|j: int| 0 <= j < os@.len() ==> interfaces_wf(#[trigger] os@[j].1@),
            decreases outer@.len() - k,
        {
            let ghost before = os@;
            let is = interfaces_from(&outer[k].1);
            let path = outer[k].0.clone();
            let ghost entry = (path@, interfaces_map(is@));
            os.push((path, is));
            proof {
                assert(ov[k as int] == (outer@[k as int].0@, outer@[k as int].1@));
                assert(entry == object_entry(ov[k as int]));
                assert(objects_entries(os@) =~= objects_entries(before).push(entry));
                assert(ov.take(k + 1).map_values(|e: (Seq<char>, ValueView)| object_entry(e))
                    =~= ov.take(k as int).map_values(|e: (Seq<char>, ValueView)| object_entry(e)).push(
                    entry,
                ));
                assert(objects_entries(os@) =~= ov.take(k + 1).map_values(|e: (Seq<char>, ValueView)| object_entry(e)));
                assert forall|j: int| 0 <= j < os@.len() implies interfaces_wf(#[trigger] os@[j].1@) by {
                    if j < before.len() {
                        assert(os@[j] == before[j]);
                    }
                }
            }
            k = k + 1;
        }
        assert(ov.take(ov.len() as int) =~= ov);
        proof {
            assert forall|a: int, b: int|
                0 <= a < b < objects_entries(os@).len() implies objects_entries(os@)[a].0
                != objects_entries(os@)[b].0 by {
                assert(objects_entries(os@)[a].0 == ov[a].0);
                assert(objects_entries(os@)[b].0 == ov[b].0);
            }
            lemma_tree_map_values(ov);
        }
        Tree { objects: os }
    }
}

proof fn lemma_tree_map_values(es: Seq<(Seq<char>, ValueView)>)
    ensures
        entries_map(
            es.map_values(|e: (Seq<char>, ValueView)| object_entry(e)),
        ) == entries_map(es).map_values(
            |v: ValueView| map_of(v).map_values(|p: ValueView| map_of(p)),
        ),
    decreases es.len(),
{
    let h = |e: (Seq<char>, ValueView)| (e.0, map_of(e.1).map_values(|p: ValueView| map_of(p)));
    let mapped = es.map_values(|e: (Seq<char>, ValueView)| object_entry(e));
    if es.len() == 0 {
        assert(entries_map(mapped) =~= entries_map(es).map_values(
            |v: ValueView| map_of(v).map_values(|p: ValueView| map_of(p)),
        ));
    } else {
        lemma_tree_map_values(es.drop_last());
        assert(mapped.drop_last() =~= es.drop_last().map_values(|e: (Seq<char>, ValueView)| object_entry(e)));
        assert(mapped.last() == object_entry(es.last()));
        assert(entries_map(mapped) =~= entries_map(es).map_values(
            |v: ValueView| map_of(v).map_values(|p: ValueView| map_of(p)),
        ));
    }
}

impl Tree {
    /// A property of one interface of one object, as the tree holds it.
    pub fn property(&self, path: &str, interface: &str, name: &str) -> (v: Option<Value>)
        ensures
            match v {
                Some(x) => self@.contains_key(path@) && self@[path@].contains_key(interface@)
                    && self@[path@][interface@].contains_key(name@) && self@[path@][interface@][name@]
                    == x@,
                None => !(self@.contains_key(path@) && self@[path@].contains_key(interface@)
                    && self@[path@][interface@].contains_key(name@)),
            },
    {
        proof {
            use_type_invariant(self);
        }
        let ghost os = self.objects@;
        let i = match find(&self.objects, path) {
            Some(i) => i,
            None => {
                proof {
                    if self@.contains_key(path@) {
                        let j = lemma_path_at(os, path@);
                    }
                }
                return None;
            },
        };
        proof {
            lemma_object_at(os, i as int);
        }
        let is = &self.objects[i].1;
        let ghost ie = interfaces_entries(is@);
        proof {
            lemma_entries_lookup(ie, interface@, 0);
        }
        let j = match find(is, interface) {
            Some(j) => j,
            None => {
                proof {
                    if interfaces_map(is@).contains_key(interface@) {
                        let a = choose|a: int| 0 <= a < ie.len() && ie[a].0 == interface@;
                        assert(ie[a].0 == is@[a].0@);
                    }
                }
                return None;
            },
        };
        proof {
            lemma_entries_lookup(ie, interface@, j as int);
            assert(ie[j as int].0 == interface@);
            assert(distinct_keys(entries_view(is@[j as int].1@)));
        }
        match crate::dbus::value::lookup_entry(&is[j].1, name) {
            Some(x) => Some(x.clone()),
            None => None,
        }
    }
}

/// A copy of some properties.
fn copy_props(ps: &Props) -> (out: Props)
    ensures
        entries_view(out@) == entries_view(ps@),
{
    let mut out: Props = Vec::new();
    let mut k: usize = 0;
    while k < ps.len()
        invariant
            k <= ps@.len(),
            entries_view(out@) == entries_view(ps@.take(k as int)),
        decreases ps@.len() - k,
    {
        let ghost before = out@;
        let key = ps[k].0.clone();
        let value = ps[k].1.clone();
        assert((key@, value@) == (ps@[k as int].0@, ps@[k as int].1@));
        out.push((key, value));
        assert(entries_view(out@) =~= entries_view(before).push((key@, value@)));
        assert(ps@.take(k + 1) =~= ps@.take(k as int).push(ps@[k as int]));
        assert(entries_view(ps@.take(k + 1)) =~= entries_view(ps@.take(k as int)).push(
            (ps@[k as int].0@, ps@[k as int].1@),
        ));
        k = k + 1;
    }
    assert(ps@.take(ps@.len() as int) =~= ps@);
    out
}

impl Tree {
    /// The properties of one interface of one object, none if the tree has no
    /// such interface there.
    pub fn interface_properties(&self, path: &str, interface: &str) -> (ps: Props)
        ensures
            distinct_keys(entries_view(ps@)),
            props_map(ps@) == if self@.contains_key(path@) && self@[path@].contains_key(
                interface@,
            ) {
                self@[path@][interface@]
            } else {
                Map::empty()
            },
    {
        proof {
            use_type_invariant(self);
        }
        let ghost os = self.objects@;
        let i = match find(&self.objects, path) {
            Some(i) => i,
            None => {
                proof {
                    if self@.contains_key(path@) {
                        let j = lemma_path_at(os, path@);
                    }
                }
                let none: Props = Vec::new();
                proof {
                    lemma_entries_empty(entries_view(none@));
                }
                return none;
            },
        };
        proof {
            lemma_object_at(os, i as int);
        }
        let is = &self.objects[i].1;
        let ghost ie = interfaces_entries(is@);
        proof {
            lemma_entries_lookup(ie, interface@, 0);
        }
        let j = match find(is, interface) {
            Some(j) => j,
            None => {
                proof {
                    if interfaces_map(is@).contains_key(interface@) {
                        let a = choose|a: int| 0 <= a < ie.len() && ie[a].0 == interface@;
                        assert(ie[a].0 == is@[a].0@);
                    }
                }
                let none: Props = Vec::new();
                proof {
                    lemma_entries_empty(entries_view(none@));
                }
                return none;
            },
        };
        proof {
            lemma_entries_lookup(ie, interface@, j as int);
            assert(ie[j as int].0 == interface@);
            assert(distinct_keys(entries_view(is@[j as int].1@)));
        }
        copy_props(&is[j].1)
    }
}

/// What a sequence with one more element contains.
proof fn lemma_contains_push<A>(s: Seq<A>, x: A, y: A)
    ensures
        s.push(x).contains(y) <==> (s.contains(y) || y == x),
{
    if s.push(x).contains(y) && y != x {
        let k = choose|k: int| 0 <= k < s.push(x).len() && s.push(x)[k] == y;
        assert(s[k] == y);
    }
    if s.contains(y) {
        let k = choose|k: int| 0 <= k < s.len() && s[k] == y;
        assert(s.push(x)[k] == y);
    }
    if y == x {
        assert(s.push(x)[s.len() as int] == y);
    }
}

/// The text of an object's `UUID` property on `interface`, if it has one.
pub open spec fn uuid_at(t: TreeView, p: Seq<char>, interface: Seq<char>) -> Option<Seq<char>> {
    if t.contains_key(p) && t[p].contains_key(interface) && t[p][interface].contains_key("UUID"@) {
        text_of(t[p][interface]["UUID"@])
    } else {
        None
    }
}

/// The services an `Includes` list names that the tree holds with a UUID,
/// in the order listed.
pub open spec fn included_entries(t: TreeView, items: Seq<ValueView>) -> Seq<(Seq<char>, Seq<char>)>
    decreases items.len(),
{
    if items.len() == 0 {
        Seq::empty()
    } else {
        let rest = included_entries(t, items.drop_last());
        match text_of(items.last()) {
            Some(p) => match uuid_at(t, p, "org.bluez.GattService1"@) {
                Some(u) => rest.push((p, u)),
                None => rest,
            },
            None => rest,
        }
    }
}

/// Paths and UUIDs, as text.
pub open spec fn path_uuids(v: Seq<(String, String)>) -> Seq<(Seq<char>, Seq<char>)> {
    v.map_values(|e: (String, String)| (e.0@, e.1@))
}

impl Tree {
    /// The text of an object's `UUID` property on `interface`.
    fn uuid_of(&self, path: &str, interface: &str) -> (u: Option<String>)
        ensures
            match u {
                Some(x) => uuid_at(self@, path@, interface@) == Some(x@),
                None => uuid_at(self@, path@, interface@) is None,
            },
    {
        self.text_property(path, interface, "UUID")
    }

    /// The children of `parent` carrying `interface`, each with its UUID;
    /// children without one are left out.
    pub fn children_with_uuids(&self, parent: &str, interface: &str) -> (out: Vec<(String, String)>)
        ensures
            forall|p: Seq<char>, u: Seq<char>|
                path_uuids(out@).contains((p, u)) <==> (listed(self@, p, Some(parent@), interface@)
                    && uuid_at(self@, p, interface@) == Some(u)),
    {
        let paths = self.children_with(parent, interface);
        let mut out: Vec<(String, String)> = Vec::new();
        let mut i: usize = 0;
        while i < paths.len()
            invariant
                i <= paths@.len(),
                forall|p: Seq<char>|
                    strings_view(paths@).contains(p) <==> listed(self@, p, Some(parent@), interface@),
                forall|p: Seq<char>, u: Seq<char>|
                    path_uuids(out@).contains((p, u)) <==> (strings_view(paths@.take(i as int)).contains(p)
                        && uuid_at(self@, p, interface@) == Some(u)),
            decreases paths@.len() - i,
        {
            let ghost before = out@;
            let ghost p_i = paths@[i as int]@;
            proof {
                assert(paths@.take(i + 1) =~= paths@.take(i as int).push(paths@[i as int]));
                assert(strings_view(paths@.take(i + 1)) =~= strings_view(paths@.take(i as int)).push(p_i));
            }
            match self.uuid_of(paths[i].as_str(), interface) {
                Some(u) => {
                    let ghost uv = u@;
                    out.push((paths[i].clone(), u));
                    proof {
                        assert(path_uuids(out@) =~= path_uuids(before).push((p_i, uv)));
                        assert forall|p: Seq<char>, w: Seq<char>|
                            path_uuids(out@).contains((p, w)) <==> (strings_view(
                                paths@.take(i + 1),
                            ).contains(p) && uuid_at(self@, p, interface@) == Some(w)) by {
                            lemma_contains_push(path_uuids(before), (p_i, uv), (p, w));
                            lemma_contains_push(strings_view(paths@.take(i as int)), p_i, p);
                        }
                    }
                },
                None => {
                    proof {
                        assert forall|p: Seq<char>, w: Seq<char>|
                            path_uuids(out@).contains((p, w)) <==> (strings_view(
                                paths@.take(i + 1),
                            ).contains(p) && uuid_at(self@, p, interface@) == Some(w)) by {
                            lemma_contains_push(strings_view(paths@.take(i as int)), p_i, p);
                        }
                    }
                },
            }
            i = i + 1;
        }
        assert(paths@.take(paths@.len() as int) =~= paths@);
        out
    }

    /// The services an object's `Includes` property names, each with its
    /// UUID, in the order listed; names the tree does not hold with a UUID
    /// are left out, and no `Includes` lists nothing.
    pub fn included_services(&self, service: &str) -> (out: Vec<(String, String)>)
        ensures
            path_uuids(out@) == match self.property_view(service@, "org.bluez.GattService1"@, "Includes"@) {
                Some(v) => match crate::dbus::value::items_of(v) {
                    Some(items) => included_entries(self@, items),
                    None => Seq::empty(),
                },
                None => Seq::empty(),
            },
    {
        let included = match self.property(service, "org.bluez.GattService1", "Includes") {
            Some(v) => v,
            None => return Vec::new(),
        };
        let items = match included.as_array() {
            Some(items) => items,
            None => return Vec::new(),
        };
        let ghost vs = crate::dbus::value::values_view(items@);
        proof {
            crate::dbus::value::lemma_values_view(items@);
        }
        let mut out: Vec<(String, String)> = Vec::new();
        let mut i: usize = 0;
        while i < items.len()
            invariant
                i <= items@.len(),
                vs == crate::dbus::value::values_view(items@),
                vs.len() == items@.len(),
                forall|j: int| 0 <= j < items@.len() ==> #[trigger] vs[j] == items@[j]@,
                path_uuids(out@) == included_entries(self@, vs.take(i as int)),
            decreases items@.len() - i,
        {
            assert(vs.take(i + 1).drop_last() =~= vs.take(i as int));
            assert(vs.take(i + 1).last() == items@[i as int]@);
            match items[i].as_str() {
                Some(path) => match self.uuid_of(path, "org.bluez.GattService1") {
                    Some(u) => {
                        let ghost before = out@;
                        let entry = (path.to_string(), u);
                        out.push(entry);
                        assert(path_uuids(out@) =~= path_uuids(before).push((entry.0@, entry.1@)));
                    },
                    None => {},
                },
                None => {},
            }
            i = i + 1;
        }
        assert(vs.take(items@.len() as int) =~= vs);
        out
    }
}

impl Tree {
    /// A property of one interface of one object, if the tree holds it.
    pub open spec fn property_view(&self, path: Seq<char>, interface: Seq<char>, name: Seq<char>) -> Option<ValueView> {
        if self@.contains_key(path) && self@[path].contains_key(interface) && self@[path][interface].contains_key(name) {
            Some(self@[path][interface][name])
        } else {
            None
        }
    }
}

/// An adapter as the tree describes it.
pub struct AdapterRecord {
    /// `hci0` rather than the full path: what `hciconfig` and
    /// `bluetoothctl` call it.
    pub id: String,
    pub name: Option<String>,
    pub address: Option<String>,
    pub powered: bool,
    /// Whether this is the adapter the session uses.
    pub is_default: bool,
}

/// The text of an adapter property, if the tree holds it as text.
pub open spec fn adapter_text(t: &Tree, path: Seq<char>, name: Seq<char>) -> Option<Seq<char>> {
    match t.property_view(path, "org.bluez.Adapter1"@, name) {
        Some(v) => text_of(v),
        None => None,
    }
}

impl Tree {
    /// Text of a property, if it is text.
    fn text_property(&self, path: &str, interface: &str, name: &str) -> (r: Option<String>)
        ensures
            match r {
                Some(x) => (match self.property_view(path@, interface@, name@) {
                    Some(v) => text_of(v),
                    None => None,
                }) == Some(x@),
                None => (match self.property_view(path@, interface@, name@) {
                    Some(v) => text_of(v),
                    None => None,
                }) is None,
            },
    {
        match self.property(path, interface, name) {
            Some(v) => match v.as_str() {
                Some(t) => Some(t.to_string()),
                None => None,
            },
            None => None,
        }
    }

    /// The adapter at `path`: its short name, its alias and address if the
    /// tree holds them as text, whether it is powered (not, unless the tree
    /// says so), and whether it is `current`.
    pub fn adapter_record(&self, path: &str, current: Option<&str>) -> (a: AdapterRecord)
        ensures
            a.id@ == last_element(path@),
            match a.name {
                Some(n) => adapter_text(self, path@, "Alias"@) == Some(n@),
                None => adapter_text(self, path@, "Alias"@) is None,
            },
            match a.address {
                Some(n) => adapter_text(self, path@, "Address"@) == Some(n@),
                None => adapter_text(self, path@, "Address"@) is None,
            },
            a.powered == match self.property_view(path@, "org.bluez.Adapter1"@, "Powered"@) {
                Some(v) => match peeled(v) {
                    ValueView::Bool(b) => b,
                    _ => false,
                },
                None => false,
            },
            a.is_default == match current {
                Some(c) => c@ == path@,
                None => false,
            },
    {
        let powered = match self.property(path, "org.bluez.Adapter1", "Powered") {
            Some(v) => match v.as_bool() {
                Some(b) => b,
                None => false,
            },
            None => false,
        };
        let is_default = match current {
            Some(c) => str_equal(c, path),
            None => false,
        };
        AdapterRecord {
            id: short_adapter_name(path),
            name: self.text_property(path, "org.bluez.Adapter1", "Alias"),
            address: self.text_property(path, "org.bluez.Adapter1", "Address"),
            powered,
            is_default,
        }
    }
}

// ── Laws ────────────────────────────────────────────────────────────────────

proof fn lemma_without<V>(m: Map<Seq<char>, V>, keys: Seq<Seq<char>>, k: Seq<char>)
    ensures
        without(m, keys).contains_key(k) == (m.contains_key(k) && !keys.contains(k)),
        without(m, keys).contains_key(k) ==> without(m, keys)[k] == m[k],
    decreases keys.len(),
{
    if keys.len() > 0 {
        lemma_without(m, keys.drop_last(), k);
        if keys.contains(k) && k != keys.last() {
            let i = choose|i: int| 0 <= i < keys.len() && keys[i] == k;
            assert(keys.drop_last()[i] == k);
        }
        if keys.drop_last().contains(k) {
            let i = choose|i: int| 0 <= i < keys.drop_last().len() && keys.drop_last()[i] == k;
            assert(keys[i] == k);
        }
        if k == keys.last() {
            assert(keys[keys.len() - 1] == k);
        }
    }
}

/// What an `InterfacesAdded` names can be read back from the tree, and the
/// object's other interfaces are as they were.
pub proof fn lemma_added_interfaces_read_back(
    t: TreeView,
    path: Seq<char>,
    interfaces: Map<Seq<char>, Map<Seq<char>, ValueView>>,
    name: Seq<char>,
)
    ensures
        ({
            let after = apply_spec(t, TreeChangeView::Added { path, interfaces }).0;
            &&& after.contains_key(path)
            &&& interfaces.contains_key(name) ==> after[path][name] == interfaces[name]
            &&& !interfaces.contains_key(name) ==> (after[path].contains_key(name)
                == object_of(t, path).contains_key(name))
            &&& !interfaces.contains_key(name) && after[path].contains_key(name) ==> after[path][name]
                == object_of(t, path)[name]
        }),
{
}

/// A property change can be read back: what it set is there, unless it also
/// invalidated it, and what it invalidated is gone.
pub proof fn lemma_changed_properties_read_back(
    t: TreeView,
    path: Seq<char>,
    interface: Seq<char>,
    changed: Map<Seq<char>, ValueView>,
    invalidated: Seq<Seq<char>>,
    key: Seq<char>,
)
    ensures
        ({
            let after = apply_spec(
                t,
                TreeChangeView::Changed { path, interface, changed, invalidated },
            ).0;
            &&& after.contains_key(path) && after[path].contains_key(interface)
            &&& changed.contains_key(key) && !invalidated.contains(key) ==> after[path][interface].contains_key(key)
                && after[path][interface][key] == changed[key]
            &&& invalidated.contains(key) ==> !after[path][interface].contains_key(key)
        }),
{
    let obj = object_of(t, path);
    let props: Map<Seq<char>, ValueView> = if obj.contains_key(interface) {
        obj[interface]
    } else {
        Map::empty()
    };
    lemma_without(props.union_prefer_right(changed), invalidated, key);
}

/// Removing interfaces drops an object exactly when none are left, and the
/// removal is what a listener is told of.
pub proof fn lemma_emptied_objects_leave(
    t: TreeView,
    path: Seq<char>,
    names: Seq<Seq<char>>,
)
    requires
        t.contains_key(path),
    ensures
        ({
            let (after, now_empty) = apply_spec(t, TreeChangeView::Removed { path, names });
            &&& now_empty == (without(t[path], names) == Map::<
                Seq<char>,
                Map<Seq<char>, ValueView>,
            >::empty())
            &&& now_empty ==> !after.contains_key(path)
            &&& !now_empty ==> after.contains_key(path) && forall|n: Seq<char>|
                #[trigger] after[path].contains_key(n) == (t[path].contains_key(n)
                    && !names.contains(n))
        }),
{
    assert forall|n: Seq<char>| #[trigger] without(t[path], names).contains_key(n) == (
    t[path].contains_key(n) && !names.contains(n)) by {
        lemma_without(t[path], names, n);
    }
}

} // verus!
