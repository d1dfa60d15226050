//! An associative container with `u64` keys that looks up, inserts and
//! removes in O(1) average time like a hash map, while a traversal yields
//! the entries in the order in which the distinct keys were first inserted.
//!
//! The backing table is `std::collections::HashMap`; on top of it the map
//! threads an intrusive doubly linked list through the entries, storing the
//! predecessor and successor *keys* in each entry rather than references.
//! The insertion order itself is kept as a ghost sequence of keys, and the
//! well-formedness predicate ties the link fields, the head and tail keys
//! and the table's domain to that sequence.

use vstd::prelude::*;

mod iter;
pub mod laws;
pub mod model;

pub use iter::Iter;

use std::collections::HashMap;

use crate::model::{distinct_keys, has_key, inserted, key_index, lemma_key_index, removed};

verus! {

/// The per-key record: the stored value and the keys of the neighbouring
/// entries in insertion order (`None` at the head and at the tail).
struct OrdValue<V> {
    value: V,
    after_key: Option<u64>,
    before_key: Option<u64>,
}

impl<V> OrdValue<V> {
    /// A fresh record for an appended entry: linked backwards to the given
    /// predecessor, with no successor yet.
    fn with_before(value: V, before_key: Option<u64>) -> (e: Self)
        ensures
            e.value == value,
            e.after_key is None,
            e.before_key == before_key,
    {
        Self { value, after_key: None, before_key }
    }

    fn set_after(&mut self, key: Option<u64>)
        ensures
            final(self).value == old(self).value,
            final(self).after_key == key,
            final(self).before_key == old(self).before_key,
    {
        self.after_key = key;
    }

    fn set_before(&mut self, key: Option<u64>)
        ensures
            final(self).value == old(self).value,
            final(self).after_key == old(self).after_key,
            final(self).before_key == key,
    {
        self.before_key = key;
    }
}

/// The record of `ord[i]` carries the links that position `i` in the
/// insertion order demands: the key at `i - 1` as predecessor, the key at
/// `i + 1` as successor, and `None` past either end.
spec fn entry_links_ok<V>(t: Map<u64, OrdValue<V>>, ord: Seq<u64>, i: int) -> bool {
    &&& t.contains_key(ord[i])
    &&& t[ord[i]].before_key == (if i == 0 {
        None::<u64>
    } else {
        Some(ord[i - 1])
    })
    &&& t[ord[i]].after_key == (if i == ord.len() - 1 {
        None::<u64>
    } else {
        Some(ord[i + 1])
    })
}

/// The internal invariant, over the table's contents, the ghost insertion
/// order and the head and tail keys: the order lists each present key
/// exactly once, every record's links agree with its position in the
/// order, and head and tail are the order's two ends.
spec fn shape_ok<V>(
    t: Map<u64, OrdValue<V>>,
    ord: Seq<u64>,
    first: Option<u64>,
    last: Option<u64>,
) -> bool {
    &&& ord.no_duplicates()
    &&& forall|k: u64| #[trigger] t.contains_key(k) <==> ord.contains(k)
    &&& forall|i: int| 0 <= i < ord.len() ==> #[trigger] entry_links_ok(t, ord, i)
    &&& first == (if ord.len() == 0 {
        None::<u64>
    } else {
        Some(ord[0])
    })
    &&& last == (if ord.len() == 0 {
        None::<u64>
    } else {
        Some(ord[ord.len() - 1])
    })
}

/// The entries that a table holds, read off in the given key order.
spec fn entries_of<V>(t: Map<u64, OrdValue<V>>, ord: Seq<u64>) -> Seq<(u64, V)> {
    Seq::new(ord.len(), |i: int| (ord[i], t[ord[i]].value))
}

/// A hash map that remembers the order in which its distinct keys were
/// first inserted, and traverses its entries in that order.
pub struct OrdHashMap<V> {
    table: HashMap<u64, OrdValue<V>>,
    first_key: Option<u64>,
    last_key: Option<u64>,
    order: Ghost<Seq<u64>>,
}

impl<V> View for OrdHashMap<V> {
    type V = Seq<(u64, V)>;

    /// The entries in insertion order.
    closed spec fn view(&self) -> Seq<(u64, V)> {
        entries_of(self.table@, self.order@)
    }
}

/// How a key fares in the entries of a table: present exactly when the
/// table holds it, and then placed at its unique position in the order.
proof fn lemma_entries_lookup<V>(t: Map<u64, OrdValue<V>>, ord: Seq<u64>, k: u64)
    requires
        ord.no_duplicates(),
        forall|k2: u64| #[trigger] t.contains_key(k2) <==> ord.contains(k2),
    ensures
        entries_of(t, ord).len() == ord.len(),
        distinct_keys(entries_of(t, ord)),
        has_key(entries_of(t, ord), k) <==> t.contains_key(k),
        has_key(entries_of(t, ord), k) ==> {
            let i = key_index(entries_of(t, ord), k);
            &&& 0 <= i < ord.len()
            &&& ord[i] == k
            &&& entries_of(t, ord)[i] == (k, t[k].value)
            &&& forall|j: int| 0 <= j < ord.len() && ord[j] == k ==> j == i
        },
{
    let s = entries_of(t, ord);
    assert(forall|i: int| 0 <= i < ord.len() ==> (#[trigger] s[i]) == (ord[i], t[ord[i]].value));
    if t.contains_key(k) {
        let w = choose|i: int| 0 <= i < ord.len() && ord[i] == k;
        assert(s[w].0 == k);
        assert(has_key(s, k));
    }
    if has_key(s, k) {
        lemma_key_index(s, k);
        let i = key_index(s, k);
        assert(ord[i] == k);
        assert(ord.contains(k));
    }
}

impl<V> OrdHashMap<V> {
    /// The ghost insertion order of the present keys.
    spec fn ord(self) -> Seq<u64> {
        self.order@
    }

    /// The internal invariant; see [`shape_ok`].
    pub closed spec fn well_formed(self) -> bool {
        shape_ok(self.table@, self.order@, self.first_key, self.last_key)
    }

    /// Creates an empty map.
    pub fn new() -> (m: Self)
        ensures
            m@ == Seq::<(u64, V)>::empty(),
            m.well_formed(),
    {
        let m = Self {
            table: HashMap::new(),
            first_key: None,
            last_key: None,
            order: Ghost(Seq::empty()),
        };
        proof {
            assert(m@ =~= Seq::<(u64, V)>::empty());
        }
        m
    }

    /// Creates an empty map whose backing table has room for at least
    /// `capacity` entries before it reallocates.
    pub fn with_capacity(capacity: usize) -> (m: Self)
        ensures
            m@ == Seq::<(u64, V)>::empty(),
            m.well_formed(),
    {
        let m = Self {
            table: HashMap::with_capacity(capacity),
            first_key: None,
            last_key: None,
            order: Ghost(Seq::empty()),
        };
        proof {
            assert(m@ =~= Seq::<(u64, V)>::empty());
        }
        m
    }

    /// The capacity of the backing table; it carries no ordering meaning
    /// and nothing is promised of it.
    pub fn capacity(&self) -> usize {
        table_capacity(&self.table)
    }

    /// Looks the key up, without touching the order.
    pub fn get(&self, key: &u64) -> (r: Option<&V>)
        requires
            self.well_formed(),
        ensures
            match r {
                Some(v) => has_key(self@, *key) && *v == self@[key_index(self@, *key)].1,
                None => !has_key(self@, *key),
            },
    {
        proof {
            lemma_entries_lookup(self.table@, self.order@, *key);
        }
        match self.table.get(key) {
            Some(e) => Some(&e.value),
            None => None,
        }
    }
}

/// Replacing only the value stored under `k` keeps the shape: the links,
/// the order and the ends are untouched, and the entries are the old
/// entries with that one value updated in place.
proof fn lemma_value_update<V>(
    t: Map<u64, OrdValue<V>>,
    ord: Seq<u64>,
    first: Option<u64>,
    last: Option<u64>,
    k: u64,
)
    requires
        shape_ok(t, ord, first, last),
        t.contains_key(k),
    ensures
        forall|v: V|
            #![trigger t.insert(k, (OrdValue { value: v, after_key: t[k].after_key, before_key: t[k].before_key }))]
            shape_ok(
                t.insert(k, (OrdValue { value: v, after_key: t[k].after_key, before_key: t[k].before_key })),
                ord,
                first,
                last,
            ) && entries_of(
                t.insert(k, (OrdValue { value: v, after_key: t[k].after_key, before_key: t[k].before_key })),
                ord,
            ) == entries_of(t, ord).update(key_index(entries_of(t, ord), k), (k, v)),
{
    lemma_entries_lookup(t, ord, k);
    let s = entries_of(t, ord);
    let i = key_index(s, k);
    assert(has_key(s, k));
    assert forall|v: V|
        #![trigger t.insert(k, (OrdValue { value: v, after_key: t[k].after_key, before_key: t[k].before_key }))]
        shape_ok(
            t.insert(k, (OrdValue { value: v, after_key: t[k].after_key, before_key: t[k].before_key })),
            ord,
            first,
            last,
        ) && entries_of(
            t.insert(k, (OrdValue { value: v, after_key: t[k].after_key, before_key: t[k].before_key })),
            ord,
        ) == entries_of(t, ord).update(key_index(entries_of(t, ord), k), (k, v)) by {
        let e2 = OrdValue { value: v, after_key: t[k].after_key, before_key: t[k].before_key };
        let t2 = t.insert(k, e2);
        assert forall|k2: u64| #[trigger] t2.contains_key(k2) <==> ord.contains(k2) by {
            assert(t2.contains_key(k2) == t.contains_key(k2));
        }
        assert forall|j: int| 0 <= j < ord.len() implies #[trigger] entry_links_ok(t2, ord, j) by {
            assert(entry_links_ok(t, ord, j));
            assert(t2[ord[j]].after_key == t[ord[j]].after_key);
            assert(t2[ord[j]].before_key == t[ord[j]].before_key);
        }
        assert(shape_ok(t2, ord, first, last));
        assert forall|j: int| 0 <= j < ord.len() implies entries_of(t2, ord)[j] == s.update(i, (k, v))[j] by {
            if j == i {
                assert(ord[j] == k);
                assert(t2[k] == e2);
            } else {
                assert(ord[j] != k);
                assert(t2[ord[j]] == t[ord[j]]);
            }
        }
        assert(entries_of(t2, ord) =~= s.update(i, (k, v)));
    }
}

impl<V> OrdHashMap<V> {
    /// Looks the key up and hands out a mutable reference to its value;
    /// whatever the caller writes through it replaces that value in place,
    /// and neither the order nor any other entry changes.
    pub fn get_mut(&mut self, key: &u64) -> (r: Option<&mut V>)
        requires
            old(self).well_formed(),
        ensures
            final(self).well_formed(),
            !has_key(old(self)@, *key) ==> r.is_none() && final(self)@ == old(self)@,
            has_key(old(self)@, *key) ==> r.is_some() && {
                let i = key_index(old(self)@, *key);
                &&& *r.unwrap() == old(self)@[i].1
                &&& final(self)@ == old(self)@.update(i, (*key, *final(r.unwrap())))
            },
    {
        proof {
            lemma_entries_lookup(self.table@, self.order@, *key);
            if self.table@.contains_key(*key) {
                lemma_value_update(self.table@, self.order@, self.first_key, self.last_key, *key);
            }
        }
        table_value_mut(&mut self.table, key)
    }

    /// Inserts `key -> value`. A key that is already present keeps its
    /// position: only its value is replaced, and the previous value comes
    /// back. A new key is appended at the tail of the insertion order.
    pub fn insert(&mut self, key: u64, value: V) -> (r: Option<V>)
        requires
            old(self).well_formed(),
        ensures
            final(self).well_formed(),
            final(self)@ == inserted(old(self)@, key, value),
            has_key(old(self)@, key) ==> r == Some(old(self)@[key_index(old(self)@, key)].1),
            !has_key(old(self)@, key) ==> r.is_none(),
    {
        proof {
            lemma_entries_lookup(self.table@, self.order@, key);
        }
        if self.table.contains_key(&key) {
            proof {
                lemma_value_update(self.table@, self.order@, self.first_key, self.last_key, key);
            }
            match table_value_mut(&mut self.table, &key) {
                Some(v) => {
                    let mut prev = value;
                    core::mem::swap(v, &mut prev);
                    Some(prev)
                },
                None => None,
            }
        } else {
            if self.table.is_empty() {
                self.first_key = Some(key);
            }
            let before = self.last_key;
            self.last_key = Some(key);
            self.table.insert(key, OrdValue::with_before(value, before));
            if let Some(tail) = before {
                proof {
                    assert(old(self).ord().contains(old(self).ord()[old(self).ord().len() - 1]));
                }
                set_after_link(&mut self.table, &tail, Some(key));
            }
            proof {
                let t0 = old(self).table@;
                let ord0 = old(self).order@;
                let len0 = ord0.len() as int;
                self.order@ = ord0.push(key);
                let t2 = self.table@;
                let ord2 = self.order@;
                assert(!ord0.contains(key));
                if len0 > 0 {
                    assert(ord0.contains(ord0[0]));
                    assert(t0.contains_key(ord0[0]));
                    assert(!t0.dom().is_empty());
                }
                assert forall|i: int, j: int| 0 <= i < j < ord2.len() implies ord2[i] != ord2[j] by {
                    if j == len0 {
                        assert(ord0.contains(ord0[i]));
                    }
                }
                assert forall|k2: u64| #[trigger] t2.contains_key(k2) <==> ord2.contains(k2) by {
                    if k2 == key {
                        assert(ord2[len0] == key);
                        assert(ord2.contains(key));
                    } else {
                        if t2.contains_key(k2) {
                            assert(t0.contains_key(k2));
                            let w = choose|i: int| 0 <= i < len0 && ord0[i] == k2;
                            assert(ord2[w] == k2);
                            assert(ord2.contains(k2));
                        }
                        if ord2.contains(k2) {
                            let w = choose|i: int| 0 <= i < ord2.len() && ord2[i] == k2;
                            assert(w < len0);
                            assert(ord0[w] == k2);
                            assert(ord0.contains(k2));
                        }
                    }
                }
                assert forall|i: int| 0 <= i < ord2.len() implies #[trigger] entry_links_ok(
                    t2,
                    ord2,
                    i,
                ) by {
                    if i < len0 {
                        assert(entry_links_ok(t0, ord0, i));
                        assert(ord0.contains(ord0[i]));
                        if i < len0 - 1 {
                            assert(ord2[i] != ord0[len0 - 1]);
                            assert(t2[ord2[i]] == t0[ord0[i]]);
                        }
                    } else {
                        assert(ord2[i] == key);
                    }
                }
                assert(shape_ok(t2, ord2, self.first_key, self.last_key));
                assert forall|i: int| 0 <= i < ord2.len() implies entries_of(t2, ord2)[i]
                    == entries_of(t0, ord0).push((key, value))[i] by {
                    if i < len0 {
                        assert(entry_links_ok(t0, ord0, i));
                        assert(ord0.contains(ord0[i]));
                        if i == len0 - 1 {
                            assert(t2[ord2[i]].value == t0[ord0[i]].value);
                        } else {
                            assert(ord2[i] != ord0[len0 - 1]);
                            assert(t2[ord2[i]] == t0[ord0[i]]);
                        }
                    }
                }
                assert(entries_of(t2, ord2) =~= entries_of(t0, ord0).push((key, value)));
            }
            None
        }
    }

    /// Starts a traversal at the head of the insertion order.
    pub fn iter(&self) -> (it: Iter<'_, V>)
        requires
            self.well_formed(),
        ensures
            it.valid(),
            it.pos() == 0,
            it.map_ref() == self,
    {
        Iter::from(self)
    }

    /// Removes the key and hands its value back. The neighbours of the
    /// removed entry are linked to one another; when the entry was the head
    /// or the tail, the head or tail key moves to its successor or
    /// predecessor. An absent key leaves the map unchanged.
    #[verifier::rlimit(50)]
    pub fn remove(&mut self, key: &u64) -> (r: Option<V>)
        requires
            old(self).well_formed(),
        ensures
            final(self).well_formed(),
            final(self)@ == removed(old(self)@, *key),
            has_key(old(self)@, *key) ==> r == Some(old(self)@[key_index(old(self)@, *key)].1),
            !has_key(old(self)@, *key) ==> r.is_none() && final(self)@ == old(self)@,
    {
        proof {
            lemma_entries_lookup(self.table@, self.order@, *key);
        }
        match self.table.remove(key) {
            None => {
                proof {
                    assert(self.table@ =~= old(self).table@);
                }
                None
            },
            Some(e) => {
                let OrdValue { value, after_key, before_key } = e;
                let ghost t0 = old(self).table@;
                let ghost ord0 = old(self).order@;
                let ghost len0 = ord0.len() as int;
                let ghost idx = key_index(entries_of(t0, ord0), *key);
                proof {
                    assert(entry_links_ok(t0, ord0, idx));
                    if idx < len0 - 1 {
                        assert(ord0.contains(ord0[idx + 1]));
                    }
                    if idx > 0 {
                        assert(ord0.contains(ord0[idx - 1]));
                    }
                }
                match after_key {
                    Some(ak) => {
                        set_before_link(&mut self.table, &ak, before_key);
                    },
                    None => {
                        self.last_key = before_key;
                    },
                }
                match before_key {
                    Some(bk) => {
                        set_after_link(&mut self.table, &bk, after_key);
                    },
                    None => {
                        self.first_key = after_key;
                    },
                }
                proof {
                    ord0.remove_ensures(idx);
                    self.order@ = ord0.remove(idx);
                    let t3 = self.table@;
                    let ord2 = self.order@;
                    let len2 = ord2.len() as int;
                    assert forall|i: int, j: int| 0 <= i < j < len2 implies ord2[i] != ord2[j] by {
                        let fi: int = if i < idx { i } else { i + 1 };
                        let fj: int = if j < idx { j } else { j + 1 };
                        assert(ord2[i] == ord0[fi]);
                        assert(ord2[j] == ord0[fj]);
                    }
                    assert forall|k2: u64| #[trigger] t3.contains_key(k2) <==> ord2.contains(k2) by {
                        if k2 == *key {
                            if ord2.contains(k2) {
                                let w = choose|i: int| 0 <= i < len2 && ord2[i] == k2;
                                let fw: int = if w < idx { w } else { w + 1 };
                                assert(ord0[fw] == *key);
                                assert(ord0[idx] == *key);
                            }
                            assert(!t3.contains_key(k2));
                        } else {
                            if t3.contains_key(k2) {
                                assert(t0.contains_key(k2));
                                let w = choose|i: int| 0 <= i < len0 && ord0[i] == k2;
                                assert(w != idx);
                                let wi: int = if w < idx { w } else { w - 1 };
                                assert(ord2[wi] == k2);
                                assert(ord2.contains(k2));
                            }
                            if ord2.contains(k2) {
                                let w = choose|i: int| 0 <= i < len2 && ord2[i] == k2;
                                let fw: int = if w < idx { w } else { w + 1 };
                                assert(ord0[fw] == k2);
                                assert(ord0.contains(k2));
                            }
                        }
                    }
                    assert forall|i: int| 0 <= i < len2 implies #[trigger] entry_links_ok(
                        t3,
                        ord2,
                        i,
                    ) by {
                        let f: int = if i < idx { i } else { i + 1 };
                        assert(ord2[i] == ord0[f]);
                        assert(entry_links_ok(t0, ord0, f));
                        if i > 0 {
                            let g: int = if i - 1 < idx { i - 1 } else { i };
                            assert(ord2[i - 1] == ord0[g]);
                        }
                        if i < len2 - 1 {
                            let g: int = if i + 1 < idx { i + 1 } else { i + 2 };
                            assert(ord2[i + 1] == ord0[g]);
                        }
                        if f == idx - 1 {
                            assert(entry_links_ok(t0, ord0, idx));
                        } else if f == idx + 1 {
                            assert(entry_links_ok(t0, ord0, idx));
                        }
                    }
                    assert(shape_ok(t3, ord2, self.first_key, self.last_key));
                    assert forall|i: int| 0 <= i < len2 implies entries_of(t3, ord2)[i]
                        == entries_of(t0, ord0).remove(idx)[i] by {
                        let f: int = if i < idx { i } else { i + 1 };
                        assert(ord2[i] == ord0[f]);
                        assert(entry_links_ok(t0, ord0, f));
                        assert(t3[ord0[f]].value == t0[ord0[f]].value);
                        assert(entries_of(t0, ord0)[f] == (ord0[f], t0[ord0[f]].value));
                    }
                    entries_of(t0, ord0).remove_ensures(idx);
                    assert(entries_of(t3, ord2) =~= entries_of(t0, ord0).remove(idx));
                }
                Some(value)
            },
        }
    }
}

/// A well-formed map's entries carry pairwise-distinct keys, so each
/// present key names exactly one position in the insertion order. This is
/// what lets the ordering laws in [`crate::laws`] be applied to a map's
/// entries.
pub proof fn lemma_entries_distinct<V>(m: OrdHashMap<V>)
    requires
        m.well_formed(),
    ensures
        distinct_keys(m@),
{
    lemma_entries_lookup(m.table@, m.order@, 0);
}

impl<V> Default for OrdHashMap<V> {
    /// An empty map.
    fn default() -> (m: Self)
        ensures
            m@ == Seq::<(u64, V)>::empty(),
            m.well_formed(),
    {
        Self::new()
    }
}

/// Rewrites the successor link of the record stored under `k`, leaving its
/// value and its predecessor link as they were. The record is taken out and
/// put back, since vstd specifies `HashMap::remove` and `HashMap::insert`.
fn set_after_link<V>(table: &mut HashMap<u64, OrdValue<V>>, k: &u64, after: Option<u64>)
    requires
        old(table)@.contains_key(*k),
    ensures
        final(table)@ == old(table)@.insert(
            *k,
            (OrdValue {
                value: old(table)@[*k].value,
                after_key: after,
                before_key: old(table)@[*k].before_key,
            }),
        ),
{
    match table.remove(k) {
        Some(mut e) => {
            e.set_after(after);
            table.insert(*k, e);
            proof {
                assert(table@ =~= old(table)@.insert(
                    *k,
                    (OrdValue {
                        value: old(table)@[*k].value,
                        after_key: after,
                        before_key: old(table)@[*k].before_key,
                    }),
                ));
            }
        },
        None => {},
    }
}

/// Rewrites the predecessor link of the record stored under `k`, leaving
/// its value and its successor link as they were.
fn set_before_link<V>(table: &mut HashMap<u64, OrdValue<V>>, k: &u64, before: Option<u64>)
    requires
        old(table)@.contains_key(*k),
    ensures
        final(table)@ == old(table)@.insert(
            *k,
            (OrdValue {
                value: old(table)@[*k].value,
                after_key: old(table)@[*k].after_key,
                before_key: before,
            }),
        ),
{
    match table.remove(k) {
        Some(mut e) => {
            e.set_before(before);
            table.insert(*k, e);
            proof {
                assert(table@ =~= old(table)@.insert(
                    *k,
                    (OrdValue {
                        value: old(table)@[*k].value,
                        after_key: old(table)@[*k].after_key,
                        before_key: before,
                    }),
                ));
            }
        },
        None => {},
    }
}

/// Relies on `std::collections::HashMap::get_mut`: a mutable reference to
/// the value stored under the key, or `None` when the key is absent. The
/// table afterwards binds the key to the record it held before with its
/// value replaced by whatever the caller leaves behind the reference, and
/// no other binding changes.
#[verifier::external_body]
fn table_value_mut<'a, V>(m: &'a mut HashMap<u64, OrdValue<V>>, key: &u64) -> (r: Option<
    &'a mut V,
>)
    ensures
        !old(m)@.contains_key(*key) ==> r.is_none() && final(m)@ == old(m)@,
        old(m)@.contains_key(*key) ==> r.is_some() && *r.unwrap() == old(m)@[*key].value
            && final(m)@ == old(m)@.insert(
            *key,
            (OrdValue {
                value: *final(r.unwrap()),
                after_key: old(m)@[*key].after_key,
                before_key: old(m)@[*key].before_key,
            }),
        ),
{
    match m.get_mut(key) {
        Some(e) => Some(&mut e.value),
        None => None,
    }
}

/// Relies on `std::collections::HashMap::capacity`; nothing is promised of
/// the number it returns.
#[verifier::external_body]
fn table_capacity<V>(m: &HashMap<u64, OrdValue<V>>) -> usize {
    m.capacity()
}

} // verus!
