//! A lazy forward cursor over an [`OrdHashMap`]: it walks the intrusive
//! list from the head key to the tail key, resolving each successor key
//! through the backing table, and yields the entries in insertion order.

use vstd::prelude::*;

use crate::OrdHashMap;

verus! {

/// A single-pass cursor over one map, yielding `(key, &value)` pairs in
/// insertion order. A spent cursor stays spent; start a fresh traversal
/// with [`OrdHashMap::iter`].
pub struct Iter<'a, V> {
    map: &'a OrdHashMap<V>,
    now_key: Option<u64>,
    is_first: bool,
    pos: Ghost<int>,
}

impl<'a, V> Iter<'a, V> {
    /// The map being traversed.
    pub closed spec fn map_ref(&self) -> &'a OrdHashMap<V> {
        self.map
    }

    /// The position, in the insertion order, of the next entry to yield;
    /// the map's length once the cursor is spent.
    pub closed spec fn pos(&self) -> int {
        self.pos@
    }

    /// The cursor is about to start at the head, or mid-walk holding the
    /// key at its position, or spent.
    pub closed spec fn valid(&self) -> bool {
        &&& self.map.well_formed()
        &&& 0 <= self.pos@ <= self.map@.len()
        &&& self.is_first ==> self.pos@ == 0 && self.now_key is None
        &&& !self.is_first && self.pos@ < self.map@.len() ==> self.now_key == Some(
            self.map.ord()[self.pos@],
        )
        &&& !self.is_first && self.pos@ == self.map@.len() ==> self.now_key is None
    }

    pub(crate) fn from(map: &'a OrdHashMap<V>) -> (it: Self)
        requires
            map.well_formed(),
        ensures
            it.valid(),
            it.pos() == 0,
            it.map_ref() == map,
    {
        Self { map, now_key: None, is_first: true, pos: Ghost(0int) }
    }

    /// Yields the entry at the cursor's position and advances past it: the
    /// first call yields the head entry, each later call the successor of
    /// the one before, and a call past the tail yields nothing.
    pub fn next(&mut self) -> (r: Option<(u64, &'a V)>)
        requires
            old(self).valid(),
        ensures
            final(self).valid(),
            final(self).map_ref() == old(self).map_ref(),
            old(self).pos() < old(self).map_ref()@.len() ==> {
                &&& r is Some
                &&& r.unwrap().0 == old(self).map_ref()@[old(self).pos()].0
                &&& *(r.unwrap().1) == old(self).map_ref()@[old(self).pos()].1
                &&& final(self).pos() == old(self).pos() + 1
            },
            old(self).pos() >= old(self).map_ref()@.len() ==> r is None && final(self).pos()
                == old(self).pos(),
    {
        let key: u64 = if self.is_first {
            self.is_first = false;
            match self.map.first_key {
                Some(k) => k,
                None => {
                    return None;
                },
            }
        } else {
            match self.now_key {
                Some(k) => k,
                None => {
                    return None;
                },
            }
        };
        proof {
            assert(crate::entry_links_ok(self.map.table@, self.map.ord(), self.pos@));
            assert(self.map.ord().contains(self.map.ord()[self.pos@]));
        }
        match self.map.table.get(&key) {
            Some(e) => {
                self.now_key = e.after_key;
                proof {
                    self.pos@ = self.pos@ + 1;
                }
                Some((key, &e.value))
            },
            None => None,
        }
    }
}

} // verus!
