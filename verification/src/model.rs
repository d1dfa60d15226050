//! The mathematical model of an insertion-ordered map: a sequence of
//! key/value pairs with pairwise-distinct keys, in the order in which the
//! distinct keys were first inserted.

use vstd::prelude::*;

verus! {

/// No key occurs twice in the sequence of entries.
pub open spec fn distinct_keys<V>(s: Seq<(u64, V)>) -> bool {
    forall|i: int, j: int| 0 <= i < j < s.len() ==> s[i].0 != s[j].0
}

/// Some entry of `s` carries the key `k`.
pub open spec fn has_key<V>(s: Seq<(u64, V)>, k: u64) -> bool {
    exists|i: int| 0 <= i < s.len() && s[i].0 == k
}

/// The position of the entry carrying `k`; meaningful only when
/// `has_key(s, k)` holds, and unique when the keys are distinct.
pub open spec fn key_index<V>(s: Seq<(u64, V)>, k: u64) -> int {
    choose|i: int| 0 <= i < s.len() && s[i].0 == k
}

/// The keys of the entries, in order.
pub open spec fn keys_of<V>(s: Seq<(u64, V)>) -> Seq<u64> {
    s.map_values(|p: (u64, V)| p.0)
}

/// The entries after inserting `k -> v`: an update in place when `k` is
/// already bound (its position is kept), an append when it is new.
pub open spec fn inserted<V>(s: Seq<(u64, V)>, k: u64, v: V) -> Seq<(u64, V)> {
    if has_key(s, k) {
        s.update(key_index(s, k), (k, v))
    } else {
        s.push((k, v))
    }
}

/// The entries after removing `k`: the entry carrying `k` disappears and
/// every other entry keeps its relative position.
pub open spec fn removed<V>(s: Seq<(u64, V)>, k: u64) -> Seq<(u64, V)> {
    if has_key(s, k) {
        s.remove(key_index(s, k))
    } else {
        s
    }
}

/// When the keys are distinct, `key_index` is the one position that
/// carries `k`.
pub proof fn lemma_key_index<V>(s: Seq<(u64, V)>, k: u64)
    requires
        distinct_keys(s),
        has_key(s, k),
    ensures
        0 <= key_index(s, k) < s.len(),
        s[key_index(s, k)].0 == k,
        forall|i: int| 0 <= i < s.len() && s[i].0 == k ==> i == key_index(s, k),
{
    let w = key_index(s, k);
    assert(0 <= w < s.len() && s[w].0 == k);
}

} // verus!
