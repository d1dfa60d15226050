//! The ordering laws of the map, stated and proved over the model: what a
//! run of insertions builds, what an update in place leaves alone, how a
//! removal bridges its neighbours, and that removals keep the survivors in
//! their original relative order.

use vstd::prelude::*;

use crate::model::{distinct_keys, has_key, inserted, key_index, keys_of, lemma_key_index, removed};

verus! {

/// The entries after inserting every pair of `ps` in turn, first to last.
pub open spec fn inserted_all<V>(s: Seq<(u64, V)>, ps: Seq<(u64, V)>) -> Seq<(u64, V)>
    decreases ps.len(),
{
    if ps.len() == 0 {
        s
    } else {
        inserted_all(inserted(s, ps[0].0, ps[0].1), ps.drop_first())
    }
}

/// The entries after removing every key of `ks` in turn, first to last.
pub open spec fn removed_all<V>(s: Seq<(u64, V)>, ks: Seq<u64>) -> Seq<(u64, V)>
    decreases ks.len(),
{
    if ks.len() == 0 {
        s
    } else {
        removed_all(removed(s, ks[0]), ks.drop_first())
    }
}

/// Inserting pairs whose keys are fresh and pairwise distinct appends them,
/// in order, after the entries already present.
pub proof fn lemma_inserted_all_appends<V>(s: Seq<(u64, V)>, ps: Seq<(u64, V)>)
    requires
        distinct_keys(ps),
        forall|j: int| 0 <= j < ps.len() ==> !has_key(s, #[trigger] ps[j].0),
    ensures
        inserted_all(s, ps) == s + ps,
    decreases ps.len(),
{
    if ps.len() == 0 {
        assert(s + ps =~= s);
    } else {
        let k = ps[0].0;
        let v = ps[0].1;
        assert(!has_key(s, k));
        let s2 = s.push((k, v));
        let rest = ps.drop_first();
        assert(inserted(s, k, v) == s2);
        assert forall|i: int, j: int| 0 <= i < j < rest.len() implies rest[i].0 != rest[j].0 by {
            assert(rest[i] == ps[i + 1]);
            assert(rest[j] == ps[j + 1]);
        }
        assert forall|j: int| 0 <= j < rest.len() implies !has_key(s2, #[trigger] rest[j].0) by {
            assert(rest[j] == ps[j + 1]);
            if has_key(s2, rest[j].0) {
                let w = choose|i: int| 0 <= i < s2.len() && s2[i].0 == rest[j].0;
                if w < s.len() {
                    assert(s[w].0 == ps[j + 1].0);
                } else {
                    assert(ps[0].0 == ps[j + 1].0);
                }
            }
        }
        lemma_inserted_all_appends(s2, rest);
        assert(inserted_all(s, ps) == inserted_all(s2, rest));
        assert(s2 + rest =~= s + ps);
    }
}

/// Order preservation: inserting pairwise-distinct keys in order into the
/// empty map, with no intervening removals, yields exactly those entries,
/// in insertion order.
pub proof fn lemma_order_preservation<V>(ps: Seq<(u64, V)>)
    requires
        distinct_keys(ps),
    ensures
        inserted_all(Seq::empty(), ps) == ps,
{
    assert forall|j: int| 0 <= j < ps.len() implies !has_key(
        Seq::<(u64, V)>::empty(),
        #[trigger] ps[j].0,
    ) by {}
    lemma_inserted_all_appends(Seq::empty(), ps);
    assert(Seq::empty() + ps =~= ps);
}

/// Update in place: re-inserting a key that is already present rewrites
/// only that key's entry, to the new value; the sequence of keys, and every
/// other entry, is exactly as before.
pub proof fn lemma_update_in_place<V>(s: Seq<(u64, V)>, k: u64, v: V)
    requires
        distinct_keys(s),
        has_key(s, k),
    ensures
        inserted(s, k, v).len() == s.len(),
        keys_of(inserted(s, k, v)) == keys_of(s),
        inserted(s, k, v)[key_index(s, k)] == (k, v),
        forall|i: int| 0 <= i < s.len() && i != key_index(s, k) ==> #[trigger] inserted(s, k, v)[i]
            == s[i],
{
    lemma_key_index(s, k);
    let s2 = inserted(s, k, v);
    assert forall|i: int| 0 <= i < s.len() implies keys_of(s2)[i] == keys_of(s)[i] by {
        assert(keys_of(s)[i] == s[i].0);
        assert(keys_of(s2)[i] == s2[i].0);
    }
    assert(keys_of(s2) =~= keys_of(s));
}

/// Removal bridges the gap: the removed entry disappears, the entries
/// before it keep their positions and the entries after it move up one
/// place. So removing the head leaves the former second entry at the head,
/// removing the tail leaves the former penultimate entry at the tail, and
/// removing the only entry leaves nothing.
pub proof fn lemma_removal_bridges<V>(s: Seq<(u64, V)>, k: u64)
    requires
        distinct_keys(s),
        has_key(s, k),
    ensures
        removed(s, k).len() == s.len() - 1,
        forall|i: int| 0 <= i < key_index(s, k) ==> #[trigger] removed(s, k)[i] == s[i],
        forall|i: int| key_index(s, k) <= i < s.len() - 1 ==> #[trigger] removed(s, k)[i] == s[i
            + 1],
        key_index(s, k) == 0 && s.len() > 1 ==> removed(s, k)[0] == s[1],
        key_index(s, k) == s.len() - 1 && s.len() > 1 ==> removed(s, k).last() == s[s.len() - 2],
        s.len() == 1 ==> removed(s, k) == Seq::<(u64, V)>::empty(),
{
    lemma_key_index(s, k);
    let i = key_index(s, k);
    s.remove_ensures(i);
    if s.len() == 1 {
        assert(removed(s, k) =~= Seq::<(u64, V)>::empty());
    }
}

/// Removing one key keeps the survivors distinct, in their original
/// relative order: the result is the original entries filtered to the
/// other keys.
pub proof fn lemma_removed_matches_filter<V>(s: Seq<(u64, V)>, k: u64)
    requires
        distinct_keys(s),
    ensures
        removed(s, k) == s.filter(|p: (u64, V)| p.0 != k),
        distinct_keys(removed(s, k)),
    decreases s.len(),
{
    reveal(Seq::filter);
    let pred = |p: (u64, V)| p.0 != k;
    if s.len() == 0 {
        assert(!has_key(s, k));
        assert(removed(s, k) == s);
    } else {
        let init = s.drop_last();
        let lst = s.last();
        assert forall|i: int, j: int| 0 <= i < j < init.len() implies init[i].0 != init[j].0 by {
            assert(init[i] == s[i]);
            assert(init[j] == s[j]);
        }
        lemma_removed_matches_filter(init, k);
        if has_key(s, k) {
            lemma_key_index(s, k);
            let i = key_index(s, k);
            s.remove_ensures(i);
            if lst.0 == k {
                assert(s[s.len() - 1].0 == k);
                assert(i == s.len() - 1);
                if has_key(init, k) {
                    let w = choose|j: int| 0 <= j < init.len() && init[j].0 == k;
                    assert(s[w].0 == k);
                    assert(false);
                }
                assert(removed(init, k) == init);
                assert(s.filter(pred) == init.filter(pred));
                assert(removed(s, k) =~= init);
            } else {
                assert(s[i].0 == k && i < s.len() - 1);
                assert(init[i].0 == k);
                assert(has_key(init, k));
                lemma_key_index(init, k);
                assert(key_index(init, k) == i);
                init.remove_ensures(i);
                assert(s.filter(pred) == init.filter(pred).push(lst));
                assert(removed(s, k) =~= init.remove(i).push(lst));
            }
        } else {
            assert(!has_key(init, k)) by {
                if has_key(init, k) {
                    let w = choose|j: int| 0 <= j < init.len() && init[j].0 == k;
                    assert(s[w].0 == k);
                }
            }
            assert(removed(init, k) == init);
            assert(lst.0 != k) by {
                if lst.0 == k {
                    assert(s[s.len() - 1].0 == k);
                }
            }
            assert(s.filter(pred) == init.filter(pred).push(lst));
            assert(removed(s, k) =~= init.push(lst));
        }
        assert forall|a: int, b: int|
            0 <= a < b < removed(s, k).len() implies removed(s, k)[a].0 != removed(s, k)[b].0 by {
            if has_key(s, k) {
                let i = key_index(s, k);
                s.remove_ensures(i);
                let fa: int = if a < i {
                    a
                } else {
                    a + 1
                };
                let fb: int = if b < i {
                    b
                } else {
                    b + 1
                };
                assert(removed(s, k)[a] == s[fa]);
                assert(removed(s, k)[b] == s[fb]);
            }
        }
    }
}

/// Two filters in a row keep an entry exactly when both predicates do.
proof fn lemma_filter_twice<V>(
    s: Seq<(u64, V)>,
    keep_a: spec_fn((u64, V)) -> bool,
    keep_b: spec_fn((u64, V)) -> bool,
    q: spec_fn((u64, V)) -> bool,
)
    requires
        forall|p: (u64, V)| #[trigger] q(p) == (keep_a(p) && keep_b(p)),
    ensures
        s.filter(keep_a).filter(keep_b) == s.filter(q),
    decreases s.len(),
{
    reveal(Seq::filter);
    if s.len() > 0 {
        lemma_filter_twice(s.drop_last(), keep_a, keep_b, q);
        let lst = s.last();
        if keep_a(lst) {
            assert(s.filter(keep_a) == s.drop_last().filter(keep_a).push(lst));
            assert(s.filter(keep_a).drop_last() == s.drop_last().filter(keep_a)) by {
                assert(s.filter(keep_a).drop_last() =~= s.drop_last().filter(keep_a));
            }
            assert(s.filter(keep_a).last() == lst);
        } else {
            assert(s.filter(keep_a) == s.drop_last().filter(keep_a));
        }
    }
}

/// Round trip: removing any choice of keys, in any order, leaves exactly
/// the entries whose keys were not removed, still in their original
/// relative order.
pub proof fn lemma_round_trip<V>(s: Seq<(u64, V)>, ks: Seq<u64>)
    requires
        distinct_keys(s),
    ensures
        removed_all(s, ks) == s.filter(|p: (u64, V)| !ks.contains(p.0)),
    decreases ks.len(),
{
    reveal(Seq::filter);
    let q = |p: (u64, V)| !ks.contains(p.0);
    if ks.len() == 0 {
        lemma_filter_keeps_all(s, q);
    } else {
        let k0 = ks[0];
        let rest = ks.drop_first();
        lemma_removed_matches_filter(s, k0);
        lemma_round_trip(removed(s, k0), rest);
        let keep_a = |p: (u64, V)| p.0 != k0;
        let keep_b = |p: (u64, V)| !rest.contains(p.0);
        assert forall|p: (u64, V)| #[trigger] q(p) == (keep_a(p) && keep_b(p)) by {
            if ks.contains(p.0) {
                let w = choose|i: int| 0 <= i < ks.len() && ks[i] == p.0;
                if w == 0 {
                    assert(p.0 == k0);
                } else {
                    assert(rest[w - 1] == p.0);
                    assert(rest.contains(p.0));
                }
            }
            if p.0 == k0 {
                assert(ks.contains(p.0));
            }
            if rest.contains(p.0) {
                let w = choose|i: int| 0 <= i < rest.len() && rest[i] == p.0;
                assert(ks[w + 1] == p.0);
                assert(ks.contains(p.0));
            }
        }
        lemma_filter_twice(s, keep_a, keep_b, q);
    }
}

/// A filter whose predicate holds of every entry keeps the whole sequence.
proof fn lemma_filter_keeps_all<V>(s: Seq<(u64, V)>, pred: spec_fn((u64, V)) -> bool)
    requires
        forall|i: int| 0 <= i < s.len() ==> pred(#[trigger] s[i]),
    ensures
        s.filter(pred) == s,
    decreases s.len(),
{
    reveal(Seq::filter);
    if s.len() > 0 {
        assert forall|i: int| 0 <= i < s.drop_last().len() implies pred(
            #[trigger] s.drop_last()[i],
        ) by {
            assert(s.drop_last()[i] == s[i]);
        }
        lemma_filter_keeps_all(s.drop_last(), pred);
        assert(pred(s.last()));
        assert(s.filter(pred) =~= s);
    }
}

} // verus!
