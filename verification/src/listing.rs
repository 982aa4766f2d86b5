//! The entries of a map, listed one after the other.

use std::collections::{BTreeMap, HashMap};

use vstd::prelude::*;
use vstd::std_specs::cmp::OrdSpec;
use vstd::std_specs::iter::IteratorSpec;

use crate::types::{CameraId, CameraResult};

verus! {

/// `entries` holds every entry of `m` once, and nothing else.
pub open spec fn lists<K, V>(m: Map<K, V>, entries: Seq<(K, V)>) -> bool {
    &&& forall|i: int|
        0 <= i < entries.len() ==> m.contains_key((#[trigger] entries[i]).0) && m[entries[i].0]
            == entries[i].1
    &&& forall|i: int, j: int|
        0 <= i < entries.len() && 0 <= j < entries.len() && (#[trigger] entries[i]).0 == (
        #[trigger] entries[j]).0 ==> i == j
    &&& forall|k: K| #[trigger]
        m.contains_key(k) ==> exists|i: int| 0 <= i < entries.len() && (#[trigger] entries[i]).0 == k
}

/// The entries stand in ascending order of their keys.
pub open spec fn ascending_keys<V>(entries: Seq<(usize, V)>) -> bool {
    forall|i: int, j: int|
        0 <= i < j < entries.len() ==> (#[trigger] entries[i]).0 < (#[trigger] entries[j]).0
}

/// Walking all entries of a map, none of them twice, lists it.
proof fn lemma_walk_lists<K, V>(m: Map<K, V>, walk: Seq<(&K, &V)>, entries: Seq<(K, V)>)
    requires
        walk.no_duplicates(),
        walk.len() == entries.len(),
        forall|i: int| 0 <= i < walk.len() ==> #[trigger] entries[i] == (*walk[i].0, *walk[i].1),
        forall|i: int|
            0 <= i < walk.len() ==> #[trigger] m.contains_key(*walk[i].0) && m[*walk[i].0]
                == *walk[i].1,
        forall|k: K| #[trigger] m.contains_key(k) ==> walk.contains((&k, &m[k])),
    ensures
        lists(m, entries),
{
    assert forall|i: int| 0 <= i < entries.len() implies m.contains_key((#[trigger] entries[i]).0)
        && m[entries[i].0] == entries[i].1 by {
        assert(m.contains_key(*walk[i].0));
    }
    assert forall|i: int, j: int|
        0 <= i < entries.len() && 0 <= j < entries.len() && (#[trigger] entries[i]).0 == (
        #[trigger] entries[j]).0 implies i == j by {
        assert(m.contains_key(*walk[i].0) && m.contains_key(*walk[j].0));
        assert(walk[i] == walk[j]);
    }
    assert forall|k: K| #[trigger] m.contains_key(k) implies exists|i: int|
        0 <= i < entries.len() && (#[trigger] entries[i]).0 == k by {
        assert(walk.contains((&k, &m[k])));
        let i = choose|i: int| 0 <= i < walk.len() && walk[i] == (&k, &m[k]);
        assert(entries[i].0 == k);
    }
}

/// A listing has as many entries as the map.
pub proof fn law_listing_is_complete<K, V>(m: Map<K, V>, entries: Seq<(K, V)>)
    requires
        lists(m, entries),
    ensures
        m.dom().finite(),
        entries.len() == m.dom().len(),
{
    let keys = entries.map_values(|e: (K, V)| e.0);
    assert(keys.no_duplicates()) by {
        assert forall|i: int, j: int| 0 <= i < keys.len() && 0 <= j < keys.len() && i != j implies
            keys[i] != keys[j] by {
            assert(entries[i].0 != entries[j].0);
        }
    }
    keys.unique_seq_to_set();
    assert(keys.to_set() =~= m.dom()) by {
        assert forall|k: K| #[trigger] m.contains_key(k) implies keys.contains(k) by {
            let i = choose|i: int| 0 <= i < entries.len() && (#[trigger] entries[i]).0 == k;
            assert(keys[i] == k);
        }
        assert forall|k: K| keys.contains(k) implies m.contains_key(k) by {
            let i = choose|i: int| 0 <= i < keys.len() && keys[i] == k;
            assert(m.contains_key(entries[i].0));
        }
    }
}

/// Two sequences of the same multiset have the same members.
pub proof fn lemma_same_members<T>(a: Seq<T>, b: Seq<T>, i: int)
    requires
        a.to_multiset() == b.to_multiset(),
        0 <= i < a.len(),
    ensures
        b.contains(a[i]),
{
    broadcast use vstd::seq_lib::group_to_multiset_ensures;

    assert(a.contains(a[i]));
    assert(b.to_multiset().count(a[i]) > 0);
}

/// The entries of an ordered map, in ascending order of their keys.
pub fn ordered_entries(m: &BTreeMap<CameraId, CameraResult>) -> (entries: Vec<(CameraId, CameraResult)>)
    ensures
        lists(m@, entries@),
        ascending_keys(entries@),
{
    broadcast use vstd::std_specs::btree::group_btree_axioms;
    broadcast use vstd::laws_cmp::group_laws_cmp;

    let mut entries: Vec<(CameraId, CameraResult)> = Vec::new();
    assert(vstd::std_specs::btree::key_obeys_cmp_spec::<CameraId>());
    let iter = m.iter();
    let ghost all = iter.remaining();
    for (k, v) in it: iter
        invariant
            it.seq() == all,
            entries@.len() == it.index(),
            forall|i: int| 0 <= i < it.index() ==> #[trigger] entries@[i] == (*all[i].0, *all[i].1),
    {
        entries.push((*k, *v));
    }
    proof {
        lemma_walk_lists(m@, all, entries@);
        let keys = all.map_values(|kv: (&CameraId, &CameraResult)| *kv.0);
        assert(vstd::std_specs::btree::increasing_seq(keys));
        assert forall|i: int, j: int| 0 <= i < j < entries@.len() implies (#[trigger] entries@[i]).0
            < (#[trigger] entries@[j]).0 by {
            assert(keys[i] == entries@[i].0 && keys[j] == entries@[j].0);
            assert(keys[i].cmp_spec(&keys[j]) is Less);
        }
    }
    entries
}

/// Put an entry into an ordered map.
pub fn put(m: &mut BTreeMap<CameraId, CameraResult>, id: CameraId, result: CameraResult)
    ensures
        final(m)@ == old(m)@.insert(id, result),
{
    broadcast use vstd::std_specs::btree::group_btree_axioms;
    broadcast use vstd::laws_cmp::group_laws_cmp;

    m.insert(id, result);
}

/// The entries of a hash map, in the order in which it is walked.
pub fn hashed_entries<V: Copy>(m: &HashMap<usize, V>) -> (entries: Vec<(usize, V)>)
    ensures
        lists(m@, entries@),
{
    let mut entries: Vec<(usize, V)> = Vec::new();
    let iter = m.iter();
    let ghost all = iter.remaining();
    for (k, v) in it: iter
        invariant
            it.seq() == all,
            entries@.len() == it.index(),
            forall|i: int| 0 <= i < it.index() ==> #[trigger] entries@[i] == (*all[i].0, *all[i].1),
    {
        entries.push((*k, *v));
    }
    proof {
        lemma_walk_lists(m@, all, entries@);
    }
    entries
}

/// Mapping two arrangements of the same members gives two arrangements of the
/// same members.
pub proof fn lemma_mapped_members<A, B>(a: Seq<A>, b: Seq<A>, f: spec_fn(A) -> B)
    requires
        a.to_multiset() == b.to_multiset(),
    ensures
        a.map_values(f).to_multiset() == b.map_values(f).to_multiset(),
    decreases a.len(),
{
    broadcast use vstd::seq_lib::group_to_multiset_ensures;

    assert(a.len() == a.to_multiset().len() && b.len() == b.to_multiset().len());
    if a.len() > 0 {
        let last = a.len() - 1;
        assert(a.contains(a[last]));
        assert(a.to_multiset().count(a[last]) > 0);
        assert(b.contains(a[last]));
        let j = choose|j: int| 0 <= j < b.len() && b[j] == a[last];
        lemma_mapped_members(a.remove(last), b.remove(j), f);
        let (fa, fb) = (a.map_values(f), b.map_values(f));
        assert(fa.remove(last) =~= a.remove(last).map_values(f));
        assert(fb.remove(j) =~= b.remove(j).map_values(f));
        assert(fa.contains(fa[last]) && fb.contains(fb[j]));
        assert(fa.to_multiset() =~= fa.remove(last).to_multiset().insert(fa[last]));
        assert(fb.to_multiset() =~= fb.remove(j).to_multiset().insert(fb[j]));
    } else {
        assert(a.map_values(f) =~= b.map_values(f));
    }
}

/// An ordered map is listed from its lowest key to its highest, each with its value.
pub proof fn law_ordered_entries(
    m: &BTreeMap<CameraId, CameraResult>,
    entries: Vec<(CameraId, CameraResult)>,
    k: CameraId,
)
    requires
        call_ensures(ordered_entries, (m,), entries),
    ensures
        m@.contains_key(k) <==> exists|i: int|
            0 <= i < entries@.len() && (#[trigger] entries@[i]).0 == k && entries@[i].1 == m@[k],
        forall|i: int, j: int|
            0 <= i < j < entries@.len() ==> (#[trigger] entries@[i]).0 < (#[trigger] entries@[j]).0,
{
    if m@.contains_key(k) {
        let i = choose|i: int| 0 <= i < entries@.len() && (#[trigger] entries@[i]).0 == k;
        assert(entries@[i].1 == m@[k]);
    }
}

/// A hashed map is listed whole, each key once and with its value, in some order.
pub proof fn law_hashed_entries<V: Copy>(m: &HashMap<usize, V>, entries: Vec<(usize, V)>, k: usize)
    requires
        call_ensures(hashed_entries::<V>, (m,), entries),
    ensures
        m@.contains_key(k) <==> exists|i: int|
            0 <= i < entries@.len() && (#[trigger] entries@[i]).0 == k && entries@[i].1 == m@[k],
        forall|i: int, j: int|
            0 <= i < entries@.len() && 0 <= j < entries@.len() && (#[trigger] entries@[i]).0 == (
            #[trigger] entries@[j]).0 ==> i == j,
{
    if m@.contains_key(k) {
        let i = choose|i: int| 0 <= i < entries@.len() && (#[trigger] entries@[i]).0 == k;
        assert(entries@[i].1 == m@[k]);
    }
}

} // verus!
