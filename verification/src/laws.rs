//! General properties of the container, stated over the `Map<K, V>` views
//! that the operations' contracts produce, and proved once and for all.

use vstd::prelude::*;

use crate::Projectable;

verus! {

/// The view a container reaches after the insertions `s`, in order, starting
/// from the empty container: each step is exactly what `insert` ensures.
pub open spec fn inserted_map<K, V: Projectable<K>>(s: Seq<V>) -> Map<K, V>
    decreases s.len(),
{
    if s.len() == 0 {
        Map::empty()
    } else {
        inserted_map(s.drop_last()).insert(s.last().proj(), s.last())
    }
}

/// The set of distinct projected keys of the values in `s`.
pub open spec fn inserted_keys<K, V: Projectable<K>>(s: Seq<V>) -> Set<K> {
    Set::new(|k: K| exists|i: int| 0 <= i < s.len() && s[i].proj() == k)
}

/// Key uniqueness: after any sequence of insertions into an empty container,
/// the container holds exactly one entry per distinct projected key inserted
/// — its length is the number of distinct keys, not the number of insert
/// calls.
pub proof fn lemma_len_counts_distinct_keys<K, V: Projectable<K>>(s: Seq<V>)
    ensures
        inserted_map(s).dom() == inserted_keys(s),
        inserted_map(s).dom().finite(),
        inserted_map(s).dom().len() == inserted_keys(s).len(),
    decreases s.len(),
{
    broadcast use vstd::set::group_set_axioms;

    if s.len() == 0 {
        assert(inserted_map(s).dom() =~= inserted_keys(s));
    } else {
        let t = s.drop_last();
        lemma_len_counts_distinct_keys(t);
        assert(inserted_map(s).dom() =~= inserted_keys(s)) by {
            assert forall|k: K| inserted_keys(s).contains(k) implies inserted_map(
                s,
            ).dom().contains(k) by {
                let i = choose|i: int| 0 <= i < s.len() && s[i].proj() == k;
                if i < s.len() - 1 {
                    assert(t[i].proj() == k);
                    assert(inserted_keys(t).contains(k));
                }
            }
            assert forall|k: K| inserted_map(s).dom().contains(k) implies inserted_keys(
                s,
            ).contains(k) by {
                if k == s.last().proj() {
                    assert(s[s.len() - 1].proj() == k);
                } else {
                    let i = choose|i: int| 0 <= i < t.len() && t[i].proj() == k;
                    assert(s[i].proj() == k);
                }
            }
        }
    }
}

/// Replace on collision: inserting `v` into a container that already holds an
/// entry `w` under `v`'s projected key replaces that entry. A lookup of the
/// key afterwards yields the new value `v` and never the old `w`, and the set
/// of keys is unchanged.
pub proof fn lemma_replace_on_collision<K, V: Projectable<K>>(m: Map<K, V>, v: V, w: V)
    requires
        m.contains_key(v.proj()),
        m[v.proj()] == w,
        w != v,
    ensures
        m.insert(v.proj(), v).contains_key(v.proj()),
        m.insert(v.proj(), v)[v.proj()] == v,
        m.insert(v.proj(), v)[v.proj()] != w,
        m.insert(v.proj(), v).dom() == m.dom(),
{
    assert(m.insert(v.proj(), v).dom() =~= m.dom());
}

/// Lookup after insertion: a lookup of `v`'s projected key right after `v`
/// was inserted yields `v`, whatever the container held before.
pub proof fn lemma_get_last_inserted<K, V: Projectable<K>>(m: Map<K, V>, v: V)
    ensures
        m.insert(v.proj(), v).contains_key(v.proj()),
        m.insert(v.proj(), v)[v.proj()] == v,
{
}

/// Removal: after removing `k` a lookup of `k` finds nothing; removing an
/// absent key leaves the container unchanged; and removal never disturbs an
/// entry under any other key.
pub proof fn lemma_remove_then_absent<K, V: Projectable<K>>(m: Map<K, V>, k: K)
    ensures
        !m.remove(k).contains_key(k),
        !m.contains_key(k) ==> m.remove(k) == m,
        forall|k2: K|
            k2 != k ==> (#[trigger] m.remove(k).contains_key(k2) <==> m.contains_key(k2)),
        forall|k2: K| k2 != k && m.contains_key(k2) ==> #[trigger] m.remove(k)[k2] == m[k2],
{
    if !m.contains_key(k) {
        assert(m.remove(k) =~= m);
    }
}

/// Independence from full-value equality: two distinct values with equal
/// projected keys occupy a single entry. Inserting the second after the first
/// overwrites it — the lookup yields the second value — and adds no key.
pub proof fn lemma_value_equality_irrelevant<K, V: Projectable<K>>(m: Map<K, V>, v1: V, v2: V)
    requires
        v1 != v2,
        v1.proj() == v2.proj(),
    ensures
        m.insert(v1.proj(), v1).insert(v2.proj(), v2) == m.insert(v2.proj(), v2),
        m.insert(v1.proj(), v1).insert(v2.proj(), v2)[v2.proj()] == v2,
        m.insert(v1.proj(), v1).insert(v2.proj(), v2).dom() == m.insert(v1.proj(), v1).dom(),
{
    assert(m.insert(v1.proj(), v1).insert(v2.proj(), v2) =~= m.insert(v2.proj(), v2));
    assert(m.insert(v1.proj(), v1).insert(v2.proj(), v2).dom() =~= m.insert(
        v1.proj(),
        v1,
    ).dom());
}

} // verus!
