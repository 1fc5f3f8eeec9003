//! A hash-map-like associative container whose entries are keyed by a
//! *projection* of the stored value (a derived field or computed key) rather
//! than by the value's own identity. Membership, lookup and removal are
//! decided entirely by equality of projected keys; inserting a value whose
//! projected key is already present replaces the stored value.

use vstd::prelude::*;

pub mod laws;

verus! {

/// The projection capability: a value of the implementing type can hand out a
/// key derived from itself, and such keys can be compared for equality.
///
/// An implementation must keep `project` deterministic and in agreement with
/// the specification-level projection `proj`, and `key_eq` must decide exactly
/// specification-level equality of keys. The container's contracts hold only
/// of implementations that meet these obligations.
pub trait Projectable<K>: Sized {
    /// The projected key of this value, at the specification level.
    spec fn proj(&self) -> K;

    /// Borrows the projected key; the result agrees with `proj`.
    fn project(&self) -> (k: &K)
        ensures
            *k == self.proj(),
    ;

    /// Decides equality of two keys; the answer agrees with
    /// specification-level equality.
    fn key_eq(a: &K, b: &K) -> (r: bool)
        ensures
            r == (a == b),
    ;
}

/// Pairs an owned value with the obligation that, inside the container, the
/// value is identified by its projected key and never by its own identity:
/// the wrapper's projection capability delegates to the wrapped value's.
pub struct HashMapHelper<K, V: Projectable<K>> {
    inner: V,
    key_type: core::marker::PhantomData<K>,
}

impl<K, V: Projectable<K>> HashMapHelper<K, V> {
    /// The wrapped value, at the specification level.
    pub closed spec fn value(self) -> V {
        self.inner
    }

    /// Wraps a value.
    pub fn new(inner: V) -> (h: Self)
        ensures
            h.value() == inner,
            h.proj() == inner.proj(),
    {
        HashMapHelper { inner, key_type: core::marker::PhantomData }
    }

    /// Borrows the wrapped value.
    pub fn inner(&self) -> (v: &V)
        ensures
            *v == self.value(),
    {
        &self.inner
    }
}

impl<K, V: Projectable<K>> Projectable<K> for HashMapHelper<K, V> {
    closed spec fn proj(&self) -> K {
        self.inner.proj()
    }

    fn project(&self) -> (k: &K)
        ensures
            *k == self.proj(),
    {
        self.inner.project()
    }

    fn key_eq(a: &K, b: &K) -> (r: bool)
        ensures
            r == (a == b),
    {
        V::key_eq(a, b)
    }
}

/// Whether some entry of `s` has projected key `k`.
spec fn has_key<K, V: Projectable<K>>(s: Seq<HashMapHelper<K, V>>, k: K) -> bool {
    exists|i: int| 0 <= i < s.len() && s[i].proj() == k
}

/// Whether the entries of `s` have pairwise distinct projected keys.
spec fn keys_distinct<K, V: Projectable<K>>(s: Seq<HashMapHelper<K, V>>) -> bool {
    forall|i: int, j: int| 0 <= i < j < s.len() ==> s[i].proj() != s[j].proj()
}

/// The association from projected keys to stored values that a sequence of
/// entries represents; a later entry wins over an earlier one with the same
/// projected key.
spec fn entries_as_map<K, V: Projectable<K>>(s: Seq<HashMapHelper<K, V>>) -> Map<K, V>
    decreases s.len(),
{
    if s.len() == 0 {
        Map::empty()
    } else {
        entries_as_map(s.drop_last()).insert(s.last().proj(), s.last().value())
    }
}

/// A collision-free association from projected keys to owned stored values.
///
/// The container behaves as the map from each stored value's projected key to
/// that value: its view is that `Map<K, V>`, and every operation's contract is
/// stated over the view.
pub struct ProjectedHashMap<K, V: Projectable<K>> {
    entries: Vec<HashMapHelper<K, V>>,
}

impl<K, V: Projectable<K>> View for ProjectedHashMap<K, V> {
    type V = Map<K, V>;

    closed spec fn view(&self) -> Map<K, V> {
        entries_as_map(self.entries@)
    }
}

/// With pairwise distinct projected keys, `entries_as_map` is exactly the
/// association that the entries spell out: its domain is the set of projected
/// keys, it is finite with one entry per element, and it sends each projected
/// key to the value it was projected from.
proof fn lemma_entries_as_map<K, V: Projectable<K>>(s: Seq<HashMapHelper<K, V>>)
    requires
        keys_distinct(s),
    ensures
        entries_as_map(s).dom().finite(),
        entries_as_map(s).dom().len() == s.len(),
        forall|k: K| #[trigger] entries_as_map(s).dom().contains(k) <==> has_key(s, k),
        forall|i: int|
            0 <= i < s.len() ==> entries_as_map(s).dom().contains(#[trigger] s[i].proj())
                && entries_as_map(s)[s[i].proj()] == s[i].value(),
    decreases s.len(),
{
    broadcast use vstd::set::group_set_axioms;

    if s.len() > 0 {
        let t = s.drop_last();
        assert(keys_distinct(t)) by {
            assert(forall|i: int, j: int|
                0 <= i < j < t.len() ==> t[i] == s[i] && t[j] == s[j]);
        }
        lemma_entries_as_map(t);
        assert(!has_key(t, s.last().proj())) by {
            if has_key(t, s.last().proj()) {
                let i = choose|i: int| 0 <= i < t.len() && t[i].proj() == s.last().proj();
                assert(s[i].proj() == s[s.len() - 1].proj());
            }
        }
        assert forall|k: K| #[trigger] entries_as_map(s).dom().contains(k) <==> has_key(s, k) by {
            if entries_as_map(s).dom().contains(k) {
                if k == s.last().proj() {
                    assert(s[s.len() - 1].proj() == k);
                } else {
                    let i = choose|i: int| 0 <= i < t.len() && t[i].proj() == k;
                    assert(s[i].proj() == k);
                }
            }
            if has_key(s, k) {
                let i = choose|i: int| 0 <= i < s.len() && s[i].proj() == k;
                if i < s.len() - 1 {
                    assert(t[i].proj() == k);
                }
            }
        }
        assert forall|i: int| 0 <= i < s.len() implies entries_as_map(s).dom().contains(
            #[trigger] s[i].proj(),
        ) && entries_as_map(s)[s[i].proj()] == s[i].value() by {
            if i < s.len() - 1 {
                assert(t[i] == s[i]);
                assert(s[i].proj() != s.last().proj());
            }
        }
    }
}

/// Replacing the entry at `i` by one with the same projected key keeps the
/// keys distinct and updates the represented association at that key alone.
proof fn lemma_update_same_key<K, V: Projectable<K>>(
    s: Seq<HashMapHelper<K, V>>,
    i: int,
    h: HashMapHelper<K, V>,
)
    requires
        keys_distinct(s),
        0 <= i < s.len(),
        s[i].proj() == h.proj(),
    ensures
        keys_distinct(s.update(i, h)),
        entries_as_map(s.update(i, h)) == entries_as_map(s).insert(h.proj(), h.value()),
    decreases s.len(),
{
    let s2 = s.update(i, h);
    assert(keys_distinct(s2)) by {
        assert(forall|j: int| 0 <= j < s.len() ==> s2[j].proj() == s[j].proj());
    }
    let t = s.drop_last();
    assert(keys_distinct(t)) by {
        assert(forall|a: int, b: int| 0 <= a < b < t.len() ==> t[a] == s[a] && t[b] == s[b]);
    }
    if i == s.len() - 1 {
        assert(s2.drop_last() =~= t);
        assert(s2.last() == h);
        assert(entries_as_map(s2) == entries_as_map(t).insert(h.proj(), h.value()));
        assert(entries_as_map(s).insert(h.proj(), h.value()) == entries_as_map(t).insert(
            s.last().proj(),
            s.last().value(),
        ).insert(h.proj(), h.value()));
        assert(entries_as_map(t).insert(s.last().proj(), s.last().value()).insert(
            h.proj(),
            h.value(),
        ) =~= entries_as_map(t).insert(h.proj(), h.value()));
    } else {
        assert(s2.drop_last() =~= t.update(i, h));
        assert(s2.last() == s.last());
        lemma_update_same_key(t, i, h);
        assert(s[i].proj() != s.last().proj());
        assert(entries_as_map(s2) == entries_as_map(t).insert(h.proj(), h.value()).insert(
            s.last().proj(),
            s.last().value(),
        ));
        assert(entries_as_map(t).insert(h.proj(), h.value()).insert(
            s.last().proj(),
            s.last().value(),
        ) =~= entries_as_map(t).insert(s.last().proj(), s.last().value()).insert(
            h.proj(),
            h.value(),
        ));
    }
}

/// Appending an entry whose projected key is new keeps the keys distinct and
/// adds exactly that association.
proof fn lemma_push_new_key<K, V: Projectable<K>>(
    s: Seq<HashMapHelper<K, V>>,
    h: HashMapHelper<K, V>,
)
    requires
        keys_distinct(s),
        !has_key(s, h.proj()),
    ensures
        keys_distinct(s.push(h)),
        entries_as_map(s.push(h)) == entries_as_map(s).insert(h.proj(), h.value()),
{
    let s2 = s.push(h);
    assert(keys_distinct(s2)) by {
        assert forall|a: int, b: int| 0 <= a < b < s2.len() implies s2[a].proj()
            != s2[b].proj() by {
            if b == s.len() {
                if s2[a].proj() == h.proj() {
                    assert(s[a].proj() == h.proj());
                }
            }
        }
    }
    assert(s2.drop_last() =~= s);
    assert(s2.last() == h);
}

/// Deleting the entry at `i` keeps the keys distinct and removes exactly the
/// association under that entry's projected key.
proof fn lemma_remove_key<K, V: Projectable<K>>(s: Seq<HashMapHelper<K, V>>, i: int)
    requires
        keys_distinct(s),
        0 <= i < s.len(),
    ensures
        keys_distinct(s.remove(i)),
        entries_as_map(s.remove(i)) == entries_as_map(s).remove(s[i].proj()),
    decreases s.len(),
{
    let s2 = s.remove(i);
    let k = s[i].proj();
    assert(keys_distinct(s2)) by {
        assert forall|a: int, b: int| 0 <= a < b < s2.len() implies s2[a].proj()
            != s2[b].proj() by {
            let a0: int = if a < i { a } else { a + 1 };
            let b0: int = if b < i { b } else { b + 1 };
            assert(s2[a] == s[a0] && s2[b] == s[b0]);
        }
    }
    let t = s.drop_last();
    assert(keys_distinct(t)) by {
        assert(forall|a: int, b: int| 0 <= a < b < t.len() ==> t[a] == s[a] && t[b] == s[b]);
    }
    lemma_entries_as_map(t);
    if i == s.len() - 1 {
        assert(s2 =~= t);
        assert(!has_key(t, k)) by {
            if has_key(t, k) {
                let j = choose|j: int| 0 <= j < t.len() && t[j].proj() == k;
                assert(s[j].proj() == s[i].proj());
            }
        }
        assert(!entries_as_map(t).dom().contains(k));
        assert(entries_as_map(s).remove(k) =~= entries_as_map(t));
    } else {
        assert(s2.drop_last() =~= t.remove(i));
        assert(s2.last() == s.last());
        lemma_remove_key(t, i);
        assert(t[i] == s[i]);
        assert(k != s.last().proj());
        assert(entries_as_map(s2) == entries_as_map(t).remove(k).insert(
            s.last().proj(),
            s.last().value(),
        ));
        assert(entries_as_map(t).remove(k).insert(s.last().proj(), s.last().value())
            =~= entries_as_map(t).insert(s.last().proj(), s.last().value()).remove(k));
    }
}

impl<K, V: Projectable<K>> ProjectedHashMap<K, V> {
    #[verifier::type_invariant]
    spec fn well_formed(self) -> bool {
        keys_distinct(self.entries@)
    }

    /// Constructs an empty container.
    pub fn new() -> (m: Self)
        ensures
            m@ == Map::<K, V>::empty(),
    {
        ProjectedHashMap { entries: Vec::new() }
    }

    /// The index of the entry whose projected key equals `key`, if any.
    fn index_of(&self, key: &K) -> (r: Option<usize>)
        ensures
            match r {
                Some(i) => i < self.entries@.len() && self.entries@[i as int].proj() == *key,
                None => !has_key(self.entries@, *key),
            },
    {
        let n = self.entries.len();
        let mut idx: usize = 0;
        while idx < n
            invariant
                n == self.entries@.len(),
                idx <= n,
                forall|j: int| 0 <= j < idx ==> self.entries@[j].proj() != *key,
            decreases n - idx,
        {
            if V::key_eq(self.entries[idx].project(), key) {
                return Some(idx);
            }
            idx += 1;
        }
        proof {
            if has_key(self.entries@, *key) {
                let i = choose|i: int|
                    0 <= i < self.entries@.len() && self.entries@[i].proj() == *key;
                assert(false);
            }
        }
        None
    }

    /// Looks up the stored value whose projected key equals `key`.
    pub fn get(&self, key: &K) -> (r: Option<&V>)
        ensures
            match r {
                Some(v) => self@.contains_key(*key) && *v == self@[*key],
                None => !self@.contains_key(*key),
            },
    {
        proof {
            use_type_invariant(&*self);
            lemma_entries_as_map(self.entries@);
        }
        match self.index_of(key) {
            Some(i) => Some(self.entries[i].inner()),
            None => None,
        }
    }

    /// Inserts `value` under its own projected key. If an entry with an equal
    /// projected key exists it is evicted and replaced — never kept — and the
    /// displaced value is dropped; otherwise the value is added.
    pub fn insert(&mut self, value: V)
        ensures
            final(self)@ == old(self)@.insert(value.proj(), value),
    {
        proof {
            use_type_invariant(&*self);
        }
        let ghost old_entries = self.entries@;
        let idx = self.index_of(value.project());
        let h = HashMapHelper::new(value);
        let mut entries: Vec<HashMapHelper<K, V>> = Vec::new();
        core::mem::swap(&mut entries, &mut self.entries);
        match idx {
            Some(i) => {
                proof {
                    lemma_update_same_key(old_entries, i as int, h);
                }
                entries.set(i, h);
            },
            None => {
                proof {
                    lemma_push_new_key(old_entries, h);
                }
                entries.push(h);
            },
        }
        self.entries = entries;
    }

    /// Removes the entry whose projected key equals `key`, if one is present,
    /// and reports whether an entry was removed; absent keys are a no-op.
    pub fn remove(&mut self, key: &K) -> (r: bool)
        ensures
            final(self)@ == old(self)@.remove(*key),
            r == old(self)@.contains_key(*key),
    {
        proof {
            use_type_invariant(&*self);
            lemma_entries_as_map(self.entries@);
        }
        let ghost old_entries = self.entries@;
        match self.index_of(key) {
            Some(i) => {
                proof {
                    lemma_remove_key(old_entries, i as int);
                }
                let mut entries: Vec<HashMapHelper<K, V>> = Vec::new();
                core::mem::swap(&mut entries, &mut self.entries);
                entries.remove(i);
                self.entries = entries;
                true
            },
            None => {
                proof {
                    assert(old(self)@.remove(*key) =~= old(self)@);
                }
                false
            },
        }
    }

    /// The number of stored entries.
    pub fn len(&self) -> (n: usize)
        ensures
            n == self@.dom().len(),
    {
        proof {
            use_type_invariant(&*self);
            lemma_entries_as_map(self.entries@);
        }
        self.entries.len()
    }

    /// Borrows all stored values: the result holds exactly the values the
    /// container stores, once each, in an unspecified order that must not be
    /// relied upon. Repeated calls restart the traversal.
    pub fn iter(&self) -> (r: Vec<&V>)
        ensures
            r@.len() == self@.dom().len(),
            forall|i: int|
                0 <= i < r@.len() ==> self@.contains_key(#[trigger] r@[i].proj())
                    && self@[r@[i].proj()] == *r@[i],
            forall|i: int, j: int| 0 <= i < j < r@.len() ==> r@[i].proj() != r@[j].proj(),
            forall|k: K|
                #[trigger] self@.contains_key(k) ==> exists|i: int|
                    0 <= i < r@.len() && r@[i].proj() == k,
    {
        proof {
            use_type_invariant(&*self);
            lemma_entries_as_map(self.entries@);
        }
        let n = self.entries.len();
        let mut out: Vec<&V> = Vec::new();
        let mut idx: usize = 0;
        while idx < n
            invariant
                n == self.entries@.len(),
                idx <= n,
                out@.len() == idx,
                forall|i: int|
                    0 <= i < idx ==> *(#[trigger] out@[i]) == self.entries@[i].value()
                        && out@[i].proj() == self.entries@[i].proj(),
            decreases n - idx,
        {
            out.push(self.entries[idx].inner());
            idx += 1;
        }
        proof {
            assert forall|k: K| #[trigger] self@.contains_key(k) implies exists|i: int|
                0 <= i < out@.len() && out@[i].proj() == k by {
                let i = choose|i: int|
                    0 <= i < self.entries@.len() && self.entries@[i].proj() == k;
                assert(out@[i].proj() == k);
            }
        }
        out
    }

    /// Whether no entry is stored.
    pub fn is_empty(&self) -> (r: bool)
        ensures
            r == (self@ =~= Map::<K, V>::empty()),
    {
        proof {
            use_type_invariant(&*self);
            lemma_entries_as_map(self.entries@);
            if self.entries@.len() == 0 {
                assert(self@ =~= Map::<K, V>::empty());
            } else {
                assert(self@.dom().contains(self.entries@[0].proj()));
            }
        }
        self.entries.is_empty()
    }
}

impl<K, V: Projectable<K>> Default for ProjectedHashMap<K, V> {
    /// Constructs an empty container.
    fn default() -> (m: Self)
        ensures
            m@ == Map::<K, V>::empty(),
    {
        ProjectedHashMap::new()
    }
}

} // verus!
