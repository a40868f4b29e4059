//! Small maps kept as lists of entries with distinct keys.
use vstd::prelude::*;

verus! {

/// Keys whose equality can be tested exactly.
pub trait ExactKey: Copy {
    /// Whether `self` and `other` are the same key.
    fn same(&self, other: &Self) -> (r: bool)
        ensures
            r == (*self == *other),
    ;
}

impl ExactKey for i64 {
    fn same(&self, other: &Self) -> (r: bool) {
        *self == *other
    }
}

impl ExactKey for [u8; 32] {
    fn same(&self, other: &Self) -> (r: bool) {
        let mut i: usize = 0;
        while i < 32
            invariant
                i <= 32,
                forall|j: int| 0 <= j < i ==> self@[j] == other@[j],
            decreases 32 - i,
        {
            if self[i] != other[i] {
                return false;
            }
            i = i + 1;
        }
        broadcast use vstd::array::group_array_axioms;
        assert(*self =~= *other);
        true
    }
}

/// The map that the entries of `s` describe, later entries winning.
pub open spec fn assoc_map<K, V>(s: Seq<(K, V)>) -> Map<K, V>
    decreases s.len(),
{
    if s.len() == 0 {
        Map::empty()
    } else {
        assoc_map(s.drop_last()).insert(s.last().0, s.last().1)
    }
}

/// No key occurs twice in `s`.
pub open spec fn keys_distinct<K, V>(s: Seq<(K, V)>) -> bool {
    forall|i: int, j: int| 0 <= i < j < s.len() ==> (#[trigger] s[i]).0 != (#[trigger] s[j]).0
}

/// The keys of a list with distinct keys are the map's keys, each with its entry's value.
pub proof fn lemma_assoc_lookup<K, V>(s: Seq<(K, V)>)
    requires
        keys_distinct(s),
    ensures
        forall|k: K| #[trigger] assoc_map(s).contains_key(k) <==> exists|i: int| 0 <= i < s.len() && (#[trigger] s[i]).0 == k,
        forall|i: int| 0 <= i < s.len() ==> #[trigger] assoc_map(s)[s[i].0] == s[i].1,
        assoc_map(s).dom().finite(),
    decreases s.len(),
{
    if s.len() > 0 {
        let t = s.drop_last();
        assert forall|i: int, j: int| 0 <= i < j < t.len() implies (#[trigger] t[i]).0 != (#[trigger] t[j]).0 by {
            assert(t[i] == s[i] && t[j] == s[j]);
        }
        lemma_assoc_lookup(t);
        assert forall|k: K| #[trigger] assoc_map(s).contains_key(k) <==> exists|i: int| 0 <= i < s.len() && (#[trigger] s[i]).0 == k by {
            if assoc_map(s).contains_key(k) && k != s.last().0 {
                let i = choose|i: int| 0 <= i < t.len() && (#[trigger] t[i]).0 == k;
                assert(s[i] == t[i]);
            }
            if exists|i: int| 0 <= i < s.len() && (#[trigger] s[i]).0 == k {
                let i = choose|i: int| 0 <= i < s.len() && (#[trigger] s[i]).0 == k;
                if i < s.len() - 1 {
                    assert(t[i] == s[i]);
                }
            }
        }
        assert forall|i: int| 0 <= i < s.len() implies #[trigger] assoc_map(s)[s[i].0] == s[i].1 by {
            if i < s.len() - 1 {
                assert(t[i] == s[i]);
                assert(s[i].0 != s[s.len() - 1].0);
            }
        }
    }
}

/// A list with distinct keys has as many entries as its map has keys.
pub proof fn lemma_assoc_len<K, V>(s: Seq<(K, V)>)
    requires
        keys_distinct(s),
    ensures
        assoc_map(s).len() == s.len(),
    decreases s.len(),
{
    if s.len() > 0 {
        let t = s.drop_last();
        assert forall|i: int, j: int| 0 <= i < j < t.len() implies (#[trigger] t[i]).0 != (#[trigger] t[j]).0 by {
            assert(t[i] == s[i] && t[j] == s[j]);
        }
        lemma_assoc_len(t);
        lemma_assoc_lookup(t);
        if assoc_map(t).contains_key(s.last().0) {
            let i = choose|i: int| 0 <= i < t.len() && (#[trigger] t[i]).0 == s.last().0;
            assert(s[i] == t[i]);
        }
    }
}

/// Removing an entry of a list with distinct keys removes its key from the map.
pub proof fn lemma_assoc_remove<K, V>(s: Seq<(K, V)>, i: int)
    requires
        keys_distinct(s),
        0 <= i < s.len(),
    ensures
        assoc_map(s.remove(i)) == assoc_map(s).remove(s[i].0),
        keys_distinct(s.remove(i)),
    decreases s.len(),
{
    let t = s.drop_last();
    assert forall|a: int, b: int| 0 <= a < b < t.len() implies (#[trigger] t[a]).0 != (#[trigger] t[b]).0 by {
        assert(t[a] == s[a] && t[b] == s[b]);
    }
    let r = s.remove(i);
    assert forall|a: int, b: int| 0 <= a < b < r.len() implies (#[trigger] r[a]).0 != (#[trigger] r[b]).0 by {
        let a2 = if a < i { a } else { a + 1 };
        let b2 = if b < i { b } else { b + 1 };
        assert(r[a] == s[a2] && r[b] == s[b2]);
    }
    if i == s.len() - 1 {
        assert(r =~= t);
        lemma_assoc_lookup(t);
        assert(!assoc_map(t).contains_key(s[i].0));
        assert(assoc_map(s).remove(s[i].0) =~= assoc_map(t));
    } else {
        lemma_assoc_remove(t, i);
        assert(r.drop_last() =~= t.remove(i));
        assert(r.last() == s.last());
        assert(s[i].0 != s.last().0);
        assert(assoc_map(r) =~= assoc_map(s).remove(s[i].0));
    }
}

/// A small map: entries with distinct keys, in insertion order.
pub struct AssocList<K, V> {
    entries: Vec<(K, V)>,
}

impl<K: ExactKey, V> AssocList<K, V> {
    /// The entries, in order.
    pub closed spec fn entries(&self) -> Seq<(K, V)> {
        self.entries@
    }

    /// The map the entries describe.
    pub open spec fn map(&self) -> Map<K, V> {
        assoc_map(self.entries())
    }

    /// The list's invariant: no key occurs twice.
    pub open spec fn wf(&self) -> bool {
        keys_distinct(self.entries())
    }

    /// An empty map.
    pub fn new() -> (r: AssocList<K, V>)
        ensures
            r.wf(),
            r.map() == Map::<K, V>::empty(),
            r.entries().len() == 0,
    {
        AssocList { entries: Vec::new() }
    }

    /// The number of entries.
    pub fn len(&self) -> (r: usize)
        ensures
            r == self.entries().len(),
    {
        self.entries.len()
    }

    /// The key of the entry at position `i`.
    pub fn key_at(&self, i: usize) -> (r: K)
        requires
            i < self.entries().len(),
        ensures
            r == self.entries()[i as int].0,
    {
        self.entries[i].0
    }

    /// The value of the entry at position `i`.
    pub fn value_at(&self, i: usize) -> (r: &V)
        requires
            i < self.entries().len(),
        ensures
            *r == self.entries()[i as int].1,
    {
        &self.entries[i].1
    }

    /// The position of `key`'s entry.
    pub fn position(&self, key: &K) -> (r: Option<usize>)
        requires
            self.wf(),
        ensures
            r is None <==> !self.map().contains_key(*key),
            r is Some ==> r.unwrap() < self.entries().len() && self.entries()[r.unwrap() as int].0 == *key,
    {
        proof {
            lemma_assoc_lookup(self.entries());
        }
        let n: usize = self.entries.len();
        let mut i: usize = 0;
        while i < n
            invariant
                self.wf(),
                n == self.entries().len(),
                i <= n,
                forall|j: int| 0 <= j < i ==> (#[trigger] self.entries()[j]).0 != *key,
            decreases n - i,
        {
            if self.entries[i].0.same(key) {
                assert(self.entries()[i as int].0 == *key);
                proof {
                    lemma_assoc_lookup(self.entries());
                }
                return Some(i);
            }
            i = i + 1;
        }
        None
    }

    /// The value stored under `key`.
    pub fn get(&self, key: &K) -> (r: Option<&V>)
        requires
            self.wf(),
        ensures
            r is None <==> !self.map().contains_key(*key),
            r is Some ==> *r.unwrap() == self.map()[*key],
    {
        proof {
            lemma_assoc_lookup(self.entries());
        }
        match self.position(key) {
            Some(i) => Some(&self.entries[i].1),
            None => None,
        }
    }

    /// Remove `key`'s entry; returns its value.
    pub fn remove(&mut self, key: &K) -> (r: Option<V>)
        requires
            old(self).wf(),
        ensures
            final(self).wf(),
            final(self).map() == old(self).map().remove(*key),
            r is None <==> !old(self).map().contains_key(*key),
            r is Some ==> r.unwrap() == old(self).map()[*key],
    {
        proof {
            lemma_assoc_lookup(self.entries());
        }
        match self.position(key) {
            Some(i) => {
                proof {
                    lemma_assoc_remove(self.entries(), i as int);
                }
                let (_k, v) = self.entries.remove(i);
                Some(v)
            },
            None => {
                assert(old(self).map().remove(*key) =~= old(self).map());
                None
            },
        }
    }

    /// Store `value` under `key`, replacing what was stored there.
    pub fn insert(&mut self, key: K, value: V)
        requires
            old(self).wf(),
        ensures
            final(self).wf(),
            final(self).map() == old(self).map().insert(key, value),
    {
        let _ = self.remove(&key);
        let ghost before = self.entries();
        proof {
            lemma_assoc_lookup(before);
            assert(!assoc_map(before).contains_key(key));
        }
        self.entries.push((key, value));
        proof {
            let s = self.entries();
            assert forall|a: int, b: int| 0 <= a < b < s.len() implies (#[trigger] s[a]).0 != (#[trigger] s[b]).0 by {
                if b == s.len() - 1 {
                    assert(s[a] == before[a]);
                    if before[a].0 == key {
                        assert(assoc_map(before).contains_key(key));
                    }
                } else {
                    assert(s[a] == before[a] && s[b] == before[b]);
                }
            }
            assert(s.drop_last() =~= before);
            assert(old(self).map().remove(key).insert(key, value) =~= old(self).map().insert(key, value));
        }
    }

    /// Remove every entry.
    pub fn clear(&mut self)
        ensures
            final(self).wf(),
            final(self).map() == Map::<K, V>::empty(),
    {
        self.entries.clear();
    }

    /// The keys, in insertion order.
    pub fn keys(&self) -> (r: Vec<K>)
        requires
            self.wf(),
        ensures
            r@.len() == self.entries().len(),
            forall|i: int| 0 <= i < r@.len() ==> #[trigger] r@[i] == self.entries()[i].0,
            r@.to_set() == self.map().dom(),
            r@.no_duplicates(),
    {
        let mut r: Vec<K> = Vec::new();
        let n: usize = self.entries.len();
        let mut i: usize = 0;
        while i < n
            invariant
                n == self.entries().len(),
                i <= n,
                r@.len() == i,
                forall|j: int| 0 <= j < i ==> #[trigger] r@[j] == self.entries()[j].0,
            decreases n - i,
        {
            r.push(self.entries[i].0);
            i = i + 1;
        }
        proof {
            lemma_assoc_lookup(self.entries());
            assert forall|k: K| #[trigger] r@.to_set().contains(k) <==> self.map().dom().contains(k) by {
                if r@.contains(k) {
                    let j = choose|j: int| 0 <= j < r@.len() && r@[j] == k;
                    assert(self.entries()[j].0 == k);
                }
                if self.map().contains_key(k) {
                    let j = choose|j: int| 0 <= j < self.entries().len() && (#[trigger] self.entries()[j]).0 == k;
                    assert(r@[j] == k);
                }
            }
            assert(r@.to_set() =~= self.map().dom());
            assert forall|a: int, b: int| 0 <= a < r@.len() && 0 <= b < r@.len() && a != b implies r@[a] != r@[b] by {
                if a < b {
                    assert(self.entries()[a].0 != self.entries()[b].0);
                } else {
                    assert(self.entries()[b].0 != self.entries()[a].0);
                }
            }
        }
        r
    }
}

} // verus!
