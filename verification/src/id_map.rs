//! Finite maps keyed by the crate's identifiers, stored as a list of entries with distinct
//! keys. Iteration follows the list, which is some order of the keys.

use vstd::prelude::*;

verus! {

/// An identifier usable as a map key: a copyable value determined by one number.
pub trait IdKey: Copy + Sized {
    /// The number behind the key.
    spec fn key(self) -> u64;

    /// The number behind the key, at run time.
    fn raw_key(&self) -> (r: u64)
        ensures
            r == self.key(),
    ;

    /// Keys with the same number are the same key.
    proof fn lemma_key_injective(a: Self, b: Self)
        ensures
            a.key() == b.key() ==> a == b,
    ;
}

/// Map from identifiers to values.
#[derive(Clone, Debug)]
pub struct IdMap<K, V> {
    entries: Vec<(K, V)>,
}

/// Entries with pairwise distinct keys.
pub open spec fn distinct_keys<K, V>(s: Seq<(K, V)>) -> bool {
    forall|i: int, j: int|
        0 <= i < s.len() && 0 <= j < s.len() && #[trigger] s[i].0 == #[trigger] s[j].0 ==> i == j
}

/// Position of an entry with key `k`.
pub open spec fn key_index<K, V>(s: Seq<(K, V)>, k: K) -> int {
    choose|i: int| 0 <= i < s.len() && #[trigger] s[i].0 == k
}

/// The entries as a map.
pub open spec fn entries_to_map<K, V>(s: Seq<(K, V)>) -> Map<K, V> {
    Map::new(
        |k: K| exists|i: int| 0 <= i < s.len() && #[trigger] s[i].0 == k,
        |k: K| s[key_index(s, k)].1,
    )
}

/// With distinct keys, the entry at `i` is the map's value at its key.
pub proof fn lemma_entry_in_map<K, V>(s: Seq<(K, V)>, i: int)
    requires
        distinct_keys(s),
        0 <= i < s.len(),
    ensures
        entries_to_map(s).dom().contains(s[i].0),
        entries_to_map(s)[s[i].0] == s[i].1,
{
    let c = key_index(s, s[i].0);
    assert(s[c].0 == s[i].0);
}

/// Overwriting the entry at `i` overwrites the map at its key.
proof fn lemma_map_update<K, V>(s: Seq<(K, V)>, i: int, v: V)
    requires
        distinct_keys(s),
        0 <= i < s.len(),
    ensures
        distinct_keys(s.update(i, (s[i].0, v))),
        entries_to_map(s.update(i, (s[i].0, v))) == entries_to_map(s).insert(s[i].0, v),
{
    let k = s[i].0;
    let t = s.update(i, (k, v));
    assert forall|a: int, b: int| 0 <= a < t.len() && 0 <= b < t.len() && #[trigger] t[a].0 == #[trigger] t[b].0 implies a == b by {
        assert(t[a].0 == s[a].0);
        assert(t[b].0 == s[b].0);
    }
    assert forall|p: K| #[trigger] entries_to_map(t).dom().contains(p) <==> entries_to_map(s).insert(k, v).dom().contains(p) by {
        if exists|c: int| 0 <= c < s.len() && #[trigger] s[c].0 == p {
            let c = choose|c: int| 0 <= c < s.len() && #[trigger] s[c].0 == p;
            assert(t[c].0 == p);
        }
        if p == k {
            assert(t[i].0 == p);
        }
        if exists|c: int| 0 <= c < t.len() && #[trigger] t[c].0 == p {
            let c = choose|c: int| 0 <= c < t.len() && #[trigger] t[c].0 == p;
            assert(s[c].0 == p);
        }
    }
    assert forall|p: K| #[trigger] entries_to_map(t).dom().contains(p) implies entries_to_map(t)[p] == entries_to_map(s).insert(k, v)[p] by {
        let c = key_index(t, p);
        assert(t[c].0 == p);
        if p == k {
            assert(t[i].0 == t[c].0);
        } else {
            assert(s[c].0 == p);
            let c0 = key_index(s, p);
            assert(s[c0].0 == s[c].0);
        }
    }
    assert(entries_to_map(t) =~= entries_to_map(s).insert(k, v));
}

/// Appending an entry with a new key adds that key to the map.
pub proof fn lemma_map_push<K, V>(s: Seq<(K, V)>, k: K, v: V)
    requires
        distinct_keys(s),
        !entries_to_map(s).dom().contains(k),
    ensures
        distinct_keys(s.push((k, v))),
        entries_to_map(s.push((k, v))) == entries_to_map(s).insert(k, v),
{
    let t = s.push((k, v));
    assert forall|j: int| 0 <= j < s.len() implies s[j].0 != k by {
        if s[j].0 == k {
            assert(entries_to_map(s).dom().contains(k));
        }
    }
    assert forall|a: int, b: int| 0 <= a < t.len() && 0 <= b < t.len() && #[trigger] t[a].0 == #[trigger] t[b].0 implies a == b by {
        if a < s.len() {
            assert(t[a] == s[a]);
        }
        if b < s.len() {
            assert(t[b] == s[b]);
        }
    }
    assert forall|p: K| #[trigger] entries_to_map(t).dom().contains(p) <==> entries_to_map(s).insert(k, v).dom().contains(p) by {
        if exists|c: int| 0 <= c < s.len() && #[trigger] s[c].0 == p {
            let c = choose|c: int| 0 <= c < s.len() && #[trigger] s[c].0 == p;
            assert(t[c] == s[c]);
        }
        if p == k {
            assert(t[s.len() as int].0 == p);
        }
        if exists|c: int| 0 <= c < t.len() && #[trigger] t[c].0 == p {
            let c = choose|c: int| 0 <= c < t.len() && #[trigger] t[c].0 == p;
            if c < s.len() {
                assert(t[c] == s[c]);
            }
        }
    }
    assert forall|p: K| #[trigger] entries_to_map(t).dom().contains(p) implies entries_to_map(t)[p] == entries_to_map(s).insert(k, v)[p] by {
        let c = key_index(t, p);
        assert(t[c].0 == p);
        if p == k {
            assert(t[s.len() as int].0 == t[c].0);
        } else {
            assert(c < s.len());
            assert(t[c] == s[c]);
            let c0 = key_index(s, p);
            assert(s[c0].0 == s[c].0);
        }
    }
    assert(entries_to_map(t) =~= entries_to_map(s).insert(k, v));
}

/// Removing the entry at `i` removes its key from the map.
proof fn lemma_map_remove<K, V>(s: Seq<(K, V)>, i: int)
    requires
        distinct_keys(s),
        0 <= i < s.len(),
    ensures
        distinct_keys(s.remove(i)),
        entries_to_map(s.remove(i)) == entries_to_map(s).remove(s[i].0),
{
    let k = s[i].0;
    let t = s.remove(i);
    assert forall|a: int| 0 <= a < t.len() implies #[trigger] t[a] == s[if a < i { a } else { a + 1 }] by {}
    assert forall|a: int, b: int| 0 <= a < t.len() && 0 <= b < t.len() && #[trigger] t[a].0 == #[trigger] t[b].0 implies a == b by {
        let a1 = if a < i { a } else { a + 1 };
        let b1 = if b < i { b } else { b + 1 };
        assert(t[a] == s[a1]);
        assert(t[b] == s[b1]);
    }
    assert forall|p: K| #[trigger] entries_to_map(t).dom().contains(p) <==> entries_to_map(s).remove(k).dom().contains(p) by {
        if exists|c: int| 0 <= c < s.len() && #[trigger] s[c].0 == p {
            let c = choose|c: int| 0 <= c < s.len() && #[trigger] s[c].0 == p;
            if p != k {
                assert(c != i);
                let c1 = if c < i { c } else { c - 1 };
                assert(t[c1] == s[c]);
            }
        }
        if exists|c: int| 0 <= c < t.len() && #[trigger] t[c].0 == p {
            let c = choose|c: int| 0 <= c < t.len() && #[trigger] t[c].0 == p;
            let c1 = if c < i { c } else { c + 1 };
            assert(t[c] == s[c1]);
            assert(c1 != i);
        }
    }
    assert forall|p: K| #[trigger] entries_to_map(t).dom().contains(p) implies entries_to_map(t)[p] == entries_to_map(s).remove(k)[p] by {
        let c = key_index(t, p);
        assert(t[c].0 == p);
        let c1 = if c < i { c } else { c + 1 };
        assert(t[c] == s[c1]);
        let c0 = key_index(s, p);
        assert(s[c0].0 == s[c1].0);
    }
    assert(entries_to_map(t) =~= entries_to_map(s).remove(k));
}

/// With distinct keys, the map has as many keys as there are entries.
proof fn lemma_map_len<K, V>(s: Seq<(K, V)>)
    requires
        distinct_keys(s),
    ensures
        entries_to_map(s).dom().finite(),
        entries_to_map(s).dom().len() == s.len(),
{
    let ks = s.map_values(|e: (K, V)| e.0);
    assert(ks.no_duplicates()) by {
        assert forall|a: int, b: int| 0 <= a < ks.len() && 0 <= b < ks.len() && a != b implies ks[a] != ks[b] by {
            assert(ks[a] == s[a].0 && ks[b] == s[b].0);
        }
    }
    ks.unique_seq_to_set();
    assert forall|p: K| #[trigger] entries_to_map(s).dom().contains(p) <==> ks.to_set().contains(p) by {
        if ks.to_set().contains(p) {
            assert(ks.contains(p));
            let c = choose|c: int| 0 <= c < ks.len() && ks[c] == p;
            assert(s[c].0 == p);
        }
        if entries_to_map(s).dom().contains(p) {
            let c = choose|c: int| 0 <= c < s.len() && #[trigger] s[c].0 == p;
            assert(ks[c] == p);
        }
    }
    assert(entries_to_map(s).dom() =~= ks.to_set());
}

impl<K: IdKey, V> IdMap<K, V> {
    /// Each key has at most one entry.
    pub closed spec fn wf(self) -> bool {
        distinct_keys(self.entries@)
    }

    /// The map from keys to values.
    pub closed spec fn view(self) -> Map<K, V> {
        entries_to_map(self.entries@)
    }

    /// The map has finitely many keys.
    pub broadcast proof fn lemma_finite(self)
        requires
            self.wf(),
        ensures
            #[trigger] self@.dom().finite(),
    {
        lemma_map_len(self.entries@);
    }

    /// The empty map.
    pub fn new() -> (r: Self)
        ensures
            r.wf(),
            r@ == Map::<K, V>::empty(),
    {
        let r = IdMap { entries: Vec::new() };
        assert(r@ =~= Map::<K, V>::empty());
        r
    }

    /// Number of keys.
    pub fn len(&self) -> (r: usize)
        requires
            self.wf(),
        ensures
            r == self@.dom().len(),
    {
        proof {
            lemma_map_len(self.entries@);
        }
        self.entries.len()
    }

    /// Position of the entry with key `k`.
    fn find(&self, k: K) -> (r: Option<usize>)
        requires
            self.wf(),
        ensures
            r is Some <==> self@.dom().contains(k),
            r matches Some(i) ==> i < self.entries@.len() && self.entries@[i as int].0 == k,
    {
        let target = k.raw_key();
        let mut i: usize = 0;
        while i < self.entries.len()
            invariant
                i <= self.entries@.len(),
                target == k.key(),
                forall|j: int| 0 <= j < i ==> self.entries@[j].0 != k,
            decreases self.entries@.len() - i,
        {
            let cand = self.entries[i].0;
            if cand.raw_key() == target {
                proof {
                    K::lemma_key_injective(cand, k);
                }
                return Some(i);
            }
            i += 1;
        }
        proof {
            if self@.dom().contains(k) {
                let c = choose|c: int| 0 <= c < self.entries@.len() && #[trigger] self.entries@[c].0 == k;
                assert(self.entries@[c].0 != k);
            }
        }
        None
    }

    /// Whether `k` has a value.
    pub fn contains_key(&self, k: K) -> (r: bool)
        requires
            self.wf(),
        ensures
            r == self@.dom().contains(k),
    {
        self.find(k).is_some()
    }

    /// The value at `k`, if any.
    pub fn get(&self, k: K) -> (r: Option<&V>)
        requires
            self.wf(),
        ensures
            r is Some <==> self@.dom().contains(k),
            r matches Some(v) ==> *v == self@[k],
    {
        match self.find(k) {
            Some(i) => {
                proof {
                    lemma_entry_in_map(self.entries@, i as int);
                }
                Some(&self.entries[i].1)
            },
            None => None,
        }
    }

    /// Mutable access to the value at `k`, if any; the map holds what is written through it.
    pub fn get_mut(&mut self, k: K) -> (r: Option<&mut V>)
        requires
            old(self).wf(),
        ensures
            r is Some <==> old(self)@.dom().contains(k),
            r matches Some(v) ==> *v == old(self)@[k],
            r matches Some(v) ==> final(self).wf(),
            r matches Some(v) ==> final(self)@ == old(self)@.insert(k, *final(v)),
            r is None ==> *final(self) == *old(self),
    {
        match self.find(k) {
            Some(i) => {
                proof {
                    lemma_entry_in_map(self.entries@, i as int);
                    assert forall|e: (K, V)| e.0 == k implies distinct_keys(#[trigger] self.entries@.update(i as int, e)) && entries_to_map(
                        self.entries@.update(i as int, e),
                    ) == entries_to_map(self.entries@).insert(k, e.1) by {
                        lemma_map_update(self.entries@, i as int, e.1);
                        assert(e == (self.entries@[i as int].0, e.1));
                    }
                }
                Some(&mut self.entries[i].1)
            },
            None => None,
        }
    }

    /// Set the value at `k`; returns the value it replaced, if any.
    pub fn insert(&mut self, k: K, v: V) -> (r: Option<V>)
        requires
            old(self).wf(),
        ensures
            final(self).wf(),
            final(self)@ == old(self)@.insert(k, v),
            r is Some <==> old(self)@.dom().contains(k),
            r matches Some(x) ==> x == old(self)@[k],
    {
        match self.find(k) {
            Some(i) => {
                proof {
                    lemma_entry_in_map(self.entries@, i as int);
                    lemma_map_update(self.entries@, i as int, v);
                }
                let old_entry = self.entries.remove(i);
                self.entries.insert(i, (k, v));
                proof {
                    assert(self.entries@ =~= old(self).entries@.update(i as int, (k, v)));
                }
                Some(old_entry.1)
            },
            None => {
                proof {
                    lemma_map_push(self.entries@, k, v);
                }
                self.entries.push((k, v));
                None
            },
        }
    }

    /// Remove the value at `k`, returning it.
    pub fn remove(&mut self, k: K) -> (r: Option<V>)
        requires
            old(self).wf(),
        ensures
            final(self).wf(),
            final(self)@ == old(self)@.remove(k),
            r is Some <==> old(self)@.dom().contains(k),
            r matches Some(x) ==> x == old(self)@[k],
    {
        match self.find(k) {
            Some(i) => {
                proof {
                    lemma_entry_in_map(self.entries@, i as int);
                    lemma_map_remove(self.entries@, i as int);
                }
                let e = self.entries.remove(i);
                Some(e.1)
            },
            None => {
                assert(self@.remove(k) =~= self@);
                None
            },
        }
    }

    /// Remove every entry.
    pub fn clear(&mut self)
        ensures
            final(self).wf(),
            final(self)@ == Map::<K, V>::empty(),
    {
        self.entries.clear();
        assert(self@ =~= Map::<K, V>::empty());
    }

    /// The entries, each key once, in the map's iteration order.
    pub fn as_slice(&self) -> (r: &[(K, V)])
        requires
            self.wf(),
        ensures
            distinct_keys(r@),
            entries_to_map(r@) == self@,
    {
        self.entries.as_slice()
    }

    /// The keys, each once, in the map's iteration order.
    pub fn keys(&self) -> (r: Vec<K>)
        requires
            self.wf(),
        ensures
            r@.no_duplicates(),
            r@.len() == self@.dom().len(),
            forall|k: K| #[trigger] r@.contains(k) <==> self@.dom().contains(k),
    {
        let mut r: Vec<K> = Vec::new();
        let mut i: usize = 0;
        while i < self.entries.len()
            invariant
                i <= self.entries@.len(),
                distinct_keys(self.entries@),
                r@.len() == i,
                forall|j: int| 0 <= j < i ==> #[trigger] r@[j] == self.entries@[j].0,
            decreases self.entries@.len() - i,
        {
            r.push(self.entries[i].0);
            i += 1;
        }
        proof {
            lemma_map_len(self.entries@);
            assert forall|a: int, b: int| 0 <= a < r@.len() && 0 <= b < r@.len() && a != b implies r@[a] != r@[b] by {
                assert(r@[a] == self.entries@[a].0 && r@[b] == self.entries@[b].0);
            }
            assert forall|k: K| #[trigger] r@.contains(k) <==> self@.dom().contains(k) by {
                if r@.contains(k) {
                    let c = choose|c: int| 0 <= c < r@.len() && r@[c] == k;
                    assert(self.entries@[c].0 == k);
                }
                if self@.dom().contains(k) {
                    let c = choose|c: int| 0 <= c < self.entries@.len() && #[trigger] self.entries@[c].0 == k;
                    assert(r@[c] == k);
                }
            }
        }
        r
    }
}

} // verus!
