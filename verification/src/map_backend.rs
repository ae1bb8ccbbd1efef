//! The key map: indices to recency-list node handles.
//!
//! The engine is parameterised over the map so that clients can pick a
//! representation suited to their index type. The map stores node handles,
//! not slot ids, so the engine can promote a node in the recency list
//! without touching the map.

use crate::backend::CacheIndex;
use std::collections::BTreeMap;
use std::collections::HashMap;
use vstd::prelude::*;

verus! {

/// A map from cache indices to recency-list node handles.
///
/// `model()` is the mathematical map a value represents; every method's
/// contract is stated against it.
pub trait CacheMapBackend<Key>: Sized {
    /// The mathematical map this value represents.
    spec fn model(&self) -> Map<Key, usize>;

    /// An empty map.
    fn new() -> (r: Self)
        ensures
            r.model() == Map::<Key, usize>::empty(),
    ;

    /// Look up the handle stored for `key`.
    fn get(&self, key: &Key) -> (r: Option<usize>)
        ensures
            r == (if self.model().dom().contains(*key) {
                Some(self.model()[*key])
            } else {
                None::<usize>
            }),
    ;

    /// Remove `key`, returning the handle it was mapped to, if any.
    fn remove(&mut self, key: &Key) -> (r: Option<usize>)
        ensures
            final(self).model() == old(self).model().remove(*key),
            r == (if old(self).model().dom().contains(*key) {
                Some(old(self).model()[*key])
            } else {
                None::<usize>
            }),
    ;

    /// Insert or replace the handle stored for `key`.
    fn insert(&mut self, key: Key, value: usize)
        ensures
            final(self).model() == old(self).model().insert(key, value),
    ;
}

/// What a linear scan of an association list finds first for `k`.
pub open spec fn lookup_in<K>(s: Seq<(K, usize)>, k: K) -> Option<usize>
    decreases s.len(),
{
    if s.len() == 0 {
        None
    } else if s[0].0 == k {
        Some(s[0].1)
    } else {
        lookup_in(s.drop_first(), k)
    }
}

/// A key map held as an association list, usable with any `CacheIndex` key.
pub struct ListMap<K> {
    entries: Vec<(K, usize)>,
}

impl<K> ListMap<K> {
    /// No two entries share a key.
    #[verifier::type_invariant]
    spec fn distinct_keys(self) -> bool {
        forall|a: int, b: int|
            0 <= a < b < self.entries@.len() ==> self.entries@[a].0 != self.entries@[b].0
    }
}

/// On a duplicate-free association list, the scan finds each stored pair.
proof fn lemma_lookup_finds<K>(s: Seq<(K, usize)>, k: K, j: int)
    requires
        forall|a: int, b: int| 0 <= a < b < s.len() ==> s[a].0 != s[b].0,
        0 <= j < s.len(),
        s[j].0 == k,
    ensures
        lookup_in(s, k) == Some(s[j].1),
    decreases s.len(),
{
    if j > 0 {
        lemma_lookup_finds(s.drop_first(), k, j - 1);
    }
}

/// If no entry has key `k`, the scan comes back empty.
proof fn lemma_lookup_misses<K>(s: Seq<(K, usize)>, k: K)
    requires
        forall|j: int| 0 <= j < s.len() ==> s[j].0 != k,
    ensures
        lookup_in(s, k).is_none(),
    decreases s.len(),
{
    if s.len() > 0 {
        lemma_lookup_misses(s.drop_first(), k);
    }
}

/// Removing the entry that holds `k` erases exactly `k` from the scan.
proof fn lemma_lookup_remove<K>(s: Seq<(K, usize)>, i: int, x: K)
    requires
        forall|a: int, b: int| 0 <= a < b < s.len() ==> s[a].0 != s[b].0,
        0 <= i < s.len(),
    ensures
        lookup_in(s.remove(i), x) == (if x == s[i].0 {
            None::<usize>
        } else {
            lookup_in(s, x)
        }),
{
    let s2 = s.remove(i);
    s.remove_ensures(i);
    assert(forall|a: int, b: int| 0 <= a < b < s2.len() ==> s2[a].0 != s2[b].0);
    if x == s[i].0 {
        assert forall|j: int| 0 <= j < s2.len() implies s2[j].0 != x by {
            if j < i {
                assert(s2[j] == s[j]);
            } else {
                assert(s2[j] == s[j + 1]);
            }
        }
        lemma_lookup_misses(s2, x);
    } else {
        if exists|j: int| 0 <= j < s.len() && s[j].0 == x {
            let j = choose|j: int| 0 <= j < s.len() && s[j].0 == x;
            lemma_lookup_finds(s, x, j);
            let j2 = if j < i {
                j
            } else {
                j - 1
            };
            assert(s2[j2] == (if j < i {
                s[j]
            } else {
                s[j]
            }));
            lemma_lookup_finds(s2, x, j2);
        } else {
            assert(forall|j: int| 0 <= j < s.len() ==> s[j].0 != x);
            lemma_lookup_misses(s, x);
            assert forall|j: int| 0 <= j < s2.len() implies s2[j].0 != x by {
                if j < i {
                    assert(s2[j] == s[j]);
                } else {
                    assert(s2[j] == s[j + 1]);
                }
            }
            lemma_lookup_misses(s2, x);
        }
    }
}

/// Find the position of the entry whose key equals `key`, if there is one.
fn scan_for<K: CacheIndex>(es: &Vec<(K, usize)>, key: &K) -> (r: Option<usize>)
    ensures
        (match r {
            Some(i) => i < es@.len() && es@[i as int].0 == *key,
            None => forall|j: int| 0 <= j < es@.len() ==> es@[j].0 != *key,
        }),
{
    let n = es.len();
    let mut i: usize = 0;
    while i < n
        invariant
            0 <= i <= n,
            n == es@.len(),
            forall|j: int| 0 <= j < i ==> es@[j].0 != *key,
        decreases n - i,
    {
        if es[i].0.equals(key) {
            return Some(i);
        }
        i = i + 1;
    }
    None
}

impl<K: CacheIndex> CacheMapBackend<K> for ListMap<K> {
    closed spec fn model(&self) -> Map<K, usize> {
        Map::new(
            |k: K| lookup_in(self.entries@, k).is_some(),
            |k: K| lookup_in(self.entries@, k).unwrap(),
        )
    }

    fn new() -> (r: Self) {
        let r = ListMap { entries: Vec::new() };
        proof {
            assert(r.model() =~= Map::<K, usize>::empty());
        }
        r
    }

    fn get(&self, key: &K) -> (r: Option<usize>) {
        proof {
            use_type_invariant(&*self);
        }
        match scan_for(&self.entries, key) {
            Some(i) => {
                proof {
                    lemma_lookup_finds(self.entries@, *key, i as int);
                }
                Some(self.entries[i].1)
            },
            None => {
                proof {
                    lemma_lookup_misses(self.entries@, *key);
                }
                None
            },
        }
    }

    fn remove(&mut self, key: &K) -> (r: Option<usize>) {
        proof {
            use_type_invariant(&*self);
        }
        let ghost s0 = self.entries@;
        let mut es: Vec<(K, usize)> = Vec::new();
        std::mem::swap(&mut es, &mut self.entries);
        let r: Option<usize>;
        match scan_for(&es, key) {
            Some(i) => {
                let pair = es.remove(i);
                r = Some(pair.1);
                proof {
                    lemma_lookup_finds(s0, *key, i as int);
                    assert forall|a: int, b: int|
                        0 <= a < b < es@.len() implies es@[a].0 != es@[b].0 by {
                        s0.remove_ensures(i as int);
                    }
                    assert forall|x: K| true implies #[trigger] lookup_in(es@, x) == (if x == *key {
                        None::<usize>
                    } else {
                        lookup_in(s0, x)
                    }) by {
                        lemma_lookup_remove(s0, i as int, x);
                    }
                }
            },
            None => {
                r = None;
                proof {
                    lemma_lookup_misses(s0, *key);
                }
            },
        }
        std::mem::swap(&mut es, &mut self.entries);
        proof {
            assert(self.model() =~= old(self).model().remove(*key));
        }
        r
    }

    fn insert(&mut self, key: K, value: usize) {
        proof {
            use_type_invariant(&*self);
        }
        let ghost s0 = self.entries@;
        let mut es: Vec<(K, usize)> = Vec::new();
        std::mem::swap(&mut es, &mut self.entries);
        match scan_for(&es, &key) {
            Some(i) => {
                proof {
                    lemma_lookup_finds(s0, key, i as int);
                }
                es[i] = (key, value);
                proof {
                    assert forall|a: int, b: int|
                        0 <= a < b < es@.len() implies es@[a].0 != es@[b].0 by {
                        assert(s0[a].0 != s0[b].0);
                    }
                    assert forall|x: K| true implies #[trigger] lookup_in(es@, x) == (if x
                        == s0[i as int].0 {
                        Some(value)
                    } else {
                        lookup_in(s0, x)
                    }) by {
                        if x == s0[i as int].0 {
                            lemma_lookup_finds(es@, x, i as int);
                        } else {
                            lemma_lookup_update_other(s0, i as int, (s0[i as int].0, value), x);
                        }
                    }
                }
            },
            None => {
                es.push((key, value));
                proof {
                    assert forall|a: int, b: int|
                        0 <= a < b < es@.len() implies es@[a].0 != es@[b].0 by {
                        if b < s0.len() {
                            assert(s0[a].0 != s0[b].0);
                        } else {
                            assert(es@[b].0 == key && s0[a].0 != key);
                        }
                    }
                    assert forall|x: K| true implies #[trigger] lookup_in(es@, x) == (if x == key {
                        Some(value)
                    } else {
                        lookup_in(s0, x)
                    }) by {
                        if x == key {
                            lemma_lookup_finds(es@, x, s0.len() as int);
                        } else {
                            if exists|j: int| 0 <= j < s0.len() && s0[j].0 == x {
                                let j = choose|j: int| 0 <= j < s0.len() && s0[j].0 == x;
                                lemma_lookup_finds(s0, x, j);
                                lemma_lookup_finds(es@, x, j);
                            } else {
                                assert(forall|j: int| 0 <= j < s0.len() ==> s0[j].0 != x);
                                lemma_lookup_misses(s0, x);
                                assert forall|j: int| 0 <= j < es@.len() implies es@[j].0 != x by {
                                    if j < s0.len() {
                                        assert(s0[j].0 != x);
                                    }
                                }
                                lemma_lookup_misses(es@, x);
                            }
                        }
                    }
                }
            },
        }
        std::mem::swap(&mut es, &mut self.entries);
        proof {
            assert(self.model() =~= old(self).model().insert(key, value));
        }
    }
}

/// Replacing the entry at `i` does not change what the scan finds for other keys.
proof fn lemma_lookup_update_other<K>(s: Seq<(K, usize)>, i: int, pair: (K, usize), x: K)
    requires
        forall|a: int, b: int| 0 <= a < b < s.len() ==> s[a].0 != s[b].0,
        0 <= i < s.len(),
        s[i].0 == pair.0,
        x != s[i].0,
        x != pair.0,
    ensures
        lookup_in(s.update(i, pair), x) == lookup_in(s, x),
{
    let s2 = s.update(i, pair);
    if exists|j: int| 0 <= j < s.len() && s[j].0 == x {
        let j = choose|j: int| 0 <= j < s.len() && s[j].0 == x;
        lemma_lookup_finds(s, x, j);
        assert(s2[j] == s[j]);
        assert forall|a: int, b: int| 0 <= a < b < s2.len() implies s2[a].0 != s2[b].0 by {
            assert(s[a].0 != s[b].0);
        }
        lemma_lookup_finds(s2, x, j);
    } else {
        assert(forall|j: int| 0 <= j < s.len() ==> s[j].0 != x);
        lemma_lookup_misses(s, x);
        assert forall|j: int| 0 <= j < s2.len() implies s2[j].0 != x by {
            if j != i {
                assert(s2[j] == s[j]);
            }
        }
        lemma_lookup_misses(s2, x);
    }
}

/// The hash-based variant of the key map, for caches indexed by `usize`.
impl CacheMapBackend<usize> for HashMap<usize, usize> {
    open spec fn model(&self) -> Map<usize, usize> {
        self@
    }

    fn new() -> (r: Self) {
        HashMap::new()
    }

    fn get(&self, key: &usize) -> (r: Option<usize>) {
        let found = HashMap::get(self, key);
        proof {
            broadcast use vstd::std_specs::hash::group_hash_axioms;

            assert(vstd::std_specs::hash::obeys_key_model::<usize>());
        }
        match found {
            Some(v) => Some(*v),
            None => None,
        }
    }

    fn remove(&mut self, key: &usize) -> (r: Option<usize>) {
        let r = HashMap::remove(self, key);
        proof {
            broadcast use vstd::std_specs::hash::group_hash_axioms;

            assert(vstd::std_specs::hash::obeys_key_model::<usize>());
            assert(self@ == old(self)@.remove(*key));
        }
        r
    }

    fn insert(&mut self, key: usize, value: usize) {
        HashMap::insert(self, key, value);
        proof {
            broadcast use vstd::std_specs::hash::group_hash_axioms;

            assert(vstd::std_specs::hash::obeys_key_model::<usize>());
        }
    }
}

/// The tree-based variant of the key map, for caches indexed by `usize`.
impl CacheMapBackend<usize> for BTreeMap<usize, usize> {
    open spec fn model(&self) -> Map<usize, usize> {
        self@
    }

    fn new() -> (r: Self) {
        BTreeMap::new()
    }

    fn get(&self, key: &usize) -> (r: Option<usize>) {
        let found = BTreeMap::get(self, key);
        proof {
            broadcast use vstd::std_specs::btree::group_btree_axioms;

            assert(vstd::laws_cmp::obeys_cmp::<usize>());
        }
        match found {
            Some(v) => Some(*v),
            None => None,
        }
    }

    fn remove(&mut self, key: &usize) -> (r: Option<usize>) {
        let r = BTreeMap::remove(self, key);
        proof {
            broadcast use vstd::std_specs::btree::group_btree_axioms;

            assert(vstd::laws_cmp::obeys_cmp::<usize>());
            assert(self@ == old(self)@.remove(*key));
        }
        r
    }

    fn insert(&mut self, key: usize, value: usize) {
        BTreeMap::insert(self, key, value);
        proof {
            broadcast use vstd::std_specs::btree::group_btree_axioms;

            assert(vstd::laws_cmp::obeys_cmp::<usize>());
        }
    }
}

} // verus!
