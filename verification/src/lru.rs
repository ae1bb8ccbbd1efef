//! The LRU engine: the public cache API over the slot table, the recency
//! list, the key map and the backend.

use crate::backend::CacheBackend;
use crate::backend::CacheIndex;
use crate::linked_list::LinkedList;
use crate::map_backend::CacheMapBackend;
use std::collections::VecDeque;
use vstd::prelude::*;

verus! {

/// One resident entry: its index, the item, and whether the item was newly
/// inserted or mutated while cached (and so must be written back dirty).
pub struct CacheItem<Index, Item> {
    pub index: Index,
    pub item: Item,
    pub updated: bool,
}

/// Whether some entry of `s` has index `k`.
pub open spec fn resident_in<I, V>(s: Seq<CacheItem<I, V>>, k: I) -> bool {
    exists|j: int| 0 <= j < s.len() && s[j].index == k
}

/// The position of the entry of `s` with index `k`.
pub open spec fn position_of<I, V>(s: Seq<CacheItem<I, V>>, k: I) -> int {
    choose|j: int| 0 <= j < s.len() && s[j].index == k
}

/// No two entries of `s` share an index.
pub open spec fn distinct_indices<I, V>(s: Seq<CacheItem<I, V>>) -> bool {
    forall|a: int, b: int| 0 <= a < b < s.len() ==> s[a].index != s[b].index
}

/// The total weight of the entries of `s`.
pub open spec fn sum_weights<Back: CacheBackend>(
    s: Seq<CacheItem<Back::Index, Back::Item>>,
) -> nat
    decreases s.len(),
{
    if s.len() == 0 {
        0
    } else {
        (Back::spec_weight(s[0].index, s[0].item) + sum_weights::<Back>(s.drop_first())) as nat
    }
}

/// The entry at `j` moved to the back, everything else kept in order.
pub open spec fn promote<I, V>(s: Seq<CacheItem<I, V>>, j: int) -> Seq<CacheItem<I, V>> {
    s.remove(j).push(s[j])
}

/// The admission step of the insert path: entries are evicted from the
/// front (least recently used first) while the cache is non-empty and
/// `w` more weight would exceed `cap`; each eviction hands its entry to the
/// backend's write-back. Returns the backend and the surviving entries.
pub open spec fn admit_evictions<Back: CacheBackend>(
    b: Back,
    s: Seq<CacheItem<Back::Index, Back::Item>>,
    w: usize,
    cap: usize,
) -> (Back, Seq<CacheItem<Back::Index, Back::Item>>)
    decreases s.len(),
{
    if s.len() > 0 && sum_weights::<Back>(s) + w > cap {
        admit_evictions::<Back>(
            b.spec_after_write_back(s[0].index, s[0].item, s[0].updated),
            s.drop_first(),
            w,
            cap,
        )
    } else {
        (b, s)
    }
}

/// The total weight splits around any position.
pub proof fn lemma_sum_remove<Back: CacheBackend>(
    s: Seq<CacheItem<Back::Index, Back::Item>>,
    j: int,
)
    requires
        0 <= j < s.len(),
    ensures
        sum_weights::<Back>(s) == sum_weights::<Back>(s.remove(j)) + Back::spec_weight(
            s[j].index,
            s[j].item,
        ),
    decreases s.len(),
{
    if j == 0 {
        assert(s.remove(0) =~= s.drop_first());
    } else {
        lemma_sum_remove::<Back>(s.drop_first(), j - 1);
        assert(s.remove(j).drop_first() =~= s.drop_first().remove(j - 1));
        assert(s.remove(j)[0] == s[0]);
    }
}

/// Appending an entry adds its weight to the total.
pub proof fn lemma_sum_push<Back: CacheBackend>(
    s: Seq<CacheItem<Back::Index, Back::Item>>,
    e: CacheItem<Back::Index, Back::Item>,
)
    ensures
        sum_weights::<Back>(s.push(e)) == sum_weights::<Back>(s) + Back::spec_weight(
            e.index,
            e.item,
        ),
    decreases s.len(),
{
    if s.len() == 0 {
        assert(s.push(e)[0] == e);
        assert(s.push(e).drop_first() =~= Seq::<CacheItem<Back::Index, Back::Item>>::empty());
        assert(sum_weights::<Back>(s.push(e).drop_first()) == 0);
        assert(sum_weights::<Back>(s) == 0);
    } else {
        lemma_sum_push::<Back>(s.drop_first(), e);
        assert(s.push(e).drop_first() =~= s.drop_first().push(e));
        assert(s.push(e)[0] == s[0]);
        assert(sum_weights::<Back>(s.push(e)) == (Back::spec_weight(s[0].index, s[0].item)
            + sum_weights::<Back>(s.drop_first().push(e))) as nat);
        assert(sum_weights::<Back>(s) == (Back::spec_weight(s[0].index, s[0].item)
            + sum_weights::<Back>(s.drop_first())) as nat);
    }
}

/// The write-backs for the entries of `s`, delivered in order, front first.
pub open spec fn fold_write_backs<Back: CacheBackend>(
    b: Back,
    s: Seq<CacheItem<Back::Index, Back::Item>>,
) -> Back
    decreases s.len(),
{
    if s.len() == 0 {
        b
    } else {
        fold_write_backs::<Back>(
            b.spec_after_write_back(s[0].index, s[0].item, s[0].updated),
            s.drop_first(),
        )
    }
}

/// An admission evicts exactly a prefix of the entries, least recently
/// used first: each evicted entry is delivered to the backend's write-back
/// exactly once, in eviction order, and the remaining entries survive in
/// their order.
pub proof fn lemma_admission_evicts_prefix<Back: CacheBackend>(
    b: Back,
    s: Seq<CacheItem<Back::Index, Back::Item>>,
    w: usize,
    cap: usize,
)
    ensures
        exists|n: int|
            {
                &&& 0 <= n <= s.len()
                &&& #[trigger] s.take(n) == s.take(n)
                &&& admit_evictions::<Back>(b, s, w, cap).1 == s.skip(n)
                &&& admit_evictions::<Back>(b, s, w, cap).0 == fold_write_backs::<Back>(
                    b,
                    s.take(n),
                )
            },
    decreases s.len(),
{
    if s.len() > 0 && sum_weights::<Back>(s) + w > cap {
        let b1 = b.spec_after_write_back(s[0].index, s[0].item, s[0].updated);
        let s1 = s.drop_first();
        lemma_admission_evicts_prefix::<Back>(b1, s1, w, cap);
        let n1 = choose|n1: int|
            {
                &&& 0 <= n1 <= s1.len()
                &&& #[trigger] s1.take(n1) == s1.take(n1)
                &&& admit_evictions::<Back>(b1, s1, w, cap).1 == s1.skip(n1)
                &&& admit_evictions::<Back>(b1, s1, w, cap).0 == fold_write_backs::<Back>(
                    b1,
                    s1.take(n1),
                )
            };
        let n = n1 + 1;
        assert(s.skip(n) =~= s1.skip(n1));
        assert(s.take(n)[0] == s[0]);
        assert(s.take(n).drop_first() =~= s1.take(n1));
        assert(s.take(n).len() > 0);
        assert(fold_write_backs::<Back>(b, s.take(n)) == fold_write_backs::<Back>(
            b1,
            s1.take(n1),
        ));
        assert(admit_evictions::<Back>(b, s, w, cap).1 == s.skip(n));
    } else {
        let n: int = 0;
        assert(s.skip(0) =~= s);
        assert(s.take(0) =~= Seq::<CacheItem<Back::Index, Back::Item>>::empty());
        assert(fold_write_backs::<Back>(b, s.take(0)) == b);
    }
}

/// Promotion is idempotent: once the entry holding `k` is most recent,
/// promoting it again changes nothing, so a second read of the same key
/// leaves the whole recency order as it was.
pub proof fn lemma_promote_idempotent<I, V>(s: Seq<CacheItem<I, V>>, k: I)
    requires
        distinct_indices(s),
        resident_in(s, k),
    ensures
        ({
            let s1 = promote(s, position_of(s, k));
            &&& resident_in(s1, k)
            &&& distinct_indices(s1)
            &&& promote(s1, position_of(s1, k)) == s1
        }),
{
    let j = position_of(s, k);
    assert(0 <= j < s.len() && s[j].index == k);
    let n = s.len();
    let s1 = promote(s, j);
    s.remove_ensures(j);
    assert(s1[n - 1] == s[j]);
    assert(resident_in(s1, k));
    assert(distinct_indices(s1)) by {
        assert forall|a: int, b: int|
            0 <= a < b < s1.len() implies s1[a].index != s1[b].index by {
            let a0 = if a < j {
                a
            } else if a < n - 1 {
                a + 1
            } else {
                j
            };
            let b0 = if b < j {
                b
            } else if b < n - 1 {
                b + 1
            } else {
                j
            };
            assert(s1[a] == s[a0] && s1[b] == s[b0]);
            assert(a0 != b0);
            if a0 < b0 {
                assert(s[a0].index != s[b0].index);
            } else {
                assert(s[b0].index != s[a0].index);
            }
        }
    }
    let j1 = position_of(s1, k);
    assert(0 <= j1 < s1.len() && s1[j1].index == k);
    assert(j1 == n - 1) by {
        if j1 != n - 1 {
            assert(s1[j1].index != s1[n - 1].index);
        }
    }
    assert(promote(s1, n - 1) =~= s1) by {
        assert(s1.remove(n - 1) =~= s.remove(j));
    }
}

/// An LRU cache whose key map is the hash-based variant.
pub type LRUCache<Back> = LRU<Back, std::collections::HashMap<<Back as CacheBackend>::Index, usize>>;

/// An LRU cache whose key map is the tree-based variant.
pub type BTreeLRUCache<Back> = LRU<
    Back,
    std::collections::BTreeMap<<Back as CacheBackend>::Index, usize>,
>;

/// An LRU cache whose key map is the association-list map, usable with
/// any backend whose index type is a `CacheIndex`.
pub type ListLRUCache<Back> = LRU<Back, crate::map_backend::ListMap<<Back as CacheBackend>::Index>>;

/// The LRU engine itself.
///
/// `Back` supplies the items and accepts evictions; `M` maps resident
/// indices to recency-list node handles. The engine owns the slot table,
/// the recency list, the key map and the weight bookkeeping, and keeps
/// them mutually consistent across every operation.
pub struct LRU<Back: CacheBackend, M: CacheMapBackend<Back::Index>> {
    cache: Vec<Option<CacheItem<Back::Index, Back::Item>>>,
    spaces: VecDeque<usize>,
    list: LinkedList<usize>,
    backend: Back,
    map: M,
    weight_sum: usize,
    capacity: usize,
}

impl<Back: CacheBackend, M: CacheMapBackend<Back::Index>> LRU<Back, M> {
    /// The slot id the recency node at position `j` points to.
    spec fn slot_at(&self, j: int) -> usize {
        self.list.spec_value(self.list.handles()[j])
    }

    /// The resident entries in recency order, least recently used first.
    pub closed spec fn entries(&self) -> Seq<CacheItem<Back::Index, Back::Item>> {
        Seq::new(
            self.list.handles().len(),
            |j: int| self.cache@[self.slot_at(j) as int].unwrap(),
        )
    }

    /// The backend, as the cache currently holds it.
    pub closed spec fn backend_model(&self) -> Back {
        self.backend
    }

    /// The key map's contents: resident indices to node handles.
    pub closed spec fn map_model(&self) -> Map<Back::Index, usize> {
        self.map.model()
    }

    /// The configured capacity.
    pub closed spec fn capacity_model(&self) -> usize {
        self.capacity
    }

    /// The running total weight of the resident entries.
    pub closed spec fn weight_model(&self) -> usize {
        self.weight_sum
    }

    /// The entry held by the slot that the recency node `h` points to.
    pub closed spec fn stored_at(&self, h: usize) -> CacheItem<Back::Index, Back::Item> {
        self.cache@[self.list.spec_value(h) as int].unwrap()
    }

    /// Every recency node points to an occupied slot in range.
    spec fn slots_ok(&self) -> bool {
        forall|j: int|
            0 <= j < self.list.handles().len() ==> (#[trigger] self.slot_at(j))
                < self.cache@.len() && self.cache@[self.slot_at(j) as int].is_some()
    }

    /// No two recency nodes share a slot.
    spec fn slots_distinct(&self) -> bool {
        forall|a: int, b: int|
            0 <= a < b < self.list.handles().len() ==> self.slot_at(a) != self.slot_at(b)
    }

    /// The key map holds exactly the resident indices, each mapped to the
    /// recency node whose slot stores that index.
    spec fn map_ok(&self) -> bool {
        &&& forall|j: int|
            0 <= j < self.entries().len() ==> self.map_model().dom().contains(
                #[trigger] self.entries()[j].index,
            ) && self.map_model()[self.entries()[j].index] == self.list.handles()[j]
        &&& forall|k: Back::Index|
            #[trigger] self.map_model().dom().contains(k) ==> resident_in(self.entries(), k)
    }

    /// The free queue holds exactly the unoccupied slot ids.
    spec fn spaces_ok(&self) -> bool {
        &&& self.spaces@.no_duplicates()
        &&& forall|i: int|
            0 <= i < self.spaces@.len() ==> (#[trigger] self.spaces@[i]) < self.cache@.len()
        &&& forall|s: usize|
            s < self.cache@.len() ==> (#[trigger] self.cache@[s as int].is_none()
                <==> self.spaces@.contains(s))
    }

    /// Occupied slots are exactly those some recency node points to.
    spec fn slots_covered(&self) -> bool {
        forall|s: usize|
            s < self.cache@.len() ==> (#[trigger] self.cache@[s as int].is_some() <==> exists|j: int|
                0 <= j < self.list.handles().len() && self.slot_at(j) == s)
    }

    /// The engine's structures are mutually consistent.
    pub closed spec fn wf(&self) -> bool {
        &&& self.list.wf()
        &&& self.slots_ok()
        &&& self.slots_distinct()
        &&& distinct_indices(self.entries())
        &&& self.map_ok()
        &&& self.spaces_ok()
        &&& self.slots_covered()
        &&& self.weight_sum == sum_weights::<Back>(self.entries())
        &&& (self.weight_sum <= self.capacity || self.entries().len() <= 1)
    }

    /// Create a cache with the given backend and capacity bound.
    pub fn with_capacity(backend: Back, capacity: usize) -> (r: Self)
        ensures
            r.wf(),
            r.entries() == Seq::<CacheItem<Back::Index, Back::Item>>::empty(),
            r.backend_model() == backend,
            r.capacity_model() == capacity,
            r.map_model() == Map::<Back::Index, usize>::empty(),
            r.weight_model() == 0,
    {
        let r = LRU {
            cache: Vec::new(),
            spaces: VecDeque::new(),
            list: LinkedList::new(),
            backend,
            map: M::new(),
            weight_sum: 0,
            capacity,
        };
        proof {
            assert(r.entries() =~= Seq::<CacheItem<Back::Index, Back::Item>>::empty());
        }
        r
    }

    /// Create a cache with the default capacity of 10.
    pub fn new(backend: Back) -> (r: Self)
        ensures
            r.wf(),
            r.entries() == Seq::<CacheItem<Back::Index, Back::Item>>::empty(),
            r.backend_model() == backend,
            r.capacity_model() == 10,
            r.map_model() == Map::<Back::Index, usize>::empty(),
            r.weight_model() == 0,
    {
        Self::with_capacity(backend, 10)
    }

    /// Add an item under `index`, dirty, write-back. If `index` is already
    /// resident, its prior entry is first evicted through the backend's
    /// write-back, with the dirty bit it carried; then the new entry is
    /// admitted like a fresh insertion, evicting least recently used
    /// entries while its weight does not fit within the capacity.
    pub fn insert(&mut self, index: Back::Index, item: Back::Item)
        requires
            old(self).wf(),
        ensures
            final(self).wf(),
            final(self).capacity_model() == old(self).capacity_model(),
            ({
                let s0 = old(self).entries();
                let b0 = old(self).backend_model();
                let w = Back::spec_weight(index, item);
                let j = position_of(s0, index);
                let b1 = if resident_in(s0, index) {
                    b0.spec_after_write_back(s0[j].index, s0[j].item, s0[j].updated)
                } else {
                    b0
                };
                let s1 = if resident_in(s0, index) {
                    s0.remove(j)
                } else {
                    s0
                };
                let a = admit_evictions::<Back>(b1, s1, w, old(self).capacity_model());
                &&& final(self).entries() == a.1.push(
                    (CacheItem { index: index, item: item, updated: true }),
                )
                &&& final(self).backend_model() == a.0
            }),
    {
        let has = self.map.get(&index);
        proof {
            if has.is_some() {
                assert(resident_in(self.entries(), index));
            } else {
                assert(!resident_in(self.entries(), index)) by {
                    if resident_in(self.entries(), index) {
                        let p = choose|p: int|
                            0 <= p < self.entries().len() && self.entries()[p].index == index;
                        assert(self.map_model().dom().contains(self.entries()[p].index));
                    }
                }
            }
        }
        if has.is_some() {
            self.evict_resident(&index);
        }
        self.insert_cache(index, item, true);
    }

    /// The shared read path. On a hit, promote the entry to most recent,
    /// mark it dirty if `update` is set, and hand out its item. On a miss,
    /// ask the backend; admit what it returns (dirty only for `update`), or
    /// report absence. The returned reference is mutable; the structures
    /// stay consistent as long as a mutation through it keeps the item's
    /// weight, which `get` (read-only) always does.
    fn get_inner(&mut self, index: &Back::Index, update: bool) -> (r: Option<&mut Back::Item>)
        requires
            old(self).wf(),
        ensures
            final(self).capacity_model() == old(self).capacity_model(),
            ({
                let s0 = old(self).entries();
                let b0 = old(self).backend_model();
                if resident_in(s0, *index) {
                    let j = position_of(s0, *index);
                    &&& r.is_some()
                    &&& *r.unwrap() == s0[j].item
                    &&& final(self).entries() == s0.remove(j).push(
                        (CacheItem {
                            index: s0[j].index,
                            item: *final(r.unwrap()),
                            updated: s0[j].updated || update,
                        }),
                    )
                    &&& final(self).backend_model() == b0
                    &&& (Back::spec_weight(s0[j].index, *final(r.unwrap())) == Back::spec_weight(
                        s0[j].index,
                        s0[j].item,
                    ) ==> final(self).wf())
                } else {
                    let b1 = b0.spec_after_load(*index);
                    match b0.spec_load(*index) {
                        None => {
                            &&& r.is_none()
                            &&& final(self).entries() == s0
                            &&& final(self).backend_model() == b1
                            &&& final(self).wf()
                        },
                        Some(v) => {
                            let a = admit_evictions::<Back>(
                                b1,
                                s0,
                                Back::spec_weight(*index, v),
                                old(self).capacity_model(),
                            );
                            &&& r.is_some()
                            &&& *r.unwrap() == v
                            &&& final(self).entries() == a.1.push(
                                (CacheItem {
                                    index: *index,
                                    item: *final(r.unwrap()),
                                    updated: update,
                                }),
                            )
                            &&& final(self).backend_model() == a.0
                            &&& (Back::spec_weight(*index, *final(r.unwrap()))
                                == Back::spec_weight(*index, v) ==> final(self).wf())
                        },
                    }
                }
            }),
    {
        let ghost pre = *self;
        let ghost s0 = pre.entries();
        let hopt = self.map.get(index);
        match hopt {
            Some(h) => {
                let ghost j = position_of(s0, *index);
                proof {
                    assert(resident_in(s0, *index));
                    assert(0 <= j < s0.len() && s0[j].index == *index);
                    assert(h == pre.list.handles()[j]);
                    assert(pre.list.handles().contains(h)) by {
                        assert(pre.list.handles()[j] == h);
                    }
                    pre.list.lemma_handles_distinct();
                    assert(pre.list.handles().index_of(h) == j) by {
                        let i = pre.list.handles().index_of(h);
                        assert(0 <= i < pre.list.handles().len() && pre.list.handles()[i] == h);
                        if i != j {
                            assert(pre.list.handles()[i] == pre.list.handles()[j]);
                        }
                    }
                }
                self.list.move_to_last(h);
                proof {
                    Self::lemma_promote_wf(pre, *self, j);
                }
                let ghost mid = *self;
                let ghost n = mid.entries().len();
                let ghost e = s0[j];
                proof {
                    assert(mid.entries() == promote(s0, j));
                    assert(mid.list.handles().last() == h);
                    assert(mid.list.handles().contains(h)) by {
                        assert(mid.list.handles()[n - 1] == h);
                    }
                }
                let slot = *self.list.get_value(h);
                proof {
                    assert(slot == mid.slot_at(n - 1));
                    assert(mid.slot_at(n - 1) < mid.cache@.len());
                    assert(mid.entries()[n - 1] == e);
                    assert(mid.cache@[slot as int].unwrap() == e);
                }
                let elem = &mut self.cache[slot];
                match elem {
                    Some(ci) => {
                        if update {
                            ci.updated = true;
                        }
                        let r = &mut ci.item;
                        proof {
                            let post = after_borrow(*self);
                            let e2 = (CacheItem {
                                index: e.index,
                                item: *final(r),
                                updated: e.updated || update,
                            });
                            assert(post.cache@ == mid.cache@.update(slot as int, Some(e2)));
                            Self::lemma_update_last_wf(mid, post, e2);
                            assert(post.entries() == promote(s0, j).update(n - 1, e2));
                            assert(post.entries() =~= s0.remove(j).push(e2));
                        }
                        Some(r)
                    },
                    None => {
                        proof {
                            assert(false);
                        }
                        None
                    },
                }
            },
            None => {
                proof {
                    assert(!resident_in(s0, *index)) by {
                        if resident_in(s0, *index) {
                            let p = choose|p: int| 0 <= p < s0.len() && s0[p].index == *index;
                            assert(pre.map_model().dom().contains(s0[p].index));
                        }
                    }
                }
                let loaded = self.backend.load_from_backend(index);
                proof {
                    Self::lemma_wf_unmoved(pre, *self);
                }
                match loaded {
                    Some(item) => {
                        let ghost v = item;
                        let ghost before_insert = *self;
                        self.insert_cache(index.duplicate(), item, update);
                        let ghost mid = *self;
                        let ghost n = mid.entries().len();
                        let ghost a = admit_evictions::<Back>(
                            before_insert.backend_model(),
                            s0,
                            Back::spec_weight(*index, v),
                            pre.capacity_model(),
                        );
                        proof {
                            assert(mid.entries() == a.1.push(
                                (CacheItem { index: *index, item: v, updated: update }),
                            ));
                            assert(n > 0 && mid.entries()[n - 1].index == *index);
                            assert(mid.map_model().dom().contains(*index)) by {
                                assert(mid.map_model().dom().contains(mid.entries()[n - 1].index));
                            }
                            assert(mid.map_model()[*index] == mid.list.handles()[n - 1]) by {
                                assert(mid.map_model()[mid.entries()[n - 1].index]
                                    == mid.list.handles()[n - 1]);
                            }
                        }
                        let h2opt = self.map.get(index);
                        let h2 = h2opt.unwrap();
                        proof {
                            assert(h2 == mid.list.handles()[n - 1]);
                            assert(mid.list.handles().contains(h2)) by {
                                assert(mid.list.handles()[n - 1] == h2);
                            }
                        }
                        let slot = *self.list.get_value(h2);
                        proof {
                            assert(slot == mid.slot_at(n - 1));
                            assert(mid.slot_at(n - 1) < mid.cache@.len());
                            assert(mid.cache@[slot as int].unwrap() == (CacheItem {
                                index: *index,
                                item: v,
                                updated: update,
                            }));
                        }
                        let elem = &mut self.cache[slot];
                        match elem {
                            Some(ci) => {
                                let r = &mut ci.item;
                                proof {
                                    let post = after_borrow(*self);
                                    let e2 = (CacheItem {
                                        index: *index,
                                        item: *final(r),
                                        updated: update,
                                    });
                                    assert(post.cache@ == mid.cache@.update(
                                        slot as int,
                                        Some(e2),
                                    ));
                                    Self::lemma_update_last_wf(mid, post, e2);
                                    assert(post.entries() =~= a.1.push(e2));
                                }
                                Some(r)
                            },
                            None => {
                                proof {
                                    assert(false);
                                }
                                None
                            },
                        }
                    },
                    None => {
                        proof {
                            assert(self.entries() == s0);
                        }
                        None
                    },
                }
            },
        }
    }

    /// Read the item cached under `index`. A resident entry is promoted to
    /// most recently used and returned; its dirty state is untouched, and
    /// the backend sees no call. Otherwise the backend is asked once: what
    /// it returns is admitted clean (evicting least recently used entries
    /// while its weight does not fit), and absence is surfaced as `None`.
    pub fn get(&mut self, index: &Back::Index) -> (r: Option<&Back::Item>)
        requires
            old(self).wf(),
        ensures
            final(self).wf(),
            final(self).capacity_model() == old(self).capacity_model(),
            ({
                let s0 = old(self).entries();
                let b0 = old(self).backend_model();
                if resident_in(s0, *index) {
                    let j = position_of(s0, *index);
                    &&& r.is_some()
                    &&& *r.unwrap() == s0[j].item
                    &&& final(self).entries() == promote(s0, j)
                    &&& final(self).backend_model() == b0
                } else {
                    let b1 = b0.spec_after_load(*index);
                    match b0.spec_load(*index) {
                        None => {
                            &&& r.is_none()
                            &&& final(self).entries() == s0
                            &&& final(self).backend_model() == b1
                        },
                        Some(v) => {
                            let a = admit_evictions::<Back>(
                                b1,
                                s0,
                                Back::spec_weight(*index, v),
                                old(self).capacity_model(),
                            );
                            &&& r.is_some()
                            &&& *r.unwrap() == v
                            &&& final(self).entries() == a.1.push(
                                (CacheItem { index: *index, item: v, updated: false }),
                            )
                            &&& final(self).backend_model() == a.0
                        },
                    }
                }
            }),
    {
        let ghost pre = *self;
        let ghost s0 = pre.entries();
        match self.get_inner(index, false) {
            Some(v) => {
                let r = &*v;
                proof {
                    assert(*final(v) == *r);
                    let post = after_borrow(*self);
                    if resident_in(s0, *index) {
                        let j = position_of(s0, *index);
                        assert((CacheItem {
                            index: s0[j].index,
                            item: *final(v),
                            updated: s0[j].updated || false,
                        }) == s0[j]);
                        assert(post.entries() == promote(s0, j));
                    }
                }
                Some(r)
            },
            None => None,
        }
    }

    /// Read the item cached under `index` for mutation. Exactly like
    /// `get`, except that the entry is unconditionally marked dirty (a
    /// miss is admitted dirty), so its eventual eviction writes it back
    /// even if the caller never touches it. The structures stay consistent
    /// as long as a mutation through the reference keeps the item's weight.
    pub fn get_mut(&mut self, index: &Back::Index) -> (r: Option<&mut Back::Item>)
        requires
            old(self).wf(),
        ensures
            final(self).capacity_model() == old(self).capacity_model(),
            ({
                let s0 = old(self).entries();
                let b0 = old(self).backend_model();
                if resident_in(s0, *index) {
                    let j = position_of(s0, *index);
                    &&& r.is_some()
                    &&& *r.unwrap() == s0[j].item
                    &&& final(self).entries() == s0.remove(j).push(
                        (CacheItem {
                            index: s0[j].index,
                            item: *final(r.unwrap()),
                            updated: true,
                        }),
                    )
                    &&& final(self).backend_model() == b0
                    &&& (Back::spec_weight(s0[j].index, *final(r.unwrap())) == Back::spec_weight(
                        s0[j].index,
                        s0[j].item,
                    ) ==> final(self).wf())
                } else {
                    let b1 = b0.spec_after_load(*index);
                    match b0.spec_load(*index) {
                        None => {
                            &&& r.is_none()
                            &&& final(self).entries() == s0
                            &&& final(self).backend_model() == b1
                            &&& final(self).wf()
                        },
                        Some(v) => {
                            let a = admit_evictions::<Back>(
                                b1,
                                s0,
                                Back::spec_weight(*index, v),
                                old(self).capacity_model(),
                            );
                            &&& r.is_some()
                            &&& *r.unwrap() == v
                            &&& final(self).entries() == a.1.push(
                                (CacheItem {
                                    index: *index,
                                    item: *final(r.unwrap()),
                                    updated: true,
                                }),
                            )
                            &&& final(self).backend_model() == a.0
                            &&& (Back::spec_weight(*index, *final(r.unwrap()))
                                == Back::spec_weight(*index, v) ==> final(self).wf())
                        },
                    }
                }
            }),
    {
        self.get_inner(index, true)
    }

    /// Borrow the backend for out-of-band inspection.
    pub fn get_backend(&self) -> (r: &Back)
        ensures
            *r == self.backend_model(),
    {
        &self.backend
    }

    /// Borrow the backend mutably for out-of-band mutation; cache state is
    /// untouched.
    pub fn get_backend_mut(&mut self) -> (r: &mut Back)
        ensures
            *r == old(self).backend_model(),
            final(self).backend_model() == *final(r),
            final(self).entries() == old(self).entries(),
            final(self).map_model() == old(self).map_model(),
            final(self).capacity_model() == old(self).capacity_model(),
            final(self).weight_model() == old(self).weight_model(),
            old(self).wf() ==> final(self).wf(),
    {
        let ghost pre = *self;
        let r = &mut self.backend;
        proof {
            let post = after_borrow(*self);
            if pre.wf() {
                Self::lemma_wf_unmoved(pre, post);
            }
            assert(post.entries() =~= pre.entries());
        }
        r
    }

    /// Two states that agree on everything but the backend share their
    /// well-formedness and their entries.
    proof fn lemma_wf_unmoved(a: Self, b: Self)
        requires
            a.wf(),
            b.cache == a.cache,
            b.spaces == a.spaces,
            b.list == a.list,
            b.map == a.map,
            b.weight_sum == a.weight_sum,
            b.capacity == a.capacity,
        ensures
            b.wf(),
            b.entries() == a.entries(),
    {
        assert forall|j: int|
            0 <= j < b.list.handles().len() implies (#[trigger] b.slot_at(j)) == a.slot_at(j) by {
            assert(a.slot_at(j) == a.list.spec_value(a.list.handles()[j]));
        }
        assert(b.entries() =~= a.entries());
        assert(b.slots_ok());
        assert forall|x: int, y: int|
            0 <= x < y < b.list.handles().len() implies b.slot_at(x) != b.slot_at(y) by {
            assert(a.slot_at(x) != a.slot_at(y));
        }
        assert forall|s: usize|
            s < b.cache@.len() implies (#[trigger] b.cache@[s as int].is_some() <==> exists|j: int|
                0 <= j < b.list.handles().len() && b.slot_at(j) == s) by {
            assert(a.cache@[s as int].is_some() <==> exists|j: int|
                0 <= j < a.list.handles().len() && a.slot_at(j) == s);
            if a.cache@[s as int].is_some() {
                let j = choose|j: int| 0 <= j < a.list.handles().len() && a.slot_at(j) == s;
                assert(b.slot_at(j) == s);
            }
        }
        assert(b.slots_covered());
    }

    /// Removing the recency node at `j`, clearing its slot, queueing the
    /// slot as free and dropping its key from the map removes exactly the
    /// entry at `j` and keeps the structures consistent.
    proof fn lemma_evict_wf(pre: Self, post: Self, j: int)
        requires
            pre.wf(),
            0 <= j < pre.entries().len(),
            post.list.wf(),
            post.list.handles() == pre.list.handles().remove(j),
            forall|g: usize|
                pre.list.handles().contains(g) && g != pre.list.handles()[j]
                    ==> #[trigger] post.list.spec_value(g) == pre.list.spec_value(g),
            post.cache@ == pre.cache@.update(pre.slot_at(j) as int, None),
            post.spaces@ == pre.spaces@.push(pre.slot_at(j)),
            post.map.model() == pre.map.model().remove(pre.entries()[j].index),
            post.weight_sum == pre.weight_sum - Back::spec_weight(
                pre.entries()[j].index,
                pre.entries()[j].item,
            ),
            post.capacity == pre.capacity,
        ensures
            post.wf(),
            post.entries() == pre.entries().remove(j),
    {
        let ord = pre.list.handles();
        let ord2 = post.list.handles();
        let h = ord[j];
        let slot = pre.slot_at(j);
        let e = pre.entries()[j];
        pre.list.lemma_handles_distinct();
        ord.remove_ensures(j);
        assert forall|i: int| 0 <= i < ord2.len() implies (#[trigger] post.slot_at(i))
            == pre.slot_at(
            if i < j {
                i
            } else {
                i + 1
            },
        ) && post.slot_at(i) != slot by {
            let i0 = if i < j {
                i
            } else {
                i + 1
            };
            assert(ord2[i] == ord[i0]);
            assert(ord.contains(ord[i0]));
            assert(ord[i0] != h) by {
                if ord[i0] == h {
                    assert(ord[i0] == ord[j] && i0 != j);
                }
            }
            if i0 < j {
                assert(pre.slot_at(i0) != pre.slot_at(j));
            } else {
                assert(pre.slot_at(j) != pre.slot_at(i0));
            }
        }
        assert(post.entries() =~= pre.entries().remove(j)) by {
            assert forall|i: int| 0 <= i < ord2.len() implies post.entries()[i]
                == pre.entries().remove(j)[i] by {
                let i0 = if i < j {
                    i
                } else {
                    i + 1
                };
                assert(pre.slot_at(i0) < pre.cache@.len());
                assert(post.entries()[i] == post.cache@[post.slot_at(i) as int].unwrap());
                assert(post.cache@[post.slot_at(i) as int] == pre.cache@[pre.slot_at(i0) as int]);
                assert(pre.entries().remove(j)[i] == pre.entries()[i0]);
            }
        }
        assert(post.slots_ok());
        assert forall|a: int, b: int|
            0 <= a < b < ord2.len() implies post.slot_at(a) != post.slot_at(b) by {
            let a0 = if a < j {
                a
            } else {
                a + 1
            };
            let b0 = if b < j {
                b
            } else {
                b + 1
            };
            if a0 < b0 {
                assert(pre.slot_at(a0) != pre.slot_at(b0));
            }
        }
        assert(distinct_indices(post.entries())) by {
            assert forall|a: int, b: int|
                0 <= a < b < post.entries().len() implies post.entries()[a].index
                != post.entries()[b].index by {
                let a0 = if a < j {
                    a
                } else {
                    a + 1
                };
                let b0 = if b < j {
                    b
                } else {
                    b + 1
                };
                assert(pre.entries()[a0].index != pre.entries()[b0].index);
            }
        }
        assert(post.map_ok()) by {
            assert forall|i: int| 0 <= i < post.entries().len() implies post.map_model(
            ).dom().contains(#[trigger] post.entries()[i].index) && post.map_model()[post.entries()[i].index]
                == post.list.handles()[i] by {
                let i0 = if i < j {
                    i
                } else {
                    i + 1
                };
                assert(post.entries()[i] == pre.entries()[i0]);
                assert(pre.map_model().dom().contains(pre.entries()[i0].index));
                assert(pre.entries()[i0].index != e.index) by {
                    if i0 < j {
                        assert(pre.entries()[i0].index != pre.entries()[j].index);
                    } else {
                        assert(pre.entries()[j].index != pre.entries()[i0].index);
                    }
                }
            }
            assert forall|k: Back::Index| #[trigger] post.map_model().dom().contains(k) implies resident_in(
                post.entries(),
                k,
            ) by {
                assert(pre.map_model().dom().contains(k));
                let p = choose|p: int| 0 <= p < pre.entries().len() && pre.entries()[p].index == k;
                assert(k != e.index);
                assert(p != j);
                let p2 = if p < j {
                    p
                } else {
                    p - 1
                };
                assert(post.entries()[p2] == pre.entries()[p]);
            }
        }
        assert(post.spaces_ok()) by {
            assert(!pre.spaces@.contains(slot)) by {
                assert(pre.slot_at(j) < pre.cache@.len());
                assert(!pre.cache@[slot as int].is_none());
            }
            assert(post.spaces@.no_duplicates()) by {
                assert forall|a: int, b: int|
                    0 <= a < b < post.spaces@.len() implies post.spaces@[a] != post.spaces@[b] by {
                    if b < post.spaces@.len() - 1 {
                        assert(pre.spaces@[a] != pre.spaces@[b]);
                    } else {
                        assert(post.spaces@[b] == slot);
                        assert(pre.spaces@.contains(pre.spaces@[a]));
                    }
                }
            }
            assert forall|s: usize|
                s < post.cache@.len() implies (#[trigger] post.cache@[s as int].is_none()
                <==> post.spaces@.contains(s)) by {
                assert(pre.cache@[s as int].is_none() <==> pre.spaces@.contains(s));
                if s == slot {
                    assert(post.spaces@[post.spaces@.len() - 1] == slot);
                    assert(post.spaces@.contains(slot));
                } else {
                    if pre.spaces@.contains(s) {
                        let i = choose|i: int| 0 <= i < pre.spaces@.len() && pre.spaces@[i] == s;
                        assert(post.spaces@[i] == s);
                        assert(post.spaces@.contains(s));
                    }
                    if post.spaces@.contains(s) {
                        let i = choose|i: int| 0 <= i < post.spaces@.len() && post.spaces@[i] == s;
                        assert(i < post.spaces@.len() - 1 || post.spaces@[i] == slot);
                        assert(pre.spaces@.contains(s));
                    }
                }
            }
        }
        assert(post.slots_covered()) by {
            assert forall|s: usize|
                s < post.cache@.len() implies (#[trigger] post.cache@[s as int].is_some()
                <==> exists|i: int| 0 <= i < ord2.len() && post.slot_at(i) == s) by {
                if s == slot {
                    assert(post.cache@[s as int].is_none());
                } else {
                    assert(pre.cache@[s as int].is_some() <==> exists|i0: int|
                        0 <= i0 < ord.len() && pre.slot_at(i0) == s);
                    if post.cache@[s as int].is_some() {
                        let i0 = choose|i0: int| 0 <= i0 < ord.len() && pre.slot_at(i0) == s;
                        assert(i0 != j);
                        let i = if i0 < j {
                            i0
                        } else {
                            i0 - 1
                        };
                        assert(post.slot_at(i) == s);
                    }
                }
            }
        }
        lemma_sum_remove::<Back>(pre.entries(), j);
    }

    /// Storing a fresh entry in a free or newly grown slot, appending a
    /// recency node for it and recording its key appends exactly that entry
    /// and keeps the structures consistent.
    proof fn lemma_admit_wf(
        pre: Self,
        post: Self,
        reused: bool,
        slot: usize,
        h: usize,
        e: CacheItem<Back::Index, Back::Item>,
    )
        requires
            pre.wf(),
            !resident_in(pre.entries(), e.index),
            post.list.wf(),
            post.list.handles() == pre.list.handles().push(h),
            !pre.list.handles().contains(h),
            post.list.spec_value(h) == slot,
            forall|g: usize|
                pre.list.handles().contains(g) ==> #[trigger] post.list.spec_value(g)
                    == pre.list.spec_value(g),
            reused ==> pre.spaces@.len() > 0 && slot == pre.spaces@[0] && post.spaces@
                == pre.spaces@.drop_first() && post.cache@ == pre.cache@.update(
                slot as int,
                Some(e),
            ),
            !reused ==> pre.spaces@.len() == 0 && slot == pre.cache@.len() && post.spaces@
                == pre.spaces@ && post.cache@ == pre.cache@.push(Some(e)),
            post.map.model() == pre.map.model().insert(e.index, h),
            post.weight_sum == pre.weight_sum + Back::spec_weight(e.index, e.item),
            post.capacity == pre.capacity,
            pre.weight_sum + Back::spec_weight(e.index, e.item) <= pre.capacity
                || pre.entries().len() == 0,
        ensures
            post.wf(),
            post.entries() == pre.entries().push(e),
    {
        let ord = pre.list.handles();
        let ord2 = post.list.handles();
        let n = ord.len();
        if reused {
            assert(pre.spaces@.contains(slot));
            assert(slot < pre.cache@.len());
            assert(pre.cache@[slot as int].is_none());
        }
        assert forall|i: int| 0 <= i < n implies (#[trigger] post.slot_at(i)) == pre.slot_at(i)
            && pre.slot_at(i) != slot by {
            assert(ord2[i] == ord[i]);
            assert(ord.contains(ord[i]));
            assert(pre.slot_at(i) < pre.cache@.len());
            if reused {
                assert(pre.cache@[pre.slot_at(i) as int].is_some());
            }
        }
        assert(post.slot_at(n as int) == slot);
        assert(post.entries() =~= pre.entries().push(e)) by {
            assert forall|i: int| 0 <= i < n implies post.entries()[i] == pre.entries()[i] by {
                assert(post.cache@[post.slot_at(i) as int] == pre.cache@[pre.slot_at(i) as int]);
            }
            assert(post.entries()[n as int] == e);
        }
        assert(post.slots_ok());
        assert forall|a: int, b: int|
            0 <= a < b < ord2.len() implies post.slot_at(a) != post.slot_at(b) by {
            if b < n {
                assert(pre.slot_at(a) != pre.slot_at(b));
            }
        }
        assert(distinct_indices(post.entries())) by {
            assert forall|a: int, b: int|
                0 <= a < b < post.entries().len() implies post.entries()[a].index
                != post.entries()[b].index by {
                if b < n {
                    assert(pre.entries()[a].index != pre.entries()[b].index);
                } else {
                    assert(post.entries()[b] == e);
                    assert(!(0 <= a < pre.entries().len() && pre.entries()[a].index == e.index));
                }
            }
        }
        assert(post.map_ok()) by {
            assert forall|i: int| 0 <= i < post.entries().len() implies post.map_model(
            ).dom().contains(#[trigger] post.entries()[i].index) && post.map_model()[post.entries()[i].index]
                == post.list.handles()[i] by {
                if i < n {
                    assert(pre.map_model().dom().contains(pre.entries()[i].index));
                    assert(pre.entries()[i].index != e.index) by {
                        assert(!(0 <= i < pre.entries().len() && pre.entries()[i].index
                            == e.index));
                    }
                }
            }
            assert forall|k: Back::Index| #[trigger] post.map_model().dom().contains(k) implies resident_in(
                post.entries(),
                k,
            ) by {
                if k == e.index {
                    assert(post.entries()[n as int].index == k);
                } else {
                    assert(pre.map_model().dom().contains(k));
                    let p = choose|p: int|
                        0 <= p < pre.entries().len() && pre.entries()[p].index == k;
                    assert(post.entries()[p].index == k);
                }
            }
        }
        assert(post.spaces_ok()) by {
            if reused {
                assert(post.spaces@.no_duplicates()) by {
                    assert(forall|i: int|
                        0 <= i < post.spaces@.len() ==> #[trigger] post.spaces@[i]
                            == pre.spaces@[i + 1]);
                }
                assert forall|s: usize|
                    s < post.cache@.len() implies (#[trigger] post.cache@[s as int].is_none()
                    <==> post.spaces@.contains(s)) by {
                    assert(pre.cache@[s as int].is_none() <==> pre.spaces@.contains(s));
                    if s == slot {
                        if post.spaces@.contains(slot) {
                            let i = choose|i: int|
                                0 <= i < post.spaces@.len() && post.spaces@[i] == slot;
                            assert(pre.spaces@[i + 1] == slot && pre.spaces@[0] == slot);
                        }
                    } else {
                        if pre.spaces@.contains(s) {
                            let i = choose|i: int|
                                0 <= i < pre.spaces@.len() && pre.spaces@[i] == s;
                            assert(i != 0);
                            assert(post.spaces@[i - 1] == s);
                            assert(post.spaces@.contains(s));
                        }
                        if post.spaces@.contains(s) {
                            let i = choose|i: int|
                                0 <= i < post.spaces@.len() && post.spaces@[i] == s;
                            assert(pre.spaces@[i + 1] == s);
                            assert(pre.spaces@.contains(s));
                        }
                    }
                }
            } else {
                assert forall|s: usize|
                    s < post.cache@.len() implies (#[trigger] post.cache@[s as int].is_none()
                    <==> post.spaces@.contains(s)) by {
                    if s < pre.cache@.len() {
                        assert(pre.cache@[s as int].is_none() <==> pre.spaces@.contains(s));
                    }
                }
            }
        }
        assert(post.slots_covered()) by {
            assert forall|s: usize|
                s < post.cache@.len() implies (#[trigger] post.cache@[s as int].is_some()
                <==> exists|i: int| 0 <= i < ord2.len() && post.slot_at(i) == s) by {
                if s == slot {
                    assert(post.slot_at(n as int) == s);
                } else {
                    assert(s < pre.cache@.len());
                    assert(pre.cache@[s as int].is_some() <==> exists|i: int|
                        0 <= i < ord.len() && pre.slot_at(i) == s);
                    if post.cache@[s as int].is_some() {
                        let i = choose|i: int| 0 <= i < ord.len() && pre.slot_at(i) == s;
                        assert(post.slot_at(i) == s);
                    }
                    if exists|i: int| 0 <= i < ord2.len() && post.slot_at(i) == s {
                        let i = choose|i: int| 0 <= i < ord2.len() && post.slot_at(i) == s;
                        assert(i < n);
                        assert(pre.slot_at(i) == s);
                    }
                }
            }
        }
        lemma_sum_push::<Back>(pre.entries(), e);
    }

    /// Evict the least recently used entry: unlink it, free its slot, drop
    /// its key from the map and hand it to the backend's write-back.
    /// Returns the evicted entry's weight, already subtracted from the
    /// running sum.
    fn unload_newest(&mut self) -> (w: usize)
        requires
            old(self).wf(),
            old(self).entries().len() > 0,
        ensures
            final(self).wf(),
            ({
                let e = old(self).entries()[0];
                &&& w == Back::spec_weight(e.index, e.item)
                &&& final(self).entries() == old(self).entries().drop_first()
                &&& final(self).backend_model() == old(self).backend_model().spec_after_write_back(
                    e.index,
                    e.item,
                    e.updated,
                )
                &&& final(self).capacity_model() == old(self).capacity_model()
                &&& final(self).map_model() == old(self).map_model().remove(e.index)
            }),
    {
        let ghost pre = *self;
        let ghost e = pre.entries()[0];
        match self.list.remove_first() {
            None => {
                proof {
                    assert(false);
                }
                0
            },
            Some((h0, slot)) => {
                proof {
                    assert(slot == pre.slot_at(0));
                    assert(pre.slot_at(0) < pre.cache@.len());
                }
                let elem = &mut self.cache[slot];
                let taken = elem.take();
                proof {
                    assert(taken == Some(e));
                }
                let it = taken.unwrap();
                let removed = self.map.remove(&it.index);
                proof {
                    assert(pre.map_model().dom().contains(e.index));
                }
                self.spaces.push_back(slot);
                let w = self.backend.get_weight(&it.index, &it.item);
                proof {
                    lemma_sum_remove::<Back>(pre.entries(), 0);
                }
                self.weight_sum = self.weight_sum - w;
                self.backend.write_back(it.index, it.item, it.updated);
                proof {
                    assert(pre.list.handles().remove(0) =~= pre.list.handles().drop_first());
                    Self::lemma_evict_wf(pre, *self, 0);
                    assert(pre.entries().remove(0) =~= pre.entries().drop_first());
                }
                w
            },
        }
    }

    /// The structural invariants of a consistent cache. The key map, the
    /// recency list and the slot table describe the same residents: the
    /// map holds exactly as many keys as there are occupied slots, which
    /// is the recency list's length; each mapped key resolves, through its
    /// recency node, to the slot that stores that very key; the running
    /// weight total is the sum of the resident entries' weights; and the
    /// total stays within the capacity unless a single resident entry
    /// alone exceeds it.
    pub proof fn lemma_cache_invariants(&self)
        requires
            self.wf(),
        ensures
            self.map_model().dom().finite(),
            self.map_model().dom().len() == self.entries().len(),
            forall|k: Back::Index| #[trigger] self.map_model().dom().contains(k) <==> resident_in(
                self.entries(),
                k,
            ),
            forall|k: Back::Index| #[trigger]
                self.map_model().dom().contains(k) ==> self.stored_at(self.map_model()[k]).index
                    == k,
            self.weight_model() == sum_weights::<Back>(self.entries()),
            self.weight_model() <= self.capacity_model() || self.entries().len() <= 1,
            distinct_indices(self.entries()),
    {
        let n = self.entries().len();
        let idxs = Seq::new(n, |i: int| self.entries()[i].index);
        assert(idxs.no_duplicates()) by {
            assert forall|a: int, b: int|
                0 <= a < b < idxs.len() implies idxs[a] != idxs[b] by {
                assert(self.entries()[a].index != self.entries()[b].index);
            }
        }
        assert(self.map_model().dom() =~= idxs.to_set()) by {
            assert forall|k: Back::Index| #[trigger] self.map_model().dom().contains(
                k,
            ) implies idxs.to_set().contains(k) by {
                let p = choose|p: int| 0 <= p < n && self.entries()[p].index == k;
                assert(idxs[p] == k);
                assert(idxs.contains(k));
                vstd::seq_lib::lemma_seq_contains(idxs, k);
            }
            assert forall|k: Back::Index| idxs.to_set().contains(k) implies self.map_model(
            ).dom().contains(k) by {
                assert(idxs.contains(k));
                let p = choose|p: int| 0 <= p < idxs.len() && idxs[p] == k;
                assert(self.map_model().dom().contains(self.entries()[p].index));
            }
        }
        vstd::seq_lib::seq_to_set_is_finite(idxs);
        idxs.unique_seq_to_set();
        assert forall|k: Back::Index| #[trigger] self.map_model().dom().contains(
            k,
        ) implies self.stored_at(self.map_model()[k]).index == k by {
            let p = choose|p: int| 0 <= p < n && self.entries()[p].index == k;
            assert(self.map_model()[k] == self.list.handles()[p]);
            assert(self.stored_at(self.list.handles()[p]) == self.entries()[p]);
        }
    }

    /// Moving the recency node at `j` to the back promotes exactly the
    /// entry at `j` and keeps the structures consistent.
    proof fn lemma_promote_wf(pre: Self, post: Self, j: int)
        requires
            pre.wf(),
            0 <= j < pre.entries().len(),
            post.list.wf(),
            post.list.handles() == pre.list.handles().remove(j).push(pre.list.handles()[j]),
            forall|g: usize|
                pre.list.handles().contains(g) ==> #[trigger] post.list.spec_value(g)
                    == pre.list.spec_value(g),
            post.cache == pre.cache,
            post.spaces == pre.spaces,
            post.map == pre.map,
            post.backend == pre.backend,
            post.weight_sum == pre.weight_sum,
            post.capacity == pre.capacity,
        ensures
            post.wf(),
            post.entries() == promote(pre.entries(), j),
    {
        let ord = pre.list.handles();
        let ord2 = post.list.handles();
        let n = ord.len();
        let h = ord[j];
        pre.list.lemma_handles_distinct();
        ord.remove_ensures(j);
        let ghost sigma = |i: int|
            if i < j {
                i
            } else if i < n - 1 {
                i + 1
            } else {
                j
            };
        assert forall|i: int| 0 <= i < n implies ord2[i] == ord[sigma(i)] && (
        #[trigger] post.slot_at(i)) == pre.slot_at(sigma(i)) by {
            assert(ord.contains(ord[sigma(i)]));
        }
        assert(post.entries() =~= promote(pre.entries(), j)) by {
            assert forall|i: int| 0 <= i < n implies post.entries()[i] == promote(
                pre.entries(),
                j,
            )[i] by {
                assert(pre.slot_at(sigma(i)) < pre.cache@.len());
                assert(post.entries()[i] == pre.entries()[sigma(i)]);
                pre.entries().remove_ensures(j);
            }
        }
        assert(post.slots_ok());
        assert forall|a: int, b: int|
            0 <= a < b < ord2.len() implies post.slot_at(a) != post.slot_at(b) by {
            let a0 = sigma(a);
            let b0 = sigma(b);
            assert(a0 != b0);
            if a0 < b0 {
                assert(pre.slot_at(a0) != pre.slot_at(b0));
            } else {
                assert(pre.slot_at(b0) != pre.slot_at(a0));
            }
        }
        assert(distinct_indices(post.entries())) by {
            assert forall|a: int, b: int|
                0 <= a < b < post.entries().len() implies post.entries()[a].index
                != post.entries()[b].index by {
                let a0 = sigma(a);
                let b0 = sigma(b);
                if a0 < b0 {
                    assert(pre.entries()[a0].index != pre.entries()[b0].index);
                } else {
                    assert(pre.entries()[b0].index != pre.entries()[a0].index);
                }
            }
        }
        assert(post.map_ok()) by {
            assert forall|i: int| 0 <= i < post.entries().len() implies post.map_model(
            ).dom().contains(#[trigger] post.entries()[i].index) && post.map_model()[post.entries()[i].index]
                == post.list.handles()[i] by {
                assert(post.entries()[i] == pre.entries()[sigma(i)]);
                assert(pre.map_model().dom().contains(pre.entries()[sigma(i)].index));
            }
            assert forall|k: Back::Index| #[trigger] post.map_model().dom().contains(k) implies resident_in(
                post.entries(),
                k,
            ) by {
                let p = choose|p: int| 0 <= p < pre.entries().len() && pre.entries()[p].index == k;
                let p2 = if p < j {
                    p
                } else if p == j {
                    n - 1
                } else {
                    p - 1
                };
                assert(sigma(p2) == p);
                assert(post.entries()[p2].index == k);
            }
        }
        assert(post.slots_covered()) by {
            assert forall|s: usize|
                s < post.cache@.len() implies (#[trigger] post.cache@[s as int].is_some()
                <==> exists|i: int| 0 <= i < ord2.len() && post.slot_at(i) == s) by {
                if post.cache@[s as int].is_some() {
                    let p = choose|p: int| 0 <= p < ord.len() && pre.slot_at(p) == s;
                    let p2 = if p < j {
                        p
                    } else if p == j {
                        n - 1
                    } else {
                        p - 1
                    };
                    assert(sigma(p2) == p);
                    assert(post.slot_at(p2) == s);
                }
                if exists|i: int| 0 <= i < ord2.len() && post.slot_at(i) == s {
                    let i = choose|i: int| 0 <= i < ord2.len() && post.slot_at(i) == s;
                    assert(pre.slot_at(sigma(i)) == s);
                }
            }
        }
        assert(post.weight_sum == sum_weights::<Back>(post.entries())) by {
            lemma_sum_remove::<Back>(pre.entries(), j);
            lemma_sum_push::<Back>(pre.entries().remove(j), pre.entries()[j]);
        }
    }

    /// Replacing the item behind the most recent entry, index unchanged,
    /// rewrites exactly that entry; the structures stay consistent as long
    /// as the replacement carries the same weight.
    proof fn lemma_update_last_wf(pre: Self, post: Self, e2: CacheItem<Back::Index, Back::Item>)
        requires
            pre.wf(),
            pre.entries().len() > 0,
            post.cache@ == pre.cache@.update(
                pre.slot_at(pre.entries().len() - 1) as int,
                Some(e2),
            ),
            e2.index == pre.entries().last().index,
            post.list == pre.list,
            post.spaces == pre.spaces,
            post.map == pre.map,
            post.weight_sum == pre.weight_sum,
            post.capacity == pre.capacity,
        ensures
            post.entries() == pre.entries().update(pre.entries().len() - 1, e2),
            Back::spec_weight(e2.index, e2.item) == Back::spec_weight(
                pre.entries().last().index,
                pre.entries().last().item,
            ) ==> post.wf(),
    {
        let ord = pre.list.handles();
        let n = ord.len();
        let slot = pre.slot_at(n - 1);
        assert(pre.slot_at(n - 1) < pre.cache@.len());
        assert forall|i: int| 0 <= i < n implies (#[trigger] post.slot_at(i)) == pre.slot_at(i) by {
            assert(pre.slot_at(i) == pre.list.spec_value(pre.list.handles()[i]));
        }
        assert forall|i: int| 0 <= i < n - 1 implies pre.slot_at(i) != slot by {
            assert(pre.slot_at(i) != pre.slot_at(n - 1));
        }
        assert(post.entries() =~= pre.entries().update(n - 1, e2)) by {
            assert forall|i: int| 0 <= i < n implies post.entries()[i] == pre.entries().update(
                n - 1,
                e2,
            )[i] by {
                assert(pre.slot_at(i) < pre.cache@.len());
                if i < n - 1 {
                    assert(post.cache@[post.slot_at(i) as int] == pre.cache@[pre.slot_at(
                        i,
                    ) as int]);
                }
            }
        }
        if Back::spec_weight(e2.index, e2.item) == Back::spec_weight(
            pre.entries().last().index,
            pre.entries().last().item,
        ) {
            assert(post.slots_ok());
            assert(post.slots_distinct()) by {
                assert forall|a: int, b: int|
                    0 <= a < b < n implies post.slot_at(a) != post.slot_at(b) by {
                    assert(pre.slot_at(a) != pre.slot_at(b));
                }
            }
            assert(distinct_indices(post.entries())) by {
                assert forall|a: int, b: int|
                    0 <= a < b < n implies post.entries()[a].index != post.entries()[b].index by {
                    assert(pre.entries()[a].index != pre.entries()[b].index);
                    assert(post.entries()[a].index == pre.entries()[a].index);
                    assert(post.entries()[b].index == pre.entries()[b].index);
                }
            }
            assert(post.map_ok()) by {
                assert forall|i: int| 0 <= i < post.entries().len() implies post.map_model(
                ).dom().contains(#[trigger] post.entries()[i].index)
                    && post.map_model()[post.entries()[i].index] == post.list.handles()[i] by {
                    assert(post.entries()[i].index == pre.entries()[i].index);
                    assert(pre.map_model().dom().contains(pre.entries()[i].index));
                }
                assert forall|k: Back::Index| #[trigger] post.map_model().dom().contains(
                    k,
                ) implies resident_in(post.entries(), k) by {
                    let p = choose|p: int|
                        0 <= p < pre.entries().len() && pre.entries()[p].index == k;
                    assert(post.entries()[p].index == k);
                }
            }
            assert(post.spaces_ok()) by {
                assert forall|s: usize|
                    s < post.cache@.len() implies (#[trigger] post.cache@[s as int].is_none()
                    <==> post.spaces@.contains(s)) by {
                    assert(pre.cache@[s as int].is_none() <==> pre.spaces@.contains(s));
                }
            }
            assert(post.slots_covered()) by {
                assert forall|s: usize|
                    s < post.cache@.len() implies (#[trigger] post.cache@[s as int].is_some()
                    <==> exists|i: int| 0 <= i < n && post.slot_at(i) == s) by {
                    assert(pre.cache@[s as int].is_some() <==> exists|i: int|
                        0 <= i < n && pre.slot_at(i) == s);
                    if pre.cache@[s as int].is_some() {
                        let i = choose|i: int| 0 <= i < n && pre.slot_at(i) == s;
                        assert(post.slot_at(i) == s);
                    }
                    if exists|i: int| 0 <= i < n && post.slot_at(i) == s {
                        let i = choose|i: int| 0 <= i < n && post.slot_at(i) == s;
                        assert(pre.slot_at(i) == s);
                    }
                }
            }
            assert(post.weight_sum == sum_weights::<Back>(post.entries())) by {
                lemma_sum_remove::<Back>(pre.entries(), n - 1);
                lemma_sum_remove::<Back>(post.entries(), n - 1);
                assert(post.entries().remove(n - 1) =~= pre.entries().remove(n - 1));
                assert(post.entries()[n - 1] == e2);
                assert(pre.entries()[n - 1] == pre.entries().last());
            }
        }
    }

    /// The shared insert path: evict least recently used entries while the
    /// new entry's weight does not fit, then store it in a reused or fresh
    /// slot, at the most recent end of the recency order.
    fn insert_cache(&mut self, index: Back::Index, item: Back::Item, updated: bool)
        requires
            old(self).wf(),
            !resident_in(old(self).entries(), index),
        ensures
            final(self).wf(),
            ({
                let a = admit_evictions::<Back>(
                    old(self).backend_model(),
                    old(self).entries(),
                    Back::spec_weight(index, item),
                    old(self).capacity_model(),
                );
                &&& final(self).entries() == a.1.push(
                    (CacheItem { index: index, item: item, updated: updated }),
                )
                &&& final(self).backend_model() == a.0
                &&& final(self).capacity_model() == old(self).capacity_model()
            }),
    {
        let ghost pre = *self;
        let ghost gitem = item;
        let it = CacheItem { index: index.duplicate(), item, updated };
        let weight = self.backend.get_weight(&index, &it.item);
        while !self.list.is_empty() && (weight > self.capacity || self.weight_sum > self.capacity
            - weight)
            invariant
                self.wf(),
                !resident_in(self.entries(), index),
                weight == Back::spec_weight(index, gitem),
                it == (CacheItem { index: index, item: gitem, updated: updated }),
                self.capacity_model() == pre.capacity_model(),
                admit_evictions::<Back>(
                    pre.backend_model(),
                    pre.entries(),
                    weight,
                    pre.capacity_model(),
                ) == admit_evictions::<Back>(
                    self.backend_model(),
                    self.entries(),
                    weight,
                    self.capacity_model(),
                ),
            decreases self.entries().len(),
        {
            let ghost cur = *self;
            self.unload_newest();
            proof {
                assert(sum_weights::<Back>(cur.entries()) + weight > cur.capacity_model());
                assert(admit_evictions::<Back>(
                    cur.backend_model(),
                    cur.entries(),
                    weight,
                    cur.capacity_model(),
                ) == admit_evictions::<Back>(
                    self.backend_model(),
                    self.entries(),
                    weight,
                    self.capacity_model(),
                ));
                assert(!resident_in(self.entries(), index)) by {
                    if resident_in(self.entries(), index) {
                        let p = choose|p: int|
                            0 <= p < self.entries().len() && self.entries()[p].index == index;
                        assert(cur.entries()[p + 1].index == index);
                    }
                }
            }
        }
        let ghost mid = *self;
        proof {
            assert(admit_evictions::<Back>(
                mid.backend_model(),
                mid.entries(),
                weight,
                mid.capacity_model(),
            ) == (mid.backend_model(), mid.entries()));
            if mid.entries().len() > 0 {
                assert(mid.weight_sum + weight <= mid.capacity);
            } else {
                assert(mid.weight_sum == 0);
            }
        }
        let slot: usize;
        let reused: bool;
        match self.spaces.pop_front() {
            Some(s) => {
                slot = s;
                reused = true;
                proof {
                    assert(mid.spaces@[0] == s);
                    assert(mid.spaces@.contains(s));
                    assert(mid.cache@[s as int].is_none());
                }
                self.cache[s] = Some(it);
            },
            None => {
                slot = self.cache.len();
                reused = false;
                self.cache.push(Some(it));
            },
        }
        let h = self.list.push(slot);
        self.map.insert(index, h);
        self.weight_sum = self.weight_sum + weight;
        proof {
            Self::lemma_admit_wf(
                mid,
                *self,
                reused,
                slot,
                h,
                (CacheItem { index: index, item: gitem, updated: updated }),
            );
        }
    }

    /// Evict the resident entry holding `index`, wherever it stands in the
    /// recency order, delivering it to the backend's write-back.
    fn evict_resident(&mut self, index: &Back::Index)
        requires
            old(self).wf(),
            resident_in(old(self).entries(), *index),
        ensures
            final(self).wf(),
            ({
                let j = position_of(old(self).entries(), *index);
                let e = old(self).entries()[j];
                &&& final(self).entries() == old(self).entries().remove(j)
                &&& !resident_in(final(self).entries(), *index)
                &&& final(self).backend_model() == old(self).backend_model().spec_after_write_back(
                    e.index,
                    e.item,
                    e.updated,
                )
                &&& final(self).capacity_model() == old(self).capacity_model()
                &&& final(self).weight_model() == old(self).weight_model() - Back::spec_weight(
                    e.index,
                    e.item,
                )
            }),
    {
        let ghost pre = *self;
        let ghost j = position_of(pre.entries(), *index);
        let ghost e = pre.entries()[j];
        proof {
            assert(0 <= j < pre.entries().len() && pre.entries()[j].index == *index);
        }
        let removed = self.map.remove(index);
        proof {
            assert(pre.map_model().dom().contains(e.index));
        }
        let h = removed.unwrap();
        proof {
            assert(h == pre.list.handles()[j]);
            assert(pre.list.handles().contains(h));
            pre.list.lemma_handles_distinct();
            assert(pre.list.handles().index_of(h) == j) by {
                let i = pre.list.handles().index_of(h);
                assert(0 <= i < pre.list.handles().len() && pre.list.handles()[i] == h);
                if i != j {
                    assert(pre.list.handles()[i] == pre.list.handles()[j]);
                }
            }
        }
        let slot = self.list.remove_node(h);
        proof {
            assert(slot == pre.slot_at(j));
            assert(pre.slot_at(j) < pre.cache@.len());
        }
        let elem = &mut self.cache[slot];
        let taken = elem.take();
        proof {
            assert(taken == Some(e));
        }
        let it = taken.unwrap();
        self.spaces.push_back(slot);
        let w = self.backend.get_weight(&it.index, &it.item);
        proof {
            lemma_sum_remove::<Back>(pre.entries(), j);
        }
        self.weight_sum = self.weight_sum - w;
        self.backend.write_back(it.index, it.item, it.updated);
        proof {
            Self::lemma_evict_wf(pre, *self, j);
            assert(!resident_in(self.entries(), *index)) by {
                if resident_in(self.entries(), *index) {
                    let p = choose|p: int|
                        0 <= p < self.entries().len() && self.entries()[p].index == *index;
                    let p0 = if p < j {
                        p
                    } else {
                        p + 1
                    };
                    pre.entries().remove_ensures(j);
                    assert(pre.entries()[p0].index == *index);
                    assert(p0 != j);
                    if p0 < j {
                        assert(pre.entries()[p0].index != pre.entries()[j].index);
                    } else {
                        assert(pre.entries()[j].index != pre.entries()[p0].index);
                    }
                }
            }
        }
    }
}

} // verus!
