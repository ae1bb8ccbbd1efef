//! The two abstractions a cache client supplies: the index type and the
//! backing store.

use vstd::prelude::*;

verus! {

/// An index type the cache can copy and compare.
///
/// The engine keeps one copy of a resident index in its slot table and one
/// in the key map, so an index must be duplicable, and the key map must be
/// able to test two indices for equality. Both operations are tied to
/// specification-level equality, which is what the cache's contracts speak of.
pub trait CacheIndex: Sized {
    /// Produce a copy equal to `self`.
    fn duplicate(&self) -> (r: Self)
        ensures
            r == *self,
    ;

    /// Test equality with another index.
    fn equals(&self, other: &Self) -> (r: bool)
        ensures
            r == (*self == *other),
    ;
}

impl CacheIndex for usize {
    fn duplicate(&self) -> (r: Self) {
        *self
    }

    fn equals(&self, other: &Self) -> (r: bool) {
        *self == *other
    }
}

impl CacheIndex for u64 {
    fn duplicate(&self) -> (r: Self) {
        *self
    }

    fn equals(&self, other: &Self) -> (r: bool) {
        *self == *other
    }
}

impl CacheIndex for u32 {
    fn duplicate(&self) -> (r: Self) {
        *self
    }

    fn equals(&self, other: &Self) -> (r: bool) {
        *self == *other
    }
}

/// The store behind the cache.
///
/// A backend is modelled as a deterministic state machine: `spec_load` says
/// what a load returns in a given state, and `spec_after_load` /
/// `spec_after_write_back` say how each call steps the state. The cache's
/// own contracts compose these to state exactly which calls the backend
/// received. A backend that cannot fetch an item reports absence through
/// `load_from_backend`, which the cache surfaces as "not found".
pub trait CacheBackend: Sized {
    /// The type that identifies an item.
    type Index: CacheIndex;

    /// The type of the items themselves.
    type Item;

    /// The weight charged for an `(index, item)` pair; a pure function of
    /// the pair, so the engine may recompute it at eviction time.
    spec fn spec_weight(index: Self::Index, item: Self::Item) -> usize;

    /// What `load_from_backend` returns in this state.
    spec fn spec_load(&self, index: Self::Index) -> Option<Self::Item>;

    /// The backend state after a `load_from_backend` call.
    spec fn spec_after_load(&self, index: Self::Index) -> Self;

    /// The backend state after a `write_back` call.
    spec fn spec_after_write_back(
        &self,
        index: Self::Index,
        item: Self::Item,
        updated: bool,
    ) -> Self;

    /// Fetch the authoritative item for `index`, or report absence.
    fn load_from_backend(&mut self, index: &Self::Index) -> (r: Option<Self::Item>)
        ensures
            r == old(self).spec_load(*index),
            *final(self) == old(self).spec_after_load(*index),
    ;

    /// Accept an item evicted from the cache. `updated` is true iff the
    /// item was newly inserted, or mutated, while it was resident.
    fn write_back(&mut self, index: Self::Index, item: Self::Item, updated: bool)
        ensures
            *final(self) == old(self).spec_after_write_back(index, item, updated),
    ;

    /// The weight of `(index, item)`; agrees with `spec_weight` and leaves
    /// the backend unchanged.
    fn get_weight(&mut self, index: &Self::Index, item: &Self::Item) -> (w: usize)
        ensures
            w == Self::spec_weight(*index, *item),
            *final(self) == *old(self),
    ;
}

} // verus!
