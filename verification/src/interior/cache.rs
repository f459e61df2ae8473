//! The interiors kept in memory.
use crate::data::InteriorId;
use crate::recency::{keeps_newest, Recency, Stamped};
use vstd::prelude::*;

verus! {

broadcast use {vstd::map::group_map_axioms, vstd::set::group_set_axioms};

/// Interiors by key, up to a capacity. Those used longest ago are dropped
/// first.
#[derive(Debug)]
pub struct InteriorCache<S> {
    store: Recency<S>,
    capacity: usize,
}

impl<S> InteriorCache<S> {
    /// The interiors held, each with the moment of its last use.
    pub closed spec fn entries(self) -> Map<u64, Stamped<S>> {
        self.store.entries()
    }

    /// The moment of the latest use.
    pub closed spec fn clock(self) -> u64 {
        self.store.clock()
    }

    /// Most interiors kept.
    pub closed spec fn limit(self) -> usize {
        self.capacity
    }

    /// No two interiors were last used at the same moment, none later than the
    /// latest use, and no more are held than the capacity allows.
    pub closed spec fn wf(self) -> bool {
        self.store.wf() && self.store.entries().len() <= self.capacity
    }

    /// What holds of every cache in use.
    pub proof fn lemma_wf(self)
        requires
            self.wf(),
        ensures
            self.entries().dom().finite(),
            self.entries().len() <= self.limit(),
            forall|id: u64| #[trigger]
                self.entries().dom().contains(id) ==> self.entries()[id].last_used <= self.clock(),
            forall|a: u64, b: u64|
                #![trigger self.entries().dom().contains(a), self.entries().dom().contains(b)]
                self.entries().dom().contains(a) && self.entries().dom().contains(b) && a != b
                    ==> self.entries()[a].last_used != self.entries()[b].last_used,
    {
    }

    /// An empty cache.
    pub fn new(capacity: usize) -> (c: InteriorCache<S>)
        ensures
            c.wf(),
            c.entries() == Map::<u64, Stamped<S>>::empty(),
            c.clock() == 0,
            c.limit() == capacity,
    {
        InteriorCache { store: Recency::new(), capacity }
    }

    /// Holds an interior as just used; one with its key is replaced. Beyond
    /// the capacity, those used longest ago are dropped.
    pub fn insert(&mut self, id: InteriorId, value: S)
        requires
            old(self).wf(),
            old(self).clock() < u64::MAX,
        ensures
            final(self).wf(),
            final(self).limit() == old(self).limit(),
            final(self).clock() == old(self).clock() + 1,
            keeps_newest(
                old(self).entries().insert(
                    id,
                    Stamped { value, last_used: (old(self).clock() + 1) as u64 },
                ),
                final(self).entries(),
                old(self).limit() as nat,
            ),
    {
        self.store.insert(id, value);
        self.evict_if_over_capacity();
    }

    /// The interior of a key, if it is held; it counts as just used.
    pub fn get(&mut self, id: &InteriorId) -> (r: Option<&S>)
        requires
            old(self).wf(),
            old(self).clock() < u64::MAX,
        ensures
            final(self).wf(),
            final(self).limit() == old(self).limit(),
            r is Some == old(self).entries().dom().contains(*id),
            match r {
                Some(s) => {
                    &&& *s == old(self).entries()[*id].value
                    &&& final(self).clock() == old(self).clock() + 1
                    &&& final(self).entries() == old(self).entries().insert(
                        *id,
                        Stamped { value: *s, last_used: (old(self).clock() + 1) as u64 },
                    )
                },
                None => final(self).clock() == old(self).clock() && final(self).entries() == old(
                    self,
                ).entries(),
            },
    {
        self.store.touch(*id);
        self.store.peek(*id)
    }

    /// The number of interiors held.
    pub fn len(&self) -> (n: usize)
        ensures
            n == self.entries().len(),
    {
        self.store.len()
    }

    /// Whether no interior is held.
    pub fn is_empty(&self) -> (b: bool)
        ensures
            b == (self.entries().len() == 0),
    {
        self.store.len() == 0
    }

    /// Drops every interior.
    pub fn clear(&mut self)
        requires
            old(self).wf(),
        ensures
            final(self).wf(),
            final(self).entries() == Map::<u64, Stamped<S>>::empty(),
            final(self).clock() == old(self).clock(),
            final(self).limit() == old(self).limit(),
    {
        self.store.clear();
    }

    /// Sets the capacity. Beyond it, those used longest ago are dropped.
    pub fn set_capacity(&mut self, cap: usize)
        requires
            old(self).wf(),
        ensures
            final(self).wf(),
            final(self).limit() == cap,
            final(self).clock() == old(self).clock(),
            keeps_newest(old(self).entries(), final(self).entries(), cap as nat),
    {
        self.capacity = cap;
        self.evict_if_over_capacity();
    }

    /// The capacity.
    pub fn capacity(&self) -> (n: usize)
        ensures
            n == self.limit(),
    {
        self.capacity
    }

    /// Drops those used longest ago until the capacity is met.
    fn evict_if_over_capacity(&mut self)
        requires
            old(self).store.wf(),
        ensures
            final(self).wf(),
            final(self).limit() == old(self).limit(),
            final(self).clock() == old(self).clock(),
            keeps_newest(old(self).entries(), final(self).entries(), old(self).limit() as nat),
    {
        self.store.shrink_to(self.capacity);
    }
}

impl<S> Default for InteriorCache<S> {
    fn default() -> (c: InteriorCache<S>)
        ensures
            c.wf(),
            c.entries() == Map::<u64, Stamped<S>>::empty(),
            c.clock() == 0,
            c.limit() == 64,
    {
        InteriorCache::new(64)
    }
}

} // verus!
