//! A keyed store that remembers in which order its entries were last used.
use std::collections::HashMap;
use vstd::prelude::*;
use vstd::std_specs::hash::spec_keys_iter;
use vstd::std_specs::iter::IteratorSpec;

verus! {

broadcast use {
    vstd::std_specs::hash::group_hash_axioms,
    vstd::map::group_map_axioms,
    vstd::set::group_set_axioms,
};

/// A value with the moment it was last used; later moments are higher.
#[derive(Debug)]
pub struct Stamped<V> {
    pub value: V,
    pub last_used: u64,
}

/// Values by key, each with the moment it was last used.
#[derive(Debug)]
pub struct Recency<V> {
    map: HashMap<u64, Stamped<V>>,
    tick: u64,
}

/// Every entry of `part` is an entry of `whole`.
pub open spec fn part_of<K, V>(part: Map<K, Stamped<V>>, whole: Map<K, Stamped<V>>) -> bool {
    forall|k: K| #[trigger]
        part.dom().contains(k) ==> whole.dom().contains(k) && part[k] == whole[k]
}

/// `after` is what is left of `before` when the entries that were used longest
/// ago are dropped until at most `cap` are left.
pub open spec fn keeps_newest<K, V>(
    before: Map<K, Stamped<V>>,
    after: Map<K, Stamped<V>>,
    cap: nat,
) -> bool {
    &&& part_of(after, before)
    &&& after.dom().finite()
    &&& after.len() == (if before.len() < cap {
        before.len()
    } else {
        cap
    })
    &&& forall|kept: K, dropped: K|
        #![trigger after.dom().contains(kept), before.dom().contains(dropped)]
        after.dom().contains(kept) && before.dom().contains(dropped) && !after.dom().contains(
            dropped,
        ) ==> before[dropped].last_used < before[kept].last_used
}

/// Dropping the oldest entries has one outcome: where no two entries share a
/// moment, what is left is the same however it was found.
pub proof fn law_newest_determined<K, V>(
    before: Map<K, Stamped<V>>,
    one: Map<K, Stamped<V>>,
    two: Map<K, Stamped<V>>,
    cap: nat,
)
    requires
        keeps_newest(before, one, cap),
        keeps_newest(before, two, cap),
    ensures
        one == two,
{
    if one.dom() =~= two.dom() {
        assert(one =~= two);
    } else {
        // Equally many entries, so each has one that the other lacks.
        if one.dom().subset_of(two.dom()) {
            vstd::set_lib::lemma_subset_equality(one.dom(), two.dom());
        }
        if two.dom().subset_of(one.dom()) {
            vstd::set_lib::lemma_subset_equality(two.dom(), one.dom());
        }
        let a = choose|a: K| one.dom().contains(a) && !two.dom().contains(a);
        let b = choose|b: K| two.dom().contains(b) && !one.dom().contains(b);
        assert(one.dom().contains(a) && before.dom().contains(b));
        assert(two.dom().contains(b) && before.dom().contains(a));
    }
}

impl<V> Recency<V> {
    /// The entries.
    pub closed spec fn entries(self) -> Map<u64, Stamped<V>> {
        self.map@
    }

    /// The moment of the latest use.
    pub closed spec fn clock(self) -> u64 {
        self.tick
    }

    /// No two entries were last used at the same moment, and none later than
    /// the latest use.
    pub open spec fn wf(self) -> bool {
        &&& self.entries().dom().finite()
        &&& forall|k: u64| #[trigger]
            self.entries().dom().contains(k) ==> self.entries()[k].last_used <= self.clock()
        &&& forall|j: u64, k: u64|
            #![trigger self.entries().dom().contains(j), self.entries().dom().contains(k)]
            self.entries().dom().contains(j) && self.entries().dom().contains(k) && j != k
                ==> self.entries()[j].last_used != self.entries()[k].last_used
    }

    /// An empty store.
    pub fn new() -> (r: Recency<V>)
        ensures
            r.wf(),
            r.entries() == Map::<u64, Stamped<V>>::empty(),
            r.clock() == 0,
    {
        Recency { map: HashMap::new(), tick: 0 }
    }

    /// The number of entries.
    pub fn len(&self) -> (n: usize)
        ensures
            n == self.entries().len(),
    {
        self.map.len()
    }

    /// Whether there is no entry.
    pub fn is_empty(&self) -> (b: bool)
        requires
            self.wf(),
        ensures
            b == (self.entries().len() == 0),
    {
        self.map.len() == 0
    }

    /// The value of a key, without using it.
    pub fn peek(&self, key: u64) -> (r: Option<&V>)
        ensures
            r is Some == self.entries().dom().contains(key),
            r matches Some(v) ==> *v == self.entries()[key].value,
    {
        match self.map.get(&key) {
            Some(s) => Some(&s.value),
            None => None,
        }
    }

    /// Whether the key has an entry.
    pub fn contains(&self, key: u64) -> (b: bool)
        ensures
            b == self.entries().dom().contains(key),
    {
        self.map.contains_key(&key)
    }

    /// Marks the entry of a key, if there is one, as just used.
    pub fn touch(&mut self, key: u64) -> (found: bool)
        requires
            old(self).wf(),
            old(self).clock() < u64::MAX,
        ensures
            final(self).wf(),
            found == old(self).entries().dom().contains(key),
            found ==> final(self).clock() == old(self).clock() + 1,
            found ==> final(self).entries() == old(self).entries().insert(
                key,
                Stamped {
                    value: old(self).entries()[key].value,
                    last_used: (old(self).clock() + 1) as u64,
                },
            ),
            !found ==> final(self).clock() == old(self).clock(),
            !found ==> final(self).entries() == old(self).entries(),
    {
        let entry: Option<Stamped<V>> = self.map.remove(&key);
        match entry {
            Some(s) => {
                self.tick = self.tick + 1;
                self.map.insert(key, Stamped { value: s.value, last_used: self.tick });
                assert(self.map@ =~= old(self).map@.insert(
                    key,
                    Stamped { value: old(self).map@[key].value, last_used: self.tick },
                ));
                true
            },
            None => {
                assert(self.map@ =~= old(self).map@);
                false
            },
        }
    }

    /// Stores a value under a key as just used; a value it had is replaced.
    pub fn insert(&mut self, key: u64, value: V)
        requires
            old(self).wf(),
            old(self).clock() < u64::MAX,
        ensures
            final(self).wf(),
            final(self).clock() == old(self).clock() + 1,
            final(self).entries() == old(self).entries().insert(
                key,
                Stamped { value, last_used: (old(self).clock() + 1) as u64 },
            ),
    {
        self.tick = self.tick + 1;
        self.map.insert(key, Stamped { value, last_used: self.tick });
    }

    /// Drops the entry of a key, if there is one.
    pub fn remove(&mut self, key: u64)
        requires
            old(self).wf(),
        ensures
            final(self).wf(),
            final(self).clock() == old(self).clock(),
            final(self).entries() == old(self).entries().remove(key),
    {
        self.map.remove(&key);
    }

    /// Drops every entry.
    pub fn clear(&mut self)
        ensures
            final(self).wf(),
            final(self).clock() == old(self).clock(),
            final(self).entries() == Map::<u64, Stamped<V>>::empty(),
    {
        self.map.clear();
    }

    /// Every key, in no particular order.
    pub fn keys(&self) -> (ks: Vec<u64>)
        ensures
            ks@.no_duplicates(),
            ks@.to_set() == self.entries().dom(),
            ks@.len() == self.entries().len(),
    {
        let mut ks: Vec<u64> = Vec::new();
        let ghost all = spec_keys_iter(&self.map).remaining();
        for k in iter: self.map.keys()
            invariant
                iter.seq() == all,
                all == spec_keys_iter(&self.map).remaining(),
                ks@ == all.unref().take(iter.index()),
        {
            ks.push(*k);
            assert(ks@ =~= all.unref().take(iter.index() + 1));
        }
        assert(ks@ =~= all.unref());
        assert(all.no_duplicates());
        assert(ks@.no_duplicates());
        ks
    }

    /// The key that was used longest ago.
    fn oldest(&self) -> (k: u64)
        requires
            self.wf(),
            self.entries().len() > 0,
        ensures
            self.entries().dom().contains(k),
            forall|j: u64| #[trigger]
                self.entries().dom().contains(j) ==> self.entries()[k].last_used
                    <= self.entries()[j].last_used,
    {
        let ks: Vec<u64> = self.keys();
        let mut best: u64 = ks[0];
        assert(ks@.to_set().contains(ks@[0]));
        for i in 0..ks.len()
            invariant
                ks@.to_set() == self.entries().dom(),
                self.entries().dom().contains(best),
                forall|j: int|
                    0 <= j < i ==> self.entries()[best].last_used <= self.entries()[#[trigger] ks@[j]].last_used,
        {
            let k: u64 = ks[i];
            assert(ks@.to_set().contains(k));
            if self.stamp(k) < self.stamp(best) {
                best = k;
            }
        }
        assert forall|j: u64| #[trigger] self.entries().dom().contains(j) implies self.entries()[best].last_used
            <= self.entries()[j].last_used by {
            assert(ks@.to_set().contains(j));
            let i = choose|i: int| 0 <= i < ks@.len() && ks@[i] == j;
            assert(ks@[i] == j);
        }
        best
    }

    /// When a key was last used.
    fn stamp(&self, key: u64) -> (t: u64)
        requires
            self.entries().dom().contains(key),
        ensures
            t == self.entries()[key].last_used,
    {
        match self.map.get(&key) {
            Some(s) => s.last_used,
            None => 0,
        }
    }

    /// Drops the entries that were used longest ago until at most `cap` are
    /// left.
    pub fn shrink_to(&mut self, cap: usize)
        requires
            old(self).wf(),
        ensures
            final(self).wf(),
            final(self).clock() == old(self).clock(),
            keeps_newest(old(self).entries(), final(self).entries(), cap as nat),
    {
        let ghost before = self.entries();
        while self.map.len() > cap
            invariant
                self.wf(),
                self.clock() == old(self).clock(),
                before == old(self).entries(),
                old(self).wf(),
                part_of(self.entries(), before),
                self.entries().len() <= before.len(),
                self.entries().len() == before.len() || self.entries().len() >= cap,
                forall|kept: u64, dropped: u64|
                    #![trigger self.entries().dom().contains(kept), before.dom().contains(dropped)]
                    self.entries().dom().contains(kept) && before.dom().contains(dropped)
                        && !self.entries().dom().contains(dropped) ==> before[dropped].last_used
                        < before[kept].last_used,
            decreases self.entries().len(),
        {
            let k: u64 = self.oldest();
            let ghost now = self.entries();
            self.remove(k);
            assert forall|kept: u64, dropped: u64|
                #![trigger self.entries().dom().contains(kept), before.dom().contains(dropped)]
                self.entries().dom().contains(kept) && before.dom().contains(dropped)
                    && !self.entries().dom().contains(dropped) implies before[dropped].last_used
                < before[kept].last_used by {
                assert(now.dom().contains(kept));
                assert(now.dom().contains(k));
                if dropped != k {
                    assert(!now.dom().contains(dropped));
                }
            }
        }
    }
}

} // verus!
