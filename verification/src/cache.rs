//! The chunks kept in memory.
//!
//! A chunk far from the centre can always be generated again, so it is
//! dropped; what is kept is bounded by the draw distance, and by a capacity
//! where one is set.
use crate::data::{ChunkBuffer, ChunkId};
use crate::recency::{keeps_newest, part_of, Recency, Stamped};
use vstd::prelude::*;
use vstd::relations::injective_on;
use vstd::set_lib::{lemma_len_subset, lemma_int_range, lemma_map_size, set_int_range};

pub mod laws;

verus! {

broadcast use {vstd::map::group_map_axioms, vstd::set::group_set_axioms};

/// The distance between two chunks: the larger of the distances along the two
/// axes.
pub open spec fn distance(a: ChunkId, b: ChunkId) -> int {
    let dx = if a.cx < b.cx {
        b.cx - a.cx
    } else {
        a.cx - b.cx
    };
    let dy = if a.cy < b.cy {
        b.cy - a.cy
    } else {
        a.cy - b.cy
    };
    if dx < dy {
        dy
    } else {
        dx
    }
}

/// The distance between two chunks.
pub fn chebyshev(a: &ChunkId, b: &ChunkId) -> (d: u32)
    ensures
        d == distance(*a, *b),
{
    let dx: i64 = if a.cx < b.cx {
        b.cx as i64 - a.cx as i64
    } else {
        a.cx as i64 - b.cx as i64
    };
    let dy: i64 = if a.cy < b.cy {
        b.cy as i64 - a.cy as i64
    } else {
        a.cy as i64 - b.cy as i64
    };
    if dx < dy {
        dy as u32
    } else {
        dx as u32
    }
}

/// The distance between chunks is a metric.
pub proof fn law_distance_is_a_metric(a: ChunkId, b: ChunkId, c: ChunkId)
    ensures
        distance(a, b) == distance(b, a),
        distance(a, b) == 0 <==> a == b,
        distance(a, c) <= distance(a, b) + distance(b, c),
        0 <= distance(a, b) <= u32::MAX,
{
}

/// A chunk as a number.
spec fn key_of(id: ChunkId) -> u64 {
    ((id.cx as u32 as u64) << 32) | (id.cy as u32 as u64)
}

/// The chunk of a number.
spec fn id_of(key: u64) -> ChunkId {
    ChunkId { cx: (key >> 32) as u32 as i32, cy: key as u32 as i32 }
}

proof fn lemma_key_of(id: ChunkId)
    ensures
        id_of(key_of(id)) == id,
{
    let (x, y) = (id.cx, id.cy);
    assert(((((x as u32 as u64) << 32) | (y as u32 as u64)) >> 32) as u32 as i32 == x)
        by (bit_vector);
    assert((((x as u32 as u64) << 32) | (y as u32 as u64)) as u32 as i32 == y) by (bit_vector);
}

proof fn lemma_id_of(key: u64)
    ensures
        key_of(id_of(key)) == key,
{
    assert((((key >> 32) as u32 as i32 as u32 as u64) << 32) | (key as u32 as i32 as u32 as u64)
        == key) by (bit_vector);
}

/// A chunk as a number.
fn key(id: ChunkId) -> (k: u64)
    ensures
        k == key_of(id),
{
    ((id.cx as u32 as u64) << 32) | (id.cy as u32 as u64)
}

/// The chunk of a number.
fn id_at(k: u64) -> (id: ChunkId)
    ensures
        id == id_of(k),
{
    ChunkId { cx: (k >> 32) as u32 as i32, cy: k as u32 as i32 }
}

/// Entries by number as entries by chunk.
spec fn by_chunk(m: Map<u64, Stamped<ChunkBuffer>>) -> Map<ChunkId, Stamped<ChunkBuffer>> {
    Map::new(|id: ChunkId| m.dom().contains(key_of(id)), |id: ChunkId| m[key_of(id)])
}

proof fn lemma_by_chunk(m: Map<u64, Stamped<ChunkBuffer>>)
    ensures
        forall|k: u64, v: Stamped<ChunkBuffer>| #[trigger]
            by_chunk(m.insert(k, v)) == by_chunk(m).insert(id_of(k), v),
        forall|k: u64| #[trigger] by_chunk(m.remove(k)) == by_chunk(m).remove(id_of(k)),
        m.dom().finite() ==> by_chunk(m).dom().finite() && by_chunk(m).len() == m.len(),
{
    assert forall|k: u64, v: Stamped<ChunkBuffer>| #[trigger]
        by_chunk(m.insert(k, v)) == by_chunk(m).insert(id_of(k), v) by {
        lemma_id_of(k);
        assert forall|id: ChunkId| key_of(id) == k implies id == id_of(k) by {
            lemma_key_of(id);
        }
        assert(by_chunk(m.insert(k, v)) =~= by_chunk(m).insert(id_of(k), v));
    }
    assert forall|k: u64| #[trigger]
        by_chunk(m.remove(k)) == by_chunk(m).remove(id_of(k)) by {
        lemma_id_of(k);
        assert forall|id: ChunkId| key_of(id) == k implies id == id_of(k) by {
            lemma_key_of(id);
        }
        assert(by_chunk(m.remove(k)) =~= by_chunk(m).remove(id_of(k)));
    }
    if m.dom().finite() {
        let f = |k: u64| id_of(k);
        assert(injective_on(f, m.dom())) by {
            assert forall|j: u64, k: u64|
                m.dom().contains(j) && m.dom().contains(k) && f(j) == f(k) implies j == k by {
                lemma_id_of(j);
                lemma_id_of(k);
            }
        }
        assert(m.dom().map(f) =~= by_chunk(m).dom()) by {
            assert forall|id: ChunkId| by_chunk(m).dom().contains(id) implies m.dom().map(
                f,
            ).contains(id) by {
                lemma_key_of(id);
                assert(f(key_of(id)) == id);
            }
            assert forall|id: ChunkId| m.dom().map(f).contains(id) implies by_chunk(
                m,
            ).dom().contains(id) by {
                let k = choose|k: u64| m.dom().contains(k) && f(k) == id;
                lemma_id_of(k);
            }
        }
        lemma_map_size(m.dom(), by_chunk(m).dom(), f);
    }
}

/// The bytes of all entries together.
pub open spec fn byte_total(m: Map<ChunkId, Stamped<ChunkBuffer>>) -> nat
    decreases m.len(),
    when m.dom().finite()
{
    if m.len() == 0 {
        0
    } else {
        let id = m.dom().choose();
        m[id].value@.len() + byte_total(m.remove(id))
    }
}

/// Taking out any one entry takes its bytes off the total.
proof fn lemma_byte_total(m: Map<ChunkId, Stamped<ChunkBuffer>>, id: ChunkId)
    requires
        m.dom().finite(),
        m.dom().contains(id),
    ensures
        byte_total(m) == m[id].value@.len() + byte_total(m.remove(id)),
    decreases m.len(),
{
    let c = m.dom().choose();
    assert(m.dom().len() > 0);
    assert(m.dom().contains(c));
    if c != id {
        lemma_byte_total(m.remove(c), id);
        lemma_byte_total(m.remove(id), c);
        assert(m.remove(c).remove(id) =~= m.remove(id).remove(c));
    }
}

/// The entries within reach of a centre.
pub open spec fn within_reach(
    m: Map<ChunkId, Stamped<ChunkBuffer>>,
    centre: ChunkId,
    reach: u32,
) -> Map<ChunkId, Stamped<ChunkBuffer>> {
    Map::new(
        |id: ChunkId| m.dom().contains(id) && distance(id, centre) <= reach,
        |id: ChunkId| m[id],
    )
}

/// Chunks by where they are, with a centre, a distance from it beyond which
/// they are dropped, and a capacity.
#[derive(Debug)]
pub struct ChunkCache {
    store: Recency<ChunkBuffer>,
    center: ChunkId,
    draw_distance: u32,
    capacity: usize,
}

impl ChunkCache {
    /// The chunks held, each with the moment of its last use.
    pub closed spec fn entries(self) -> Map<ChunkId, Stamped<ChunkBuffer>> {
        by_chunk(self.store.entries())
    }

    /// The moment of the latest use.
    pub closed spec fn clock(self) -> u64 {
        self.store.clock()
    }

    /// The chunk that distances are taken from.
    pub closed spec fn centre(self) -> ChunkId {
        self.center
    }

    /// The distance up to which chunks are kept.
    pub closed spec fn reach(self) -> u32 {
        self.draw_distance
    }

    /// Most chunks kept.
    pub closed spec fn limit(self) -> usize {
        self.capacity
    }

    /// No two chunks were last used at the same moment, and none later than
    /// the latest use.
    pub closed spec fn wf(self) -> bool {
        self.store.wf()
    }

    /// The chunks within reach of the centre.
    pub open spec fn near(self) -> Map<ChunkId, Stamped<ChunkBuffer>> {
        within_reach(self.entries(), self.centre(), self.reach())
    }

    /// What holds of every cache in use.
    pub proof fn lemma_wf(self)
        requires
            self.wf(),
        ensures
            self.entries().dom().finite(),
            forall|id: ChunkId| #[trigger]
                self.entries().dom().contains(id) ==> self.entries()[id].last_used <= self.clock(),
            forall|a: ChunkId, b: ChunkId|
                #![trigger self.entries().dom().contains(a), self.entries().dom().contains(b)]
                self.entries().dom().contains(a) && self.entries().dom().contains(b) && a != b
                    ==> self.entries()[a].last_used != self.entries()[b].last_used,
    {
        let m = self.store.entries();
        lemma_by_chunk(m);
        assert forall|id: ChunkId| #[trigger] self.entries().dom().contains(id) implies self.entries()[id].last_used
            <= self.clock() by {
            assert(m.dom().contains(key_of(id)));
        }
        assert forall|a: ChunkId, b: ChunkId|
            #![trigger self.entries().dom().contains(a), self.entries().dom().contains(b)]
            self.entries().dom().contains(a) && self.entries().dom().contains(b) && a != b implies self.entries()[a].last_used
            != self.entries()[b].last_used by {
            lemma_key_of(a);
            lemma_key_of(b);
            assert(m.dom().contains(key_of(a)) && m.dom().contains(key_of(b)));
        }
    }

    /// An empty cache without a capacity.
    pub fn new(center: ChunkId, draw_distance: u32) -> (c: ChunkCache)
        ensures
            c.wf(),
            c.entries() == Map::<ChunkId, Stamped<ChunkBuffer>>::empty(),
            c.clock() == 0,
            c.centre() == center,
            c.reach() == draw_distance,
            c.limit() == usize::MAX,
    {
        let c: ChunkCache = ChunkCache {
            store: Recency::new(),
            center,
            draw_distance,
            capacity: usize::MAX,
        };
        assert(c.entries() =~= Map::<ChunkId, Stamped<ChunkBuffer>>::empty());
        c
    }

    /// Sets the capacity, or lifts it. Nothing is dropped before the next
    /// eviction.
    pub fn set_capacity(&mut self, cap: Option<usize>)
        requires
            old(self).wf(),
        ensures
            final(self).wf(),
            final(self).entries() == old(self).entries(),
            final(self).clock() == old(self).clock(),
            final(self).centre() == old(self).centre(),
            final(self).reach() == old(self).reach(),
            final(self).limit() == (match cap {
                Some(n) => n,
                None => usize::MAX,
            }),
    {
        self.capacity = match cap {
            Some(n) => n,
            None => usize::MAX,
        };
    }

    /// Sets the distance up to which chunks are kept. Nothing is dropped
    /// before the next eviction.
    pub fn set_draw_distance(&mut self, dd: u32)
        requires
            old(self).wf(),
        ensures
            final(self).wf(),
            final(self).entries() == old(self).entries(),
            final(self).clock() == old(self).clock(),
            final(self).centre() == old(self).centre(),
            final(self).reach() == dd,
            final(self).limit() == old(self).limit(),
    {
        self.draw_distance = dd;
    }

    /// The distance up to which chunks are kept.
    pub fn draw_distance(&self) -> (dd: u32)
        ensures
            dd == self.reach(),
    {
        self.draw_distance
    }

    /// Sets the centre. Nothing is dropped before the next eviction.
    pub fn set_center(&mut self, center: ChunkId)
        requires
            old(self).wf(),
        ensures
            final(self).wf(),
            final(self).entries() == old(self).entries(),
            final(self).clock() == old(self).clock(),
            final(self).centre() == center,
            final(self).reach() == old(self).reach(),
            final(self).limit() == old(self).limit(),
    {
        self.center = center;
    }

    /// The centre.
    pub fn center(&self) -> (c: ChunkId)
        ensures
            c == self.centre(),
    {
        self.center
    }

    /// Whether a chunk is held.
    pub fn contains(&self, id: ChunkId) -> (b: bool)
        ensures
            b == self.entries().dom().contains(id),
    {
        self.store.contains(key(id))
    }

    /// The chunk at a place, if it is held; it counts as just used.
    pub fn get(&mut self, id: ChunkId) -> (r: Option<&ChunkBuffer>)
        requires
            old(self).wf(),
            old(self).clock() < u64::MAX,
        ensures
            final(self).wf(),
            final(self).centre() == old(self).centre(),
            final(self).reach() == old(self).reach(),
            final(self).limit() == old(self).limit(),
            r is Some == old(self).entries().dom().contains(id),
            match r {
                Some(b) => {
                    &&& *b == old(self).entries()[id].value
                    &&& final(self).clock() == old(self).clock() + 1
                    &&& final(self).entries() == old(self).entries().insert(
                        id,
                        Stamped { value: *b, last_used: (old(self).clock() + 1) as u64 },
                    )
                },
                None => final(self).clock() == old(self).clock() && final(self).entries() == old(
                    self,
                ).entries(),
            },
    {
        let k: u64 = key(id);
        proof {
            lemma_by_chunk(self.store.entries());
            lemma_key_of(id);
        }
        self.store.touch(k);
        self.store.peek(k)
    }

    /// Holds a chunk as just used; one that was at its place is replaced.
    /// Nothing is dropped before the next eviction.
    pub fn insert(&mut self, id: ChunkId, value: ChunkBuffer)
        requires
            old(self).wf(),
            old(self).clock() < u64::MAX,
        ensures
            final(self).wf(),
            final(self).centre() == old(self).centre(),
            final(self).reach() == old(self).reach(),
            final(self).limit() == old(self).limit(),
            final(self).clock() == old(self).clock() + 1,
            final(self).entries() == old(self).entries().insert(
                id,
                Stamped { value, last_used: (old(self).clock() + 1) as u64 },
            ),
    {
        proof {
            lemma_by_chunk(self.store.entries());
            lemma_key_of(id);
        }
        self.store.insert(key(id), value);
    }

    /// Drops the chunks out of reach of the centre, and then those used
    /// longest ago until the capacity is met.
    pub fn evict_distant_chunks(&mut self)
        requires
            old(self).wf(),
        ensures
            final(self).wf(),
            final(self).centre() == old(self).centre(),
            final(self).reach() == old(self).reach(),
            final(self).limit() == old(self).limit(),
            final(self).clock() == old(self).clock(),
            keeps_newest(old(self).near(), final(self).entries(), old(self).limit() as nat),
    {
        let ids: Vec<ChunkId> = self.keys();
        let ghost before = self.entries();
        for i in 0..ids.len()
            invariant
                self.wf(),
                self.centre() == old(self).centre(),
                self.reach() == old(self).reach(),
                self.limit() == old(self).limit(),
                self.clock() == old(self).clock(),
                before == old(self).entries(),
                ids@.to_set() == before.dom(),
                part_of(self.entries(), before),
                forall|id: ChunkId| #[trigger]
                    before.dom().contains(id) && distance(id, self.centre()) <= self.reach()
                        ==> self.entries().dom().contains(id),
                forall|j: int|
                    0 <= j < i && distance(#[trigger] ids@[j], self.centre()) > self.reach()
                        ==> !self.entries().dom().contains(ids@[j]),
        {
            let id: ChunkId = ids[i];
            if chebyshev(&id, &self.center) > self.draw_distance {
                proof {
                    lemma_by_chunk(self.store.entries());
                    lemma_key_of(id);
                }
                self.store.remove(key(id));
            }
        }
        let ghost kept = self.store.entries();
        proof {
            assert forall|id: ChunkId| #[trigger] self.entries().dom().contains(id) implies distance(
                id,
                self.centre(),
            ) <= self.reach() by {
                assert(before.dom().contains(id));
                assert(ids@.to_set().contains(id));
                let j = choose|j: int| 0 <= j < ids@.len() && ids@[j] == id;
                assert(ids@[j] == id);
            }
            assert(self.entries() =~= old(self).near());
            lemma_by_chunk(kept);
        }
        self.store.shrink_to(self.capacity);
        proof {
            let after = self.store.entries();
            lemma_by_chunk(after);
            let (one, two) = (by_chunk(kept), by_chunk(after));
            assert forall|id: ChunkId| #[trigger] two.dom().contains(id) implies one.dom().contains(
                id,
            ) && two[id] == one[id] by {
                assert(after.dom().contains(key_of(id)));
            }
            assert forall|a: ChunkId, b: ChunkId|
                #![trigger two.dom().contains(a), one.dom().contains(b)]
                two.dom().contains(a) && one.dom().contains(b) && !two.dom().contains(b) implies one[b].last_used
                < one[a].last_used by {
                assert(after.dom().contains(key_of(a)) && kept.dom().contains(key_of(b)));
            }
        }
    }

    /// Drops every chunk.
    pub fn clear(&mut self)
        requires
            old(self).wf(),
        ensures
            final(self).wf(),
            final(self).entries() == Map::<ChunkId, Stamped<ChunkBuffer>>::empty(),
            final(self).clock() == old(self).clock(),
            final(self).centre() == old(self).centre(),
            final(self).reach() == old(self).reach(),
            final(self).limit() == old(self).limit(),
    {
        self.store.clear();
        assert(self.entries() =~= Map::<ChunkId, Stamped<ChunkBuffer>>::empty());
    }

    /// The number of chunks held.
    pub fn len(&self) -> (n: usize)
        requires
            self.wf(),
        ensures
            n == self.entries().len(),
    {
        proof {
            lemma_by_chunk(self.store.entries());
        }
        self.store.len()
    }

    /// Whether no chunk is held.
    pub fn is_empty(&self) -> (b: bool)
        requires
            self.wf(),
        ensures
            b == (self.entries().len() == 0),
    {
        self.len() == 0
    }

    /// The bytes of the chunks held.
    pub fn memory_bytes(&self) -> (n: usize)
        requires
            self.wf(),
            byte_total(self.entries()) <= usize::MAX,
        ensures
            n == byte_total(self.entries()),
    {
        let ids: Vec<ChunkId> = self.keys();
        let ghost all = self.entries();
        let ghost mut rest = all;
        let mut total: usize = 0;
        proof {
            lemma_by_chunk(self.store.entries());
        }
        for i in 0..ids.len()
            invariant
                all == self.entries(),
                self.wf(),
                byte_total(all) <= usize::MAX,
                ids@.no_duplicates(),
                ids@.to_set() == all.dom(),
                rest.dom().finite(),
                part_of(rest, all),
                forall|j: int| i <= j < ids@.len() ==> rest.dom().contains(#[trigger] ids@[j]),
                forall|j: int| 0 <= j < i ==> !rest.dom().contains(#[trigger] ids@[j]),
                total + byte_total(rest) == byte_total(all),
        {
            let id: ChunkId = ids[i];
            assert(ids@.to_set().contains(id));
            proof {
                lemma_byte_total(rest, id);
                lemma_key_of(id);
            }
            if let Some(b) = self.store.peek(key(id)) {
                total = total + b.as_bytes().len();
            }
            proof {
                rest = rest.remove(id);
            }
        }
        proof {
            if rest.len() != 0 {
                let id = rest.dom().choose();
                assert(rest.dom().contains(id));
                assert(ids@.to_set().contains(id));
                let j = choose|j: int| 0 <= j < ids@.len() && ids@[j] == id;
                assert(ids@[j] == id);
            }
        }
        total
    }

    /// The chunks held, in no particular order.
    pub fn keys(&self) -> (ids: Vec<ChunkId>)
        ensures
            ids@.no_duplicates(),
            ids@.to_set() == self.entries().dom(),
    {
        let ks: Vec<u64> = self.store.keys();
        let mut ids: Vec<ChunkId> = Vec::new();
        for i in 0..ks.len()
            invariant
                ids@.len() == i,
                forall|j: int| 0 <= j < i ==> #[trigger] ids@[j] == id_of(ks@[j]),
        {
            ids.push(id_at(ks[i]));
        }
        proof {
            assert forall|i: int, j: int|
                0 <= i < ids@.len() && 0 <= j < ids@.len() && i != j implies ids@[i] != ids@[j] by {
                lemma_id_of(ks@[i]);
                lemma_id_of(ks@[j]);
            }
            assert forall|id: ChunkId| ids@.to_set().contains(id) implies self.entries().dom().contains(
                id,
            ) by {
                let j = choose|j: int| 0 <= j < ids@.len() && ids@[j] == id;
                lemma_id_of(ks@[j]);
                assert(ks@.to_set().contains(ks@[j]));
            }
            assert forall|id: ChunkId| self.entries().dom().contains(id) implies ids@.to_set().contains(
                id,
            ) by {
                assert(ks@.to_set().contains(key_of(id)));
                let j = choose|j: int| 0 <= j < ks@.len() && ks@[j] == key_of(id);
                lemma_key_of(id);
                assert(ids@[j] == id);
            }
            assert(ids@.to_set() =~= self.entries().dom());
        }
        ids
    }
}

/// The chunks within reach of a centre are no more than the square of the
/// reach on either side and the centre row: what an eviction leaves is bounded
/// by the draw distance alone.
pub proof fn law_reach_bounds_memory(ids: Set<ChunkId>, centre: ChunkId, reach: u32)
    requires
        forall|id: ChunkId| #[trigger] ids.contains(id) ==> distance(id, centre) <= reach,
    ensures
        ids.finite(),
        ids.len() <= (2 * reach + 1) * (2 * reach + 1),
{
    let side = 2 * reach + 1;
    let f = |id: ChunkId| (id.cx - centre.cx + reach) * side + (id.cy - centre.cy + reach);
    let room = set_int_range(0, side * side);
    lemma_int_range(0, side * side);
    assert(side * side >= 0) by (nonlinear_arith);
    let image = ids.map(f);
    assert forall|v: int| image.contains(v) implies room.contains(v) by {
        let id = choose|id: ChunkId| ids.contains(id) && f(id) == v;
        let (a, b) = (id.cx - centre.cx + reach, id.cy - centre.cy + reach);
        assert(0 <= a < side && 0 <= b < side);
        assert(0 <= a * side + b < side * side) by (nonlinear_arith)
            requires
                0 <= a < side,
                0 <= b < side,
        ;
    }
    assert(image.subset_of(room));
    lemma_len_subset(image, room);
    // The numbering is one to one, so the chunks are as many as their numbers.
    let g = |v: int|
        ChunkId {
            cx: (v / side - reach + centre.cx) as i32,
            cy: (v % side - reach + centre.cy) as i32,
        };
    assert forall|id: ChunkId| ids.contains(id) implies #[trigger] g(f(id)) == id by {
        let (a, b) = (id.cx - centre.cx + reach, id.cy - centre.cy + reach);
        assert(0 <= a < side && 0 <= b < side);
        vstd::arithmetic::div_mod::lemma_fundamental_div_mod_converse(a * side + b, side, a, b);
    }
    assert(image.map(g) =~= ids) by {
        assert forall|id: ChunkId| ids.contains(id) implies image.map(g).contains(id) by {
            assert(image.contains(f(id)));
            assert(g(f(id)) == id);
        }
        assert forall|id: ChunkId| image.map(g).contains(id) implies ids.contains(id) by {
            let v = choose|v: int| image.contains(v) && g(v) == id;
            let source = choose|e: ChunkId| ids.contains(e) && f(e) == v;
            assert(g(f(source)) == source);
        }
    }
    assert(injective_on(g, image)) by {
        assert forall|v: int, w: int| image.contains(v) && image.contains(w) && g(v) == g(w) implies v
            == w by {
            let a = choose|e: ChunkId| ids.contains(e) && f(e) == v;
            let b = choose|e: ChunkId| ids.contains(e) && f(e) == w;
            assert(g(f(a)) == a && g(f(b)) == b);
        }
    }
    lemma_map_size(image, ids, g);
}

} // verus!
