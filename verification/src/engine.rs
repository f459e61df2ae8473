//! The engine: a configured world, its districts, and the chunks in memory.
use crate::cache::{byte_total, within_reach, ChunkCache};
use crate::chunk::{covers_chunk, generate_chunk, is_chunk, CellField};
use crate::config::WorldConfig;
use crate::data::{ChunkBuffer, ChunkId, CELL_BYTES, HEADER_BYTES};
use crate::double::F64;
use crate::recency::{keeps_newest, Stamped};
use crate::region::{zone_pull, VoronoiDiagram};
use crate::single::F32;
use crate::zones::ZONE_COUNT;
use vstd::prelude::*;

pub mod laws;

verus! {

/// A world and the chunks of it in memory.
#[derive(Debug)]
pub struct WorldEngine {
    config: WorldConfig,
    voronoi: VoronoiDiagram,
    cache: ChunkCache,
    generated_count: u64,
}

/// Is this the chunk of a place in a world, for some measurement of its cells?
pub open spec fn belongs(b: ChunkBuffer, id: ChunkId, c: WorldConfig, v: VoronoiDiagram) -> bool {
    exists|field: Seq<CellField>|
        covers_chunk(field, c, v) && #[trigger] is_chunk(b, id.cx, id.cy, c, v, field)
}

/// Equal bytes are the same chunk.
pub proof fn lemma_chunk_by_bytes(
    a: ChunkBuffer,
    b: ChunkBuffer,
    cx: i32,
    cy: i32,
    c: WorldConfig,
    v: VoronoiDiagram,
    field: Seq<CellField>,
)
    requires
        a@ == b@,
        is_chunk(a, cx, cy, c, v, field),
    ensures
        is_chunk(b, cx, cy, c, v, field),
{
    reveal(is_chunk);
}

/// No chunk.
pub open spec fn no_chunks() -> Map<ChunkId, Stamped<ChunkBuffer>> {
    Map::empty()
}

impl WorldEngine {
    /// The configuration.
    pub closed spec fn settings(self) -> WorldConfig {
        self.config
    }

    /// The districts.
    pub closed spec fn districts(self) -> VoronoiDiagram {
        self.voronoi
    }

    /// The chunks in memory.
    pub closed spec fn chunks(self) -> ChunkCache {
        self.cache
    }

    /// How many chunks were generated.
    pub closed spec fn generated(self) -> u64 {
        self.generated_count
    }

    /// Every chunk in memory is the chunk of its place in the configured
    /// world.
    pub open spec fn wf(self) -> bool {
        &&& self.chunks().wf()
        &&& forall|id: ChunkId| #[trigger]
            self.chunks().entries().dom().contains(id) ==> belongs(
                self.chunks().entries()[id].value,
                id,
                self.settings(),
                self.districts(),
            )
    }

    /// Is the chunk in memory?
    pub open spec fn remembers(self, cx: i32, cy: i32) -> bool {
        self.chunks().entries().dom().contains(ChunkId { cx, cy })
    }

    /// Do the districts follow from the seed and the number of sites, with the
    /// stock configuration for the rest?
    pub open spec fn districts_of(d: VoronoiDiagram, c: WorldConfig) -> bool {
        exists|stock: WorldConfig| #[trigger]
            stock.is_default() && d.is_of(
                WorldConfig {
                    seed: c.seed,
                    voronoi_site_count: c.voronoi_site_count,
                    ..stock
                },
            )
    }

    /// Is this a new engine with the given configuration?
    pub open spec fn is_fresh(self, c: WorldConfig) -> bool {
        &&& self.wf()
        &&& self.settings() == c
        &&& WorldEngine::districts_of(self.districts(), c)
        &&& self.generated() == 0
        &&& self.chunks().entries() == no_chunks()
        &&& self.chunks().clock() == 0
        &&& self.chunks().centre() == (ChunkId { cx: 0, cy: 0 })
        &&& self.chunks().reach() == c.draw_distance
        &&& self.chunks().limit() == usize::MAX
    }

    /// Is this a new engine with the stock configuration but for the seed?
    pub open spec fn is_stock_engine(self, seed: u64) -> bool {
        exists|stock: WorldConfig| #[trigger]
            stock.is_default() && self.is_fresh(WorldConfig { seed, ..stock })
    }

    /// Is this the engine `before` with another configuration: new districts,
    /// and no chunk in memory?
    pub open spec fn reconfigured(self, before: WorldEngine, c: WorldConfig) -> bool {
        &&& self.wf()
        &&& self.settings() == c
        &&& WorldEngine::districts_of(self.districts(), c)
        &&& self.generated() == before.generated()
        &&& self.chunks().entries() == no_chunks()
        &&& self.chunks().clock() == before.chunks().clock()
        &&& self.chunks().centre() == before.chunks().centre()
        &&& self.chunks().reach() == c.draw_distance
        &&& self.chunks().limit() == before.chunks().limit()
    }

    /// Is this the engine `before` with another chunk size, and no chunk in
    /// memory?
    pub open spec fn resized(self, before: WorldEngine, size: u16) -> bool {
        &&& self.wf()
        &&& self.settings() == (WorldConfig { chunk_size: size, ..before.settings() })
        &&& self.districts() == before.districts()
        &&& self.generated() == before.generated()
        &&& self.chunks().entries() == no_chunks()
        &&& self.chunks().clock() == before.chunks().clock()
        &&& self.chunks().centre() == before.chunks().centre()
        &&& self.chunks().reach() == before.chunks().reach()
        &&& self.chunks().limit() == before.chunks().limit()
    }

    /// Is this the engine `before` with another draw distance?
    pub open spec fn reaching(self, before: WorldEngine, dd: u32) -> bool {
        &&& self.wf()
        &&& self.settings() == before.settings()
        &&& self.districts() == before.districts()
        &&& self.generated() == before.generated()
        &&& self.chunks().entries() == before.chunks().entries()
        &&& self.chunks().clock() == before.chunks().clock()
        &&& self.chunks().centre() == before.chunks().centre()
        &&& self.chunks().reach() == dd
        &&& self.chunks().limit() == before.chunks().limit()
    }

    /// Is this the engine `before` with another centre?
    pub open spec fn recentred(self, before: WorldEngine, cx: i32, cy: i32) -> bool {
        &&& self.wf()
        &&& self.settings() == before.settings()
        &&& self.districts() == before.districts()
        &&& self.generated() == before.generated()
        &&& self.chunks().entries() == before.chunks().entries()
        &&& self.chunks().clock() == before.chunks().clock()
        &&& self.chunks().centre() == (ChunkId { cx, cy })
        &&& self.chunks().reach() == before.chunks().reach()
        &&& self.chunks().limit() == before.chunks().limit()
    }

    /// Is this the engine `before` without the chunks out of reach, and
    /// without those used longest ago beyond its capacity?
    pub open spec fn pruned(self, before: WorldEngine) -> bool {
        &&& self.wf()
        &&& self.settings() == before.settings()
        &&& self.districts() == before.districts()
        &&& self.generated() == before.generated()
        &&& self.chunks().clock() == before.chunks().clock()
        &&& self.chunks().centre() == before.chunks().centre()
        &&& self.chunks().reach() == before.chunks().reach()
        &&& self.chunks().limit() == before.chunks().limit()
        &&& keeps_newest(
            before.chunks().near(),
            self.chunks().entries(),
            before.chunks().limit() as nat,
        )
    }

    /// Can the chunk be handed out: is it in memory, or can it be generated
    /// from what is measured at its cells?
    pub open spec fn can_serve(self, cx: i32, cy: i32, field: Seq<CellField>) -> bool {
        &&& self.wf()
        &&& self.chunks().clock() < u64::MAX
        &&& self.generated() < u64::MAX
        &&& self.remembers(cx, cy) || {
            let n = self.settings().chunk_size;
            &&& HEADER_BYTES + (n * n) * CELL_BYTES <= usize::MAX
            &&& covers_chunk(field, self.settings(), self.districts())
        }
    }

    /// Is this the engine `before` once it has handed out the chunk `b`? A
    /// chunk in memory is handed out as it is, and counts as just used. Another
    /// is generated and remembered, and the chunks out of reach are dropped.
    pub open spec fn served(
        self,
        before: WorldEngine,
        cx: i32,
        cy: i32,
        field: Seq<CellField>,
        b: ChunkBuffer,
    ) -> bool {
        let id = ChunkId { cx, cy };
        let (was, now) = (before.chunks(), self.chunks());
        &&& self.wf()
        &&& self.settings() == before.settings()
        &&& self.districts() == before.districts()
        &&& now.centre() == was.centre()
        &&& now.reach() == was.reach()
        &&& now.limit() == was.limit()
        &&& now.clock() == was.clock() + 1
        &&& belongs(b, id, before.settings(), before.districts())
        &&& if before.remembers(cx, cy) {
            let held = was.entries()[id].value;
            &&& b@ == held@
            &&& self.generated() == before.generated()
            &&& now.entries() == was.entries().insert(
                id,
                Stamped { value: held, last_used: now.clock() },
            )
        } else {
            &&& is_chunk(b, cx, cy, before.settings(), before.districts(), field)
            &&& self.generated() == before.generated() + 1
            &&& exists|kept: ChunkBuffer| #[trigger]
                kept.view() == b.view() && keeps_newest(
                    within_reach(
                        was.entries().insert(
                            id,
                            Stamped { value: kept, last_used: now.clock() },
                        ),
                        was.centre(),
                        was.reach(),
                    ),
                    now.entries(),
                    was.limit() as nat,
                )
        }
    }

    /// An engine with the stock configuration but for the seed.
    pub fn new(seed: u64) -> (e: WorldEngine)
        ensures
            e.is_stock_engine(seed),
    {
        let stock: WorldConfig = WorldConfig::default();
        let mut config: WorldConfig = stock;
        config.seed = seed;
        assert(stock.is_default());
        WorldEngine::with_config(config)
    }

    /// An engine with a configuration of its own. The districts follow from
    /// its seed and number of sites.
    pub fn with_config(config: WorldConfig) -> (e: WorldEngine)
        ensures
            e.is_fresh(config),
    {
        let voronoi: VoronoiDiagram = VoronoiDiagram::generate(
            config.seed,
            config.voronoi_site_count,
        );
        let cache: ChunkCache = ChunkCache::new(ChunkId::new(0, 0), config.draw_distance);
        WorldEngine { config, voronoi, cache, generated_count: 0 }
    }

    /// Replaces the configuration: new districts, and no chunk in memory.
    pub fn set_config(&mut self, config: WorldConfig)
        requires
            old(self).wf(),
        ensures
            final(self).reconfigured(*old(self), config),
    {
        self.voronoi = VoronoiDiagram::generate(config.seed, config.voronoi_site_count);
        self.cache.clear();
        self.cache.set_draw_distance(config.draw_distance);
        self.config = config;
    }

    /// Whether a chunk is in memory.
    pub fn holds_chunk(&self, cx: i32, cy: i32) -> (b: bool)
        ensures
            b == self.remembers(cx, cy),
    {
        self.cache.contains(ChunkId::new(cx, cy))
    }

    /// The chunk at a column and a row: from memory, or generated from what is
    /// measured at its cells and remembered. Generating one drops the chunks
    /// out of reach of the centre.
    pub fn generate_chunk(&mut self, cx: i32, cy: i32, field: &Vec<CellField>) -> (b: ChunkBuffer)
        requires
            old(self).can_serve(cx, cy, field@),
        ensures
            final(self).served(*old(self), cx, cy, field@, b),
    {
        let id: ChunkId = ChunkId::new(cx, cy);
        if self.cache.contains(id) {
            if let Some(b) = self.cache.get(id) {
                let copy: ChunkBuffer = b.duplicate();
                proof {
                    let (c, v) = (old(self).settings(), old(self).districts());
                    let f = choose|f: Seq<CellField>|
                        covers_chunk(f, c, v) && #[trigger] is_chunk(*b, cx, cy, c, v, f);
                    lemma_chunk_by_bytes(*b, copy, cx, cy, c, v, f);
                }
                return copy;
            }
        }
        self.generated_count = self.generated_count + 1;
        let b: ChunkBuffer = generate_chunk(cx, cy, &self.config, &self.voronoi, field);
        let kept: ChunkBuffer = b.duplicate();
        proof {
            lemma_chunk_by_bytes(
                b,
                kept,
                cx,
                cy,
                self.config,
                self.voronoi,
                field@,
            );
        }
        let ghost (c, v) = (self.settings(), self.districts());
        assert(covers_chunk(field@, c, v));
        assert(is_chunk(kept, id.cx, id.cy, c, v, field@));
        assert(is_chunk(b, id.cx, id.cy, c, v, field@));
        assert(belongs(kept, id, c, v));
        assert(belongs(b, id, c, v));
        self.cache.insert(id, kept);
        proof {
            assert forall|k: ChunkId| #[trigger]
                self.chunks().entries().dom().contains(k) implies belongs(
                self.chunks().entries()[k].value,
                k,
                c,
                v,
            ) by {
                if k != id {
                    assert(old(self).chunks().entries().dom().contains(k));
                }
            }
        }
        self.evict_distant_chunks();
        assert(kept.view() == b.view());
        b
    }

    /// The pull of every zone at a point, given the power of the distance to
    /// every site.
    pub fn get_zone_affinity(&self, powers: &Vec<F64>) -> (a: [F32; ZONE_COUNT])
        requires
            powers@.len() == self.districts().map().len(),
        ensures
            forall|z: int|
                0 <= z < ZONE_COUNT ==> #[trigger] a[z] == zone_pull(
                    self.districts().map(),
                    powers@,
                    self.districts().guard(),
                    z,
                ),
    {
        self.voronoi.query(powers)
    }

    /// Sets the distance up to which chunks are kept. Nothing is dropped
    /// before the next eviction.
    pub fn set_draw_distance(&mut self, dd: u32)
        requires
            old(self).wf(),
        ensures
            final(self).reaching(*old(self), dd),
    {
        self.cache.set_draw_distance(dd);
    }

    /// Sets the cells per chunk side. Chunks of the old size are dropped.
    pub fn set_chunk_size(&mut self, size: u16)
        requires
            old(self).wf(),
            size > 0,
        ensures
            final(self).resized(*old(self), size),
    {
        self.config.chunk_size = size;
        self.cache.clear();
    }

    /// Sets the centre that distances are taken from. Nothing is dropped
    /// before the next eviction.
    pub fn set_center(&mut self, cx: i32, cy: i32)
        requires
            old(self).wf(),
        ensures
            final(self).recentred(*old(self), cx, cy),
    {
        self.cache.set_center(ChunkId::new(cx, cy));
    }

    /// Drops the chunks out of reach of the centre.
    pub fn evict_distant_chunks(&mut self)
        requires
            old(self).wf(),
        ensures
            final(self).pruned(*old(self)),
    {
        self.cache.evict_distant_chunks();
        proof {
            let before = old(self).chunks();
            assert forall|id: ChunkId| #[trigger]
                self.chunks().entries().dom().contains(id) implies belongs(
                self.chunks().entries()[id].value,
                id,
                self.settings(),
                self.districts(),
            ) by {
                assert(before.near().dom().contains(id));
                assert(before.entries().dom().contains(id));
            }
        }
    }

    /// The configuration.
    pub fn config(&self) -> (c: &WorldConfig)
        ensures
            *c == self.settings(),
    {
        &self.config
    }

    /// The districts.
    pub fn voronoi(&self) -> (d: &VoronoiDiagram)
        ensures
            *d == self.districts(),
    {
        &self.voronoi
    }

    /// How many chunks were generated.
    pub fn generated_count(&self) -> (n: u64)
        ensures
            n == self.generated(),
    {
        self.generated_count
    }

    /// How many chunks are in memory.
    pub fn cache_len(&self) -> (n: usize)
        requires
            self.wf(),
        ensures
            n == self.chunks().entries().len(),
    {
        self.cache.len()
    }

    /// The bytes of the chunks in memory.
    pub fn cache_memory_bytes(&self) -> (n: usize)
        requires
            self.wf(),
            byte_total(self.chunks().entries()) <= usize::MAX,
        ensures
            n == byte_total(self.chunks().entries()),
    {
        self.cache.memory_bytes()
    }
}

} // verus!
