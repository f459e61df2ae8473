//! What is handed to callers in other languages, as plain values.
use crate::chunk::{context_of, interior_context_for, is_chunk, CellField};
use crate::config::{lemma_stock_plans, WorldConfig};
use crate::data::{cell_place, is_cell_at, Cell, ChunkBuffer, ChunkId};
use crate::double::F64;
use crate::engine::{belongs, WorldEngine};
use crate::interior::{generate_layout, is_layout};
use crate::layout::{
    is_stock, Blueprint, DoorSide, Floor, InteriorContext, InteriorLayout, Tile,
};
use crate::lot::floor_division;
use crate::region::{zone_pull, VoronoiDiagram};
use crate::single::F32;
use crate::zones::ZONE_COUNT;
use vstd::prelude::*;

pub mod laws;

verus! {

/// The bytes of a chunk and their number.
#[derive(Clone, Debug, PartialEq, Eq)]
pub struct UrbixChunkBuffer {
    /// Header and cells.
    pub data: Vec<u8>,
    /// Number of bytes.
    pub len: u64,
}

/// An interior: its facts, and the tiles and room kinds of its storeys.
#[derive(Clone, Debug, PartialEq, Eq)]
pub struct UrbixInterior {
    /// The key of the interior.
    pub interior_id: u64,
    /// World seed.
    pub seed: u64,
    /// The zone, by its place in the tables.
    pub zone: u8,
    /// The entrance side: west, east, north, south.
    pub door_side: u8,
    /// Width of every floor grid.
    pub footprint_w: u8,
    /// Depth of every floor grid.
    pub footprint_d: u8,
    /// Number of storeys.
    pub floor_count: u16,
    /// Number of bytes.
    pub len: u64,
    /// For each storey the tiles and then the room kinds, row by row.
    pub data: Vec<u8>,
}

/// A chunk with its length.
pub fn chunk_out(chunk: ChunkBuffer) -> (b: UrbixChunkBuffer)
    ensures
        b.data@ == chunk@,
        b.len == chunk@.len(),
{
    let data: Vec<u8> = chunk.into_raw_bytes();
    let len: u64 = data.len() as u64;
    UrbixChunkBuffer { data, len }
}

/// The entrance side as a number.
pub open spec fn side_byte(s: DoorSide) -> u8 {
    match s {
        DoorSide::West => 0,
        DoorSide::East => 1,
        DoorSide::North => 2,
        DoorSide::South => 3,
    }
}

/// The entrance side as a number.
pub fn side_code(s: DoorSide) -> (b: u8)
    ensures
        b == side_byte(s),
{
    match s {
        DoorSide::West => 0,
        DoorSide::East => 1,
        DoorSide::North => 2,
        DoorSide::South => 3,
    }
}

/// No interior: all zero, and no bytes.
pub open spec fn is_empty_interior(i: UrbixInterior) -> bool {
    &&& i.interior_id == 0
    &&& i.seed == 0
    &&& i.zone == 0
    &&& i.door_side == 0
    &&& i.footprint_w == 0
    &&& i.footprint_d == 0
    &&& i.floor_count == 0
    &&& i.len == 0
    &&& i.data@.len() == 0
}

/// No interior.
pub fn empty_interior() -> (i: UrbixInterior)
    ensures
        is_empty_interior(i),
{
    UrbixInterior {
        interior_id: 0,
        seed: 0,
        zone: 0,
        door_side: 0,
        footprint_w: 0,
        footprint_d: 0,
        floor_count: 0,
        len: 0,
        data: Vec::new(),
    }
}

/// The bytes of one storey: its tiles, and then its room kinds.
pub open spec fn floor_bytes(f: Floor) -> Seq<u8> {
    f.tiles@.map_values(|t: Tile| t.byte()) + f.kinds@
}

/// The bytes of the first `n` storeys.
pub open spec fn floors_bytes(floors: Seq<Floor>, n: int) -> Seq<u8>
    decreases n,
{
    if n <= 0 {
        seq![]
    } else {
        floors_bytes(floors, n - 1) + floor_bytes(floors[n - 1])
    }
}

/// The bytes of a layout: for each storey its tiles and then its room kinds.
pub fn interior_payload(layout: &InteriorLayout) -> (v: Vec<u8>)
    ensures
        v@ == floors_bytes(layout.floors@, layout.floors@.len() as int),
{
    let mut out: Vec<u8> = Vec::new();
    for i in 0..layout.floors.len()
        invariant
            out@ == floors_bytes(layout.floors@, i as int),
    {
        let f: &Floor = &layout.floors[i];
        let ghost before = out@;
        let ghost tiles = f.tiles@.map_values(|t: Tile| t.byte());
        for k in 0..f.tiles.len()
            invariant
                tiles == f.tiles@.map_values(|t: Tile| t.byte()),
                out@ == before + tiles.take(k as int),
        {
            out.push(f.tiles[k].code());
            assert(out@ =~= before + tiles.take(k + 1));
        }
        assert(tiles.take(f.tiles@.len() as int) =~= tiles);
        for k in 0..f.kinds.len()
            invariant
                out@ == before + tiles + f.kinds@.take(k as int),
        {
            out.push(f.kinds[k]);
            assert(out@ =~= before + tiles + f.kinds@.take(k + 1));
        }
        assert(out@ =~= before + floor_bytes(*f));
    }
    out
}

/// The bytes of a building come to two for every tile of every storey.
pub proof fn law_payload_length(
    l: InteriorLayout,
    id: u64,
    ctx: InteriorContext,
    blueprint: Blueprint,
    ground: Blueprint,
)
    requires
        is_layout(l, id, ctx, blueprint, ground),
    ensures
        floors_bytes(l.floors@, l.floors@.len() as int).len() == l.floors@.len() * (2 * (
        ctx.footprint_w * ctx.footprint_d)),
{
    lemma_floor_dims(l, id, ctx, blueprint, ground);
    lemma_payload_length(l.floors@, l.floors@.len() as int, ctx.footprint_w * ctx.footprint_d);
}

pub proof fn lemma_payload_length(floors: Seq<Floor>, n: int, cells: int)
    requires
        0 <= n <= floors.len(),
        forall|f: int|
            0 <= f < floors.len() ==> (#[trigger] floors[f]).tiles@.len() == cells
                && floors[f].kinds@.len() == cells,
    ensures
        floors_bytes(floors, n).len() == n * (2 * cells),
    decreases n,
{
    if n > 0 {
        lemma_payload_length(floors, n - 1, cells);
        assert(floors[n - 1].tiles@.len() == cells);
        assert((n - 1) * (2 * cells) + 2 * cells == n * (2 * cells)) by (nonlinear_arith);
    } else {
        assert(n * (2 * cells) == 0) by (nonlinear_arith)
            requires
                n == 0,
        ;
    }
}

/// Every storey has the footprint of the lot.
pub proof fn lemma_floor_dims(
    l: InteriorLayout,
    id: u64,
    ctx: InteriorContext,
    blueprint: Blueprint,
    ground: Blueprint,
)
    requires
        is_layout(l, id, ctx, blueprint, ground),
    ensures
        forall|f: int|
            0 <= f < l.floors@.len() ==> {
                &&& (#[trigger] l.floors@[f]).width == ctx.footprint_w
                &&& l.floors@[f].depth == ctx.footprint_d
                &&& l.floors@[f].tiles@.len() == ctx.footprint_w * ctx.footprint_d
                &&& l.floors@[f].kinds@.len() == ctx.footprint_w * ctx.footprint_d
            },
{
    assert forall|f: int| 0 <= f < l.floors@.len() implies {
        &&& (#[trigger] l.floors@[f]).width == ctx.footprint_w
        &&& l.floors@[f].depth == ctx.footprint_d
        &&& l.floors@[f].tiles@.len() == ctx.footprint_w * ctx.footprint_d
        &&& l.floors@[f].kinds@.len() == ctx.footprint_w * ctx.footprint_d
    } by {
        crate::interior::laws::law_storeys(id, ctx, blueprint, ground, f);
        assert(l.floors@[f].wf());
    }
}

/// Where a world cell is: the chunk it lies in, and its place in it.
pub fn cell_address(wx: i32, wz: i32, chunk_size: u16) -> (a: (i32, i32, usize))
    requires
        chunk_size > 0,
    ensures
        a.0 == wx as int / chunk_size as int,
        a.1 == wz as int / chunk_size as int,
        a.2 == (wz as int % chunk_size as int) * chunk_size + wx as int % chunk_size as int,
        a.2 < chunk_size * chunk_size,
{
    let n: i64 = chunk_size as i64;
    let (cx, lx): (i64, i64) = floor_division(wx as i64, n);
    let (cy, lz): (i64, i64) = floor_division(wz as i64, n);
    proof {
        lemma_quotient_range(wx as int, n as int);
        lemma_quotient_range(wz as int, n as int);
    }
    assert(0 <= lz * n && lz * n + lx < n * n && n * n <= 0xffff * 0xffff) by (nonlinear_arith)
        requires
            0 <= lz < n,
            0 <= lx < n,
            n <= 0xffff,
    ;
    (cx as i32, cy as i32, (lz * n + lx) as usize)
}

proof fn lemma_quotient_range(a: int, n: int)
    requires
        -0x8000_0000 <= a <= 0x7fff_ffff,
        1 <= n,
    ensures
        -0x8000_0000 <= a / n <= 0x7fff_ffff,
{
    let q = a / n;
    vstd::arithmetic::div_mod::lemma_fundamental_div_mod(a, n);
    assert(-0x8000_0000 <= q <= 0x7fff_ffff) by (nonlinear_arith)
        requires
            a == n * q + a % n,
            0 <= a % n < n,
            -0x8000_0000 <= a <= 0x7fff_ffff,
            1 <= n,
    ;
}

/// Is this what is handed out for the interior of a built cell?
pub open spec fn is_interior_of(
    out: UrbixInterior,
    ctx: InteriorContext,
    layout: InteriorLayout,
) -> bool {
    &&& out.interior_id == layout.id
    &&& out.seed == layout.seed
    &&& out.zone == ctx.zone.ordinal()
    &&& out.door_side == side_byte(ctx.door_side)
    &&& out.footprint_w == ctx.footprint_w
    &&& out.footprint_d == ctx.footprint_d
    &&& out.floor_count == layout.floors@.len()
    &&& out.len == out.data@.len()
    &&& out.data@ == floors_bytes(layout.floors@, layout.floors@.len() as int)
}

/// Is this what is handed out for a cell: nothing where it is not built on,
/// and otherwise the layout by the rule table of its zone?
#[verifier::opaque]
pub open spec fn is_handed_out(
    out: UrbixInterior,
    config: WorldConfig,
    local_x: i64,
    local_z: i64,
    world_x: int,
    world_z: int,
    cell: Cell,
) -> bool {
    if cell.height.at_most(F32 { bits: 0 }) {
        is_empty_interior(out)
    } else {
        let ctx = context_of(config, local_x, local_z, world_x, world_z, cell);
        let own = config.interior_blueprints[ctx.zone.ordinal() as int];
        exists|b: Blueprint, l: InteriorLayout|
            {
                &&& if own.room_count == 0 {
                    is_stock(b, ctx.zone)
                } else {
                    b == own
                }
                &&& #[trigger] is_layout(l, cell.interior_id, ctx, b, b)
                &&& is_interior_of(out, ctx, l)
            }
    }
}

/// The interior of a cell, as it is handed out: nothing for a cell that is not
/// built on, and otherwise the layout by the rule table of its zone.
pub fn interior_out(
    config: &WorldConfig,
    local_x: i64,
    local_z: i64,
    world_x: i64,
    world_z: i64,
    cell: &Cell,
) -> (out: UrbixInterior)
    requires
        config.valid_plans(),
    ensures
        is_handed_out(out, *config, local_x, local_z, world_x as int, world_z as int, *cell),
{
    proof {
        reveal(is_handed_out);
    }
    if cell.height.le(F32::from_bits(0)) {
        return empty_interior();
    }
    let ctx: InteriorContext = interior_context_for(
        config,
        local_x,
        local_z,
        world_x,
        world_z,
        cell,
    );
    let blueprint: Blueprint = config.blueprint_for(ctx.zone);
    proof {
        crate::config::law_blueprints_usable(*config, ctx.zone, blueprint);
    }
    let layout: InteriorLayout = generate_layout(cell.interior_id, &ctx, &blueprint);
    let data: Vec<u8> = interior_payload(&layout);
    let len: u64 = data.len() as u64;
    let out: UrbixInterior = UrbixInterior {
        interior_id: layout.id,
        seed: layout.seed,
        zone: ctx.zone.index() as u8,
        door_side: side_code(ctx.door_side),
        footprint_w: ctx.footprint_w,
        footprint_d: ctx.footprint_d,
        floor_count: layout.floors.len() as u16,
        len,
        data,
    };
    assert(is_layout(layout, cell.interior_id, ctx, blueprint, blueprint));
    assert(is_interior_of(out, ctx, layout));
    out
}

/// The pull of every zone at a point.
#[derive(Clone, Copy, Debug, PartialEq, Eq)]
pub struct UrbixZoneAffinity {
    /// One weight for each zone.
    pub weights: [F32; ZONE_COUNT],
}

/// What a caller in another language holds: an engine, or nothing.
#[derive(Debug)]
pub struct UrbixEngine {
    world: Option<WorldEngine>,
}

impl UrbixEngine {
    /// The engine, if there is one.
    pub closed spec fn engine(self) -> Option<WorldEngine> {
        self.world
    }

    /// An engine that is held is in order: its chunks have cells, and rooms
    /// can be placed by its rule tables.
    pub open spec fn wf(self) -> bool {
        self.engine() matches Some(e) ==> {
            &&& e.wf()
            &&& e.settings().chunk_size > 0
            &&& e.settings().valid_plans()
        }
    }

    /// A handle that holds nothing.
    pub fn none() -> (h: UrbixEngine)
        ensures
            h.wf(),
            h.engine() is None,
    {
        UrbixEngine { world: None }
    }

    /// The engine, if there is one.
    pub fn world(&self) -> (w: Option<&WorldEngine>)
        ensures
            match w {
                Some(e) => self.engine() == Some(*e),
                None => self.engine() is None,
            },
    {
        self.world.as_ref()
    }
}

/// Creates an engine with the stock configuration but for the seed.
pub fn urbix_engine_create(seed: u64) -> (h: UrbixEngine)
    ensures
        h.wf(),
        h.engine() matches Some(e) && e.is_stock_engine(seed),
{
    let e: WorldEngine = WorldEngine::new(seed);
    proof {
        let stock = choose|stock: WorldConfig| #[trigger]
            stock.is_default() && e.is_fresh(WorldConfig { seed, ..stock });
        lemma_stock_plans(stock);
    }
    UrbixEngine { world: Some(e) }
}

/// Creates an engine with a configuration of its own; holds nothing where
/// there is no configuration, or it is not valid.
pub fn urbix_engine_create_with_config(config: Option<&WorldConfig>) -> (h: UrbixEngine)
    ensures
        h.wf(),
        match config {
            Some(c) => if c.valid() {
                h.engine() matches Some(e) && e.is_fresh(*c)
            } else {
                h.engine() is None
            },
            None => h.engine() is None,
        },
{
    if let Some(c) = config {
        if c.is_valid() {
            return UrbixEngine { world: Some(WorldEngine::with_config(*c)) };
        }
    }
    UrbixEngine::none()
}

/// Drops the engine, if there is one.
pub fn urbix_engine_destroy(handle: &mut UrbixEngine)
    ensures
        final(handle).wf(),
        final(handle).engine() is None,
{
    handle.world = None;
}

/// Sets the draw distance. Does nothing without an engine.
pub fn urbix_set_draw_distance(handle: &mut UrbixEngine, radius: u32)
    requires
        old(handle).wf(),
    ensures
        final(handle).wf(),
        match old(handle).engine() {
            Some(before) => final(handle).engine() matches Some(e) && e.reaching(before, radius),
            None => final(handle).engine() is None,
        },
{
    if let Some(e) = &mut handle.world {
        e.set_draw_distance(radius);
    }
}

/// Sets the chunk size. Does nothing without an engine, or for a size of zero.
pub fn urbix_set_chunk_size(handle: &mut UrbixEngine, size: u16)
    requires
        old(handle).wf(),
    ensures
        final(handle).wf(),
        match old(handle).engine() {
            Some(before) => if size == 0 {
                final(handle).engine() == Some(before)
            } else {
                final(handle).engine() matches Some(e) && e.resized(before, size)
            },
            None => final(handle).engine() is None,
        },
{
    if size == 0 {
        return;
    }
    if let Some(e) = &mut handle.world {
        e.set_chunk_size(size);
    }
}

/// Replaces the configuration. Does nothing without an engine, without a
/// configuration, or where it is not valid.
pub fn urbix_set_config(handle: &mut UrbixEngine, config: Option<&WorldConfig>)
    requires
        old(handle).wf(),
    ensures
        final(handle).wf(),
        match (old(handle).engine(), config) {
            (Some(before), Some(c)) => if c.valid() {
                final(handle).engine() matches Some(e) && e.reconfigured(before, *c)
            } else {
                final(handle).engine() == Some(before)
            },
            (before, _) => final(handle).engine() == before,
        },
{
    if let Some(c) = config {
        if c.is_valid() {
            if let Some(e) = &mut handle.world {
                e.set_config(*c);
            }
        }
    }
}

/// The pull of every zone at a point, given the power of the distance to every
/// site; all zero without an engine.
pub fn urbix_get_zone(handle: &UrbixEngine, powers: &Vec<F64>) -> (a: UrbixZoneAffinity)
    requires
        handle.engine() matches Some(e) ==> powers@.len() == e.districts().map().len(),
    ensures
        forall|z: int|
            0 <= z < ZONE_COUNT ==> #[trigger] a.weights[z] == match handle.engine() {
                Some(e) => zone_pull(e.districts().map(), powers@, e.districts().guard(), z),
                None => F32 { bits: 0 },
            },
{
    match &handle.world {
        Some(e) => UrbixZoneAffinity { weights: e.get_zone_affinity(powers) },
        None => UrbixZoneAffinity { weights: [F32::from_bits(0); ZONE_COUNT] },
    }
}

/// Are the bytes those of the chunk that the engine `before` hands out, and is
/// `after` the engine once it has?
pub open spec fn hands_out_chunk(
    before: WorldEngine,
    after: WorldEngine,
    cx: i32,
    cy: i32,
    field: Seq<CellField>,
    data: Seq<u8>,
) -> bool {
    exists|b: ChunkBuffer| #[trigger] after.served(before, cx, cy, field, b) && data == b@
}

/// The chunk at a column and a row, in bytes.
fn chunk_at(
    e: &mut WorldEngine,
    cx: i32,
    cy: i32,
    field: &Vec<CellField>,
) -> (out: UrbixChunkBuffer)
    requires
        old(e).can_serve(cx, cy, field@),
    ensures
        final(e).wf(),
        final(e).settings() == old(e).settings(),
        out.len == out.data@.len(),
        hands_out_chunk(*old(e), *final(e), cx, cy, field@, out.data@),
{
    let b: ChunkBuffer = e.generate_chunk(cx, cy, field);
    assert(e.served(*old(e), cx, cy, field@, b));
    chunk_out(b)
}

/// The chunk at a column and a row, in bytes; no bytes without an engine.
pub fn urbix_generate_chunk(
    handle: &mut UrbixEngine,
    cx: i32,
    cy: i32,
    field: &Vec<CellField>,
) -> (out: UrbixChunkBuffer)
    requires
        old(handle).wf(),
        old(handle).engine() matches Some(e) ==> e.can_serve(cx, cy, field@),
    ensures
        final(handle).wf(),
        out.len == out.data@.len(),
        match old(handle).engine() {
            Some(before) => {
                &&& final(handle).engine() matches Some(e)
                &&& hands_out_chunk(before, e, cx, cy, field@, out.data@)
            },
            None => final(handle).engine() is None && out.len == 0,
        },
{
    if let Some(e) = &mut handle.world {
        return chunk_at(e, cx, cy, field);
    }
    UrbixChunkBuffer { data: Vec::new(), len: 0 }
}

/// Is `out` what is handed out for the cell at a place of the world, as it
/// stands in the chunk `b` that the engine has handed out?
pub open spec fn hands_out_of(
    before: WorldEngine,
    after: WorldEngine,
    wx: i32,
    wz: i32,
    local_x: i64,
    local_z: i64,
    field: Seq<CellField>,
    out: UrbixInterior,
    b: ChunkBuffer,
    cell: Cell,
) -> bool {
    let n = before.settings().chunk_size as int;
    let i = (wz as int % n) * n + wx as int % n;
    &&& after.served(before, (wx as int / n) as i32, (wz as int / n) as i32, field, b)
    &&& is_cell_at(cell, b@, cell_place(i))
    &&& is_handed_out(out, before.settings(), local_x, local_z, wx as int, wz as int, cell)
}

/// Is `out` the interior that the engine `before` hands out for the cell at a
/// place of the world, and `after` the engine once it has handed out the chunk
/// the cell lies in?
pub open spec fn hands_out(
    before: WorldEngine,
    after: WorldEngine,
    wx: i32,
    wz: i32,
    local_x: i64,
    local_z: i64,
    field: Seq<CellField>,
    out: UrbixInterior,
) -> bool {
    exists|b: ChunkBuffer, cell: Cell| #[trigger]
        hands_out_of(before, after, wx, wz, local_x, local_z, field, out, b, cell)
}

/// The interior of the cell at a place of the world. `field` holds what is
/// measured at the cells of its chunk, unless that is in memory.
fn interior_at(
    e: &mut WorldEngine,
    wx: i32,
    wz: i32,
    local_x: i64,
    local_z: i64,
    field: &Vec<CellField>,
) -> (out: UrbixInterior)
    requires
        old(e).settings().chunk_size > 0,
        old(e).settings().valid_plans(),
        ({
            let n = old(e).settings().chunk_size as int;
            old(e).can_serve((wx as int / n) as i32, (wz as int / n) as i32, field@)
        }),
    ensures
        final(e).wf(),
        final(e).settings() == old(e).settings(),
        hands_out(*old(e), *final(e), wx, wz, local_x, local_z, field@, out),
{
    let (cx, cy, index): (i32, i32, usize) = cell_address(wx, wz, e.config().chunk_size);
    let b: ChunkBuffer = e.generate_chunk(cx, cy, field);
    proof {
        lemma_chunk_holds(b, ChunkId { cx, cy }, e.settings(), e.districts(), index as int);
    }
    let cell: Cell = b.get_cell(index);
    let out: UrbixInterior = interior_out(
        e.config(),
        local_x,
        local_z,
        wx as i64,
        wz as i64,
        &cell,
    );
    assert(hands_out_of(*old(e), *e, wx, wz, local_x, local_z, field@, out, b, cell));
    out
}

/// The interior of the cell at a place of the world; nothing without an
/// engine, and nothing where the cell is not built on. `field` holds what is
/// measured at the cells of its chunk, unless that is in memory.
pub fn urbix_generate_interior(
    handle: &mut UrbixEngine,
    wx: i32,
    wz: i32,
    local_x: i64,
    local_z: i64,
    field: &Vec<CellField>,
) -> (out: UrbixInterior)
    requires
        old(handle).wf(),
        old(handle).engine() matches Some(e) ==> {
            let n = e.settings().chunk_size as int;
            e.can_serve((wx as int / n) as i32, (wz as int / n) as i32, field@)
        },
    ensures
        final(handle).wf(),
        match old(handle).engine() {
            Some(before) => {
                &&& final(handle).engine() matches Some(e)
                &&& hands_out(before, e, wx, wz, local_x, local_z, field@, out)
            },
            None => final(handle).engine() is None && is_empty_interior(out),
        },
{
    if let Some(e) = &mut handle.world {
        return interior_at(e, wx, wz, local_x, local_z, field);
    }
    empty_interior()
}

/// A chunk of a world has every cell of its square.
proof fn lemma_chunk_holds(b: ChunkBuffer, id: ChunkId, c: WorldConfig, v: VoronoiDiagram, i: int)
    requires
        belongs(b, id, c, v),
        0 <= i < c.chunk_size * c.chunk_size,
    ensures
        b.holds(i),
{
    reveal(is_chunk);
}

} // verus!
