//! Generating interiors: a separate small world behind every built lot.
//!
//! An interior is a function of its key and of what its lot looks like from
//! outside, so it can be dropped and generated again at any time.
use crate::config::WorldConfig;
use crate::data::InteriorId;
use crate::hash::{coord_hash, domain, hash_coords};
use crate::interior::placement::orderly;
use crate::interior::storey::{generate_floor, storey};
use crate::interior::units::{
    capped, at_least, core_rect_for_floor, id_halves, shaft_columns, split_id, stacked_core,
    stacked_core_rect, wandering_core, wet_shaft_columns,
};
use crate::layout::{
    floor_role, role_of, Blueprint, Floor, FloorRole, InteriorContext, InteriorLayout, Plan,
};
use crate::zones::ZONE_COUNT;
use vstd::prelude::*;

pub mod cache;
pub mod chances;
pub mod choices;
pub mod draw;
pub mod filling;
pub mod fullness;
pub mod furniture;
pub mod grid;
pub mod kinds;
pub mod laws;
pub mod openings;
pub mod placement;
pub mod shape;
pub mod steering;
pub mod storey;
pub mod units;

pub use crate::interior::cache::InteriorCache;

verus! {

/// A kind of interior that can be generated from a key and a context, and
/// always the same from the same ones.
pub trait InteriorState: Sized {
    /// The interior of a key and a context.
    spec fn generated(id: InteriorId, ctx: InteriorContext) -> Self;

    /// Generates the interior of a key and a context.
    fn generate(id: InteriorId, ctx: &InteriorContext) -> (s: Self)
        ensures
            s == Self::generated(id, *ctx),
    ;
}

/// A minimal interior: its dimensions and mood, without any rooms.
#[derive(Clone, Copy, Debug, PartialEq, Eq, Structural)]
pub struct PlaceholderInteriorState {
    /// The key it was generated for.
    pub id: InteriorId,
    /// World seed.
    pub seed: u64,
    /// Width in tiles.
    pub width: u16,
    /// Depth in tiles.
    pub height: u16,
    /// Number of storeys.
    pub floors: u8,
    /// Fog density.
    pub fog: u8,
    /// Palette of the walls and floors.
    pub palette_id: u8,
}

/// A length drawn from a range, both ends counted.
pub open spec fn drawn_from(lo: u16, hi: u16, id: InteriorId, seed: u64, dom: u8) -> u16 {
    let (x, y) = id_halves(id);
    (lo + coord_hash(x, y, seed, dom) as int % (hi - lo + 1)) as u16
}

/// A placeholder interior. The footprint of the lot decides its dimensions;
/// where the lot has none they are drawn from the given ranges. A palette of
/// zero is replaced by a drawn one.
pub open spec fn placeholder(
    id: InteriorId,
    ctx: InteriorContext,
    widths: (u16, u16),
    heights: (u16, u16),
) -> PlaceholderInteriorState {
    let (x, y) = id_halves(id);
    PlaceholderInteriorState {
        id,
        seed: ctx.seed,
        width: if ctx.footprint_w > 0 {
            ctx.footprint_w as u16
        } else {
            drawn_from(widths.0, widths.1, id, ctx.seed, domain::INTERIOR_SIZE_W)
        },
        height: if ctx.footprint_d > 0 {
            ctx.footprint_d as u16
        } else {
            drawn_from(heights.0, heights.1, id, ctx.seed, domain::INTERIOR_SIZE_H)
        },
        floors: ctx.floor_count,
        fog: (coord_hash(x, y, ctx.seed, domain::INTERIOR_FOG) % 256) as u8,
        palette_id: if ctx.palette_id != 0 {
            ctx.palette_id
        } else {
            (coord_hash(x, y, ctx.seed, domain::INTERIOR_PALETTE) % 8) as u8
        },
    }
}

/// A length drawn from a range, both ends counted.
fn draw_from(range: [u16; 2], id: InteriorId, seed: u64, dom: u8) -> (n: u16)
    requires
        range[0] <= range[1],
        range[1] - range[0] < 0xffff,
    ensures
        n == drawn_from(range[0], range[1], id, seed, dom),
{
    let (x, y): (i64, i64) = split_id(id);
    let span: u64 = (range[1] - range[0] + 1) as u64;
    range[0] + (hash_coords(x, y, seed, dom) % span) as u16
}

impl PlaceholderInteriorState {
    /// Generates with the size ranges of a configuration.
    pub fn generate_with_config(id: InteriorId, ctx: &InteriorContext, config: &WorldConfig) -> (s:
        PlaceholderInteriorState)
        requires
            config.interior_width_range[0] <= config.interior_width_range[1],
            config.interior_width_range[1] - config.interior_width_range[0] < 0xffff,
            config.interior_height_range[0] <= config.interior_height_range[1],
            config.interior_height_range[1] - config.interior_height_range[0] < 0xffff,
        ensures
            s == placeholder(
                id,
                *ctx,
                (config.interior_width_range[0], config.interior_width_range[1]),
                (config.interior_height_range[0], config.interior_height_range[1]),
            ),
    {
        let (x, y): (i64, i64) = split_id(id);
        let width: u16 = if ctx.footprint_w > 0 {
            ctx.footprint_w as u16
        } else {
            draw_from(config.interior_width_range, id, ctx.seed, domain::INTERIOR_SIZE_W)
        };
        let height: u16 = if ctx.footprint_d > 0 {
            ctx.footprint_d as u16
        } else {
            draw_from(config.interior_height_range, id, ctx.seed, domain::INTERIOR_SIZE_H)
        };
        let fog: u8 = (hash_coords(x, y, ctx.seed, domain::INTERIOR_FOG) % 256) as u8;
        let palette_id: u8 = if ctx.palette_id != 0 {
            ctx.palette_id
        } else {
            (hash_coords(x, y, ctx.seed, domain::INTERIOR_PALETTE) % 8) as u8
        };
        PlaceholderInteriorState {
            id,
            seed: ctx.seed,
            width,
            height,
            floors: ctx.floor_count,
            fog,
            palette_id,
        }
    }
}

impl InteriorState for PlaceholderInteriorState {
    open spec fn generated(id: InteriorId, ctx: InteriorContext) -> PlaceholderInteriorState {
        placeholder(id, ctx, (6, 14), (6, 14))
    }

    fn generate(id: InteriorId, ctx: &InteriorContext) -> (s: PlaceholderInteriorState) {
        PlaceholderInteriorState::generate_with_config(id, ctx, &WorldConfig::default())
    }
}

/// Generates an interior of any kind.
pub fn generate_interior<S: InteriorState>(id: InteriorId, ctx: &InteriorContext) -> (s: S)
    ensures
        s == S::generated(id, *ctx),
{
    S::generate(id, ctx)
}

/// The rule table of the ground floor: that of another zone where the
/// building has more than two storeys and its own table names one.
pub open spec fn ground_table(
    ctx: InteriorContext,
    blueprint: Blueprint,
    table: [Blueprint; ZONE_COUNT],
) -> Blueprint {
    if ctx.floor_count > 2 && blueprint.ground_zone < ZONE_COUNT {
        table[blueprint.ground_zone as int]
    } else {
        blueprint
    }
}

/// The rule table of the ground floor of a mixed-use building.
pub fn resolve_ground_override<'a>(
    ctx: &InteriorContext,
    blueprint: &'a Blueprint,
    table: &'a [Blueprint; ZONE_COUNT],
) -> (b: &'a Blueprint)
    ensures
        *b == ground_table(*ctx, *blueprint, *table),
{
    if ctx.floor_count > 2 && (blueprint.ground_zone as usize) < ZONE_COUNT {
        &table[blueprint.ground_zone as usize]
    } else {
        blueprint
    }
}

/// Every live template of the table has its size bounds in order.
pub open spec fn usable(b: Blueprint) -> bool {
    forall|i: int| 0 <= i < b.live().len() ==> orderly(#[trigger] b.live()[i])
}

/// The core of storey `f`: the same on every storey, unless the table lets it
/// wander.
pub open spec fn core_at(id: InteriorId, ctx: InteriorContext, blueprint: Blueprint, f: u8) -> (
    int,
    int,
    int,
) {
    let (x, y) = id_halves(id);
    let gw = at_least(ctx.footprint_w as int, 1);
    let gd = at_least(ctx.footprint_d as int, 1);
    if blueprint.wandering_core == 0 {
        stacked_core(x, y, ctx.seed, gw, gd, blueprint.core_size as int)
    } else {
        wandering_core(x, y, ctx.seed, f, gw, gd, blueprint.core_size as int)
    }
}

/// The core of storey `f` in its role: one tile larger at the top, as far as
/// the grid allows.
pub open spec fn role_core(
    id: InteriorId,
    ctx: InteriorContext,
    blueprint: Blueprint,
    f: u8,
    role: FloorRole,
) -> (u8, u8, u8) {
    let (size, x, z) = core_at(id, ctx, blueprint, f);
    let size = if role == FloorRole::Top {
        capped(
            capped(size + 1, at_least(ctx.footprint_w as int, 1)),
            at_least(ctx.footprint_d as int, 1),
        )
    } else {
        size
    };
    (size as u8, x as u8, z as u8)
}

/// The shafts of the building, the same on every storey.
pub open spec fn building_shafts(
    id: InteriorId,
    ctx: InteriorContext,
    blueprint: Blueprint,
) -> Seq<u8> {
    let (x, y) = id_halves(id);
    shaft_columns(
        x,
        y,
        ctx.seed,
        at_least(ctx.footprint_w as int, 1),
        blueprint.wet_shafts as int,
    )
}

/// The number of storeys of a layout: those of the context, at least one.
pub open spec fn storey_total(ctx: InteriorContext) -> int {
    at_least(ctx.floor_count as int, 1)
}

/// Storey `f` of a building. Typical storeys all repeat the first of them,
/// unless the table has them vary.
pub open spec fn building_storey(
    id: InteriorId,
    ctx: InteriorContext,
    blueprint: Blueprint,
    ground: Blueprint,
    f: int,
) -> Plan {
    let (x, y) = id_halves(id);
    let role = role_of(f, storey_total(ctx));
    let drawn = if role == FloorRole::Typical && blueprint.vary_typical == 0 {
        1u8
    } else {
        f as u8
    };
    storey(
        x,
        y,
        ctx.seed,
        drawn,
        role,
        role_core(id, ctx, blueprint, drawn, role),
        ctx,
        if f == 0 {
            ground
        } else {
            blueprint
        },
        building_shafts(id, ctx, blueprint),
    )
}

/// Is this the layout of the building?
pub open spec fn is_layout(
    l: InteriorLayout,
    id: InteriorId,
    ctx: InteriorContext,
    blueprint: Blueprint,
    ground: Blueprint,
) -> bool {
    &&& l.id == id
    &&& l.seed == ctx.seed
    &&& l.context == ctx
    &&& l.floors@.len() == storey_total(ctx)
    &&& forall|f: int|
        0 <= f < l.floors@.len() ==> (#[trigger] l.floors@[f]).wf() && l.floors@[f]@
            == building_storey(id, ctx, blueprint, ground, f)
}

/// Generates the rooms of a building, with one rule table for every storey.
pub fn generate_layout(id: InteriorId, ctx: &InteriorContext, blueprint: &Blueprint) -> (l:
    InteriorLayout)
    requires
        usable(*blueprint),
    ensures
        is_layout(l, id, *ctx, *blueprint, *blueprint),
{
    generate_layout_with_ground(id, ctx, blueprint, blueprint)
}

/// The core of one storey.
fn storey_core(
    id: InteriorId,
    ctx: &InteriorContext,
    blueprint: &Blueprint,
    f: u8,
    role: FloorRole,
) -> (c: (u8, u8, u8))
    ensures
        c == role_core(id, *ctx, *blueprint, f, role),
{
    let (x, y): (i64, i64) = split_id(id);
    let least_w: u8 = if ctx.footprint_w < 1 {
        1
    } else {
        ctx.footprint_w
    };
    let least_d: u8 = if ctx.footprint_d < 1 {
        1
    } else {
        ctx.footprint_d
    };
    let gw: usize = least_w as usize;
    let gd: usize = least_d as usize;
    let (size, cx, cz): (u8, u8, u8) = if blueprint.wandering_core == 0 {
        stacked_core_rect(x, y, ctx.seed, gw, gd, blueprint.core_size)
    } else {
        core_rect_for_floor(x, y, ctx.seed, f, gw, gd, blueprint.core_size)
    };
    let mut grown: u8 = size;
    if role == FloorRole::Top {
        grown = if size == u8::MAX {
            u8::MAX
        } else {
            size + 1
        };
        if grown > least_w {
            grown = least_w;
        }
        if grown > least_d {
            grown = least_d;
        }
    }
    (grown, cx, cz)
}

/// Generates the rooms of a building, the ground floor by a rule table of its
/// own. The core, the shafts and the entrance run through all storeys alike.
pub fn generate_layout_with_ground(
    id: InteriorId,
    ctx: &InteriorContext,
    blueprint: &Blueprint,
    ground: &Blueprint,
) -> (l: InteriorLayout)
    requires
        usable(*blueprint),
        usable(*ground),
    ensures
        is_layout(l, id, *ctx, *blueprint, *ground),
{
    let (x, y): (i64, i64) = split_id(id);
    let floor_count: u8 = if ctx.floor_count < 1 {
        1
    } else {
        ctx.floor_count
    };
    let gw: usize = if ctx.footprint_w < 1 {
        1
    } else {
        ctx.footprint_w as usize
    };
    let shafts: Vec<u8> = wet_shaft_columns(x, y, ctx.seed, gw, blueprint.wet_shafts);
    let typical: Option<Floor> = if floor_count > 2 && blueprint.vary_typical == 0 {
        Some(
            generate_floor(
                x,
                y,
                ctx.seed,
                1,
                FloorRole::Typical,
                storey_core(id, ctx, blueprint, 1, FloorRole::Typical),
                ctx,
                blueprint,
                &shafts,
            ),
        )
    } else {
        None
    };
    let mut floors: Vec<Floor> = Vec::with_capacity(floor_count as usize);
    for f in 0..floor_count
        invariant
            usable(*blueprint),
            usable(*ground),
            (x, y) == id_halves(id),
            floor_count == storey_total(*ctx),
            shafts@ == building_shafts(id, *ctx, *blueprint),
            typical is Some <==> floor_count > 2 && blueprint.vary_typical == 0,
            typical matches Some(t) ==> t.wf() && t@ == building_storey(
                id,
                *ctx,
                *blueprint,
                *ground,
                1,
            ),
            floors@.len() == f,
            forall|i: int|
                0 <= i < f ==> (#[trigger] floors@[i]).wf() && floors@[i]@ == building_storey(
                    id,
                    *ctx,
                    *blueprint,
                    *ground,
                    i,
                ),
    {
        let role: FloorRole = floor_role(f, floor_count);
        let repeated: Option<Floor> = match &typical {
            Some(t) => if role == FloorRole::Typical {
                Some(t.duplicate())
            } else {
                None
            },
            None => None,
        };
        match repeated {
            Some(t) => {
                floors.push(t);
            },
            None => {
                let table: &Blueprint = if f == 0 {
                    ground
                } else {
                    blueprint
                };
                let core: (u8, u8, u8) = storey_core(id, ctx, blueprint, f, role);
                floors.push(
                    generate_floor(x, y, ctx.seed, f, role, core, ctx, table, &shafts),
                );
            },
        }
    }
    InteriorLayout { id, seed: ctx.seed, context: *ctx, floors }
}

} // verus!
