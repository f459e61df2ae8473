//! The interior data model: what an interior is told of the lot around it, the
//! rule tables that shape its rooms, and the floor grids that come out.
use crate::data::InteriorId;
use crate::float::{absolute, ceil_ratio, infinite, least_multiple, magnitude};
use crate::single::{lemma_single, single, single_format, F32};
use crate::zones::{ZoneType, ZONE_COUNT};
use vstd::prelude::*;

pub mod laws;

verus! {

/// Most room templates that one blueprint can hold.
pub const MAX_BLUEPRINT_ROOMS: usize = 8;

/// World units per storey, unless configured otherwise: 4, as a bit pattern.
pub const DEFAULT_FLOOR_HEIGHT: u32 = 0x4080_0000;

/// Most storeys of an interior, unless configured otherwise.
pub const DEFAULT_MAX_FLOORS: u8 = 64;

/// The least storey height taken into account: one millionth.
pub const LEAST_FLOOR_HEIGHT: u32 = 0x3586_37bd;

/// The lot edge that faces a street; the main entrance stands there.
#[derive(Clone, Copy, Debug, PartialEq, Eq, Hash, Structural)]
pub enum DoorSide {
    /// Negative x.
    West,
    /// Positive x.
    East,
    /// Negative z.
    North,
    /// Positive z.
    South,
}

/// What a building is, beyond its zone.
#[derive(Clone, Copy, Debug, PartialEq, Eq, Hash, Structural)]
pub enum BuildingRole {
    /// The zone's own programme.
    Ordinary,
    /// A wayfinding tower.
    Landmark,
    /// A low, fully built market row.
    Market,
    /// A single tower in a green block.
    TowerPark,
}

/// What a storey is within its building.
#[derive(Clone, Copy, Debug, PartialEq, Eq, Hash, Structural)]
pub enum FloorRole {
    /// Street level, with the entrance.
    Ground,
    /// A repeated middle storey.
    Typical,
    /// The crown, with the enlarged core.
    Top,
}

/// The role of storey `floor` among `floor_count`: the first is the ground
/// floor, the last of several the top, and all between are typical.
pub open spec fn role_of(floor: int, floor_count: int) -> FloorRole {
    if floor == 0 || floor_count <= 1 {
        FloorRole::Ground
    } else if floor + 1 >= floor_count {
        FloorRole::Top
    } else {
        FloorRole::Typical
    }
}

/// The role of storey `floor` in a building of `floor_count` storeys.
pub fn floor_role(floor: u8, floor_count: u8) -> (r: FloorRole)
    requires
        floor < u8::MAX || floor_count <= 1,
    ensures
        r == role_of(floor as int, floor_count as int),
{
    if floor == 0 || floor_count <= 1 {
        FloorRole::Ground
    } else if floor + 1 >= floor_count {
        FloorRole::Top
    } else {
        FloorRole::Typical
    }
}

/// What an interior knows of the lot it belongs to.
#[derive(Clone, Copy, Debug, PartialEq, Eq)]
pub struct InteriorContext {
    /// The key of the interior.
    pub id: InteriorId,
    /// The zone with the strongest pull on the lot.
    pub zone: ZoneType,
    /// The pull of every zone.
    pub zone_affinity: [F32; ZONE_COUNT],
    /// Building height in world units; zero where nothing is built.
    pub height: F32,
    /// Number of storeys.
    pub floor_count: u8,
    /// Width of the floor grids in tiles.
    pub footprint_w: u8,
    /// Depth of the floor grids in tiles.
    pub footprint_d: u8,
    /// Facade palette.
    pub palette_id: u8,
    /// The edge of the main entrance.
    pub door_side: DoorSide,
    /// World seed.
    pub seed: u64,
    /// Whether the lot touches streets on both axes.
    pub corner: bool,
    /// Extent of the lot away from the entrance edge.
    pub frontage_depth: u8,
    /// What the building is, beyond its zone.
    pub building_role: BuildingRole,
    /// The zone with the second strongest pull.
    pub secondary_zone: ZoneType,
}

/// The number of storeys under a roof `height` up: as many as it takes to
/// reach it, at least one, at most `max_floors`, and none for a flat lot. A
/// height that is no number counts as one storey.
pub open spec fn storeys(height: F32, floor_height: F32, max_floors: u8) -> nat {
    let unit = floor_height.larger(F32 { bits: LEAST_FLOOR_HEIGHT });
    if height.at_most(F32 { bits: 0 }) {
        0
    } else {
        let n = if height.is_undefined() || infinite(single(), unit.bits as u64) {
            1
        } else if infinite(single(), height.bits as u64) {
            max_floors as nat
        } else {
            least_multiple(
                absolute(single(), magnitude(single(), height.bits as u64)),
                absolute(single(), magnitude(single(), unit.bits as u64)),
            )
        };
        if n > max_floors {
            max_floors as nat
        } else if n == 0 && max_floors > 0 {
            1
        } else {
            n
        }
    }
}

impl InteriorContext {
    /// A context from the facts of a lot; the number of storeys follows from
    /// the height.
    pub fn new(
        id: InteriorId,
        zone: ZoneType,
        zone_affinity: [F32; ZONE_COUNT],
        height: F32,
        floor_height: F32,
        max_floors: u8,
        footprint_w: u8,
        footprint_d: u8,
        palette_id: u8,
        door_side: DoorSide,
        seed: u64,
        corner: bool,
        building_role: BuildingRole,
        secondary_zone: ZoneType,
    ) -> (c: InteriorContext)
        ensures
            c.id == id,
            c.zone == zone,
            c.zone_affinity == zone_affinity,
            c.height == height,
            c.floor_count == storeys(height, floor_height, max_floors),
            c.footprint_w == footprint_w,
            c.footprint_d == footprint_d,
            c.palette_id == palette_id,
            c.door_side == door_side,
            c.seed == seed,
            c.corner == corner,
            c.frontage_depth == (if door_side == DoorSide::West || door_side == DoorSide::East {
                footprint_w
            } else {
                footprint_d
            }),
            c.building_role == building_role,
            c.secondary_zone == secondary_zone,
    {
        let floor_count: u8 = storey_count(height, floor_height, max_floors);
        let frontage_depth: u8 = match door_side {
            DoorSide::West | DoorSide::East => footprint_w,
            DoorSide::North | DoorSide::South => footprint_d,
        };
        InteriorContext {
            id,
            zone,
            zone_affinity,
            height,
            floor_count,
            footprint_w,
            footprint_d,
            palette_id,
            door_side,
            seed,
            corner,
            frontage_depth,
            building_role,
            secondary_zone,
        }
    }

    /// Whether the lot carries a building.
    pub fn is_built(&self) -> (b: bool)
        ensures
            b == (self.floor_count > 0 && self.footprint_w > 0 && self.footprint_d > 0),
    {
        self.floor_count > 0 && self.footprint_w > 0 && self.footprint_d > 0
    }
}

/// The number of storeys under a roof `height` up.
pub fn storey_count(height: F32, floor_height: F32, max_floors: u8) -> (n: u8)
    ensures
        n == storeys(height, floor_height, max_floors),
{
    if height.le(F32::from_bits(0)) {
        return 0;
    }
    let unit: F32 = floor_height.max(F32::from_bits(LEAST_FLOOR_HEIGHT));
    proof {
        lemma_single();
        reveal(F32::is_undefined);
        reveal(F32::below);
        reveal(F32::at_most);
    }
    if height.is_nan() || unit.bits == 0x7f80_0000 {
        return if max_floors < 1 {
            max_floors
        } else {
            1
        };
    }
    if height.bits == 0x7f80_0000 {
        return max_floors;
    }
    let n: u32 = ceil_ratio(single_format(), height.bits as u64, unit.bits as u64, 256);
    if n > max_floors as u32 {
        max_floors
    } else if n == 0 && max_floors > 0 {
        1
    } else {
        n as u8
    }
}

/// The kind of one cell of a floor grid.
#[derive(Clone, Copy, Debug, PartialEq, Eq, PartialOrd, Ord, Structural)]
pub enum Tile {
    /// Outside the building volume.
    Void,
    /// Solid wall.
    Wall,
    /// A doorway.
    Door,
    /// Stairs and lifts.
    Core,
    /// Circulation between rooms.
    Corridor,
    /// Floor inside a room.
    Room,
}

impl Tile {
    /// The byte that stands for the tile in a packed grid.
    pub open spec fn byte(self) -> u8 {
        match self {
            Tile::Void => 0,
            Tile::Wall => 1,
            Tile::Door => 2,
            Tile::Core => 3,
            Tile::Corridor => 4,
            Tile::Room => 5,
        }
    }

    /// The byte that stands for the tile in a packed grid.
    pub fn code(self) -> (b: u8)
        ensures
            b == self.byte(),
    {
        match self {
            Tile::Void => 0,
            Tile::Wall => 1,
            Tile::Door => 2,
            Tile::Core => 3,
            Tile::Corridor => 4,
            Tile::Room => 5,
        }
    }
}

/// Tag bit of rooms that need plumbing: they snap to the shafts.
pub const TAG_WET: u8 = 1;

/// Tag bit of quiet rooms: they avoid the street edge and the core.
pub const TAG_QUIET: u8 = 2;

/// Tag bit of public rooms: they prefer the entrance half.
pub const TAG_PUBLIC: u8 = 4;

/// Tag bit of street-facing rooms: they prefer the outer wall ring.
pub const TAG_STREET: u8 = 8;

/// One room template of a blueprint.
#[derive(Clone, Copy, Debug, PartialEq, Eq, Structural)]
pub struct BlueprintRoom {
    /// The consumer's own tag for the room.
    pub kind: u8,
    /// Relative weight in the draw among templates.
    pub weight: F32,
    /// Least width in tiles.
    pub min_w: u8,
    /// Greatest width in tiles.
    pub max_w: u8,
    /// Least depth in tiles.
    pub min_d: u8,
    /// Greatest depth in tiles.
    pub max_d: u8,
    /// Fewest placements per floor, as far as there is room.
    pub min_count: u8,
    /// Tag bits.
    pub tags: u8,
    /// Doors per room; zero reads as one.
    pub doors: u8,
}

/// The template that fills the unused places of a table.
pub open spec fn no_room() -> BlueprintRoom {
    BlueprintRoom {
        kind: 0,
        weight: F32 { bits: 0 },
        min_w: 0,
        max_w: 0,
        min_d: 0,
        max_d: 0,
        min_count: 0,
        tags: 0,
        doors: 0,
    }
}

impl Default for BlueprintRoom {
    fn default() -> (r: BlueprintRoom)
        ensures
            r == no_room(),
    {
        BlueprintRoom {
            kind: 0,
            weight: F32 { bits: 0 },
            min_w: 0,
            max_w: 0,
            min_d: 0,
            max_d: 0,
            min_count: 0,
            tags: 0,
            doors: 0,
        }
    }
}

impl BlueprintRoom {
    /// A template from its fields.
    pub fn new(
        kind: u8,
        weight: F32,
        min_w: u8,
        max_w: u8,
        min_d: u8,
        max_d: u8,
        min_count: u8,
        tags: u8,
        doors: u8,
    ) -> (r: BlueprintRoom)
        ensures
            r == (BlueprintRoom { kind, weight, min_w, max_w, min_d, max_d, min_count, tags, doors }),
    {
        BlueprintRoom { kind, weight, min_w, max_w, min_d, max_d, min_count, tags, doors }
    }

    /// Doors per room.
    pub open spec fn door_total(self) -> nat {
        if self.doors == 0 {
            1
        } else {
            self.doors as nat
        }
    }

    /// Whether the template asks for plumbing.
    pub open spec fn is_wet(self) -> bool {
        self.tags & TAG_WET != 0
    }

    /// Doors per room; a count of zero reads as one.
    pub fn door_count(&self) -> (n: u8)
        ensures
            n == self.door_total(),
    {
        if self.doors == 0 {
            1
        } else {
            self.doors
        }
    }
}

/// The rule table for the interiors of one zone.
#[derive(Clone, Copy, Debug, PartialEq, Eq)]
pub struct Blueprint {
    /// Walls around each floor grid.
    pub margin: u8,
    /// Width of the circulation core in tiles.
    pub core_size: u8,
    /// Number of live templates.
    pub room_count: u8,
    /// Room templates; the first `room_count` are live.
    pub rooms: [BlueprintRoom; MAX_BLUEPRINT_ROOMS],
    /// Whether typical storeys are drawn anew (nonzero) or repeated.
    pub vary_typical: u8,
    /// Whether the core wanders from floor to floor (nonzero) or stacks.
    pub wandering_core: u8,
    /// Most units per floor; zero for open plan.
    pub unit_max: u8,
    /// Plumbing shafts per building.
    pub wet_shafts: u8,
    /// Zone whose blueprint the ground floor takes; 255 for none.
    pub ground_zone: u8,
    /// Corridor policy: 1 for a band along the south, else none.
    pub corridor: u8,
    /// Share of rooms with a second piece of furniture, in percent.
    pub furn_density: u8,
}

/// No ground-floor override.
pub fn default_ground_zone() -> (z: u8)
    ensures
        z == 255,
{
    255
}

/// Most rooms gain a second piece of furniture.
pub fn default_furn_density() -> (p: u8)
    ensures
        p == 70,
{
    70
}

impl Blueprint {
    /// The live room templates.
    pub open spec fn live(self) -> Seq<BlueprintRoom> {
        self.rooms@.take(if self.room_count < MAX_BLUEPRINT_ROOMS {
            self.room_count as int
        } else {
            MAX_BLUEPRINT_ROOMS as int
        })
    }

    /// The live room templates.
    pub fn room_slice(&self) -> (s: &[BlueprintRoom])
        ensures
            s@ == self.live(),
    {
        let n: usize = if (self.room_count as usize) < MAX_BLUEPRINT_ROOMS {
            self.room_count as usize
        } else {
            MAX_BLUEPRINT_ROOMS
        };
        let s = vstd::slice::slice_subrange(self.rooms.as_slice(), 0, n);
        assert(s@ =~= self.live());
        s
    }

    /// Whether the table has no live template.
    pub fn is_empty(&self) -> (b: bool)
        ensures
            b == (self.room_count == 0),
    {
        self.room_slice().len() == 0
    }
}

/// A template written out in one line.
pub open spec fn template(
    kind: u8,
    weight: u32,
    min_w: u8,
    max_w: u8,
    min_d: u8,
    max_d: u8,
    min_count: u8,
    tags: u8,
    doors: u8,
) -> BlueprintRoom {
    BlueprintRoom {
        kind,
        weight: F32 { bits: weight },
        min_w,
        max_w,
        min_d,
        max_d,
        min_count,
        tags,
        doors,
    }
}

/// The stock templates of a zone. Tags: 1 wet, 2 quiet, 4 public, 8 street.
pub open spec fn stock_rooms(zone: ZoneType) -> Seq<BlueprintRoom> {
    match zone {
        ZoneType::Downtown => seq![
            // Lobby.
            template(10, 0x4040_0000, 3, 6, 3, 6, 0, 12, 2),
            // Open office.
            template(11, 0x40c0_0000, 3, 4, 3, 4, 0, 4, 1),
            // Meeting room.
            template(12, 0x4080_0000, 3, 5, 2, 4, 0, 6, 1),
            // Utility room.
            template(13, 0x4040_0000, 2, 3, 2, 3, 0, 1, 1),
        ],
        ZoneType::Residential => seq![
            // Living room.
            template(20, 0x4080_0000, 3, 5, 3, 5, 0, 12, 2),
            // Kitchen.
            template(21, 0x4040_0000, 2, 3, 2, 3, 1, 5, 1),
            // Bedroom.
            template(22, 0x4080_0000, 3, 4, 3, 4, 0, 2, 1),
            // Bathroom.
            template(23, 0x3f80_0000, 1, 2, 1, 2, 1, 3, 1),
        ],
        ZoneType::Commercial => seq![
            // Shop floor.
            template(30, 0x4040_0000, 4, 6, 3, 5, 0, 12, 2),
            // Office.
            template(31, 0x4040_0000, 3, 5, 3, 5, 0, 4, 1),
            // Stockroom.
            template(32, 0x4000_0000, 2, 3, 2, 3, 0, 1, 1),
        ],
        ZoneType::Industrial => seq![
            // Work bay.
            template(40, 0x40a0_0000, 4, 7, 3, 6, 0, 4, 1),
            // Reception.
            template(41, 0x4000_0000, 2, 3, 2, 3, 0, 6, 1),
            // Washroom.
            template(42, 0x3f80_0000, 1, 2, 1, 2, 0, 1, 1),
        ],
        ZoneType::Park => seq![
            // Shed.
            template(50, 0x3f80_0000, 2, 3, 2, 3, 0, 0, 1),
        ],
    }
}

/// The stock blueprint of a zone.
pub open spec fn is_stock(b: Blueprint, zone: ZoneType) -> bool {
    let n = stock_rooms(zone).len();
    &&& b.margin == (if zone == ZoneType::Downtown { 2int } else { 1 })
    &&& b.core_size == (match zone {
        ZoneType::Downtown => 3int,
        ZoneType::Park => 1,
        _ => 2,
    })
    &&& b.room_count == n
    &&& forall|i: int| 0 <= i < n ==> #[trigger] b.rooms[i] == stock_rooms(zone)[i]
    &&& forall|i: int| n <= i < MAX_BLUEPRINT_ROOMS ==> #[trigger] b.rooms[i] == no_room()
    &&& b.vary_typical == 0
    &&& b.wandering_core == 0
    &&& b.unit_max == (if zone == ZoneType::Residential { 3int } else { 0 })
    &&& b.wet_shafts == (match zone {
        ZoneType::Residential => 2int,
        ZoneType::Park => 0,
        _ => 1,
    })
    &&& b.ground_zone == (if zone == ZoneType::Residential {
        ZoneType::Commercial.ordinal()
    } else {
        255
    })
    &&& b.corridor == 0
    &&& b.furn_density == (match zone {
        ZoneType::Downtown => 60int,
        ZoneType::Residential => 75,
        ZoneType::Commercial => 65,
        ZoneType::Industrial => 50,
        ZoneType::Park => 30,
    })
}

/// The stock blueprint of a zone: small rooms round a large core downtown,
/// apartments with stacked plumbing in homes, open plan elsewhere.
pub fn blueprint_defaults(zone: ZoneType) -> (b: Blueprint)
    ensures
        is_stock(b, zone),
{
    let none: BlueprintRoom = BlueprintRoom::default();
    let (margin, core_size): (u8, u8) = match zone {
        ZoneType::Downtown => (2, 3),
        ZoneType::Residential => (1, 2),
        ZoneType::Commercial => (1, 2),
        ZoneType::Industrial => (1, 2),
        ZoneType::Park => (1, 1),
    };
    let rooms: [BlueprintRoom; MAX_BLUEPRINT_ROOMS] = match zone {
        ZoneType::Downtown => [
            BlueprintRoom::new(10, F32 { bits: 0x4040_0000 }, 3, 6, 3, 6, 0, 12, 2),
            BlueprintRoom::new(11, F32 { bits: 0x40c0_0000 }, 3, 4, 3, 4, 0, 4, 1),
            BlueprintRoom::new(12, F32 { bits: 0x4080_0000 }, 3, 5, 2, 4, 0, 6, 1),
            BlueprintRoom::new(13, F32 { bits: 0x4040_0000 }, 2, 3, 2, 3, 0, 1, 1),
            none,
            none,
            none,
            none,
        ],
        ZoneType::Residential => [
            BlueprintRoom::new(20, F32 { bits: 0x4080_0000 }, 3, 5, 3, 5, 0, 12, 2),
            BlueprintRoom::new(21, F32 { bits: 0x4040_0000 }, 2, 3, 2, 3, 1, 5, 1),
            BlueprintRoom::new(22, F32 { bits: 0x4080_0000 }, 3, 4, 3, 4, 0, 2, 1),
            BlueprintRoom::new(23, F32 { bits: 0x3f80_0000 }, 1, 2, 1, 2, 1, 3, 1),
            none,
            none,
            none,
            none,
        ],
        ZoneType::Commercial => [
            BlueprintRoom::new(30, F32 { bits: 0x4040_0000 }, 4, 6, 3, 5, 0, 12, 2),
            BlueprintRoom::new(31, F32 { bits: 0x4040_0000 }, 3, 5, 3, 5, 0, 4, 1),
            BlueprintRoom::new(32, F32 { bits: 0x4000_0000 }, 2, 3, 2, 3, 0, 1, 1),
            none,
            none,
            none,
            none,
            none,
        ],
        ZoneType::Industrial => [
            BlueprintRoom::new(40, F32 { bits: 0x40a0_0000 }, 4, 7, 3, 6, 0, 4, 1),
            BlueprintRoom::new(41, F32 { bits: 0x4000_0000 }, 2, 3, 2, 3, 0, 6, 1),
            BlueprintRoom::new(42, F32 { bits: 0x3f80_0000 }, 1, 2, 1, 2, 0, 1, 1),
            none,
            none,
            none,
            none,
            none,
        ],
        ZoneType::Park => [
            BlueprintRoom::new(50, F32 { bits: 0x3f80_0000 }, 2, 3, 2, 3, 0, 0, 1),
            none,
            none,
            none,
            none,
            none,
            none,
            none,
        ],
    };
    let room_count: u8 = match zone {
        ZoneType::Downtown | ZoneType::Residential => 4,
        ZoneType::Commercial | ZoneType::Industrial => 3,
        ZoneType::Park => 1,
    };
    let (unit_max, wet_shafts, ground_zone, corridor, furn_density): (u8, u8, u8, u8, u8) =
        match zone {
        ZoneType::Downtown => (0, 1, 255, 0, 60),
        ZoneType::Residential => (3, 2, 2, 0, 75),
        ZoneType::Commercial => (0, 1, 255, 0, 65),
        ZoneType::Industrial => (0, 1, 255, 0, 50),
        ZoneType::Park => (0, 0, 255, 0, 30),
    };
    Blueprint {
        margin,
        core_size,
        room_count,
        rooms,
        vary_typical: 0,
        wandering_core: 0,
        unit_max,
        wet_shafts,
        ground_zone,
        corridor,
        furn_density,
    }
}

/// The stock blueprints of every zone, in table order.
pub fn default_blueprints() -> (t: [Blueprint; ZONE_COUNT])
    ensures
        forall|i: int| 0 <= i < ZONE_COUNT ==> is_stock(#[trigger] t[i], ZoneType::at(i as nat)),
{
    [
        blueprint_defaults(ZoneType::Downtown),
        blueprint_defaults(ZoneType::Residential),
        blueprint_defaults(ZoneType::Commercial),
        blueprint_defaults(ZoneType::Industrial),
        blueprint_defaults(ZoneType::Park),
    ]
}

/// One storey: parallel row-major grids of tiles, room kinds and furniture.
#[derive(Clone, Debug, PartialEq, Eq)]
pub struct Floor {
    /// Grid width in tiles.
    pub width: u8,
    /// Grid depth in tiles.
    pub depth: u8,
    /// The tile of each cell.
    pub tiles: Vec<Tile>,
    /// The room kind of each cell; zero where the tile is no room.
    pub kinds: Vec<u8>,
    /// The furniture code of each cell; zero where bare.
    pub furn: Vec<u8>,
}

/// A storey as a map from cells, written `(x, z)`, to what stands on them.
#[verifier::ext_equal]
pub struct Plan {
    pub w: int,
    pub d: int,
    pub tiles: Map<(int, int), Tile>,
    pub kinds: Map<(int, int), u8>,
    pub furn: Map<(int, int), u8>,
}

impl Plan {
    /// Is this a cell of the plan?
    pub open spec fn has(self, c: (int, int)) -> bool {
        0 <= c.0 < self.w && 0 <= c.1 < self.d
    }

    /// Is this a cell off the outer ring?
    pub open spec fn inside(self, c: (int, int)) -> bool {
        1 <= c.0 < self.w - 1 && 1 <= c.1 < self.d - 1
    }

    /// Is this a cell of the outer ring?
    pub open spec fn on_ring(self, c: (int, int)) -> bool {
        self.has(c) && !self.inside(c)
    }

    /// Every cell carries a tile, a kind and a furniture code.
    pub open spec fn complete(self) -> bool {
        &&& forall|c: (int, int)| #[trigger] self.tiles.dom().contains(c) <==> self.has(c)
        &&& forall|c: (int, int)| #[trigger] self.kinds.dom().contains(c) <==> self.has(c)
        &&& forall|c: (int, int)| #[trigger] self.furn.dom().contains(c) <==> self.has(c)
    }

    /// The plan with another tile on one cell.
    pub open spec fn with_tile(self, c: (int, int), t: Tile) -> Plan {
        Plan { tiles: self.tiles.insert(c, t), ..self }
    }

    /// The plan with another tile and room kind on one cell.
    pub open spec fn with(self, c: (int, int), t: Tile, kind: u8) -> Plan {
        Plan { tiles: self.tiles.insert(c, t), kinds: self.kinds.insert(c, kind), ..self }
    }
}

/// The row-major place of a cell in a grid `w` wide.
pub open spec fn place_of(x: int, z: int, w: int) -> int {
    z * w + x
}

/// A row-major grid as a map from cells.
pub open spec fn gridded<T>(s: Seq<T>, w: int, d: int) -> Map<(int, int), T> {
    Map::new(
        |c: (int, int)| 0 <= c.0 < w && 0 <= c.1 < d,
        |c: (int, int)| s[place_of(c.0, c.1, w)],
    )
}

/// Places lie within the grid, and no two cells share one.
pub proof fn lemma_places(w: int, d: int)
    ensures
        forall|x: int, z: int|
            0 <= x < w && 0 <= z < d ==> 0 <= #[trigger] place_of(x, z, w) < w * d,
        forall|x: int, z: int, y: int, v: int|
            0 <= x < w && 0 <= z < d && 0 <= y < w && 0 <= v < d && (x != y || z != v)
                ==> #[trigger] place_of(x, z, w) != #[trigger] place_of(y, v, w),
{
    assert forall|x: int, z: int| 0 <= x < w && 0 <= z < d implies 0 <= #[trigger] place_of(
        x,
        z,
        w,
    ) < w * d by {
        assert(0 <= z * w + x < w * d) by (nonlinear_arith)
            requires
                0 <= x < w,
                0 <= z < d,
        ;
    }
    assert forall|x: int, z: int, y: int, v: int|
        0 <= x < w && 0 <= z < d && 0 <= y < w && 0 <= v < d && (x != y || z != v) implies
        #[trigger] place_of(x, z, w) != #[trigger] place_of(y, v, w) by {
        if z != v {
            assert(z * w + x != v * w + y) by (nonlinear_arith)
                requires
                    0 <= x < w,
                    0 <= y < w,
                    z != v,
            ;
        }
    }
}

impl View for Floor {
    type V = Plan;

    open spec fn view(&self) -> Plan {
        Plan {
            w: self.width as int,
            d: self.depth as int,
            tiles: gridded(self.tiles@, self.width as int, self.depth as int),
            kinds: gridded(self.kinds@, self.width as int, self.depth as int),
            furn: gridded(self.furn@, self.width as int, self.depth as int),
        }
    }
}

/// A plan with the same tile and no kind or furniture on every cell.
pub open spec fn uniform(w: int, d: int, t: Tile) -> Plan {
    Plan {
        w,
        d,
        tiles: Map::new(|c: (int, int)| 0 <= c.0 < w && 0 <= c.1 < d, |c: (int, int)| t),
        kinds: Map::new(|c: (int, int)| 0 <= c.0 < w && 0 <= c.1 < d, |c: (int, int)| 0u8),
        furn: Map::new(|c: (int, int)| 0 <= c.0 < w && 0 <= c.1 < d, |c: (int, int)| 0u8),
    }
}

/// The cells along one edge of a grid, corners left out, in rising order.
pub open spec fn edge_cells(w: int, d: int, side: DoorSide) -> Seq<(u8, u8)> {
    if w < 3 || d < 3 {
        seq![]
    } else {
        match side {
            DoorSide::West => Seq::new((d - 2) as nat, |k: int| (0u8, (k + 1) as u8)),
            DoorSide::East => Seq::new((d - 2) as nat, |k: int| ((w - 1) as u8, (k + 1) as u8)),
            DoorSide::North => Seq::new((w - 2) as nat, |k: int| ((k + 1) as u8, 0u8)),
            DoorSide::South => Seq::new((w - 2) as nat, |k: int| ((k + 1) as u8, (d - 1) as u8)),
        }
    }
}

impl Floor {
    /// The three grids have a cell for every place.
    pub open spec fn wf(self) -> bool {
        &&& self.tiles.len() == self.width * self.depth
        &&& self.kinds.len() == self.width * self.depth
        &&& self.furn.len() == self.width * self.depth
    }

    /// A floor of nothing but `Void`.
    pub fn empty(width: u8, depth: u8) -> (f: Floor)
        ensures
            f.wf(),
            f@ == uniform(width as int, depth as int, Tile::Void),
    {
        assert(width * depth <= 255 * 255) by (nonlinear_arith)
            requires
                width <= 255,
                depth <= 255,
        ;
        let n: usize = width as usize * depth as usize;
        let f: Floor = Floor {
            width,
            depth,
            tiles: vec![Tile::Void; n],
            kinds: vec![0; n],
            furn: vec![0; n],
        };
        proof {
            lemma_places(width as int, depth as int);
            assert(f@ =~= uniform(width as int, depth as int, Tile::Void));
        }
        f
    }

    /// The row-major place of `(x, z)`, a cell of the grid.
    pub fn index(&self, x: u8, z: u8) -> (i: usize)
        requires
            x < self.width,
            z < self.depth,
        ensures
            i == place_of(x as int, z as int, self.width as int),
    {
        assert(z * self.width <= 255 * 255) by (nonlinear_arith)
            requires
                z <= 255,
                self.width <= 255,
        ;
        z as usize * self.width as usize + x as usize
    }

    /// The tile at `(x, z)`; `Void` outside the grid.
    pub fn tile(&self, x: u8, z: u8) -> (t: Tile)
        requires
            self.wf(),
        ensures
            t == (if self@.has((x as int, z as int)) {
                self@.tiles[(x as int, z as int)]
            } else {
                Tile::Void
            }),
    {
        if x >= self.width || z >= self.depth {
            Tile::Void
        } else {
            proof {
                lemma_places(self.width as int, self.depth as int);
            }
            self.tiles[self.index(x, z)]
        }
    }

    /// The furniture code at `(x, z)`; zero outside the grid.
    pub fn furniture(&self, x: u8, z: u8) -> (c: u8)
        requires
            self.wf(),
        ensures
            c == (if self@.has((x as int, z as int)) {
                self@.furn[(x as int, z as int)]
            } else {
                0
            }),
    {
        if x >= self.width || z >= self.depth {
            0
        } else {
            proof {
                lemma_places(self.width as int, self.depth as int);
            }
            self.furn[self.index(x, z)]
        }
    }

    /// The tile at a cell of the grid.
    pub fn at(&self, x: usize, z: usize) -> (t: Tile)
        requires
            self.wf(),
            x < self.width,
            z < self.depth,
        ensures
            t == self@.tiles[(x as int, z as int)],
    {
        proof {
            lemma_places(self.width as int, self.depth as int);
        }
        self.tiles[self.index(x as u8, z as u8)]
    }

    /// Puts a tile on a cell.
    pub fn put_tile(&mut self, x: usize, z: usize, t: Tile)
        requires
            old(self).wf(),
            x < old(self).width,
            z < old(self).depth,
        ensures
            final(self).wf(),
            final(self)@ == old(self)@.with_tile((x as int, z as int), t),
    {
        proof {
            lemma_places(self.width as int, self.depth as int);
        }
        let i: usize = self.index(x as u8, z as u8);
        self.tiles.set(i, t);
        proof {
            assert(self@ =~= old(self)@.with_tile((x as int, z as int), t));
        }
    }

    /// Puts a tile and a room kind on a cell.
    pub fn put(&mut self, x: usize, z: usize, t: Tile, kind: u8)
        requires
            old(self).wf(),
            x < old(self).width,
            z < old(self).depth,
        ensures
            final(self).wf(),
            final(self)@ == old(self)@.with((x as int, z as int), t, kind),
    {
        proof {
            lemma_places(self.width as int, self.depth as int);
        }
        let i: usize = self.index(x as u8, z as u8);
        self.tiles.set(i, t);
        self.kinds.set(i, kind);
        proof {
            assert(self@ =~= old(self)@.with((x as int, z as int), t, kind));
        }
    }

    /// Puts a furniture code on a cell.
    pub fn put_furniture(&mut self, x: usize, z: usize, code: u8)
        requires
            old(self).wf(),
            x < old(self).width,
            z < old(self).depth,
        ensures
            final(self).wf(),
            final(self)@ == (Plan {
                furn: old(self)@.furn.insert((x as int, z as int), code),
                ..old(self)@
            }),
    {
        proof {
            lemma_places(self.width as int, self.depth as int);
        }
        let i: usize = self.index(x as u8, z as u8);
        self.furn.set(i, code);
        proof {
            assert(self@ =~= (Plan {
                furn: old(self)@.furn.insert((x as int, z as int), code),
                ..old(self)@
            }));
        }
    }

    /// Another floor with the same grids.
    pub fn duplicate(&self) -> (f: Floor)
        ensures
            f.width == self.width,
            f.depth == self.depth,
            f.tiles@ == self.tiles@,
            f.kinds@ == self.kinds@,
            f.furn@ == self.furn@,
            f@ == self@,
            f.wf() == self.wf(),
    {
        let mut tiles: Vec<Tile> = Vec::with_capacity(self.tiles.len());
        for i in 0..self.tiles.len()
            invariant
                tiles@ == self.tiles@.take(i as int),
        {
            tiles.push(self.tiles[i]);
            assert(tiles@ =~= self.tiles@.take(i + 1));
        }
        assert(tiles@ =~= self.tiles@);
        let kinds: Vec<u8> = copied_bytes(&self.kinds);
        let furn: Vec<u8> = copied_bytes(&self.furn);
        Floor { width: self.width, depth: self.depth, tiles, kinds, furn }
    }

    /// The wall cells along one edge, corners left out: where windows can go.
    pub fn window_cells(floor: &Floor, side: DoorSide) -> (cells: Vec<(u8, u8)>)
        requires
            floor.wf(),
        ensures
            cells@ == edge_cells(floor.width as int, floor.depth as int, side).filter(
                |c: (u8, u8)| floor@.tiles[(c.0 as int, c.1 as int)] == Tile::Wall,
            ),
    {
        let w: u8 = floor.width;
        let d: u8 = floor.depth;
        let ghost edge = edge_cells(w as int, d as int, side);
        let ghost wall = |c: (u8, u8)| floor@.tiles[(c.0 as int, c.1 as int)] == Tile::Wall;
        let mut cells: Vec<(u8, u8)> = Vec::new();
        if w < 3 || d < 3 {
            assert(cells@ =~= edge.filter(wall));
            return cells;
        }
        let along: u8 = match side {
            DoorSide::West | DoorSide::East => d - 2,
            DoorSide::North | DoorSide::South => w - 2,
        };
        assert(edge.take(0) =~= seq![]);
        assert(cells@ =~= edge.take(0).filter(wall));
        for k in 0..along
            invariant
                floor.wf(),
                w == floor.width,
                d == floor.depth,
                w >= 3,
                d >= 3,
                edge == edge_cells(w as int, d as int, side),
                edge.len() == along,
                wall == (|c: (u8, u8)| floor@.tiles[(c.0 as int, c.1 as int)] == Tile::Wall),
                cells@ == edge.take(k as int).filter(wall),
        {
            let (x, z): (u8, u8) = match side {
                DoorSide::West => (0, k + 1),
                DoorSide::East => (w - 1, k + 1),
                DoorSide::North => (k + 1, 0),
                DoorSide::South => (k + 1, d - 1),
            };
            proof {
                assert(edge[k as int] == (x, z));
                lemma_filter_step(edge, k as int, wall);
            }
            if floor.at(x as usize, z as usize) == Tile::Wall {
                cells.push((x, z));
            }
        }
        assert(edge.take(along as int) =~= edge);
        cells
    }
}

/// Filtering one more element of a sequence.
pub proof fn lemma_filter_step<A>(s: Seq<A>, k: int, pred: spec_fn(A) -> bool)
    requires
        0 <= k < s.len(),
    ensures
        s.take(k + 1).filter(pred) == if pred(s[k]) {
            s.take(k).filter(pred).push(s[k])
        } else {
            s.take(k).filter(pred)
        },
{
    reveal(Seq::filter);
    let t = s.take(k + 1);
    assert(t.drop_last() =~= s.take(k));
    assert(t.last() == s[k]);
}

/// A copy of a run of bytes.
pub fn copied_bytes(v: &Vec<u8>) -> (r: Vec<u8>)
    ensures
        r@ == v@,
{
    let mut r: Vec<u8> = Vec::with_capacity(v.len());
    for i in 0..v.len()
        invariant
            r@ == v@.take(i as int),
    {
        r.push(v[i]);
        assert(r@ =~= v@.take(i + 1));
    }
    assert(r@ =~= v@);
    r
}

/// No furniture.
pub const FURN_NONE: u8 = 0;

/// A bed.
pub const FURN_BED: u8 = 1;

/// A table.
pub const FURN_TABLE: u8 = 2;

/// A counter.
pub const FURN_COUNTER: u8 = 3;

/// A desk.
pub const FURN_DESK: u8 = 4;

/// A shelf.
pub const FURN_SHELF: u8 = 5;

/// A bath.
pub const FURN_BATH: u8 = 6;

/// The first and second piece of furniture of a room kind, each as its code,
/// width and depth.
pub open spec fn fitting(kind: u8) -> ((u8, u8, u8), (u8, u8, u8)) {
    let none = (FURN_NONE, 0u8, 0u8);
    let shelf = (FURN_SHELF, 1u8, 1u8);
    if kind == 10 || kind == 11 {
        ((FURN_DESK, 2u8, 1u8), shelf)
    } else if kind == 12 {
        ((FURN_TABLE, 2u8, 2u8), none)
    } else if kind == 20 {
        ((FURN_TABLE, 2u8, 2u8), shelf)
    } else if kind == 21 {
        ((FURN_COUNTER, 2u8, 1u8), (FURN_TABLE, 1u8, 1u8))
    } else if kind == 22 {
        ((FURN_BED, 2u8, 3u8), shelf)
    } else if kind == 23 {
        ((FURN_BATH, 1u8, 2u8), none)
    } else if kind == 30 {
        ((FURN_COUNTER, 3u8, 1u8), shelf)
    } else if kind == 31 || kind == 41 {
        ((FURN_DESK, 2u8, 1u8), none)
    } else if kind == 32 {
        ((FURN_SHELF, 2u8, 1u8), none)
    } else if kind == 40 {
        ((FURN_TABLE, 3u8, 2u8), shelf)
    } else if kind == 42 {
        ((FURN_COUNTER, 1u8, 1u8), none)
    } else {
        (shelf, none)
    }
}

/// The furniture of a room kind: a first and a second piece, each as its code,
/// width and depth. A kind unknown here gets a shelf.
pub fn furniture_set(kind: u8) -> (pieces: [(u8, u8, u8); 2])
    ensures
        (pieces[0], pieces[1]) == fitting(kind),
{
    match kind {
        10 => [(FURN_DESK, 2, 1), (FURN_SHELF, 1, 1)],
        11 => [(FURN_DESK, 2, 1), (FURN_SHELF, 1, 1)],
        12 => [(FURN_TABLE, 2, 2), (FURN_NONE, 0, 0)],
        13 => [(FURN_SHELF, 1, 1), (FURN_NONE, 0, 0)],
        20 => [(FURN_TABLE, 2, 2), (FURN_SHELF, 1, 1)],
        21 => [(FURN_COUNTER, 2, 1), (FURN_TABLE, 1, 1)],
        22 => [(FURN_BED, 2, 3), (FURN_SHELF, 1, 1)],
        23 => [(FURN_BATH, 1, 2), (FURN_NONE, 0, 0)],
        30 => [(FURN_COUNTER, 3, 1), (FURN_SHELF, 1, 1)],
        31 => [(FURN_DESK, 2, 1), (FURN_NONE, 0, 0)],
        32 => [(FURN_SHELF, 2, 1), (FURN_NONE, 0, 0)],
        40 => [(FURN_TABLE, 3, 2), (FURN_SHELF, 1, 1)],
        41 => [(FURN_DESK, 2, 1), (FURN_NONE, 0, 0)],
        42 => [(FURN_COUNTER, 1, 1), (FURN_NONE, 0, 0)],
        50 => [(FURN_SHELF, 1, 1), (FURN_NONE, 0, 0)],
        _ => [(FURN_SHELF, 1, 1), (FURN_NONE, 0, 0)],
    }
}

/// A generated interior: one floor per storey.
#[derive(Clone, Debug, PartialEq, Eq)]
pub struct InteriorLayout {
    /// The key it was generated for.
    pub id: InteriorId,
    /// World seed.
    pub seed: u64,
    /// The lot it was generated from.
    pub context: InteriorContext,
    /// The storeys, from the ground up.
    pub floors: Vec<Floor>,
}

} // verus!
