//! Carving one storey of a building.
use crate::hash::domain;
use crate::interior::draw::{
    first, floor_hash, is_first, lemma_first, lemma_first_hit, lemma_no_first, storey_hash,
    stream_unit, unit_draw,
};
use crate::interior::furniture::{all_equipped, furnish_rooms};
use crate::interior::grid::{
    cored, core_doored, entrance_cell, entrance_hall, haloed, open_up, opened, paint_core,
    paint_lobby_halo, paint_wall_ring, punch_core_door, punch_entrance_door,
    punch_unit_door, rect_in_grid, reserve_entrance, ringed, room_door, room_doored,
    unit_doored, lemma_cell_of_place,
};
use crate::interior::placement::{
    anchors_of, as_cells, attempt_place, attempted, best_size, find_attempt, find_place, fits,
    fits_at, fits_shafts, forced_choice, forced_template, is_best, least_template, lemma_rolled,
    orderly, painted, placed_at, placed_wet, region_cell, roll_room, rolled, shaft_span,
    shuffled_anchors, smallest_template, try_place_room, wet_search, Rect,
};
use crate::interior::steering::{is_suited, suits};
use crate::interior::units::{capped, law_units_partition, split_units, units_of, PlaceRegion};
use crate::layout::{
    uniform, Blueprint, BlueprintRoom, DoorSide, Floor, FloorRole, InteriorContext, Plan, Tile,
};
use vstd::prelude::*;

verus! {

/// A room that was placed, the doors it is to have, and its kind.
#[derive(Clone, Copy, Debug, PartialEq, Eq, Structural)]
pub struct PlacedRoom {
    pub x0: u8,
    pub z0: u8,
    pub w: u8,
    pub d: u8,
    pub doors: u8,
    pub kind: u8,
}

/// A room of a template, as it is placed.
pub open spec fn placed_room(r: Rect, room: BlueprintRoom) -> PlacedRoom {
    PlacedRoom {
        x0: r.0,
        z0: r.1,
        w: r.2,
        d: r.3,
        doors: room.door_total() as u8,
        kind: room.kind,
    }
}

/// A storey under way: the plan so far, the rooms placed, and the next draw
/// for a room that must be there.
pub struct Works {
    pub plan: Plan,
    pub placed: Seq<PlacedRoom>,
    pub draw: int,
}

/// What rooms are placed from: the templates, the shafts, the hash stream and
/// the side that faces the street.
pub struct Brief {
    pub rooms: Seq<BlueprintRoom>,
    pub shafts: Seq<u8>,
    pub base: u64,
    pub side: DoorSide,
}

impl Works {
    /// With one more room.
    pub open spec fn with_room(self, r: Rect, room: BlueprintRoom) -> Works {
        Works {
            plan: painted(self.plan, r, room.kind),
            placed: self.placed.push(placed_room(r, room)),
            ..self
        }
    }
}

impl Brief {
    /// The template that stands in where another does not fit.
    pub open spec fn fallback(self) -> Option<BlueprintRoom> {
        least_template(self.rooms, false)
    }

    /// Every template has its size bounds in order.
    pub open spec fn orderly(self) -> bool {
        forall|i: int| 0 <= i < self.rooms.len() ==> orderly(#[trigger] self.rooms[i])
    }

    /// One try at an anchor, if it is still free.
    pub open spec fn at_anchor(
        self,
        p: Plan,
        c: (int, int),
        room: BlueprintRoom,
        unit: PlaceRegion,
        k: int,
        offshaft: bool,
    ) -> Option<Rect> {
        if p.tiles[c] != Tile::Void {
            None
        } else {
            attempted(
                p,
                c.0 as u8,
                c.1 as u8,
                room,
                self.fallback(),
                self.shafts,
                unit,
                self.base,
                k,
                offshaft,
            )
        }
    }

    /// Does the room find a place at anchor `i`?
    pub open spec fn takes(
        self,
        s: Works,
        anchors: Seq<(int, int)>,
        room: BlueprintRoom,
        unit: PlaceRegion,
    ) -> spec_fn(int) -> bool {
        |i: int| self.at_anchor(s.plan, anchors[i], room, unit, s.draw, true) is Some
    }

    /// Does the room find a place at anchor `i` that suits it?
    pub open spec fn pleases(
        self,
        p: Plan,
        anchors: Seq<(int, int)>,
        room: BlueprintRoom,
        unit: PlaceRegion,
        k: int,
        offshaft: bool,
    ) -> spec_fn(int) -> bool {
        |i: int|
            self.at_anchor(p, anchors[i], room, unit, k, offshaft) matches Some(r) && suits(
                p,
                room,
                r,
                self.side,
            )
    }

    /// The anchor for a needed room: the first that takes it where it suits
    /// it, else the first that takes it.
    pub open spec fn needed_site(
        self,
        s: Works,
        anchors: Seq<(int, int)>,
        room: BlueprintRoom,
        unit: PlaceRegion,
    ) -> Option<int> {
        let n = anchors.len() as int;
        match first(n, self.pleases(s.plan, anchors, room, unit, s.draw, true)) {
            Some(i) => Some(i),
            None => first(n, self.takes(s, anchors, room, unit)),
        }
    }

    /// The anchor for a room rolled at anchor `k`: that one where it suits the
    /// room, else the first that does among the first 128, else that one after
    /// all.
    pub open spec fn rolled_site(
        self,
        p: Plan,
        anchors: Seq<(int, int)>,
        room: BlueprintRoom,
        unit: PlaceRegion,
        kk: int,
        k: int,
    ) -> int {
        let hit = self.pleases(p, anchors, room, unit, kk, false);
        if hit(k) {
            k
        } else {
            match first(capped(anchors.len() as int, 128), hit) {
                Some(i) => i,
                None => k,
            }
        }
    }

    /// Up to `need` rooms of one template, each at the first anchor that takes
    /// it, where it suits the room if any does; also how many were still needed in the end.
    pub open spec fn place_needed(
        self,
        s: Works,
        anchors: Seq<(int, int)>,
        room: BlueprintRoom,
        unit: PlaceRegion,
        need: int,
    ) -> (Works, int)
        decreases need,
    {
        if need <= 0 {
            (s, need)
        } else {
            match self.needed_site(s, anchors, room, unit) {
                None => (s, need),
                Some(i) => {
                    let rect = self.at_anchor(s.plan, anchors[i], room, unit, s.draw, true)->0;
                    let next = Works { draw: s.draw + 1, ..s.with_room(rect, room) };
                    self.place_needed(next, anchors, room, unit, need - 1)
                },
            }
        }
    }

    /// The needs of every template from `r` on, within one unit.
    pub open spec fn place_needs(
        self,
        s: Works,
        anchors: Seq<(int, int)>,
        unit: PlaceRegion,
        needs: Seq<int>,
        r: int,
    ) -> (Works, Seq<int>)
        decreases self.rooms.len() - r,
    {
        if r < 0 || r >= self.rooms.len() {
            (s, needs)
        } else {
            let (next, left) = self.place_needed(s, anchors, self.rooms[r], unit, needs[r]);
            self.place_needs(next, anchors, unit, needs.update(r, left), r + 1)
        }
    }

    /// The minimum numbers of rooms, unit by unit from `u` on.
    pub open spec fn minimums(
        self,
        s: Works,
        units: Seq<PlaceRegion>,
        needs: Seq<int>,
        u: int,
    ) -> Works
        decreases units.len() - u,
    {
        if u < 0 || u >= units.len() {
            s
        } else {
            let anchors = anchors_of(s.plan, units[u], self.base, 0);
            let (next, left) = self.place_needs(s, anchors, units[u], needs, 0);
            self.minimums(next, units, left, u + 1)
        }
    }

    /// One rolled room at anchor `k` of unit `u`, if that takes it; steered to
    /// where it suits it, or right there.
    pub open spec fn roll_at(
        self,
        s: Works,
        anchors: Seq<(int, int)>,
        unit: PlaceRegion,
        u: int,
        k: int,
        steered: bool,
    ) -> Works {
        let kk = u * 4096 + k;
        let room = self.rooms[rolled(self.rooms, stream_unit(self.base, kk))];
        if self.at_anchor(s.plan, anchors[k], room, unit, kk, false) is Some {
            let j = if steered {
                self.rolled_site(s.plan, anchors, room, unit, kk, k)
            } else {
                k
            };
            s.with_room(self.at_anchor(s.plan, anchors[j], room, unit, kk, false)->0, room)
        } else {
            s
        }
    }

    /// Rolled rooms at the anchors of a unit from `k` on, as far as the first
    /// 128 anchors.
    pub open spec fn roll_on(
        self,
        s: Works,
        anchors: Seq<(int, int)>,
        unit: PlaceRegion,
        u: int,
        k: int,
        steered: bool,
    ) -> Works
        decreases anchors.len() - k,
    {
        if k < 0 || k >= anchors.len() || k >= 128 {
            s
        } else {
            self.roll_on(
                self.roll_at(s, anchors, unit, u, k, steered),
                anchors,
                unit,
                u,
                k + 1,
                steered,
            )
        }
    }

    /// Does the template find a place at cell `i` of the unit?
    pub open spec fn forces(self, p: Plan, unit: PlaceRegion, room: BlueprintRoom) -> spec_fn(
        int,
    ) -> bool {
        |i: int|
            {
                let c = region_cell(unit, i);
                p.has(c) && p.tiles[c] == Tile::Void && placed_at(
                    p,
                    c.0 as u8,
                    c.1 as u8,
                    room,
                    unit,
                    self.base,
                    999_983,
                ) is Some
            }
    }

    /// Does the template find a place at cell `i` of the unit that suits it?
    pub open spec fn forces_well(self, p: Plan, unit: PlaceRegion, room: BlueprintRoom) -> spec_fn(
        int,
    ) -> bool {
        |i: int|
            {
                let c = region_cell(unit, i);
                p.has(c) && p.tiles[c] == Tile::Void && (placed_at(
                    p,
                    c.0 as u8,
                    c.1 as u8,
                    room,
                    unit,
                    self.base,
                    999_983,
                ) matches Some(r) && suits(p, room, r, self.side))
            }
    }

    /// The cell for a forced room: the first that takes it where it suits it,
    /// else the first that takes it.
    pub open spec fn forced_site(self, p: Plan, unit: PlaceRegion, room: BlueprintRoom) -> Option<
        int,
    > {
        let n = unit.w * unit.d;
        match first(n, self.forces_well(p, unit, room)) {
            Some(i) => Some(i),
            None => first(n, self.forces(p, unit, room)),
        }
    }

    /// A unit that no room begins in gets one: the least template without
    /// plumbing, at the first cell that takes it, where it suits it if any
    /// does.
    pub open spec fn guaranteed(self, s: Works, unit: PlaceRegion) -> Works {
        if has_room(s.placed, unit) {
            s
        } else {
            match forced_choice(self.rooms) {
                None => s,
                Some(room) => match self.forced_site(s.plan, unit, room) {
                    None => s,
                    Some(i) => {
                        let c = region_cell(unit, i);
                        s.with_room(
                            placed_at(
                                s.plan,
                                c.0 as u8,
                                c.1 as u8,
                                room,
                                unit,
                                self.base,
                                999_983,
                            )->0,
                            room,
                        )
                    },
                },
            }
        }
    }

    /// The rolled rooms of one unit: first those that find a place that suits
    /// them, and then whatever still fits at the anchors.
    pub open spec fn roll_unit(self, s: Works, unit: PlaceRegion, u: int) -> Works {
        let anchors = anchors_of(s.plan, unit, self.base, u);
        self.roll_on(
            self.roll_on(s, anchors, unit, u, 0, true),
            anchors,
            unit,
            u,
            0,
            false,
        )
    }

    /// Fills one unit: rolled rooms, the guarantee, and the front door.
    pub open spec fn fill_unit(self, s: Works, unit: PlaceRegion, u: int) -> Works {
        let t = self.guaranteed(self.roll_unit(s, unit, u), unit);
        Works { plan: unit_doored(t.plan, unit, self.base.wrapping_add(u as u64)), ..t }
    }

    /// Fills the units from `u` on.
    pub open spec fn fill_units(self, s: Works, units: Seq<PlaceRegion>, u: int) -> Works
        decreases units.len() - u,
    {
        if u < 0 || u >= units.len() {
            s
        } else {
            self.fill_units(self.fill_unit(s, units[u], u), units, u + 1)
        }
    }
}

/// Does some room begin in the unit?
pub open spec fn has_room(placed: Seq<PlacedRoom>, unit: PlaceRegion) -> bool {
    exists|i: int|
        0 <= i < placed.len() && unit.holds(
            (#[trigger] placed[i]).x0 as int,
            placed[i].z0 as int,
            1,
            1,
        )
}

/// The place of a room.
pub open spec fn rect_of(r: PlacedRoom) -> Rect {
    (r.x0, r.z0, r.w, r.d)
}

/// Doors `k` and on of one room.
pub open spec fn doors_from(p: Plan, r: PlacedRoom, base: u64, k: int) -> Plan
    decreases r.doors - k,
{
    if k < 0 || k >= r.doors {
        p
    } else {
        doors_from(room_doored(p, rect_of(r), base, k), r, base, k + 1)
    }
}

/// The doors of the rooms from `i` on.
pub open spec fn all_doors(p: Plan, placed: Seq<PlacedRoom>, base: u64, i: int) -> Plan
    decreases placed.len() - i,
{
    if i < 0 || i >= placed.len() {
        p
    } else {
        all_doors(doors_from(p, placed[i], base, 0), placed, base, i + 1)
    }
}

/// The fewest rooms of each template.
pub open spec fn least_counts(rooms: Seq<BlueprintRoom>) -> Seq<int> {
    rooms.map_values(|r: BlueprintRoom| r.min_count as int)
}

/// The first draw for rooms that must be there.
pub const FIRST_NEED_DRAW: usize = 10_000;

/// A storey with its rooms, before their doors: those that must be there, and
/// then those that fill each unit.
pub open spec fn furnished(
    p: Plan,
    region: PlaceRegion,
    rooms: Seq<BlueprintRoom>,
    unit_max: int,
    shafts: Seq<u8>,
    room_base: u64,
    side: DoorSide,
) -> Works {
    let start = Works { plan: p, placed: seq![], draw: FIRST_NEED_DRAW as int };
    if rooms.len() == 0 || region.w == 0 || region.d == 0 {
        start
    } else {
        let brief = Brief { rooms, shafts, base: room_base, side };
        let units = units_of(region, unit_max, shafts, room_base);
        brief.fill_units(brief.minimums(start, units, least_counts(rooms), 0), units, 0)
    }
}

/// Whether a storey keeps a corridor along its south.
pub open spec fn banded(blueprint: Blueprint, d: int) -> bool {
    blueprint.corridor == 1 && d >= 6
}

/// Where rooms may go: everything inside the ring, short of the corridor and
/// the row before it where there is one.
pub open spec fn room_region(blueprint: Blueprint, w: int, d: int) -> PlaceRegion {
    if banded(blueprint, d) {
        PlaceRegion { x0: 1, z0: 1, w: (w - 2) as u8, d: (d - 4) as u8 }
    } else {
        PlaceRegion::inner(w, d)
    }
}

/// A storey before any room: ring, core, the way in, and the corridor.
pub open spec fn shell(
    w: int,
    d: int,
    role: FloorRole,
    core: (u8, u8, u8),
    side: DoorSide,
    blueprint: Blueprint,
    door_base: u64,
) -> Plan {
    let cored = cored(
        ringed(uniform(w, d, Tile::Void)),
        core.1 as int,
        core.2 as int,
        core.0 as int,
    );
    let entered = if role == FloorRole::Ground {
        cored.with(entrance_cell(w, d, side, door_base), Tile::Door, 0).with(
            entrance_hall(w, d, side, door_base),
            Tile::Corridor,
            0,
        )
    } else {
        core_doored(cored, core.1 as int, core.2 as int, core.0 as int)
    };
    if banded(blueprint, d) {
        opened(entered, 1, d - 2, w - 1, d - 1)
    } else {
        entered
    }
}

/// One storey of a building. A grid with no inside is solid wall. Otherwise:
/// the shell, the rooms, a lobby round the core on the ground floor,
/// circulation on whatever is left, the doors of the rooms onto it, and their
/// furniture.
pub open spec fn storey(
    x_id: i64,
    y_id: i64,
    seed: u64,
    floor: u8,
    role: FloorRole,
    core: (u8, u8, u8),
    ctx: InteriorContext,
    blueprint: Blueprint,
    shafts: Seq<u8>,
) -> Plan {
    let w = ctx.footprint_w as int;
    let d = ctx.footprint_d as int;
    if w < 3 || d < 3 {
        uniform(w, d, Tile::Wall)
    } else {
        let door_base = storey_hash(x_id, y_id, seed, floor, domain::LAYOUT_DOOR);
        let room_base = storey_hash(x_id, y_id, seed, floor, domain::LAYOUT_ROOM);
        let s = furnished(
            shell(w, d, role, core, ctx.door_side, blueprint, door_base),
            room_region(blueprint, w, d),
            blueprint.live(),
            blueprint.unit_max as int,
            shafts,
            room_base,
            ctx.door_side,
        );
        let lobby = if role == FloorRole::Ground {
            haloed(s.plan, core.1 as int, core.2 as int, core.0 as int)
        } else {
            s.plan
        };
        let doored = all_doors(opened(lobby, 1, 1, w - 1, d - 1), s.placed, door_base, 0);
        let furn_base = storey_hash(x_id, y_id, seed, floor, domain::LAYOUT_FURNITURE);
        all_equipped(doored, s.placed, furn_base, blueprint.furn_density, 0)
    }
}

/// Does the region keep off the outer ring?
pub open spec fn off_ring(u: PlaceRegion, w: int, d: int) -> bool {
    1 <= u.x0 && 1 <= u.z0 && u.x0 + u.w <= w - 1 && u.z0 + u.d <= d - 1
}

/// A room placed at a cell fits there.
pub proof fn lemma_placed_at(
    p: Plan,
    ax: u8,
    az: u8,
    room: BlueprintRoom,
    region: PlaceRegion,
    base: u64,
    k: int,
)
    ensures
        placed_at(p, ax, az, room, region, base, k) matches Some(r) ==> r.0 == ax && r.1 == az
            && fits(p, r.0 as int, r.1 as int, r.2 as int, r.3 as int, region),
{
    if room.max_w > 0 && room.max_d > 0 {
        let aim = (
            crate::interior::placement::drawn_length(room.min_w, room.max_w, base, k * 2),
            crate::interior::placement::drawn_length(room.min_d, room.max_d, base, k * 2 + 1),
        );
        let can = fits_at(p, ax as int, az as int, region);
        if let Some(s) = best_size(room, aim, can) {
            assert(is_best(room, aim, can, s));
            assert(can(s));
        }
    }
}

/// A room placed over a shaft fits there, and covers a shaft.
pub proof fn lemma_placed_wet(
    p: Plan,
    az: u8,
    room: BlueprintRoom,
    shafts: Seq<u8>,
    region: PlaceRegion,
    base: u64,
    k: int,
)
    requires
        region.bounded(),
    ensures
        placed_wet(p, az, room, shafts, region, base, k) matches Some(r) ==> fits(
            p,
            r.0 as int,
            r.1 as int,
            r.2 as int,
            r.3 as int,
            region,
        ) && exists|i: int|
            0 <= i < shafts.len() && r.0 <= #[trigger] shafts[i] < r.0 + r.2,
{
    if room.max_w > 0 && room.max_d > 0 {
        let aim = (
            crate::interior::placement::drawn_length(room.min_w, room.max_w, base, k * 2),
            crate::interior::placement::drawn_length(room.min_d, room.max_d, base, k * 2 + 1),
        );
        let can = fits_shafts(p, region, az as int, shafts);
        if let Some(s) = best_size(room, aim, can) {
            assert(is_best(room, aim, can, s));
            assert(can(s));
            let search = wet_search(p, region, az as int, s);
            let on = search.fits_shaft(shafts);
            lemma_first_hit(shafts.len() as int, on);
            let i = first(shafts.len() as int, on)->0;
            assert(on(i));
            let column = shafts[i];
            let at = search.fits_turn(column);
            lemma_first_hit(region.d as int, at);
            let t = search.turn(column)->0;
            assert(at(t));
            let (lo, hi) = shaft_span(region, column, s.0);
            let hit = search.fits_along(column, t);
            lemma_first_hit(hi - lo + 1, hit);
            let j = search.along(column, t)->0;
            assert(hit(j));
            assert(lo + j <= column < lo + j + s.0);
        }
    }
}

/// A room that an attempt placed fits where it was placed.
pub proof fn lemma_attempted(
    p: Plan,
    ax: u8,
    az: u8,
    room: BlueprintRoom,
    fallback: Option<BlueprintRoom>,
    shafts: Seq<u8>,
    region: PlaceRegion,
    base: u64,
    k: int,
    offshaft: bool,
)
    requires
        region.bounded(),
    ensures
        attempted(p, ax, az, room, fallback, shafts, region, base, k, offshaft) matches Some(r)
            ==> fits(p, r.0 as int, r.1 as int, r.2 as int, r.3 as int, region),
{
    lemma_placed_wet(p, az, room, shafts, region, base, k);
    lemma_placed_at(p, ax, az, room, region, base, k);
    if let Some(s) = fallback {
        lemma_placed_at(p, ax, az, s, region, base, k);
    }
}

/// A room that fits off the ring is one that doors can be looked for round.
proof fn lemma_fits_in_grid(p: Plan, r: Rect, region: PlaceRegion)
    requires
        fits(p, r.0 as int, r.1 as int, r.2 as int, r.3 as int, region),
        off_ring(region, p.w, p.d),
    ensures
        rect_in_grid(p, r),
{
}

/// The rooms placed so far all lie where doors can be looked for.
pub open spec fn in_grid(p: Plan, placed: Seq<PlacedRoom>) -> bool {
    forall|i: int| 0 <= i < placed.len() ==> rect_in_grid(p, rect_of(#[trigger] placed[i]))
}

/// The storey under way, as the running code holds it.
spec fn works(g: Floor, placed: Vec<PlacedRoom>, draw: int) -> Works {
    Works { plan: g@, placed: placed@, draw }
}

/// Takes note of a room that was put down.
fn note_room(placed: &mut Vec<PlacedRoom>, r: Rect, room: &BlueprintRoom)
    ensures
        final(placed)@ == old(placed)@.push(placed_room(r, *room)),
{
    placed.push(
        PlacedRoom {
            x0: r.0,
            z0: r.1,
            w: r.2,
            d: r.3,
            doors: room.door_count(),
            kind: room.kind,
        },
    );
}

/// Does the running code hold what the brief says?
spec fn matches_brief(
    brief: Brief,
    rooms: Seq<BlueprintRoom>,
    shafts: Seq<u8>,
    base: u64,
    fallback: Option<&BlueprintRoom>,
    side: DoorSide,
) -> bool {
    &&& brief.rooms == rooms
    &&& brief.shafts == shafts
    &&& brief.base == base
    &&& brief.side == side
    &&& brief.orderly()
    &&& brief.fallback() == (match fallback {
        Some(t) => Some(*t),
        None => None,
    })
    &&& fallback matches Some(t) ==> orderly(*t)
}

/// The place that a free anchor offers to a room.
fn place_at_anchor(
    g: &Floor,
    anchor: (u8, u8),
    room: &BlueprintRoom,
    fallback: Option<&BlueprintRoom>,
    shafts: &Vec<u8>,
    unit: PlaceRegion,
    base: u64,
    k: usize,
    offshaft: bool,
    Ghost(brief): Ghost<Brief>,
) -> (r: Option<Rect>)
    requires
        g.wf(),
        g@.has((anchor.0 as int, anchor.1 as int)),
        k <= 0x100_0000,
        orderly(*room),
        matches_brief(brief, brief.rooms, shafts@, base, fallback, brief.side),
    ensures
        r == brief.at_anchor(
            g@,
            (anchor.0 as int, anchor.1 as int),
            *room,
            unit,
            k as int,
            offshaft,
        ),
{
    if g.at(anchor.0 as usize, anchor.1 as usize) == Tile::Void {
        find_attempt(g, anchor.0, anchor.1, room, fallback, shafts, unit, base, k, offshaft)
    } else {
        None
    }
}

/// The anchor for a needed room, if one takes it.
fn find_anchor(
    g: &Floor,
    anchors: &Vec<(u8, u8)>,
    room: &BlueprintRoom,
    fallback: Option<&BlueprintRoom>,
    shafts: &Vec<u8>,
    unit: PlaceRegion,
    base: u64,
    side: DoorSide,
    draw: usize,
    Ghost(brief): Ghost<Brief>,
    Ghost(s): Ghost<Works>,
) -> (r: Option<usize>)
    requires
        g.wf(),
        s.plan == g@,
        s.draw == draw,
        draw <= 0x100_0000,
        orderly(*room),
        matches_brief(brief, brief.rooms, shafts@, base, fallback, side),
        forall|i: int|
            0 <= i < anchors@.len() ==> g@.has(
                ((#[trigger] anchors@[i]).0 as int, anchors@[i].1 as int),
            ),
    ensures
        match r {
            Some(i) => i < anchors@.len() && brief.needed_site(
                s,
                as_cells(anchors@),
                *room,
                unit,
            ) == Some(i as int),
            None => brief.needed_site(s, as_cells(anchors@), *room, unit) is None,
        },
{
    let n: usize = anchors.len();
    let ghost cells = as_cells(anchors@);
    let ghost well = brief.pleases(s.plan, cells, *room, unit, s.draw, true);
    let ghost hit = brief.takes(s, cells, *room, unit);
    let mut taker: Option<usize> = None;
    for i in 0..n
        invariant
            g.wf(),
            n == anchors@.len(),
            s.plan == g@,
            s.draw == draw,
            draw <= 0x100_0000,
            orderly(*room),
            matches_brief(brief, brief.rooms, shafts@, base, fallback, side),
            cells == as_cells(anchors@),
            well == brief.pleases(s.plan, cells, *room, unit, s.draw, true),
            hit == brief.takes(s, cells, *room, unit),
            forall|i: int|
                0 <= i < anchors@.len() ==> g@.has(
                    ((#[trigger] anchors@[i]).0 as int, anchors@[i].1 as int),
                ),
            forall|j: int| 0 <= j < i ==> !#[trigger] well(j),
            match taker {
                Some(t) => t < i && is_first(n as int, hit, t as int),
                None => forall|j: int| 0 <= j < i ==> !#[trigger] hit(j),
            },
    {
        assert(cells[i as int] == (anchors@[i as int].0 as int, anchors@[i as int].1 as int));
        let found: Option<Rect> = place_at_anchor(
            g,
            anchors[i],
            room,
            fallback,
            shafts,
            unit,
            base,
            draw,
            true,
            Ghost(brief),
        );
        if let Some(r) = found {
            assert(hit(i as int));
            if is_suited(g, room, r, side) {
                proof {
                    assert(well(i as int));
                    assert(is_first(n as int, well, i as int));
                    lemma_first(n as int, well, i as int);
                }
                return Some(i);
            }
            if taker.is_none() {
                taker = Some(i);
            }
        }
        assert(!well(i as int));
    }
    proof {
        lemma_no_first(n as int, well);
        match taker {
            Some(t) => lemma_first(n as int, hit, t as int),
            None => lemma_no_first(n as int, hit),
        }
    }
    taker
}

/// The anchor for a room rolled at anchor `k`, which offers it `own`.
fn find_rolled_site(
    g: &Floor,
    anchors: &Vec<(u8, u8)>,
    room: &BlueprintRoom,
    own: Rect,
    fallback: Option<&BlueprintRoom>,
    shafts: &Vec<u8>,
    unit: PlaceRegion,
    base: u64,
    side: DoorSide,
    kk: usize,
    k: usize,
    Ghost(brief): Ghost<Brief>,
) -> (j: usize)
    requires
        g.wf(),
        k < anchors@.len(),
        kk <= 0x100_0000,
        orderly(*room),
        matches_brief(brief, brief.rooms, shafts@, base, fallback, side),
        brief.at_anchor(g@, as_cells(anchors@)[k as int], *room, unit, kk as int, false) == Some(
            own,
        ),
        forall|i: int|
            0 <= i < anchors@.len() ==> g@.has(
                ((#[trigger] anchors@[i]).0 as int, anchors@[i].1 as int),
            ),
    ensures
        j < anchors@.len(),
        j == brief.rolled_site(g@, as_cells(anchors@), *room, unit, kk as int, k as int),
        brief.at_anchor(g@, as_cells(anchors@)[j as int], *room, unit, kk as int, false) is Some,
{
    let ghost cells = as_cells(anchors@);
    let ghost well = brief.pleases(g@, cells, *room, unit, kk as int, false);
    if is_suited(g, room, own, side) {
        assert(well(k as int));
        return k;
    }
    assert(!well(k as int));
    let n: usize = if anchors.len() < 128 {
        anchors.len()
    } else {
        128
    };
    for i in 0..n
        invariant
            g.wf(),
            n == capped(anchors@.len() as int, 128),
            n <= anchors@.len(),
            kk <= 0x100_0000,
            orderly(*room),
            matches_brief(brief, brief.rooms, shafts@, base, fallback, side),
            cells == as_cells(anchors@),
            well == brief.pleases(g@, cells, *room, unit, kk as int, false),
            !well(k as int),
            forall|i: int|
                0 <= i < anchors@.len() ==> g@.has(
                    ((#[trigger] anchors@[i]).0 as int, anchors@[i].1 as int),
                ),
            forall|j: int| 0 <= j < i ==> !#[trigger] well(j),
    {
        assert(cells[i as int] == (anchors@[i as int].0 as int, anchors@[i as int].1 as int));
        let found: Option<Rect> = place_at_anchor(
            g,
            anchors[i],
            room,
            fallback,
            shafts,
            unit,
            base,
            kk,
            false,
            Ghost(brief),
        );
        if let Some(r) = found {
            if is_suited(g, room, r, side) {
                proof {
                    assert(well(i as int));
                    assert(is_first(n as int, well, i as int));
                    lemma_first(n as int, well, i as int);
                }
                return i;
            }
        }
        assert(!well(i as int));
    }
    proof {
        lemma_no_first(n as int, well);
    }
    k
}

/// The anchor for a needed room is one that takes it.
pub proof fn lemma_needed_site(
    brief: Brief,
    s: Works,
    cells: Seq<(int, int)>,
    room: BlueprintRoom,
    unit: PlaceRegion,
)
    ensures
        brief.needed_site(s, cells, room, unit) matches Some(i) ==> 0 <= i < cells.len()
            && s.plan.tiles[cells[i]] == Tile::Void && brief.at_anchor(
            s.plan,
            cells[i],
            room,
            unit,
            s.draw,
            true,
        ) is Some,
{
    let n = cells.len() as int;
    let well = brief.pleases(s.plan, cells, room, unit, s.draw, true);
    let hit = brief.takes(s, cells, room, unit);
    lemma_first_hit(n, well);
    lemma_first_hit(n, hit);
    if let Some(i) = first(n, well) {
        assert(well(i));
    } else if let Some(i) = first(n, hit) {
        assert(hit(i));
    }
}

/// The anchor for a rolled room is one that takes it.
pub proof fn lemma_rolled_site(
    brief: Brief,
    p: Plan,
    cells: Seq<(int, int)>,
    room: BlueprintRoom,
    unit: PlaceRegion,
    kk: int,
    k: int,
)
    requires
        0 <= k < cells.len(),
        brief.at_anchor(p, cells[k], room, unit, kk, false) is Some,
    ensures
        ({
            let j = brief.rolled_site(p, cells, room, unit, kk, k);
            &&& 0 <= j < cells.len()
            &&& p.tiles[cells[j]] == Tile::Void
            &&& brief.at_anchor(p, cells[j], room, unit, kk, false) is Some
        }),
{
    let well = brief.pleases(p, cells, room, unit, kk, false);
    let n = capped(cells.len() as int, 128);
    lemma_first_hit(n, well);
    if let Some(i) = first(n, well) {
        assert(well(i));
    }
}

/// The cell for a forced room is one that takes it.
pub proof fn lemma_forced_site(brief: Brief, p: Plan, unit: PlaceRegion, room: BlueprintRoom)
    ensures
        brief.forced_site(p, unit, room) matches Some(i) ==> 0 <= i < unit.w * unit.d
            && brief.forces(p, unit, room)(i),
{
    let n = unit.w * unit.d;
    let well = brief.forces_well(p, unit, room);
    let hit = brief.forces(p, unit, room);
    lemma_first_hit(n, well);
    lemma_first_hit(n, hit);
    if let Some(i) = first(n, well) {
        assert(well(i));
        assert(hit(i));
    }
}

/// One needed room met: it fits, and the rest of the need remains.
proof fn lemma_need_met(
    brief: Brief,
    s: Works,
    cells: Seq<(int, int)>,
    room: BlueprintRoom,
    unit: PlaceRegion,
    need: int,
    r: Rect,
)
    requires
        need > 0,
        off_ring(unit, s.plan.w, s.plan.d),
        s.plan.w <= 255,
        s.plan.d <= 255,
        brief.needed_site(s, cells, room, unit) matches Some(i) && brief.at_anchor(
            s.plan,
            cells[i],
            room,
            unit,
            s.draw,
            true,
        ) == Some(r),
    ensures
        brief.place_needed(s, cells, room, unit, need) == brief.place_needed(
            Works { draw: s.draw + 1, ..s.with_room(r, room) },
            cells,
            room,
            unit,
            need - 1,
        ),
        rect_in_grid(s.plan, r),
{
    let i = brief.needed_site(s, cells, room, unit)->0;
    lemma_attempted(
        s.plan,
        cells[i].0 as u8,
        cells[i].1 as u8,
        room,
        brief.fallback(),
        brief.shafts,
        unit,
        brief.base,
        s.draw,
        true,
    );
    lemma_fits_in_grid(s.plan, r, unit);
}

/// Places the rooms that a unit must have of one template; the result is how
/// many are still needed.
fn place_needed(
    g: &mut Floor,
    placed: &mut Vec<PlacedRoom>,
    draw: &mut usize,
    anchors: &Vec<(u8, u8)>,
    room: &BlueprintRoom,
    need: u8,
    fallback: Option<&BlueprintRoom>,
    shafts: &Vec<u8>,
    unit: PlaceRegion,
    base: u64,
    side: DoorSide,
    Ghost(brief): Ghost<Brief>,
) -> (left: u8)
    requires
        old(g).wf(),
        in_grid(old(g)@, old(placed)@),
        off_ring(unit, old(g)@.w, old(g)@.d),
        *old(draw) + need <= 0x80_0000,
        orderly(*room),
        matches_brief(brief, brief.rooms, shafts@, base, fallback, side),
        forall|i: int|
            0 <= i < anchors@.len() ==> old(g)@.has(
                ((#[trigger] anchors@[i]).0 as int, anchors@[i].1 as int),
            ),
    ensures
        final(g).wf(),
        final(g)@.w == old(g)@.w,
        final(g)@.d == old(g)@.d,
        in_grid(final(g)@, final(placed)@),
        *old(draw) <= *final(draw),
        left <= need,
        *final(draw) + left <= *old(draw) + need,
        (works(*final(g), *final(placed), *final(draw) as int), left as int)
            == brief.place_needed(
            works(*old(g), *old(placed), *old(draw) as int),
            as_cells(anchors@),
            *room,
            unit,
            need as int,
        ),
    decreases need,
{
    if need == 0 {
        return 0;
    }
    let ghost cells = as_cells(anchors@);
    let ghost s = works(*g, *placed, *draw as int);
    let site: Option<usize> = find_anchor(
        g,
        anchors,
        room,
        fallback,
        shafts,
        unit,
        base,
        side,
        *draw,
        Ghost(brief),
        Ghost(s),
    );
    match site {
        None => need,
        Some(i) => {
            let (ax, az): (u8, u8) = anchors[i];
            let ghost before = g@;
            proof {
                lemma_needed_site(brief, s, cells, *room, unit);
                assert(cells[i as int] == (ax as int, az as int));
            }
            let found: Option<Rect> = attempt_place(
                g,
                ax,
                az,
                room,
                fallback,
                shafts,
                unit,
                base,
                *draw,
                true,
            );
            match found {
                None => need,
                Some(r) => {
                    proof {
                        lemma_need_met(brief, s, cells, *room, unit, need as int, r);
                    }
                    note_room(placed, r, room);
                    assert(works(*g, *placed, s.draw) == s.with_room(r, *room));
                    *draw = *draw + 1;
                    place_needed(
                        g,
                        placed,
                        draw,
                        anchors,
                        room,
                        need - 1,
                        fallback,
                        shafts,
                        unit,
                        base,
                        side,
                        Ghost(brief),
                    )
                },
            }
        },
    }
}

/// The free cells of one of the units in a drawn order.
fn unit_anchors(g: &Floor, unit: PlaceRegion, base: u64, u: usize) -> (anchors: Vec<(u8, u8)>)
    requires
        g.wf(),
        u <= 255,
    ensures
        as_cells(anchors@) == anchors_of(g@, unit, base, u as int),
        forall|i: int|
            0 <= i < anchors@.len() ==> g@.has(
                ((#[trigger] anchors@[i]).0 as int, anchors@[i].1 as int),
            ),
{
    assert(0 <= unit.w * unit.d <= 255 * 255) by (nonlinear_arith)
        requires
            0 <= unit.w <= 255,
            0 <= unit.d <= 255,
    ;
    shuffled_anchors(g, unit, base, u)
}

/// Places the rooms that the units must have.
fn place_minimums(
    g: &mut Floor,
    placed: &mut Vec<PlacedRoom>,
    units: &Vec<PlaceRegion>,
    rooms: &[BlueprintRoom],
    fallback: Option<&BlueprintRoom>,
    shafts: &Vec<u8>,
    base: u64,
    side: DoorSide,
    Ghost(brief): Ghost<Brief>,
) -> (end: Ghost<int>)
    requires
        old(g).wf(),
        in_grid(old(g)@, old(placed)@),
        units@.len() <= 255,
        rooms@.len() <= 8,
        forall|i: int|
            0 <= i < units@.len() ==> off_ring(#[trigger] units@[i], old(g)@.w, old(g)@.d),
        matches_brief(brief, rooms@, shafts@, base, fallback, side),
    ensures
        final(g).wf(),
        final(g)@.w == old(g)@.w,
        final(g)@.d == old(g)@.d,
        in_grid(final(g)@, final(placed)@),
        works(*final(g), *final(placed), end@) == brief.minimums(
            works(*old(g), *old(placed), FIRST_NEED_DRAW as int),
            units@,
            least_counts(rooms@),
            0,
        ),
{
    let mut draw: usize = FIRST_NEED_DRAW;
    let mut needs: Vec<u8> = Vec::new();
    for r in 0..rooms.len()
        invariant
            needs@.len() == r,
            forall|i: int| 0 <= i < r ==> #[trigger] needs@[i] == rooms@[i].min_count,
    {
        needs.push(rooms[r].min_count);
    }
    let ghost goal = brief.minimums(
        works(*g, *placed, draw as int),
        units@,
        least_counts(rooms@),
        0,
    );
    assert(least_counts(rooms@) =~= needs@.map_values(|n: u8| n as int));
    for u in 0..units.len()
        invariant
            g.wf(),
            g@.w == old(g)@.w,
            g@.d == old(g)@.d,
            in_grid(g@, placed@),
            units@.len() <= 255,
            rooms@.len() <= 8,
            needs@.len() == rooms@.len(),
            forall|i: int| 0 <= i < units@.len() ==> off_ring(#[trigger] units@[i], g@.w, g@.d),
            matches_brief(brief, rooms@, shafts@, base, fallback, side),
            draw <= FIRST_NEED_DRAW + 2040 * u,
            goal == brief.minimums(
                works(*g, *placed, draw as int),
                units@,
                needs@.map_values(|n: u8| n as int),
                u as int,
            ),
    {
        let unit: PlaceRegion = units[u];
        let anchors: Vec<(u8, u8)> = unit_anchors(g, unit, base, 0);
        let ghost cells = as_cells(anchors@);
        let ghost mid = brief.place_needs(
            works(*g, *placed, draw as int),
            cells,
            unit,
            needs@.map_values(|n: u8| n as int),
            0,
        );
        let ghost begun = draw as int;
        for r in 0..rooms.len()
            invariant
                g.wf(),
                g@.w == old(g)@.w,
                g@.d == old(g)@.d,
                in_grid(g@, placed@),
                rooms@.len() <= 8,
                needs@.len() == rooms@.len(),
                off_ring(unit, g@.w, g@.d),
                matches_brief(brief, rooms@, shafts@, base, fallback, side),
                begun <= FIRST_NEED_DRAW + 2040 * u,
                u < 255,
                draw <= begun + 255 * r,
                cells == as_cells(anchors@),
                forall|i: int|
                    0 <= i < anchors@.len() ==> g@.has(
                        ((#[trigger] anchors@[i]).0 as int, anchors@[i].1 as int),
                    ),
                mid == brief.place_needs(
                    works(*g, *placed, draw as int),
                    cells,
                    unit,
                    needs@.map_values(|n: u8| n as int),
                    r as int,
                ),
        {
            let need: u8 = needs[r];
            let left: u8 = place_needed(
                g,
                placed,
                &mut draw,
                &anchors,
                &rooms[r],
                need,
                fallback,
                shafts,
                unit,
                base,
                side,
                Ghost(brief),
            );
            let ghost before = needs@.map_values(|n: u8| n as int);
            needs.set(r, left);
            assert(needs@.map_values(|n: u8| n as int) =~= before.update(r as int, left as int));
        }
    }
    Ghost(draw as int)
}

/// Rolls the rooms of a unit: first to where they suit, and then wherever one
/// still fits.
fn roll_rooms(
    g: &mut Floor,
    placed: &mut Vec<PlacedRoom>,
    unit: PlaceRegion,
    u: usize,
    rooms: &[BlueprintRoom],
    fallback: Option<&BlueprintRoom>,
    shafts: &Vec<u8>,
    base: u64,
    side: DoorSide,
    Ghost(brief): Ghost<Brief>,
    Ghost(draw): Ghost<int>,
)
    requires
        old(g).wf(),
        in_grid(old(g)@, old(placed)@),
        u < 255,
        rooms@.len() > 0,
        off_ring(unit, old(g)@.w, old(g)@.d),
        matches_brief(brief, rooms@, shafts@, base, fallback, side),
    ensures
        final(g).wf(),
        final(g)@.w == old(g)@.w,
        final(g)@.d == old(g)@.d,
        in_grid(final(g)@, final(placed)@),
        works(*final(g), *final(placed), draw) == brief.roll_unit(
            works(*old(g), *old(placed), draw),
            unit,
            u as int,
        ),
{
    let anchors: Vec<(u8, u8)> = unit_anchors(g, unit, base, u);
    roll_pass(
        g,
        placed,
        &anchors,
        unit,
        u,
        rooms,
        fallback,
        shafts,
        base,
        side,
        true,
        Ghost(brief),
        Ghost(draw),
    );
    roll_pass(
        g,
        placed,
        &anchors,
        unit,
        u,
        rooms,
        fallback,
        shafts,
        base,
        side,
        false,
        Ghost(brief),
        Ghost(draw),
    );
}

/// Rolls a room at each anchor of a unit, as far as the first 128.
fn roll_pass(
    g: &mut Floor,
    placed: &mut Vec<PlacedRoom>,
    anchors: &Vec<(u8, u8)>,
    unit: PlaceRegion,
    u: usize,
    rooms: &[BlueprintRoom],
    fallback: Option<&BlueprintRoom>,
    shafts: &Vec<u8>,
    base: u64,
    side: DoorSide,
    steered: bool,
    Ghost(brief): Ghost<Brief>,
    Ghost(draw): Ghost<int>,
)
    requires
        old(g).wf(),
        in_grid(old(g)@, old(placed)@),
        u < 255,
        rooms@.len() > 0,
        off_ring(unit, old(g)@.w, old(g)@.d),
        matches_brief(brief, rooms@, shafts@, base, fallback, side),
        forall|i: int|
            0 <= i < anchors@.len() ==> old(g)@.has(
                ((#[trigger] anchors@[i]).0 as int, anchors@[i].1 as int),
            ),
    ensures
        final(g).wf(),
        final(g)@.w == old(g)@.w,
        final(g)@.d == old(g)@.d,
        in_grid(final(g)@, final(placed)@),
        works(*final(g), *final(placed), draw) == brief.roll_on(
            works(*old(g), *old(placed), draw),
            as_cells(anchors@),
            unit,
            u as int,
            0,
            steered,
        ),
{
    let ghost cells = as_cells(anchors@);
    let ghost goal = brief.roll_on(works(*g, *placed, draw), cells, unit, u as int, 0, steered);
    let n: usize = if anchors.len() < 128 {
        anchors.len()
    } else {
        128
    };
    for k in 0..n
        invariant
            g.wf(),
            g@.w == old(g)@.w,
            g@.d == old(g)@.d,
            in_grid(g@, placed@),
            u < 255,
            rooms@.len() > 0,
            off_ring(unit, g@.w, g@.d),
            matches_brief(brief, rooms@, shafts@, base, fallback, side),
            cells == as_cells(anchors@),
            n <= 128,
            n <= anchors@.len(),
            n == 128 || n == anchors@.len(),
            forall|i: int|
                0 <= i < anchors@.len() ==> g@.has(
                    ((#[trigger] anchors@[i]).0 as int, anchors@[i].1 as int),
                ),
            goal == brief.roll_on(
                works(*g, *placed, draw),
                cells,
                unit,
                u as int,
                k as int,
                steered,
            ),
    {
        let ghost s = works(*g, *placed, draw);
        roll_one(
            g,
            placed,
            anchors,
            unit,
            u,
            k,
            rooms,
            fallback,
            shafts,
            base,
            side,
            steered,
            Ghost(brief),
            Ghost(draw),
        );
        assert(works(*g, *placed, draw) == brief.roll_at(
            s,
            cells,
            unit,
            u as int,
            k as int,
            steered,
        ));
    }
}

/// Rolls a room at one anchor of a unit.
fn roll_one(
    g: &mut Floor,
    placed: &mut Vec<PlacedRoom>,
    anchors: &Vec<(u8, u8)>,
    unit: PlaceRegion,
    u: usize,
    k: usize,
    rooms: &[BlueprintRoom],
    fallback: Option<&BlueprintRoom>,
    shafts: &Vec<u8>,
    base: u64,
    side: DoorSide,
    steered: bool,
    Ghost(brief): Ghost<Brief>,
    Ghost(draw): Ghost<int>,
)
    requires
        old(g).wf(),
        in_grid(old(g)@, old(placed)@),
        u < 255,
        k < anchors@.len(),
        k < 128,
        rooms@.len() > 0,
        off_ring(unit, old(g)@.w, old(g)@.d),
        matches_brief(brief, rooms@, shafts@, base, fallback, side),
        forall|i: int|
            0 <= i < anchors@.len() ==> old(g)@.has(
                ((#[trigger] anchors@[i]).0 as int, anchors@[i].1 as int),
            ),
    ensures
        final(g).wf(),
        final(g)@.w == old(g)@.w,
        final(g)@.d == old(g)@.d,
        in_grid(final(g)@, final(placed)@),
        works(*final(g), *final(placed), draw) == brief.roll_at(
            works(*old(g), *old(placed), draw),
            as_cells(anchors@),
            unit,
            u as int,
            k as int,
            steered,
        ),
{
    let ghost s = works(*g, *placed, draw);
    let ghost cells = as_cells(anchors@);
    assert(cells[k as int] == (anchors@[k as int].0 as int, anchors@[k as int].1 as int));
    let kk: usize = u * 4096 + k;
    let room: &BlueprintRoom = roll_room(rooms, unit_draw(base, kk));
    proof {
        lemma_rolled(rooms@, stream_unit(base, kk as int));
    }
    let own: Option<Rect> = place_at_anchor(
        g,
        anchors[k],
        room,
        fallback,
        shafts,
        unit,
        base,
        kk,
        false,
        Ghost(brief),
    );
    if let Some(here) = own {
        let j: usize = if steered {
            find_rolled_site(
                g,
                anchors,
                room,
                here,
                fallback,
                shafts,
                unit,
                base,
                side,
                kk,
                k,
                Ghost(brief),
            )
        } else {
            k
        };
        let (ax, az): (u8, u8) = anchors[j];
        proof {
            lemma_rolled_site(brief, s.plan, cells, *room, unit, kk as int, k as int);
            assert(cells[j as int] == (ax as int, az as int));
            lemma_attempted(
                s.plan,
                ax,
                az,
                *room,
                brief.fallback(),
                shafts@,
                unit,
                base,
                kk as int,
                false,
            );
        }
        let found: Option<Rect> = attempt_place(
            g,
            ax,
            az,
            room,
            fallback,
            shafts,
            unit,
            base,
            kk,
            false,
        );
        if let Some(r) = found {
            proof {
                lemma_fits_in_grid(s.plan, r, unit);
            }
            note_room(placed, r, room);
        }
    }
}

/// Does some room begin in the unit?
fn unit_has_room(placed: &Vec<PlacedRoom>, unit: PlaceRegion) -> (b: bool)
    ensures
        b == has_room(placed@, unit),
{
    for i in 0..placed.len()
        invariant
            forall|j: int|
                0 <= j < i ==> !unit.holds(
                    (#[trigger] placed@[j]).x0 as int,
                    placed@[j].z0 as int,
                    1,
                    1,
                ),
    {
        if unit.contains(placed[i].x0 as i64, placed[i].z0 as i64, 1, 1) {
            return true;
        }
    }
    false
}

/// The cell for a forced room, if one takes it.
fn find_forced_site(
    g: &Floor,
    unit: PlaceRegion,
    room: &BlueprintRoom,
    base: u64,
    side: DoorSide,
    Ghost(brief): Ghost<Brief>,
) -> (r: Option<(u8, u8)>)
    requires
        g.wf(),
        off_ring(unit, g@.w, g@.d),
        orderly(*room),
        brief.base == base,
        brief.side == side,
    ensures
        match r {
            Some((x, z)) => brief.forced_site(g@, unit, *room) matches Some(i) && region_cell(
                unit,
                i,
            ) == (x as int, z as int),
            None => brief.forced_site(g@, unit, *room) is None,
        },
{
    let ghost well = brief.forces_well(g@, unit, *room);
    let ghost hit = brief.forces(g@, unit, *room);
    assert(unit.w * unit.d <= 255 * 255 && unit.w * unit.d >= 0) by (nonlinear_arith)
        requires
            0 <= unit.w <= 255,
            0 <= unit.d <= 255,
    ;
    let n: usize = unit.w as usize * unit.d as usize;
    let mut taker: Option<(u8, u8)> = None;
    let ghost mut at: int = 0;
    for i in 0..n
        invariant
            g.wf(),
            off_ring(unit, g@.w, g@.d),
            orderly(*room),
            brief.base == base,
            brief.side == side,
            n == unit.w * unit.d,
            well == brief.forces_well(g@, unit, *room),
            hit == brief.forces(g@, unit, *room),
            forall|j: int| 0 <= j < i ==> !#[trigger] well(j),
            match taker {
                Some((x, z)) => at < i && is_first(n as int, hit, at) && region_cell(unit, at) == (
                    x as int,
                    z as int,
                ),
                None => forall|j: int| 0 <= j < i ==> !#[trigger] hit(j),
            },
    {
        proof {
            lemma_cell_of_place(i as int, unit.w as int, unit.d as int);
        }
        let x: usize = unit.x0 as usize + i % (unit.w as usize);
        let z: usize = unit.z0 as usize + i / (unit.w as usize);
        assert(region_cell(unit, i as int) == (x as int, z as int));
        if g.at(x, z) == Tile::Void {
            let found: Option<Rect> = find_place(
                g,
                x as u8,
                z as u8,
                room,
                unit,
                base,
                999_983,
            );
            if let Some(r) = found {
                assert(hit(i as int));
                if is_suited(g, room, r, side) {
                    proof {
                        assert(well(i as int));
                        assert(is_first(n as int, well, i as int));
                        lemma_first(n as int, well, i as int);
                    }
                    return Some((x as u8, z as u8));
                }
                if taker.is_none() {
                    taker = Some((x as u8, z as u8));
                    proof {
                        at = i as int;
                    }
                }
            }
        }
        assert(!well(i as int));
    }
    proof {
        lemma_no_first(n as int, well);
        if taker is Some {
            lemma_first(n as int, hit, at);
        } else {
            lemma_no_first(n as int, hit);
        }
    }
    taker
}

/// Gives a unit without rooms its one room.
fn guarantee_room(
    g: &mut Floor,
    placed: &mut Vec<PlacedRoom>,
    unit: PlaceRegion,
    rooms: &[BlueprintRoom],
    base: u64,
    side: DoorSide,
    Ghost(brief): Ghost<Brief>,
    Ghost(draw): Ghost<int>,
)
    requires
        old(g).wf(),
        in_grid(old(g)@, old(placed)@),
        off_ring(unit, old(g)@.w, old(g)@.d),
        brief.rooms == rooms@,
        brief.base == base,
        brief.side == side,
        brief.orderly(),
    ensures
        final(g).wf(),
        final(g)@.w == old(g)@.w,
        final(g)@.d == old(g)@.d,
        in_grid(final(g)@, final(placed)@),
        works(*final(g), *final(placed), draw) == brief.guaranteed(
            works(*old(g), *old(placed), draw),
            unit,
        ),
{
    if unit_has_room(placed, unit) {
        return;
    }
    let room: &BlueprintRoom = match forced_template(rooms) {
        Some(t) => t,
        None => {
            return;
        },
    };
    let ghost p = g@;
    assert(orderly(*room)) by {
        let k = choose|k: int| 0 <= k < rooms@.len() && rooms@[k] == *room;
        assert(orderly(brief.rooms[k]));
    }
    let site: Option<(u8, u8)> = find_forced_site(g, unit, room, base, side, Ghost(brief));
    if let Some((x, z)) = site {
        proof {
            lemma_forced_site(brief, p, unit, *room);
            lemma_placed_at(p, x, z, *room, unit, base, 999_983);
        }
        let found: Option<Rect> = try_place_room(g, x, z, room, unit, base, 999_983);
        if let Some(r) = found {
            proof {
                lemma_fits_in_grid(p, r, unit);
            }
            note_room(placed, r, room);
        }
    }
}

/// Opens the doors of the rooms.
fn open_doors(g: &mut Floor, placed: &Vec<PlacedRoom>, base: u64)
    requires
        old(g).wf(),
        in_grid(old(g)@, placed@),
    ensures
        final(g).wf(),
        final(g)@.w == old(g)@.w,
        final(g)@.d == old(g)@.d,
        final(g)@ == all_doors(old(g)@, placed@, base, 0),
{
    let ghost goal = all_doors(g@, placed@, base, 0);
    for i in 0..placed.len()
        invariant
            g.wf(),
            g@.w == old(g)@.w,
            g@.d == old(g)@.d,
            in_grid(old(g)@, placed@),
            goal == all_doors(g@, placed@, base, i as int),
    {
        let r: PlacedRoom = placed[i];
        let ghost mid = doors_from(g@, r, base, 0);
        assert(rect_in_grid(old(g)@, rect_of(placed@[i as int])));
        for k in 0..r.doors
            invariant
                g.wf(),
                g@.w == old(g)@.w,
                g@.d == old(g)@.d,
                rect_in_grid(old(g)@, rect_of(r)),
                mid == doors_from(g@, r, base, k as int),
        {
            room_door(g, (r.x0, r.z0, r.w, r.d), base, k as usize);
        }
    }
}

/// The units of a region keep off the ring if the region does.
proof fn lemma_units_off_ring(
    region: PlaceRegion,
    max_units: u8,
    shafts: Seq<u8>,
    base: u64,
    w: int,
    d: int,
)
    requires
        off_ring(region, w, d),
        w <= 255,
        d <= 255,
        region.w > 0,
        region.d > 0,
    ensures
        ({
            let units = units_of(region, max_units as int, shafts, base);
            &&& 1 <= units.len() <= 255
            &&& forall|i: int| 0 <= i < units.len() ==> off_ring(#[trigger] units[i], w, d)
        }),
{
    law_units_partition(region, max_units, shafts, base);
    let units = units_of(region, max_units as int, shafts, base);
    assert forall|i: int| 0 <= i < units.len() implies off_ring(#[trigger] units[i], w, d) by {
        let u = units[i];
        assert(u.w >= 1 && u.d >= 1);
        assert(units[i].covers((u.x0 as int, u.z0 as int)));
        assert(units[i].covers((u.x0 + u.w - 1, u.z0 + u.d - 1)));
        assert(region.covers((u.x0 as int, u.z0 as int)));
        assert(region.covers((u.x0 + u.w - 1, u.z0 + u.d - 1)));
    }
}

/// Places the rooms of a storey.
fn place_rooms(
    g: &mut Floor,
    region: PlaceRegion,
    rooms: &[BlueprintRoom],
    unit_max: u8,
    shafts: &Vec<u8>,
    room_base: u64,
    side: DoorSide,
) -> (all: Vec<PlacedRoom>)
    requires
        old(g).wf(),
        off_ring(region, old(g)@.w, old(g)@.d),
        rooms@.len() <= 8,
        forall|i: int| 0 <= i < rooms@.len() ==> orderly(#[trigger] rooms@[i]),
    ensures
        final(g).wf(),
        final(g)@.w == old(g)@.w,
        final(g)@.d == old(g)@.d,
        in_grid(final(g)@, all@),
        ({
            let s = furnished(old(g)@, region, rooms@, unit_max as int, shafts@, room_base, side);
            &&& final(g)@ == s.plan
            &&& all@ == s.placed
        }),
{
    if rooms.len() == 0 || region.w == 0 || region.d == 0 {
        let none: Vec<PlacedRoom> = Vec::new();
        assert(none@ =~= seq![]);
        return none;
    }
    let ghost brief = Brief { rooms: rooms@, shafts: shafts@, base: room_base, side };
    let fallback: Option<&BlueprintRoom> = smallest_template(rooms);
    let units: Vec<PlaceRegion> = split_units(region, unit_max, shafts, room_base);
    proof {
        lemma_units_off_ring(region, unit_max, shafts@, room_base, g@.w, g@.d);
    }
    let mut placed: Vec<PlacedRoom> = Vec::new();
    assert(placed@ =~= seq![]);
    let ghost first_works = works(*g, placed, FIRST_NEED_DRAW as int);
    assert(first_works == (Works {
        plan: old(g)@,
        placed: seq![],
        draw: FIRST_NEED_DRAW as int,
    }));
    let draw: Ghost<int> = place_minimums(
        g,
        &mut placed,
        &units,
        rooms,
        fallback,
        shafts,
        room_base,
        side,
        Ghost(brief),
    );
    let ghost goal = brief.fill_units(works(*g, placed, draw@), units@, 0);
    for u in 0..units.len()
        invariant
            g.wf(),
            g@.w == old(g)@.w,
            g@.d == old(g)@.d,
            in_grid(g@, placed@),
            units@.len() <= 255,
            rooms@.len() > 0,
            forall|i: int| 0 <= i < units@.len() ==> off_ring(#[trigger] units@[i], g@.w, g@.d),
            matches_brief(brief, rooms@, shafts@, room_base, fallback, side),
            goal == brief.fill_units(works(*g, placed, draw@), units@, u as int),
    {
        let unit: PlaceRegion = units[u];
        let ghost s = works(*g, placed, draw@);
        roll_rooms(
            g,
            &mut placed,
            unit,
            u,
            rooms,
            fallback,
            shafts,
            room_base,
            side,
            Ghost(brief),
            draw,
        );
        guarantee_room(g, &mut placed, unit, rooms, room_base, side, Ghost(brief), draw);
        punch_unit_door(g, unit, room_base.wrapping_add(u as u64));
        assert(works(*g, placed, draw@) == brief.fill_unit(s, unit, u as int));
    }
    placed
}

/// Carves one storey: ring, core, the way in, rooms unit by unit, circulation
/// on whatever is left, a door from each room onto it, and furniture.
pub fn generate_floor(
    x_id: i64,
    y_id: i64,
    seed: u64,
    floor: u8,
    role: FloorRole,
    core: (u8, u8, u8),
    ctx: &InteriorContext,
    blueprint: &Blueprint,
    shafts: &Vec<u8>,
) -> (g: Floor)
    requires
        forall|i: int|
            0 <= i < blueprint.live().len() ==> orderly(#[trigger] blueprint.live()[i]),
    ensures
        g.wf(),
        g@ == storey(x_id, y_id, seed, floor, role, core, *ctx, *blueprint, shafts@),
{
    let mut g: Floor = Floor::empty(ctx.footprint_w, ctx.footprint_d);
    let gw: usize = g.width as usize;
    let gd: usize = g.depth as usize;
    if gw < 3 || gd < 3 {
        let n: usize = g.tiles.len();
        for i in 0..n
            invariant
                g.wf(),
                n == g.tiles@.len(),
                g.width == ctx.footprint_w,
                g.depth == ctx.footprint_d,
                g@.kinds == uniform(gw as int, gd as int, Tile::Wall).kinds,
                g@.furn == uniform(gw as int, gd as int, Tile::Wall).furn,
                gw == g.width,
                gd == g.depth,
                forall|j: int| 0 <= j < i ==> #[trigger] g.tiles@[j] == Tile::Wall,
        {
            g.tiles.set(i, Tile::Wall);
        }
        proof {
            crate::layout::lemma_places(gw as int, gd as int);
            assert(g@ =~= uniform(gw as int, gd as int, Tile::Wall));
        }
        return g;
    }
    let (core_size, core_x, core_z): (u8, u8, u8) = core;
    let door_base: u64 = floor_hash(x_id, y_id, seed, floor, domain::LAYOUT_DOOR);
    let room_base: u64 = floor_hash(x_id, y_id, seed, floor, domain::LAYOUT_ROOM);
    paint_wall_ring(&mut g);
    paint_core(&mut g, core_x, core_z, core_size);
    match role {
        FloorRole::Ground => {
            punch_entrance_door(&mut g, ctx.door_side, door_base);
            reserve_entrance(&mut g, ctx.door_side, door_base);
        },
        FloorRole::Typical | FloorRole::Top => {
            punch_core_door(&mut g, core_x, core_z, core_size);
        },
    }
    let region: PlaceRegion = if blueprint.corridor == 1 && gd >= 6 {
        open_up(&mut g, 1, gd - 2, gw - 1, gd - 1);
        PlaceRegion { x0: 1, z0: 1, w: (gw - 2) as u8, d: (gd - 4) as u8 }
    } else {
        PlaceRegion::interior(gw, gd)
    };
    assert(g@ == shell(
        gw as int,
        gd as int,
        role,
        core,
        ctx.door_side,
        *blueprint,
        door_base,
    ));
    let placed: Vec<PlacedRoom> = place_rooms(
        &mut g,
        region,
        blueprint.room_slice(),
        blueprint.unit_max,
        shafts,
        room_base,
        ctx.door_side,
    );
    if role == FloorRole::Ground {
        paint_lobby_halo(&mut g, core_x, core_z, core_size);
    }
    open_up(&mut g, 1, 1, gw - 1, gd - 1);
    open_doors(&mut g, &placed, door_base);
    let furn_base: u64 = floor_hash(x_id, y_id, seed, floor, domain::LAYOUT_FURNITURE);
    furnish_rooms(&mut g, &placed, furn_base, blueprint.furn_density);
    g
}

} // verus!
