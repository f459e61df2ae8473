//! Where the rooms of a storey come from: each is of one of the templates.
use crate::interior::draw::lemma_first_hit;
use crate::interior::placement::{anchors_of, forced_choice, is_least, lemma_rolled, rolled};
use crate::interior::storey::{
    furnished, least_counts, Brief, PlacedRoom, Works, FIRST_NEED_DRAW,
};
use crate::interior::units::{units_of, PlaceRegion};
use crate::layout::{BlueprintRoom, DoorSide, Plan};
use vstd::prelude::*;

verus! {

/// Does the room have the kind and the doors of the template?
pub open spec fn made_of(r: PlacedRoom, room: BlueprintRoom) -> bool {
    r.kind == room.kind && r.doors == room.door_total()
}

/// Is the room of one of the templates?
pub open spec fn has_template(r: PlacedRoom, rooms: Seq<BlueprintRoom>) -> bool {
    exists|k: int| 0 <= k < rooms.len() && made_of(r, #[trigger] rooms[k])
}

/// Is every room of one of the templates?
pub open spec fn drawn_from(placed: Seq<PlacedRoom>, rooms: Seq<BlueprintRoom>) -> bool {
    forall|i: int| 0 <= i < placed.len() ==> has_template(#[trigger] placed[i], rooms)
}

proof fn lemma_one_more(s: Works, r: (u8, u8, u8, u8), rooms: Seq<BlueprintRoom>, k: int)
    requires
        drawn_from(s.placed, rooms),
        0 <= k < rooms.len(),
    ensures
        drawn_from(s.with_room(r, rooms[k]).placed, rooms),
{
    let t = s.with_room(r, rooms[k]);
    assert forall|i: int| 0 <= i < t.placed.len() implies has_template(
        #[trigger] t.placed[i],
        rooms,
    ) by {
        if i < s.placed.len() {
            assert(t.placed[i] == s.placed[i]);
        } else {
            assert(made_of(t.placed[i], rooms[k]));
        }
    }
}

proof fn lemma_needed(
    brief: Brief,
    s: Works,
    anchors: Seq<(int, int)>,
    k: int,
    unit: PlaceRegion,
    need: int,
)
    requires
        drawn_from(s.placed, brief.rooms),
        0 <= k < brief.rooms.len(),
    ensures
        drawn_from(
            brief.place_needed(s, anchors, brief.rooms[k], unit, need).0.placed,
            brief.rooms,
        ),
    decreases need,
{
    let room = brief.rooms[k];
    if need > 0 {
        if let Some(i) = brief.needed_site(s, anchors, room, unit) {
            let rect = brief.at_anchor(s.plan, anchors[i], room, unit, s.draw, true)->0;
            lemma_one_more(s, rect, brief.rooms, k);
            let next = Works { draw: s.draw + 1, ..s.with_room(rect, room) };
            lemma_needed(brief, next, anchors, k, unit, need - 1);
        }
    }
}

proof fn lemma_needs(
    brief: Brief,
    s: Works,
    anchors: Seq<(int, int)>,
    unit: PlaceRegion,
    needs: Seq<int>,
    r: int,
)
    requires
        drawn_from(s.placed, brief.rooms),
        0 <= r,
    ensures
        drawn_from(brief.place_needs(s, anchors, unit, needs, r).0.placed, brief.rooms),
    decreases brief.rooms.len() - r,
{
    if r < brief.rooms.len() {
        lemma_needed(brief, s, anchors, r, unit, needs[r]);
        let (next, left) = brief.place_needed(s, anchors, brief.rooms[r], unit, needs[r]);
        lemma_needs(brief, next, anchors, unit, needs.update(r, left), r + 1);
    }
}

proof fn lemma_minimums(
    brief: Brief,
    s: Works,
    units: Seq<PlaceRegion>,
    needs: Seq<int>,
    u: int,
)
    requires
        drawn_from(s.placed, brief.rooms),
        0 <= u,
    ensures
        drawn_from(brief.minimums(s, units, needs, u).placed, brief.rooms),
    decreases units.len() - u,
{
    if u < units.len() {
        let anchors = anchors_of(s.plan, units[u], brief.base, 0);
        lemma_needs(brief, s, anchors, units[u], needs, 0);
        let (next, left) = brief.place_needs(s, anchors, units[u], needs, 0);
        lemma_minimums(brief, next, units, left, u + 1);
    }
}

proof fn lemma_roll(
    brief: Brief,
    s: Works,
    anchors: Seq<(int, int)>,
    unit: PlaceRegion,
    u: int,
    k: int,
    steered: bool,
)
    requires
        drawn_from(s.placed, brief.rooms),
        brief.rooms.len() > 0,
        0 <= k,
    ensures
        drawn_from(brief.roll_on(s, anchors, unit, u, k, steered).placed, brief.rooms),
    decreases anchors.len() - k,
{
    if k < anchors.len() && k < 128 {
        let kk = u * 4096 + k;
        let roll = crate::interior::draw::stream_unit(brief.base, kk);
        lemma_rolled(brief.rooms, roll);
        let j = rolled(brief.rooms, roll);
        let next = brief.roll_at(s, anchors, unit, u, k, steered);
        let site = if steered {
            brief.rolled_site(s.plan, anchors, brief.rooms[j], unit, kk, k)
        } else {
            k
        };
        lemma_one_more(
            s,
            brief.at_anchor(s.plan, anchors[site], brief.rooms[j], unit, kk, false)->0,
            brief.rooms,
            j,
        );
        lemma_roll(brief, next, anchors, unit, u, k + 1, steered);
    }
}

/// The template that is forced is one of the templates.
proof fn lemma_forced(rooms: Seq<BlueprintRoom>)
    ensures
        forced_choice(rooms) matches Some(room) ==> exists|k: int|
            0 <= k < rooms.len() && #[trigger] rooms[k] == room,
{
    lemma_first_hit(rooms.len() as int, is_least(rooms, true));
    lemma_first_hit(rooms.len() as int, is_least(rooms, false));
}

proof fn lemma_guaranteed(brief: Brief, s: Works, unit: PlaceRegion)
    requires
        drawn_from(s.placed, brief.rooms),
    ensures
        drawn_from(brief.guaranteed(s, unit).placed, brief.rooms),
{
    if let Some(room) = forced_choice(brief.rooms) {
        lemma_forced(brief.rooms);
        let k = choose|k: int| 0 <= k < brief.rooms.len() && #[trigger] brief.rooms[k] == room;
        if let Some(i) = brief.forced_site(s.plan, unit, room) {
            let c = crate::interior::placement::region_cell(unit, i);
            lemma_one_more(
                s,
                crate::interior::placement::placed_at(
                    s.plan,
                    c.0 as u8,
                    c.1 as u8,
                    room,
                    unit,
                    brief.base,
                    999_983,
                )->0,
                brief.rooms,
                k,
            );
        }
    }
}

proof fn lemma_units(brief: Brief, s: Works, units: Seq<PlaceRegion>, u: int)
    requires
        drawn_from(s.placed, brief.rooms),
        brief.rooms.len() > 0,
        0 <= u,
    ensures
        drawn_from(brief.fill_units(s, units, u).placed, brief.rooms),
    decreases units.len() - u,
{
    if u < units.len() {
        let unit = units[u];
        let anchors = anchors_of(s.plan, unit, brief.base, u);
        let half = brief.roll_on(s, anchors, unit, u, 0, true);
        let a = brief.roll_unit(s, unit, u);
        lemma_roll(brief, s, anchors, unit, u, 0, true);
        lemma_roll(brief, half, anchors, unit, u, 0, false);
        lemma_guaranteed(brief, a, unit);
        lemma_units(brief, brief.fill_unit(s, unit, u), units, u + 1);
    }
}

/// Every room that is placed on a storey is of one of the templates.
pub proof fn lemma_drawn_from(
    p: Plan,
    region: PlaceRegion,
    rooms: Seq<BlueprintRoom>,
    unit_max: int,
    shafts: Seq<u8>,
    room_base: u64,
    side: DoorSide,
)
    ensures
        drawn_from(furnished(p, region, rooms, unit_max, shafts, room_base, side).placed, rooms),
{
    let start = Works { plan: p, placed: seq![], draw: FIRST_NEED_DRAW as int };
    if rooms.len() > 0 && region.w > 0 && region.d > 0 {
        let brief = Brief { rooms, shafts, base: room_base, side };
        let units = units_of(region, unit_max, shafts, room_base);
        lemma_minimums(brief, start, units, least_counts(rooms), 0);
        lemma_units(brief, brief.minimums(start, units, least_counts(rooms), 0), units, 0);
    }
}

} // verus!
