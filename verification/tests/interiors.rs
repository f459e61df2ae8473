use urbix::data::InteriorId;
use urbix::hash::{domain, hash_coords};
use urbix::interior::draw::floor_hash;
use urbix::interior::grid::{paint_core, paint_room, paint_wall_ring, room_door};
use urbix::interior::placement::{
    attempt_place, forced_template, roll_room, shuffled_anchors, try_place_room, try_place_wet,
};
use urbix::interior::steering::is_suited;
use urbix::interior::units::{split_id, split_units, wet_shaft_columns, PlaceRegion};
use urbix::interior::{
    generate_interior, generate_layout, generate_layout_with_ground, resolve_ground_override,
    InteriorCache, InteriorState, PlaceholderInteriorState,
};
use urbix::layout::{
    blueprint_defaults, default_blueprints, furniture_set, BlueprintRoom, BuildingRole, DoorSide,
    Floor, InteriorContext, Tile, FURN_BATH, TAG_PUBLIC, TAG_QUIET, TAG_STREET, TAG_WET,
};
use urbix::single::F32;
use urbix::zones::ZoneType;

fn f(x: f32) -> F32 {
    F32::from_bits(x.to_bits())
}

fn interior_id_for(world_x: i64, world_z: i64, seed: u64) -> InteriorId {
    hash_coords(world_x, world_z, seed, domain::INTERIOR)
}

fn home_ctx(id: InteriorId, seed: u64) -> InteriorContext {
    InteriorContext::new(
        id,
        ZoneType::Residential,
        [f(0.0); 5],
        f(8.0),
        f(4.0),
        64,
        8,
        8,
        1,
        DoorSide::West,
        seed,
        false,
        BuildingRole::Ordinary,
        ZoneType::Commercial,
    )
}

fn tower_ctx(id: InteriorId, seed: u64) -> InteriorContext {
    InteriorContext::new(
        id,
        ZoneType::Downtown,
        [f(0.0); 5],
        f(120.0),
        f(4.0),
        64,
        12,
        12,
        2,
        DoorSide::East,
        seed,
        true,
        BuildingRole::Landmark,
        ZoneType::Commercial,
    )
}

#[test]
fn interior_id_is_deterministic() {
    let a = interior_id_for(12, -7, 445566);
    let b = interior_id_for(12, -7, 445566);
    assert_eq!(a, b);
    assert_ne!(a, 0);
    assert_ne!(a, interior_id_for(13, -7, 445566));
    assert_ne!(a, interior_id_for(12, -7, 99));
}

#[test]
fn placeholder_is_deterministic() {
    let ctx = home_ctx(42, 445566);
    let a = PlaceholderInteriorState::generate(42, &ctx);
    let b = PlaceholderInteriorState::generate(42, &ctx);
    assert_eq!(a, b);
    assert_eq!(a.id, 42);
    assert_eq!(a.seed, 445566);
    assert_eq!(a.width, 8);
    assert_eq!(a.height, 8);
    assert_eq!(a.floors, 2);
}

#[test]
fn placeholder_uses_context_footprint_over_config_range() {
    let ctx = home_ctx(5, 99);
    let s = PlaceholderInteriorState::generate(5, &ctx);
    assert_eq!(s.width, 8);
    assert_eq!(s.height, 8);
    assert_eq!(s.palette_id, ctx.palette_id);
}

#[test]
fn different_contexts_produce_different_placeholders() {
    let a = PlaceholderInteriorState::generate(123, &home_ctx(123, 1));
    let b = PlaceholderInteriorState::generate(123, &home_ctx(123, 2));
    assert_ne!(a, b, "different seeds should differ");
    let c: PlaceholderInteriorState = generate_interior(999, &home_ctx(999, 10));
    let d: PlaceholderInteriorState = generate_interior(999, &home_ctx(999, 11));
    assert_ne!(c, d);
}

fn lot_ctx(id: InteriorId, side: DoorSide, seed: u64) -> InteriorContext {
    InteriorContext::new(
        id,
        ZoneType::Residential,
        [f(0.0); 5],
        f(8.0),
        f(4.0),
        64,
        8,
        8,
        1,
        side,
        seed,
        false,
        BuildingRole::Ordinary,
        ZoneType::Commercial,
    )
}

fn core_coords(f: &Floor) -> Vec<(u8, u8)> {
    let mut out = Vec::new();
    for z in 0..f.depth {
        for x in 0..f.width {
            if f.tiles[f.index(x, z)] == Tile::Core {
                out.push((x, z));
            }
        }
    }
    out.sort_unstable();
    out
}

fn apartments_ctx(id: InteriorId, seed: u64) -> InteriorContext {
    InteriorContext::new(
        id,
        ZoneType::Residential,
        [f(0.0); 5],
        f(12.0),
        f(4.0),
        64,
        14,
        12,
        1,
        DoorSide::South,
        seed,
        false,
        BuildingRole::Ordinary,
        ZoneType::Commercial,
    )
}

fn rooms_per_unit(f: &Floor, units: &[PlaceRegion]) -> Vec<usize> {
    units
        .iter()
        .map(|u| {
            let mut n = 0;
            for dz in 0..usize::from(u.d) {
                for dx in 0..usize::from(u.w) {
                    let (x, z) = (u.x0 as usize + dx, u.z0 as usize + dz);
                    if x < f.width as usize
                        && z < f.depth as usize
                        && f.tiles[f.index(x as u8, z as u8)] == Tile::Room
                    {
                        n += 1;
                    }
                }
            }
            n
        })
        .collect()
}

fn ring_doors(f: &Floor) -> usize {
    let (w, d) = (f.width, f.depth);
    let mut n = 0;
    for x in 0..w {
        if f.tiles[f.index(x, 0)] == Tile::Door {
            n += 1;
        }
        if f.tiles[f.index(x, d - 1)] == Tile::Door {
            n += 1;
        }
    }
    for z in 1..d.saturating_sub(1) {
        if f.tiles[f.index(0, z)] == Tile::Door {
            n += 1;
        }
        if f.tiles[f.index(w - 1, z)] == Tile::Door {
            n += 1;
        }
    }
    n
}

#[test]
fn core_stacks_vertically_across_floors() {
    let ctx = tower_ctx(7, 42);
    let bp = blueprint_defaults(ctx.zone);
    let layout = generate_layout(7, &ctx, &bp);
    assert!(layout.floors.len() > 3);
    let first = core_coords(&layout.floors[1]);
    assert!(!first.is_empty());
    for f in layout.floors.iter().skip(2).take(layout.floors.len() - 3) {
        assert_eq!(core_coords(f), first, "shaft wanders between storeys");
    }
}

#[test]
fn typical_floors_repeat_one_layout() {
    let ctx = tower_ctx(7, 42);
    let bp = blueprint_defaults(ctx.zone);
    let layout = generate_layout(7, &ctx, &bp);
    let n = layout.floors.len();
    assert!(n > 3);
    for f in &layout.floors[2..n - 1] {
        assert_eq!(f, &layout.floors[1], "typical floor not repeated");
    }
    assert_ne!(
        layout.floors[0], layout.floors[1],
        "ground should differ from typical (entrance + lobby)"
    );
}

#[test]
fn entrance_door_lives_on_the_ground_floor_only() {
    let ctx = tower_ctx(7, 42);
    let bp = blueprint_defaults(ctx.zone);
    let layout = generate_layout(7, &ctx, &bp);
    assert_eq!(ring_doors(&layout.floors[0]), 1);
    for (i, f) in layout.floors.iter().enumerate().skip(1) {
        assert_eq!(ring_doors(f), 0, "street door on floor {i}");
    }
}

#[test]
fn top_floor_expands_the_mechanical_core() {
    let ctx = tower_ctx(7, 42);
    let bp = blueprint_defaults(ctx.zone);
    let layout = generate_layout(7, &ctx, &bp);
    let n = layout.floors.len();
    let typical_core = core_coords(&layout.floors[1]).len();
    let top_core = core_coords(&layout.floors[n - 1]).len();
    assert!(top_core >= typical_core, "top core did not expand");
}

#[test]
fn vary_typical_opt_in_rerolls_storeys() {
    let ctx = tower_ctx(7, 42);
    let mut bp = blueprint_defaults(ctx.zone);
    bp.vary_typical = 1;
    let layout = generate_layout(7, &ctx, &bp);
    assert!(layout.floors.len() > 3);
    assert_ne!(
        layout.floors[1], layout.floors[2],
        "vary_typical should re-roll middle storeys"
    );
}

#[test]
fn wandering_core_opt_in_moves_the_shaft() {
    let ctx = tower_ctx(11, 99);
    let mut bp = blueprint_defaults(ctx.zone);
    bp.wandering_core = 1;
    let layout = generate_layout(11, &ctx, &bp);
    let a = core_coords(&layout.floors[0]);
    let b = core_coords(&layout.floors[1]);
    assert!(!a.is_empty() && !b.is_empty());
    assert_ne!(a, b, "wandering core should move between storeys");
}

#[test]
fn units_partition_the_floor_and_hold_rooms() {
    let ctx = apartments_ctx(21, 7);
    let bp = blueprint_defaults(ctx.zone);
    assert_eq!(bp.unit_max, 3);
    let layout = generate_layout(21, &ctx, &bp);
    let floor = &layout.floors[1];
    let region = PlaceRegion::interior(14, 12);
    let shafts = wet_shaft_columns(21, 0, 7, 14, bp.wet_shafts);
    let units = split_units(
        region,
        bp.unit_max,
        &shafts,
        floor_hash(21, 0, 7, 1, domain::LAYOUT_ROOM),
    );
    assert!((1..=3).contains(&units.len()));
    let area: u32 = units.iter().map(|u| u32::from(u.w) * u32::from(u.d)).sum();
    assert_eq!(area, u32::from(region.w) * u32::from(region.d));
    let counts = rooms_per_unit(floor, &units);
    for (i, n) in counts.iter().enumerate() {
        assert!(*n > 0, "unit {i} holds no rooms");
    }
}

#[test]
fn minimums_hold_kitchen_and_bath_on_homes() {
    let ctx = apartments_ctx(22, 8);
    let bp = blueprint_defaults(ctx.zone);
    let layout = generate_layout(22, &ctx, &bp);
    for (i, f) in layout.floors.iter().enumerate() {
        assert!(f.kinds.contains(&21), "floor {i} missing kitchen");
        assert!(f.kinds.contains(&23), "floor {i} missing bath");
    }
}

#[test]
fn wet_rooms_stack_on_shaft_columns() {
    let ctx = apartments_ctx(23, 9);
    let bp = blueprint_defaults(ctx.zone);
    let (x_id, y_id) = split_id(23);
    let shafts = wet_shaft_columns(x_id, y_id, 9, 14, bp.wet_shafts);
    assert_eq!(shafts.len(), 2);
    let layout = generate_layout(23, &ctx, &bp);
    for (i, f) in layout.floors.iter().enumerate() {
        for z in 0..f.depth {
            for x in 0..f.width {
                let idx = f.index(x, z);
                if f.tiles[idx] == Tile::Room && (f.kinds[idx] == 21 || f.kinds[idx] == 23) {
                    let near = shafts.iter().any(|sc| (x as i64 - *sc as i64).abs() <= 2);
                    assert!(near, "wet tile at ({x},{z}) off-shaft on floor {i}");
                }
            }
        }
    }
}

#[test]
fn mixed_use_ground_serves_retail() {
    let table = default_blueprints();
    let bp = &table[ZoneType::Residential as usize];
    let mut picked = None;
    for seed in 10u64..40 {
        let ctx = apartments_ctx(24, seed);
        let ground = resolve_ground_override(&ctx, bp, &table);
        assert_eq!(ground.rooms[0].kind, 30);
        let layout = generate_layout_with_ground(24, &ctx, bp, ground);
        if layout.floors[0].kinds.contains(&30) {
            picked = Some((seed, layout));
            break;
        }
    }
    let (seed, layout) = picked.expect("no seed rolled retail on ground");
    assert!(
        !layout.floors[1].kinds.contains(&30),
        "retail leaked upstairs (seed {seed})"
    );
    let short = home_ctx(25, 10);
    assert_eq!(short.floor_count, 2);
    let same = resolve_ground_override(&short, bp, &table);
    assert!(std::ptr::eq(same, bp));
}

#[test]
fn multi_door_rooms_open_more_than_once() {
    let mut g = Floor::empty(10, 10);
    for z in 1..9 {
        for x in 1..9 {
            g.tiles[z * 10 + x] = Tile::Corridor;
        }
    }
    paint_wall_ring(&mut g);
    paint_room(&mut g, 3, 3, 3, 3, 20);
    let base = 0x1234_5678_9abc_def0;
    room_door(&mut g, (3, 3, 3, 3), base, 0);
    room_door(&mut g, (3, 3, 3, 3), base, 1);
    let doors = g.tiles.iter().filter(|t| **t == Tile::Door).count();
    assert!(doors >= 2, "two-door room opened {doors} door(s)");
}

#[test]
fn single_loaded_policy_confines_rooms_north() {
    let ctx = apartments_ctx(26, 11);
    let mut bp = blueprint_defaults(ctx.zone);
    bp.corridor = 1;
    let layout = generate_layout(26, &ctx, &bp);
    for (i, f) in layout.floors.iter().enumerate() {
        let (w, d) = (f.width as usize, f.depth as usize);
        for x in 1..w - 1 {
            let t = f.tiles[(d - 2) * w + x];
            assert!(
                t == Tile::Corridor || t == Tile::Door || t == Tile::Core,
                "band cell is {t:?} on floor {i}"
            );
        }
        for z in 0..f.depth {
            for x in 0..f.width {
                if f.tiles[f.index(x, z)] == Tile::Room {
                    assert!(
                        z < f.depth - 2,
                        "room south of the corridor band on floor {i}"
                    );
                }
            }
        }
    }
}

#[test]
fn split_units_partition_deterministically() {
    let region = PlaceRegion {
        x0: 1,
        z0: 1,
        w: 12,
        d: 10,
    };
    let none: Vec<u8> = Vec::new();
    let a = split_units(region, 3, &none, 0xabcd);
    let b = split_units(region, 3, &none, 0xabcd);
    assert_eq!(a, b);
    assert!((1..=3).contains(&a.len()));
    let area: u32 = a.iter().map(|u| u32::from(u.w) * u32::from(u.d)).sum();
    assert_eq!(area, 12 * 10);
    assert_eq!(split_units(region, 0, &none, 0xabcd), vec![region]);
    assert_eq!(split_units(region, 1, &none, 0xabcd), vec![region]);
}

#[test]
fn splits_keep_every_unit_on_a_shaft() {
    let region = PlaceRegion {
        x0: 1,
        z0: 1,
        w: 12,
        d: 10,
    };
    let shafts = vec![4u8, 9u8];
    for base in [0xabcd, 1, 99, 12345] {
        for max in 2..=4 {
            for u in split_units(region, max, &shafts, base) {
                assert!(
                    shafts.iter().any(
                        |sc| *sc >= u.x0 && (*sc as u16) < u16::from(u.x0) + u16::from(u.w)
                    ),
                    "unit {u:?} orphaned from shafts"
                );
            }
        }
    }
}

#[test]
fn wet_shaft_columns_are_placed_and_stable() {
    let a = wet_shaft_columns(5, -3, 77, 14, 2);
    let b = wet_shaft_columns(5, -3, 77, 14, 2);
    assert_eq!(a, b);
    assert_eq!(a.len(), 2);
    for sc in a {
        assert!((1..=12).contains(&sc));
    }
    assert!(wet_shaft_columns(5, -3, 77, 14, 0).is_empty());
    assert!(wet_shaft_columns(5, -3, 77, 14, 9).len() <= 4);
}

#[test]
fn unplaceable_minimums_skip_without_panic() {
    let mut bp = blueprint_defaults(ZoneType::Residential);
    bp.rooms[0] = BlueprintRoom::new(20, f(1.0), 30, 30, 30, 30, 5, 0, 1);
    bp.room_count = 1;
    bp.unit_max = 0;
    let ctx = lot_ctx(27, DoorSide::West, 3);
    let layout = generate_layout(27, &ctx, &bp);
    assert!(!layout.floors.is_empty());
}

#[test]
fn layout_is_deterministic_and_walled() {
    let ctx = tower_ctx(7, 42);
    let bp = blueprint_defaults(ctx.zone);
    let a = generate_layout(7, &ctx, &bp);
    let b = generate_layout(7, &ctx, &bp);
    assert_eq!(a, b);
    assert_eq!(a.floors.len(), 30);
    for floor in &a.floors {
        assert_eq!(floor.tile(0, 0), Tile::Wall);
        assert_eq!(floor.tile(floor.width - 1, floor.depth - 1), Tile::Wall);
        assert!(
            floor.tiles.contains(&Tile::Core),
            "tower floor missing circulation core"
        );
        assert!(
            floor.tiles.contains(&Tile::Door),
            "tower floor missing an entrance/room door"
        );
    }
    assert_eq!(a.id, 7);
    assert_eq!(a.seed, 42);
}

#[test]
fn rooms_are_placed_walled_sealed_and_reachable() {
    let ctx = lot_ctx(42, DoorSide::West, 445566);
    let bp = blueprint_defaults(ctx.zone);
    let layout = generate_layout(42, &ctx, &bp);
    assert_eq!(layout.floors.len(), 2);

    for floor in &layout.floors {
        let gw = usize::from(floor.width);
        let gd = usize::from(floor.depth);
        for x in 0..gw {
            assert!(
                matches!(floor.tiles[x], Tile::Wall | Tile::Door),
                "top edge not sealed"
            );
            assert!(
                matches!(floor.tiles[(gd - 1) * gw + x], Tile::Wall | Tile::Door),
                "bottom edge not sealed"
            );
        }
        for z in 0..gd {
            assert!(matches!(floor.tiles[z * gw], Tile::Wall | Tile::Door));
            assert!(matches!(
                floor.tiles[z * gw + gw - 1],
                Tile::Wall | Tile::Door
            ));
        }
        let total = gw * gd;
        let mut visited = vec![false; total];
        let mut rooms = 0usize;
        for start in 0..total {
            if visited[start] || floor.tiles[start] != Tile::Room {
                continue;
            }
            rooms += 1;
            let mut stack = vec![start];
            visited[start] = true;
            let mut touches_circulation = false;
            while let Some(i) = stack.pop() {
                let x = i % gw;
                let z = i / gw;
                for (dx, dz) in [(1i64, 0i64), (-1, 0), (0, 1), (0, -1)] {
                    let nx = x as i64 + dx;
                    let nz = z as i64 + dz;
                    if nx < 0 || nz < 0 || nx >= gw as i64 || nz >= gd as i64 {
                        continue;
                    }
                    let ni = nz as usize * gw + nx as usize;
                    match floor.tiles[ni] {
                        Tile::Room if !visited[ni] => {
                            visited[ni] = true;
                            stack.push(ni);
                        }
                        Tile::Corridor | Tile::Door | Tile::Core => {
                            touches_circulation = true;
                        }
                        _ => {}
                    }
                }
            }
            assert!(
                touches_circulation,
                "room starting at ({},{}) is isolated",
                start % gw,
                start / gw
            );
        }
        assert!(rooms > 0, "no rooms placed on this floor");
        for i in 0..total {
            if floor.tiles[i] == Tile::Room {
                assert!(
                    (20..=23).contains(&floor.kinds[i]),
                    "room kind {} not from the residential blueprint",
                    floor.kinds[i]
                );
            } else {
                assert_eq!(
                    floor.kinds[i], 0,
                    "kind set on non-room tile {:?}",
                    floor.tiles[i]
                );
            }
        }
    }
}

#[test]
fn interiors_vary_across_floors_and_seeds() {
    let bp = blueprint_defaults(ZoneType::Downtown);
    let tower = generate_layout(9, &tower_ctx(9, 42), &bp);
    assert!(tower.floors.len() >= 2);
    let all_same = tower
        .floors
        .windows(2)
        .all(|pair| pair[0].tiles == pair[1].tiles);
    assert!(!all_same, "every storey of the tower is identical");

    let a = generate_layout(
        1,
        &home_ctx(1, 1),
        &blueprint_defaults(ZoneType::Residential),
    );
    let b = generate_layout(
        1,
        &home_ctx(1, 2),
        &blueprint_defaults(ZoneType::Residential),
    );
    assert_ne!(
        a, b,
        "different world seeds must generate different interiors"
    );
}

#[test]
fn entrance_door_faces_the_context_side() {
    let bp = blueprint_defaults(ZoneType::Residential);
    for side in [
        DoorSide::West,
        DoorSide::East,
        DoorSide::North,
        DoorSide::South,
    ] {
        let floor = &generate_layout(1, &lot_ctx(7, side, 99), &bp).floors[0];
        let gw = usize::from(floor.width);
        let gd = usize::from(floor.depth);
        let hits = |pred: &dyn Fn(usize) -> bool| {
            floor
                .tiles
                .iter()
                .enumerate()
                .any(|(i, t)| *t == Tile::Door && pred(i))
        };
        match side {
            DoorSide::West => assert!(hits(&|i| i % gw == 0)),
            DoorSide::East => assert!(hits(&|i| i % gw == gw - 1)),
            DoorSide::North => assert!(hits(&|i| i / gw == 0)),
            DoorSide::South => assert!(hits(&|i| i / gw == gd - 1)),
        }
    }
}

#[test]
fn small_lot_still_gets_rooms() {
    let ctx = InteriorContext::new(
        7,
        ZoneType::Downtown,
        [f(0.0); 5],
        f(16.0),
        f(4.0),
        64,
        7,
        7,
        2,
        DoorSide::West,
        42,
        true,
        BuildingRole::Landmark,
        ZoneType::Commercial,
    );
    let layout = generate_layout(7, &ctx, &blueprint_defaults(ZoneType::Downtown));
    assert!(!layout.floors.is_empty());
    for floor in &layout.floors {
        assert!(
            floor.tiles.contains(&Tile::Room),
            "7x7 lot floor has no rooms"
        );
    }
}

#[test]
fn degenerate_footprint_is_sealed() {
    let ctx = InteriorContext::new(
        1,
        ZoneType::Park,
        [f(0.0); 5],
        f(8.0),
        f(4.0),
        64,
        2,
        2,
        0,
        DoorSide::North,
        7,
        false,
        BuildingRole::Ordinary,
        ZoneType::Residential,
    );
    let layout = generate_layout(1, &ctx, &blueprint_defaults(ZoneType::Park));
    for floor in &layout.floors {
        assert!(floor.tiles.iter().all(|t| *t == Tile::Wall));
    }
}

#[test]
fn residential_has_fewer_floors_than_downtown() {
    let home = generate_layout(
        1,
        &home_ctx(1, 5),
        &blueprint_defaults(ZoneType::Residential),
    );
    let tower = generate_layout(2, &tower_ctx(2, 5), &blueprint_defaults(ZoneType::Downtown));
    assert_eq!(home.floors.len(), 2);
    assert_eq!(tower.floors.len(), 30);
    assert!(home.floors.len() < tower.floors.len());
}

#[test]
fn interior_cache_basic() {
    let mut cache = InteriorCache::<PlaceholderInteriorState>::new(2);
    let s1 = PlaceholderInteriorState::generate(1, &home_ctx(1, 10));
    let s2 = PlaceholderInteriorState::generate(2, &home_ctx(2, 10));
    let s3 = PlaceholderInteriorState::generate(3, &home_ctx(3, 10));
    cache.insert(1, s1.clone());
    cache.insert(2, s2.clone());
    assert_eq!(cache.len(), 2);
    assert!(cache.get(&1).is_some());
    cache.insert(3, s3);
    assert_eq!(cache.len(), 2);
    assert!(cache.get(&2).is_none());
    assert!(cache.get(&1).is_some());
    assert!(cache.get(&3).is_some());
}

#[test]
fn interior_cache_clear() {
    let mut cache = InteriorCache::<PlaceholderInteriorState>::new(8);
    cache.insert(42, PlaceholderInteriorState::generate(42, &home_ctx(42, 1)));
    assert_eq!(cache.len(), 1);
    cache.clear();
    assert!(cache.is_empty());
}

#[test]
fn every_room_has_a_door() {
    let mut rooms = 0;
    for seed in 0..12u64 {
        for ctx in [home_ctx(seed, seed), tower_ctx(seed + 7, seed), apartments_ctx(3, seed)] {
            let layout = generate_layout(ctx.id, &ctx, &blueprint_defaults(ctx.zone));
            for floor in &layout.floors {
                let (w, d) = (usize::from(floor.width), usize::from(floor.depth));
                let mut visited = vec![false; w * d];
                for start in 0..w * d {
                    if visited[start] || floor.tiles[start] != Tile::Room {
                        continue;
                    }
                    rooms += 1;
                    visited[start] = true;
                    let mut stack = vec![start];
                    let mut doors = 0;
                    while let Some(i) = stack.pop() {
                        for ni in [i + 1, i - 1, i + w, i - w] {
                            match floor.tiles[ni] {
                                Tile::Room if !visited[ni] => {
                                    visited[ni] = true;
                                    stack.push(ni);
                                }
                                Tile::Door => doors += 1,
                                _ => {}
                            }
                        }
                    }
                    assert!(doors > 0, "room at {start} of seed {seed} has no door");
                }
            }
        }
    }
    assert!(rooms > 50);
}

#[test]
fn squares_are_split_along_x() {
    let mut split = 0;
    for base in 0..200u64 {
        for side in 7..12u8 {
            let region = PlaceRegion {
                x0: 2,
                z0: 3,
                w: side,
                d: side,
            };
            let units = split_units(region, 2, &Vec::new(), base);
            if units.len() == 2 {
                split += 1;
                assert!(units.iter().all(|u| u.z0 == 3 && u.d == side));
                assert_eq!(units[0].x0, 2);
                assert_eq!(units[1].x0, 2 + units[0].w);
                assert_eq!(units[0].w + units[1].w, side);
            }
        }
    }
    assert!(split > 100);
    let tall = PlaceRegion {
        x0: 1,
        z0: 1,
        w: 8,
        d: 9,
    };
    for base in 0..50u64 {
        let units = split_units(tall, 2, &Vec::new(), base);
        assert!(units.iter().all(|u| u.w == 8));
    }
}

#[test]
fn weightless_templates_never_win() {
    let room = |kind, weight| BlueprintRoom::new(kind, f(weight), 1, 1, 1, 1, 0, 0, 1);
    let rooms = [room(1, 0.0), room(2, 1.0), room(3, -4.0), room(4, 3.0), room(5, 0.0)];
    assert_eq!(roll_room(&rooms, f(0.0)).kind, 2);
    assert_eq!(roll_room(&rooms, f(0.24)).kind, 2);
    assert_eq!(roll_room(&rooms, f(0.26)).kind, 4);
    assert_eq!(roll_room(&rooms, f(1.0)).kind, 4);
    assert_eq!(roll_room(&rooms, f(-1.0)).kind, 2);
    assert_eq!(roll_room(&rooms, f(f32::NAN)).kind, 4);
    let none = [room(7, 0.0), room(8, -1.0), room(9, f32::NAN)];
    assert_eq!(roll_room(&none, f(0.7)).kind, 7);
}

#[test]
fn placed_rooms_are_painted() {
    let room = BlueprintRoom::new(20, f(1.0), 2, 3, 2, 2, 0, 0, 1);
    let mut g = Floor::empty(8, 8);
    paint_wall_ring(&mut g);
    let region = PlaceRegion::interior(8, 8);
    let before = g.clone();
    let (x, z, w, d) = try_place_room(&mut g, 3, 3, &room, region, 77, 5).unwrap();
    assert_eq!((x, z, d), (3, 3, 2));
    assert!((2..=3).contains(&w));
    for cz in 0..8u8 {
        for cx in 0..8u8 {
            let i = g.index(cx, cz);
            if (x..x + w).contains(&cx) && (z..z + d).contains(&cz) {
                assert_eq!((g.tiles[i], g.kinds[i]), (Tile::Room, 20));
            } else {
                assert_eq!((g.tiles[i], g.kinds[i]), (before.tiles[i], before.kinds[i]));
            }
        }
    }
    let after = g.clone();
    assert_eq!(try_place_room(&mut g, 2, 2, &room, region, 77, 5), None);
    assert_eq!(g, after);
    let rolled = attempt_place(&mut g, 1, 6, &room, None, &Vec::new(), region, 77, 5, true);
    assert_eq!(rolled, None);
    assert_eq!(g, after);
}

#[test]
fn rooms_are_furnished() {
    let mut first = 0;
    let mut second = [0, 0];
    for seed in 0..20u64 {
        for (k, density) in [0u8, 100].into_iter().enumerate() {
            let ctx = apartments_ctx(101, seed);
            let mut bp = blueprint_defaults(ctx.zone);
            bp.furn_density = density;
            let layout = generate_layout(101, &ctx, &bp);
            for floor in &layout.floors {
                let kinds: Vec<u8> = bp.room_slice().iter().map(|r| r.kind).collect();
                for i in 0..floor.tiles.len() {
                    assert!(floor.furn[i] <= FURN_BATH);
                    if floor.furn[i] != 0 {
                        assert_eq!(floor.tiles[i], Tile::Room, "furniture off-room");
                    }
                    if floor.tiles[i] == Tile::Room {
                        assert!(kinds.contains(&floor.kinds[i]));
                    }
                }
                let w = usize::from(floor.width);
                for i in 0..floor.tiles.len() {
                    let corner = floor.tiles[i] == Tile::Room
                        && floor.tiles[i - 1] != Tile::Room
                        && floor.tiles[i - w] != Tile::Room;
                    if !corner {
                        continue;
                    }
                    let mut rw = 1;
                    while floor.tiles[i + rw] == Tile::Room {
                        rw += 1;
                    }
                    let mut rd = 1;
                    while floor.tiles[i + rd * w] == Tile::Room {
                        rd += 1;
                    }
                    let [a, b] = furniture_set(floor.kinds[i]);
                    let fits = usize::from(a.1) <= rw && usize::from(a.2) <= rd;
                    assert_eq!(floor.furn[i] == a.0, fits, "first piece in the near corner");
                    first += usize::from(fits);
                    let far = i + (rd - 1) * w + rw - 1;
                    let beside = rw - 1 >= usize::from(a.1) || rd - 1 >= usize::from(a.2);
                    if b.0 != 0 && fits && beside {
                        assert_eq!(floor.furn[far] == b.0, density == 100);
                        second[k] += usize::from(floor.furn[far] == b.0);
                    }
                }
            }
        }
    }
    assert!(first > 50, "roomy homes have furniture");
    assert_eq!(second[0], 0);
    assert!(second[1] > 20);
}

#[test]
fn places_suit_rooms_by_their_tags() {
    let room = |tags| BlueprintRoom::new(1, f(1.0), 1, 4, 1, 4, 0, tags, 1);
    let mut g = Floor::empty(12, 10);
    paint_wall_ring(&mut g);
    paint_core(&mut g, 5, 5, 2);
    let (west, south) = (DoorSide::West, DoorSide::South);
    assert!(is_suited(&g, &room(0), (1, 1, 2, 2), west));
    assert!(!is_suited(&g, &room(TAG_QUIET), (1, 1, 2, 2), west));
    assert!(is_suited(&g, &room(TAG_QUIET), (1, 1, 2, 2), south));
    assert!(!is_suited(&g, &room(TAG_QUIET), (7, 7, 2, 1), west));
    assert!(is_suited(&g, &room(TAG_QUIET), (8, 7, 2, 2), west));
    assert!(!is_suited(&g, &room(TAG_QUIET), (8, 7, 2, 2), south));
    assert!(is_suited(&g, &room(TAG_PUBLIC), (4, 2, 4, 2), west));
    assert!(!is_suited(&g, &room(TAG_PUBLIC), (5, 2, 4, 2), west));
    assert!(!is_suited(&g, &room(TAG_PUBLIC), (5, 2, 4, 2), south));
    assert!(is_suited(&g, &room(TAG_STREET), (9, 3, 2, 2), west));
    assert!(!is_suited(&g, &room(TAG_STREET), (8, 3, 2, 2), west));
}

fn tagged_rooms(tags: u8, suited: u8) -> (usize, usize) {
    let mut bp = blueprint_defaults(ZoneType::Residential);
    bp.unit_max = 0;
    bp.room_count = 1;
    bp.rooms[0] = BlueprintRoom::new(1, f(1.0), 3, 3, 3, 3, 2, tags, 1);
    let probe = BlueprintRoom::new(1, f(1.0), 3, 3, 3, 3, 0, suited, 1);
    let (mut well, mut all) = (0, 0);
    for seed in 0..40u64 {
        let ctx = apartments_ctx(9, seed);
        let layout = generate_layout(9, &ctx, &bp);
        let floor = &layout.floors[0];
        for z in 1..floor.depth - 1 {
            for x in 1..floor.width - 1 {
                let corner = floor.tile(x, z) == Tile::Room
                    && floor.tile(x - 1, z) != Tile::Room
                    && floor.tile(x, z - 1) != Tile::Room;
                if corner {
                    all += 1;
                    well += usize::from(is_suited(floor, &probe, (x, z, 3, 3), ctx.door_side));
                }
            }
        }
    }
    (well, all)
}

#[test]
fn tags_steer_rooms() {
    for tag in [TAG_QUIET, TAG_PUBLIC, TAG_STREET] {
        let (plain, plain_all) = tagged_rooms(0, tag);
        let (steered, steered_all) = tagged_rooms(tag, tag);
        assert!(plain_all > 40 && steered_all > 40);
        assert!(
            steered * plain_all > plain * steered_all,
            "tag {tag}: {steered}/{steered_all} against {plain}/{plain_all}"
        );
    }
}

#[test]
fn high_draws_and_units_are_accepted() {
    let room = BlueprintRoom::new(20, f(1.0), 2, 3, 2, 2, 0, TAG_WET, 1);
    let mut g = Floor::empty(8, 8);
    paint_wall_ring(&mut g);
    let region = PlaceRegion::interior(8, 8);
    let top = (usize::MAX - 1) / 2;
    assert!(try_place_wet(&g, 3, &room, &vec![3], region, 7, top).is_some());
    let units = (usize::MAX - 36) / 4096;
    let anchors = shuffled_anchors(&g, region, 7, units);
    assert_eq!(anchors.len(), 36);
    let mut sorted = anchors.clone();
    sorted.sort_unstable();
    sorted.dedup();
    assert_eq!(sorted.len(), 36);
    assert!(try_place_room(&mut g, 3, 3, &room, region, 7, top).is_some());
    room_door(&mut g, (3, 3, 2, 2), 7, top);
}

#[test]
fn forced_template_is_the_least_dry_one() {
    let room = |kind, w, d, tags| BlueprintRoom::new(kind, f(1.0), w, 9, d, 9, 0, tags, 1);
    let rooms = [room(1, 1, 1, TAG_WET), room(2, 3, 3, 0), room(3, 2, 3, 0), room(4, 3, 2, 0)];
    assert_eq!(forced_template(&rooms).map(|r| r.kind), Some(3));
    assert_eq!(forced_template(&rooms[..1]).map(|r| r.kind), Some(1));
    assert!(forced_template(&[]).is_none());
}
