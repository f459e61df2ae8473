use urbix::layout::{
    blueprint_defaults, default_blueprints, floor_role, furniture_set, storey_count, BlueprintRoom,
    BuildingRole, DoorSide, Floor, FloorRole, InteriorContext, Tile, FURN_BED, FURN_NONE,
    FURN_SHELF,
};
use urbix::single::F32;
use urbix::zones::ZoneType;

fn f(x: f32) -> F32 {
    F32::from_bits(x.to_bits())
}

#[test]
fn context_derives_floor_count_from_height() {
    let ctx = InteriorContext::new(
        1,
        ZoneType::Residential,
        [f(0.0); 5],
        f(8.0),
        f(4.0),
        64,
        8,
        8,
        1,
        DoorSide::West,
        42,
        false,
        BuildingRole::Ordinary,
        ZoneType::Commercial,
    );
    assert_eq!(ctx.floor_count, 2);
    assert!(ctx.is_built());
}

#[test]
fn context_floor_count_respects_cap() {
    let ctx = InteriorContext::new(
        1,
        ZoneType::Downtown,
        [f(0.0); 5],
        f(120.0),
        f(4.0),
        8,
        10,
        10,
        2,
        DoorSide::East,
        5,
        true,
        BuildingRole::Landmark,
        ZoneType::Commercial,
    );
    assert_eq!(ctx.floor_count, 8);
}

#[test]
fn unbuilt_lot_has_zero_floors() {
    let ctx = InteriorContext::new(
        1,
        ZoneType::Park,
        [f(0.0); 5],
        f(0.0),
        f(4.0),
        64,
        4,
        4,
        0,
        DoorSide::South,
        5,
        false,
        BuildingRole::Ordinary,
        ZoneType::Residential,
    );
    assert_eq!(ctx.floor_count, 0);
    assert!(!ctx.is_built());
}

#[test]
fn blueprint_defaults_cover_all_zones() {
    let all = default_blueprints();
    for zone in ZoneType::all() {
        let bp = all[zone as usize];
        assert!(!bp.is_empty(), "{zone:?} blueprint empty");
        assert!(bp.room_count > 0);
        assert!(bp.room_slice().len() == bp.room_count as usize);
    }
}

#[test]
fn blueprint_room_slice_respects_count() {
    let bp = blueprint_defaults(ZoneType::Residential);
    assert_eq!(bp.room_slice().len(), usize::from(bp.room_count));
}

#[test]
fn frontage_depth_follows_entrance_edge() {
    let west = InteriorContext::new(
        1,
        ZoneType::Commercial,
        [f(0.0); 5],
        f(12.0),
        f(4.0),
        64,
        8,
        5,
        1,
        DoorSide::West,
        9,
        false,
        BuildingRole::Ordinary,
        ZoneType::Residential,
    );
    assert_eq!(west.frontage_depth, 8);
    let north = InteriorContext::new(
        1,
        ZoneType::Commercial,
        [f(0.0); 5],
        f(12.0),
        f(4.0),
        64,
        8,
        5,
        1,
        DoorSide::North,
        9,
        false,
        BuildingRole::Ordinary,
        ZoneType::Residential,
    );
    assert_eq!(north.frontage_depth, 5);
}

#[test]
fn floor_grid_indexing_is_row_major() {
    let f = Floor::empty(4, 3);
    assert_eq!(f.index(3, 2), 11);
    assert_eq!(f.tile(0, 0), Tile::Void);
    assert_eq!(f.tile(9, 9), Tile::Void);
}

#[test]
fn storeys_follow_the_height() {
    let n = |h: f32, fh: f32, max: u8| storey_count(f(h), f(fh), max);
    assert_eq!(n(0.0, 4.0, 64), 0);
    assert_eq!(n(-3.0, 4.0, 64), 0);
    assert_eq!(n(0.001, 4.0, 64), 1);
    assert_eq!(n(8.1, 4.0, 64), 3);
    assert_eq!(n(1e30, 4.0, 64), 64);
    assert_eq!(n(f32::INFINITY, 4.0, 64), 64);
    assert_eq!(n(f32::NAN, 4.0, 64), 1);
    assert_eq!(n(10.0, f32::INFINITY, 64), 1);
    assert_eq!(n(10.0, 0.0, 200), 200);
    assert_eq!(n(10.0, 4.0, 0), 0);
    for k in 1..2000u32 {
        let h = k as f32 * 0.37;
        let want = (f64::from(h) / f64::from(2.3f32)).ceil().max(1.0).min(255.0) as u8;
        assert_eq!(n(h, 2.3, 255), want, "height {h}");
    }
}

#[test]
fn floor_roles_by_place() {
    assert_eq!(floor_role(0, 5), FloorRole::Ground);
    assert_eq!(floor_role(2, 5), FloorRole::Typical);
    assert_eq!(floor_role(4, 5), FloorRole::Top);
    assert_eq!(floor_role(0, 1), FloorRole::Ground);
    assert_eq!(floor_role(0, 0), FloorRole::Ground);
    assert_eq!(floor_role(1, 2), FloorRole::Top);
}

#[test]
fn windows_sit_in_walls_off_the_corners() {
    let mut g = Floor::empty(6, 6);
    for x in 0..6usize {
        for z in 0..6usize {
            if x == 0 || z == 0 || x == 5 || z == 5 {
                g.tiles[z * 6 + x] = Tile::Wall;
            }
        }
    }
    assert_eq!(Floor::window_cells(&g, DoorSide::West).len(), 4);
    g.tiles[2 * 6] = Tile::Door;
    assert_eq!(
        Floor::window_cells(&g, DoorSide::West),
        vec![(0, 1), (0, 3), (0, 4)]
    );
    assert_eq!(
        Floor::window_cells(&g, DoorSide::South),
        vec![(1, 5), (2, 5), (3, 5), (4, 5)]
    );
    assert!(Floor::window_cells(&Floor::empty(2, 9), DoorSide::East).is_empty());
}

#[test]
fn furniture_by_kind() {
    assert_eq!(furniture_set(22), [(FURN_BED, 2, 3), (FURN_SHELF, 1, 1)]);
    assert_eq!(furniture_set(200), [(FURN_SHELF, 1, 1), (FURN_NONE, 0, 0)]);
    let g = Floor::empty(3, 3);
    assert_eq!(g.furniture(1, 1), 0);
    assert_eq!(g.furniture(9, 9), 0);
}

#[test]
fn stock_tables_hold_their_values() {
    let b = blueprint_defaults(ZoneType::Residential);
    assert_eq!((b.margin, b.core_size, b.room_count), (1, 2, 4));
    assert_eq!((b.unit_max, b.wet_shafts, b.ground_zone), (3, 2, 2));
    assert_eq!(b.rooms[1], BlueprintRoom::new(21, f(3.0), 2, 3, 2, 3, 1, 5, 1));
    assert_eq!(b.rooms[4], BlueprintRoom::default());
    assert_eq!(BlueprintRoom::default().door_count(), 1);
    let d = blueprint_defaults(ZoneType::Downtown);
    assert_eq!(d.rooms[0], BlueprintRoom::new(10, f(3.0), 3, 6, 3, 6, 0, 12, 2));
    assert_eq!(d.furn_density, 60);
}
