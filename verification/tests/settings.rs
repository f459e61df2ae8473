use urbix::cli::{
    check_args, chunk_coords, validate_out, ArgError, OutError, MAX_CHUNK_SIZE, MAX_RADIUS,
};
use urbix::config::{
    default_interior_max_floors, format_for_extension, ConfigFormat, WorldConfig,
};
use urbix::double::F64;
use urbix::layout::{blueprint_defaults, Blueprint};
use urbix::single::F32;
use urbix::zones::ZoneType;

fn f(x: f32) -> F32 {
    F32::from_bits(x.to_bits())
}

fn d(x: f64) -> F64 {
    F64::from_bits(x.to_bits())
}

#[test]
fn default_is_valid() {
    let cfg = WorldConfig::default();
    assert_eq!(cfg.chunk_size, 32);
    assert_eq!(cfg.voronoi_site_count, 32);
    assert_eq!(cfg.voronoi_span, d(10_000.0));
    assert!(cfg.is_valid());
}

#[test]
fn rejects_bad_chunk_size() {
    let cfg = WorldConfig {
        chunk_size: 0,
        ..Default::default()
    };
    assert!(!cfg.is_valid());
    let cfg = WorldConfig {
        chunk_size: 512,
        ..Default::default()
    };
    assert!(!cfg.is_valid());
}

#[test]
fn rejects_bad_site_count() {
    let too_low = WorldConfig {
        voronoi_site_count: 4,
        ..Default::default()
    };
    let too_high = WorldConfig {
        voronoi_site_count: 128,
        ..Default::default()
    };
    let ok = WorldConfig {
        voronoi_site_count: 48,
        ..Default::default()
    };
    assert!(!too_low.is_valid());
    assert!(!too_high.is_valid());
    assert!(ok.is_valid());
}

#[test]
fn supports_other_chunk_sizes() {
    for size in [16u16, 32, 64, 128] {
        assert!(WorldConfig {
            chunk_size: size,
            ..Default::default()
        }
        .is_valid());
    }
}

#[test]
fn every_range_is_checked() {
    let ok = WorldConfig::default();
    let mut bad: Vec<WorldConfig> = Vec::new();
    bad.push(WorldConfig { draw_distance: 0, ..ok });
    bad.push(WorldConfig { voronoi_span: d(99.0), ..ok });
    bad.push(WorldConfig { voronoi_span: d(f64::NAN), ..ok });
    bad.push(WorldConfig { shepard_power: d(10.5), ..ok });
    bad.push(WorldConfig { shepard_epsilon: d(1e-13), ..ok });
    bad.push(WorldConfig { zone_weights: [d(0.3); 5], ..ok });
    bad.push(WorldConfig {
        zone_weights: [d(1.5), d(-0.5), d(0.0), d(0.0), d(0.0)],
        ..ok
    });
    let mut zones = ok.zones;
    zones[2].height_min = f(1000.0);
    bad.push(WorldConfig { zones, ..ok });
    let mut zones = ok.zones;
    zones[0].density = f(1.01);
    bad.push(WorldConfig { zones, ..ok });
    let mut zones = ok.zones;
    zones[4].block_size = 0;
    bad.push(WorldConfig { zones, ..ok });
    bad.push(WorldConfig { interior_width_range: [9, 8], ..ok });
    bad.push(WorldConfig { interior_height_range: [0, 8], ..ok });
    bad.push(WorldConfig { interior_floor_height: f(0.0), ..ok });
    bad.push(WorldConfig { interior_max_floors: 0, ..ok });
    let mut tables: [Blueprint; 5] = ok.interior_blueprints;
    tables[1].core_size = 0;
    bad.push(WorldConfig { interior_blueprints: tables, ..ok });
    let mut tables: [Blueprint; 5] = ok.interior_blueprints;
    tables[1].room_count = 9;
    bad.push(WorldConfig { interior_blueprints: tables, ..ok });
    let mut tables: [Blueprint; 5] = ok.interior_blueprints;
    tables[1].rooms[3].max_d = 0;
    bad.push(WorldConfig { interior_blueprints: tables, ..ok });
    for (i, c) in bad.iter().enumerate() {
        assert!(!c.is_valid(), "case {i}");
    }
    assert!(WorldConfig { zone_weights: [d(0.2); 5], ..ok }.is_valid());
}

#[test]
fn blending_averages_and_snaps() {
    let cfg = WorldConfig::default();
    let pure = [f(0.0), f(0.0), f(1.0), f(0.0), f(0.0)];
    let p = cfg.blended_zone_params(&pure);
    assert_eq!(p, cfg.zone_params_for(ZoneType::Commercial));
    let half = [f(0.5), f(0.5), f(0.0), f(0.0), f(0.0)];
    let p = cfg.blended_zone_params(&half);
    assert_eq!(p.height_min, f(22.0));
    assert_eq!(p.height_max, f(109.0));
    assert_eq!(p.palette_count, 6);
    assert_eq!(p.block_size, cfg.zones[0].block_size);
    let lean = [f(0.4), f(0.6), f(0.0), f(0.0), f(0.0)];
    assert_eq!(cfg.blended_zone_params(&lean).block_size, cfg.zones[1].block_size);
    let none = [f(0.0); 5];
    assert_eq!(cfg.blended_zone_params(&none), cfg.zones[1]);
    assert_eq!(cfg.hue_for(ZoneType::Park), [140, 205, 120]);
}

#[test]
fn blueprints_fall_back_to_the_stock_table() {
    let mut cfg = WorldConfig::default();
    cfg.interior_blueprints[3].room_count = 0;
    assert_eq!(
        cfg.blueprint_for(ZoneType::Industrial),
        blueprint_defaults(ZoneType::Industrial)
    );
    cfg.interior_blueprints[4].unit_max = 7;
    assert_eq!(cfg.blueprint_for(ZoneType::Park).unit_max, 7);
    assert_eq!(default_interior_max_floors(), 64);
}

#[test]
fn formats_by_extension() {
    assert_eq!(format_for_extension("toml"), ConfigFormat::Toml);
    assert_eq!(format_for_extension("json"), ConfigFormat::Json);
    assert_eq!(format_for_extension(""), ConfigFormat::TomlOrJson);
    assert_eq!(format_for_extension("TOML"), ConfigFormat::TomlOrJson);
}

#[test]
fn cli_rejects_oversized_radius() {
    assert_eq!(check_args(0, 0, 100, None), Err(ArgError::RadiusTooLarge));
    assert!(100 > MAX_RADIUS);
    assert_eq!(check_args(0, 0, 64, None), Ok(()));
}

#[test]
fn cli_rejects_oversized_chunk_size() {
    assert_eq!(
        check_args(0, 0, 0, Some(512)),
        Err(ArgError::ChunkSizeTooLarge)
    );
    assert!(512 > MAX_CHUNK_SIZE);
    assert_eq!(check_args(0, 0, 0, Some(0)), Err(ArgError::ChunkSizeZero));
    assert_eq!(check_args(0, 0, 0, Some(256)), Ok(()));
}

#[test]
fn cli_rejects_coordinates_off_the_map() {
    assert_eq!(check_args(i32::MAX, 0, 1, None), Err(ArgError::ColumnOverflow));
    assert_eq!(check_args(i32::MIN, 0, 1, None), Err(ArgError::ColumnUnderflow));
    assert_eq!(check_args(0, i32::MAX, 1, None), Err(ArgError::RowOverflow));
    assert_eq!(check_args(0, i32::MIN, 1, None), Err(ArgError::RowUnderflow));
    assert_eq!(check_args(i32::MAX, i32::MIN, 0, None), Ok(()));
}

#[test]
fn grids_go_row_by_row() {
    assert_eq!(chunk_coords(7, -3, 0), vec![(7, -3)]);
    assert_eq!(
        chunk_coords(0, 10, 1),
        vec![
            (-1, 9),
            (0, 9),
            (1, 9),
            (-1, 10),
            (0, 10),
            (1, 10),
            (-1, 11),
            (0, 11),
            (1, 11)
        ]
    );
    assert_eq!(chunk_coords(0, 0, 64).len(), 129 * 129);
}

#[test]
fn output_places_are_checked() {
    assert_eq!(validate_out(1, true, false), Err(OutError::DirectoryForOneChunk));
    assert_eq!(validate_out(1, false, true), Ok(()));
    assert_eq!(validate_out(9, false, true), Err(OutError::FileForGrid));
    assert_eq!(validate_out(9, true, false), Ok(()));
    assert_eq!(validate_out(9, false, false), Ok(()));
}
