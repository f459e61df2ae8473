use std::collections::{HashMap, HashSet};
use urbix::chunk::{
    abuts_street, compose_cell, dominant_zone, generate_chunk, interior_context_for, special_for,
    CellField, SpecialKind, Spot,
};
use urbix::config::WorldConfig;
use urbix::data::{Cell, CellFlags, ChunkBuffer};
use urbix::double::F64;
use urbix::engine::WorldEngine;
use urbix::ffi::{
    cell_address, chunk_out, empty_interior, interior_out, interior_payload, urbix_engine_create,
    urbix_engine_create_with_config, urbix_engine_destroy, urbix_generate_chunk,
    urbix_generate_interior, urbix_get_zone, urbix_set_chunk_size, urbix_set_config,
    urbix_set_draw_distance, UrbixEngine,
};
use urbix::interior::generate_layout;
use urbix::layout::Tile;
use urbix::lot::{block_loc, lot_rect, lot_slot, Diagonal, DistrictFrame};
use urbix::region::VoronoiDiagram;
use urbix::single::F32;
use urbix::street::street_info;
use urbix::zones::{ZoneType, ZONE_COUNT};

fn f(x: f32) -> F32 {
    F32::from_bits(x.to_bits())
}

fn n(x: F32) -> f32 {
    f32::from_bits(x.bits)
}

fn d(x: f64) -> F64 {
    F64::from_bits(x.to_bits())
}

fn m(x: F64) -> f64 {
    f64::from_bits(x.bits)
}

/// A district frame as numbers, ready to map cells.
struct Frame {
    sin: f64,
    cos: f64,
    amp: f64,
    len: f64,
    phase: f64,
    amp2: f64,
    len2: f64,
}

fn frame_of(fr: &DistrictFrame) -> Frame {
    let (sin, cos) = m(fr.angle_rad).sin_cos();
    Frame {
        sin,
        cos,
        amp: m(fr.warp_amp),
        len: m(fr.warp_len),
        phase: m(fr.warp_phase),
        amp2: m(fr.warp_amp2),
        len2: m(fr.warp_len2),
    }
}

fn to_local(fr: &Frame, x: i64, z: i64) -> (i64, i64) {
    let (mut wx, mut wz) = (x as f64, z as f64);
    let tau = std::f64::consts::TAU;
    let (bx, bz) = (wx, wz);
    if fr.amp > 0.0 {
        wx += fr.amp * (tau * bz / fr.len + fr.phase).sin();
        wz += fr.amp * (tau * bx / fr.len + fr.phase * 1.7).sin();
    }
    if fr.amp2 > 0.0 {
        wx += fr.amp2 * (tau * bz / fr.len2 + fr.phase).sin();
        wz += fr.amp2 * (tau * bx / fr.len2 + fr.phase * 1.7).sin();
    }
    (
        (fr.cos * wx + fr.sin * wz).round() as i64,
        (-fr.sin * wx + fr.cos * wz).round() as i64,
    )
}

fn covers(dg: &Diagonal, x: i64, z: i64) -> bool {
    let (s, c) = m(dg.angle_rad).sin_cos();
    (-s * x as f64 + c * z as f64 - m(dg.offset)).abs() <= m(dg.half_width)
}

fn on_boulevard(v: &VoronoiDiagram, x: i64, z: i64) -> bool {
    v.diagonals().iter().any(|dg| covers(dg, x, z))
}

fn powers(v: &VoronoiDiagram, x: f64, z: f64) -> Vec<F64> {
    let p = m(v.shepard_power()) * 0.5;
    v.squared_distances(d(x), d(z))
        .iter()
        .map(|q| d(m(*q).powf(p)))
        .collect()
}

fn query(v: &VoronoiDiagram, x: f64, z: f64) -> [f32; ZONE_COUNT] {
    v.query(&powers(v, x, z)).map(n)
}

fn frame_at(v: &VoronoiDiagram, x: i64, z: i64) -> Frame {
    frame_of(&v.district_frame_for(d(x as f64), d(z as f64)))
}

/// The sites of a map and the frame of each one's district.
struct Survey {
    sites: Vec<(f64, f64)>,
    frames: Vec<Frame>,
    diagonals: Vec<Diagonal>,
    half_power: f64,
}

fn survey(v: &VoronoiDiagram) -> Survey {
    Survey {
        sites: v.sites().iter().map(|s| (m(s.x), m(s.y))).collect(),
        frames: v
            .sites()
            .iter()
            .map(|s| frame_of(&v.district_frame_for(s.x, s.y)))
            .collect(),
        diagonals: v.diagonals().to_vec(),
        half_power: m(v.shepard_power()) * 0.5,
    }
}

fn measure(s: &Survey, x: i64, z: i64, flow: &dyn Fn(i64, i64) -> bool) -> CellField {
    let (wx, wz) = (x as f64, z as f64);
    let mut best = f64::INFINITY;
    let mut nearest = 0;
    let mut powers = Vec::with_capacity(s.sites.len());
    for (i, site) in s.sites.iter().enumerate() {
        let (dx, dz) = (site.0 - wx, site.1 - wz);
        let d2 = dx * dx + dz * dz;
        if d2 < best {
            best = d2;
            nearest = i;
        }
        powers.push(d(d2.powf(s.half_power)));
    }
    let spot = |sx: i64, sz: i64| {
        let (local_x, local_z) = to_local(&s.frames[nearest], sx, sz);
        Spot {
            local_x,
            local_z,
            diagonal: s.diagonals.iter().any(|dg| covers(dg, sx, sz)),
            flow: flow(sx, sz),
        }
    };
    CellField {
        powers,
        here: spot(x, z),
        east: spot(x + 1, z),
        west: spot(x - 1, z),
        south: spot(x, z + 1),
        north: spot(x, z - 1),
        height_cap: f(f32::INFINITY),
    }
}

fn no_flow(_x: i64, _z: i64) -> bool {
    false
}

fn field(cx: i32, cy: i32, cfg: &WorldConfig, v: &VoronoiDiagram) -> Vec<CellField> {
    let s = survey(v);
    let size = i64::from(cfg.chunk_size);
    let mut out = Vec::new();
    for lz in 0..size {
        for lx in 0..size {
            out.push(measure(
                &s,
                i64::from(cx) * size + lx,
                i64::from(cy) * size + lz,
                &no_flow,
            ));
        }
    }
    out
}

fn make(cx: i32, cy: i32, cfg: &WorldConfig, v: &VoronoiDiagram) -> ChunkBuffer {
    generate_chunk(cx, cy, cfg, v, &field(cx, cy, cfg, v))
}

fn ask(e: &mut WorldEngine, cx: i32, cy: i32) -> ChunkBuffer {
    let fields = if e.holds_chunk(cx, cy) {
        Vec::new()
    } else {
        field(cx, cy, e.config(), e.voronoi())
    };
    e.generate_chunk(cx, cy, &fields)
}

fn fixture() -> (WorldConfig, VoronoiDiagram) {
    let cfg = WorldConfig {
        seed: 1234,
        ..Default::default()
    };
    let voronoi = VoronoiDiagram::generate(cfg.seed, cfg.voronoi_site_count);
    (cfg, voronoi)
}

fn wide() -> (WorldConfig, VoronoiDiagram) {
    let cfg = WorldConfig {
        seed: 445566,
        voronoi_site_count: 24,
        ..Default::default()
    };
    let voronoi = VoronoiDiagram::generate(cfg.seed, cfg.voronoi_site_count);
    (cfg, voronoi)
}

#[test]
fn generates_expected_cell_count_and_headers() {
    let (cfg, voronoi) = fixture();
    let buf = make(0, 0, &cfg, &voronoi);
    let h = buf.header();
    assert_eq!((h.cx, h.cy), (0, 0));
    assert_eq!(h.chunk_size, cfg.chunk_size);
    assert_eq!(
        h.cell_count,
        u32::from(cfg.chunk_size) * u32::from(cfg.chunk_size)
    );
    assert_eq!(h.seed, cfg.seed);
    assert_eq!(buf.as_bytes().len(), 32 + h.cell_count as usize * 40);
}

#[test]
fn chunk_generation_is_deterministic() {
    let (cfg, voronoi) = fixture();
    let a = make(2, -3, &cfg, &voronoi);
    let b = make(2, -3, &cfg, &voronoi);
    assert_eq!(a.as_bytes(), b.as_bytes());
}

#[test]
fn streets_are_zero_height() {
    let (cfg, voronoi) = fixture();
    let buf = make(0, 0, &cfg, &voronoi);
    for cell in buf.cells() {
        if cell.flags.contains(CellFlags::IS_STREET) || cell.flags.contains(CellFlags::IS_SIDEWALK)
        {
            assert_eq!(n(cell.height), 0.0);
        }
    }
}

#[test]
fn built_cells_have_interiors_and_zone_affinity() {
    let (cfg, voronoi) = fixture();
    let buf = make(0, 0, &cfg, &voronoi);
    let mut built = 0;
    for cell in buf.cells() {
        assert!(!cell.zone_affinity.iter().any(|a| n(*a) < 0.0 || n(*a).is_nan()));
        if n(cell.height) > 0.0 {
            built += 1;
            assert_ne!(cell.interior_id, 0);
        }
    }
    let total = buf.cell_count();
    assert!(built > 0 && built < total);
}

#[test]
fn downtown_cells_never_render_zero_room_interiors() {
    let cfg = WorldConfig {
        seed: 1234,
        ..Default::default()
    };
    let voronoi = VoronoiDiagram::generate(cfg.seed, cfg.voronoi_site_count);
    let mut affinity = [f(0.0); ZONE_COUNT];
    affinity[ZoneType::Downtown.index()] = f(1.0);
    let cell = Cell {
        height: f(48.0),
        zone_affinity: affinity,
        palette_id: 2,
        flags: CellFlags::of(CellFlags::NONE),
        _pad: 0,
        interior_id: 1,
    };
    let (lx, lz) = to_local(&frame_at(&voronoi, 10, 10), 10, 10);
    let ctx = interior_context_for(&cfg, lx, lz, 10, 10, &cell);
    assert_eq!(ctx.zone, ZoneType::Downtown);
    let params = cfg.blended_zone_params(&cell.zone_affinity);
    let block = block_loc(lx, lz, params.block_size);
    let (rw, rd) = lot_rect(&block, params.block_size, cfg.seed);
    assert_eq!(
        (ctx.footprint_w, ctx.footprint_d),
        (rw.clamp(3, 64), rd.clamp(3, 64))
    );
    assert_ne!(ctx.secondary_zone, ctx.zone);
    let layout = generate_layout(cell.interior_id, &ctx, &cfg.blueprint_for(ctx.zone));
    assert!(!layout.floors.is_empty());
    for floor in &layout.floors {
        assert!(
            floor.tiles.contains(&Tile::Room),
            "downtown floor has no rooms"
        );
    }
}

#[test]
fn street_flags_match_independent_recomputation() {
    let (cfg, voronoi) = fixture();
    let size = i64::from(cfg.chunk_size);
    for (cx, cy) in [(0, 0), (1, 0), (0, 1), (-1, -1)] {
        let buf = make(cx, cy, &cfg, &voronoi);
        let mut index = 0;
        for local_y in 0..size {
            for local_x in 0..size {
                let wx = i64::from(cx) * size + local_x;
                let wz = i64::from(cy) * size + local_y;
                let cell = buf.get_cell(index);
                let (lx, lz) = to_local(&frame_at(&voronoi, wx, wz), wx, wz);
                let seam = voronoi.is_seam_road(d(wx as f64), d(wz as f64));
                let expected = street_info(
                    lx,
                    lz,
                    &cfg.blended_zone_params(&cell.zone_affinity),
                    on_boulevard(&voronoi, wx, wz),
                    seam,
                    cfg.seed,
                );
                assert_eq!(
                    cell.flags.contains(CellFlags::IS_STREET),
                    expected.street,
                    "street mismatch at world ({wx},{wz})"
                );
                assert_eq!(
                    cell.flags.contains(CellFlags::IS_ARTERIAL),
                    expected.arterial,
                    "arterial mismatch at world ({wx},{wz})"
                );
                assert_eq!(
                    cell.flags.contains(CellFlags::IS_GREENWAY),
                    !expected.street && expected.greenway,
                    "greenway mismatch at world ({wx},{wz})"
                );
                index += 1;
            }
        }
    }
}

#[test]
fn dropout_greenways_and_diagonals_texture_the_city() {
    let (cfg, voronoi) = wide();
    let diags = voronoi.diagonals().to_vec();
    assert_eq!(diags.len(), 2);
    const SPREAD: [i32; 5] = [-60, -20, 0, 20, 60];
    let mut greenway = 0usize;
    for &cx in &SPREAD {
        for &cy in &SPREAD {
            let buf = make(cx, cy, &cfg, &voronoi);
            for cell in buf.cells() {
                if cell.flags.contains(CellFlags::IS_GREENWAY) {
                    greenway += 1;
                    assert_eq!(n(cell.height), 0.0);
                    assert_eq!(cell.interior_id, 0);
                }
            }
        }
    }
    assert!(greenway > 0, "no greenways sampled");
    let size = i64::from(cfg.chunk_size);
    for dg in &diags {
        let nx = -m(dg.angle_rad).sin();
        let nz = m(dg.angle_rad).cos();
        let px = m(dg.offset) * nx;
        let pz = m(dg.offset) * nz;
        let ccx = (px as i64).div_euclid(size) as i32;
        let ccz = (pz as i64).div_euclid(size) as i32;
        let mut diagonal = 0usize;
        for cx in ccx - 1..=ccx + 1 {
            for cy in ccz - 1..=ccz + 1 {
                let buf = make(cx, cy, &cfg, &voronoi);
                let mut index = 0;
                for ly in 0..size {
                    for lx in 0..size {
                        let wx = i64::from(cx) * size + lx;
                        let wz = i64::from(cy) * size + ly;
                        let cell = buf.get_cell(index);
                        index += 1;
                        let (fx, fz) = to_local(&frame_at(&voronoi, wx, wz), wx, wz);
                        let seam = voronoi.is_seam_road(d(wx as f64), d(wz as f64));
                        let info = street_info(
                            fx,
                            fz,
                            &cfg.blended_zone_params(&cell.zone_affinity),
                            on_boulevard(&voronoi, wx, wz),
                            seam,
                            cfg.seed,
                        );
                        if info.diagonal && info.street {
                            diagonal += 1;
                            assert!(cell.flags.contains(CellFlags::IS_ARTERIAL));
                        }
                    }
                }
            }
        }
        assert!(
            diagonal > 0,
            "boulevard at offset {} paves nothing",
            m(dg.offset)
        );
    }
}

#[test]
fn seam_parkways_pave_district_borders() {
    let (cfg, voronoi) = wide();
    let size = i64::from(cfg.chunk_size);
    let sites: Vec<(f64, f64)> = voronoi.sites().iter().map(|s| (m(s.x), m(s.y))).collect();
    let mut checked = 0;
    for (i, a) in sites.iter().enumerate() {
        let mut best = f64::INFINITY;
        let mut nb = 0usize;
        for (j, b) in sites.iter().enumerate() {
            if i == j {
                continue;
            }
            let d2 = (a.0 - b.0).powi(2) + (a.1 - b.1).powi(2);
            if d2 < best {
                best = d2;
                nb = j;
            }
        }
        let gap = best.sqrt();
        if !(500.0..=3000.0).contains(&gap) {
            continue;
        }
        let b = &sites[nb];
        let mx = (a.0 + b.0) / 2.0;
        let mz = (a.1 + b.1) / 2.0;
        let owned_by_third = sites.iter().enumerate().any(|(k, s)| {
            k != i
                && k != nb
                && ((s.0 - mx).powi(2) + (s.1 - mz).powi(2)).sqrt() < gap / 2.0 - 1e-9
        });
        if owned_by_third || !voronoi.is_seam_road(d(mx), d(mz)) {
            continue;
        }
        let ccx = (mx as i64).div_euclid(size) as i32;
        let ccz = (mz as i64).div_euclid(size) as i32;
        let mut seam_cells = 0usize;
        for cx in ccx - 1..=ccx + 1 {
            for cy in ccz - 1..=ccz + 1 {
                let buf = make(cx, cy, &cfg, &voronoi);
                let mut index = 0;
                for ly in 0..size {
                    for lx in 0..size {
                        let wx = i64::from(cx) * size + lx;
                        let wz = i64::from(cy) * size + ly;
                        let cell = buf.get_cell(index);
                        index += 1;
                        if voronoi.is_seam_road(d(wx as f64), d(wz as f64)) {
                            seam_cells += 1;
                            assert!(
                                cell.flags.contains(CellFlags::IS_STREET),
                                "seam tear at world ({wx},{wz})"
                            );
                            assert!(cell.flags.contains(CellFlags::IS_ARTERIAL));
                            assert_eq!(n(cell.height), 0.0);
                        }
                    }
                }
            }
        }
        assert!(seam_cells >= 10, "seam parkway too thin ({seam_cells})");
        checked += 1;
    }
    assert!(checked > 0, "no seam borders sampled");
}

#[test]
fn special_blocks_follow_their_program() {
    let (cfg, voronoi) = wide();
    const SPREAD: [i32; 7] = [-150, -60, -20, 0, 20, 60, 150];
    let mut plaza_blocks: HashSet<(i64, i64)> = HashSet::new();
    let mut market_tall = false;
    let mut towerpark_lots: HashMap<(i64, i64), HashSet<u64>> = HashMap::new();
    for &cx in &SPREAD {
        for &cy in &SPREAD {
            let buf = make(cx, cy, &cfg, &voronoi);
            let size = i64::from(cfg.chunk_size);
            let mut index = 0;
            for ly in 0..size {
                for lx in 0..size {
                    let wx = i64::from(cx) * size + lx;
                    let wz = i64::from(cy) * size + ly;
                    let cell = buf.get_cell(index);
                    index += 1;
                    let (fx, fz) = to_local(&frame_at(&voronoi, wx, wz), wx, wz);
                    let params = cfg.blended_zone_params(&cell.zone_affinity);
                    let block = block_loc(fx, fz, params.block_size);
                    let zone = dominant_zone(&cell.zone_affinity);
                    match special_for(block.bx, block.bz, zone, cfg.seed) {
                        SpecialKind::Plaza => {
                            plaza_blocks.insert((block.bx, block.bz));
                            if !cell.flags.contains(CellFlags::IS_STREET)
                                && !cell.flags.contains(CellFlags::IS_SIDEWALK)
                            {
                                assert_eq!(n(cell.height), 0.0);
                                assert!(cell.flags.contains(CellFlags::IS_PLAZA));
                            }
                        }
                        SpecialKind::Market => {
                            if n(cell.height) > 10.0 {
                                market_tall = true;
                            }
                        }
                        SpecialKind::TowerPark => {
                            if n(cell.height) > 0.0 {
                                towerpark_lots
                                    .entry((block.bx, block.bz))
                                    .or_default()
                                    .insert(cell.interior_id);
                            }
                        }
                        SpecialKind::Ordinary => {}
                    }
                }
            }
        }
    }
    assert!(!plaza_blocks.is_empty(), "no plaza blocks sampled");
    assert!(!market_tall, "market block exceeds shed height");
    assert!(!towerpark_lots.is_empty(), "no tower-park blocks sampled");
    for ((bx, bz), lots) in &towerpark_lots {
        assert_eq!(
            lots.len(),
            1,
            "tower-park block ({bx},{bz}) raises {lots:?}"
        );
    }
}

#[test]
fn lot_mates_share_interior_and_palette() {
    let (cfg, voronoi) = fixture();
    let buf = make(3, -2, &cfg, &voronoi);
    let mut groups: HashMap<u64, (u8, usize)> = HashMap::new();
    for cell in buf.cells() {
        if n(cell.height) <= 0.0 {
            continue;
        }
        let e = groups
            .entry(cell.interior_id)
            .or_insert((cell.palette_id, 0));
        assert_eq!(e.0, cell.palette_id, "lot splits palette");
        e.1 += 1;
    }
    assert!(!groups.is_empty(), "no built lots sampled");
    assert!(
        groups.values().any(|(_, n)| *n > 1),
        "no multi-cell lot found"
    );
}

#[test]
fn sidewalks_ring_the_streets_and_arterials_exist() {
    let (cfg, voronoi) = fixture();
    let mut sidewalk = 0usize;
    let mut arterial = 0usize;
    let mut street = 0usize;
    for (cx, cy) in [(0, 0), (5, -3), (-4, 7)] {
        let buf = make(cx, cy, &cfg, &voronoi);
        for cell in buf.cells() {
            if cell.flags.contains(CellFlags::IS_STREET) {
                street += 1;
            }
            if cell.flags.contains(CellFlags::IS_SIDEWALK) {
                sidewalk += 1;
                assert_eq!(n(cell.height), 0.0);
            }
            if cell.flags.contains(CellFlags::IS_ARTERIAL) {
                arterial += 1;
                assert!(cell.flags.contains(CellFlags::IS_STREET));
            }
        }
    }
    assert!(
        street > 0 && sidewalk > 0,
        "street={street} sidewalk={sidewalk}"
    );
    assert!(arterial > 0, "no arterial avenues generated");
}

const FAR: [i32; 9] = [-300, -150, -60, -20, 0, 20, 60, 150, 300];

#[test]
fn downtown_taller_than_residential_statistically() {
    let (cfg, voronoi) = wide();
    let mut downtown_heights: Vec<f32> = Vec::new();
    let mut residential_heights: Vec<f32> = Vec::new();
    for &cx in &FAR {
        for &cy in &FAR {
            let buf = make(cx, cy, &cfg, &voronoi);
            for cell in buf.cells() {
                if n(cell.height) <= 0.0 {
                    continue;
                }
                if n(cell.zone_affinity[0]) > n(cell.zone_affinity[1]) {
                    downtown_heights.push(n(cell.height));
                } else if n(cell.zone_affinity[1]) > n(cell.zone_affinity[0]) {
                    residential_heights.push(n(cell.height));
                }
            }
        }
    }
    let mean = |v: &[f32]| v.iter().sum::<f32>() / v.len() as f32;
    assert!(
        downtown_heights.len() > 20 && residential_heights.len() > 20,
        "insufficient samples: downtown={} residential={}",
        downtown_heights.len(),
        residential_heights.len()
    );
    let downtown_mean = mean(&downtown_heights);
    let residential_mean = mean(&residential_heights);
    assert!(
        downtown_mean > residential_mean,
        "downtown ({downtown_mean}) not taller than residential ({residential_mean})"
    );
}

#[test]
fn park_dominated_cells_are_flagged() {
    let (cfg, voronoi) = wide();
    let mut park_cells = 0usize;
    let mut flagged = 0usize;
    for &cx in &FAR {
        for &cy in &FAR {
            let buf = make(cx, cy, &cfg, &voronoi);
            let size = i64::from(cfg.chunk_size);
            let mut index = 0;
            for ly in 0..size {
                for lx in 0..size {
                    let wx = i64::from(cx) * size + lx;
                    let wz = i64::from(cy) * size + ly;
                    let cell = buf.get_cell(index);
                    index += 1;
                    let zone = dominant_zone(&cell.zone_affinity);
                    let paved = cell.flags.contains(CellFlags::IS_STREET)
                        || cell.flags.contains(CellFlags::IS_SIDEWALK);
                    let has_flag = cell.flags.contains(CellFlags::IS_PARK);
                    assert!(!paved || !has_flag, "paved cell flagged as park");
                    if zone == ZoneType::Park {
                        park_cells += 1;
                        let green_any = has_flag || cell.flags.contains(CellFlags::IS_GREENWAY);
                        assert_eq!(green_any, !paved, "park flag wrong at paved={paved}");
                        if green_any {
                            flagged += 1;
                        }
                    } else if zone == ZoneType::Residential {
                        if has_flag {
                            assert!(!paved);
                            flagged += 1;
                        }
                    } else if has_flag {
                        assert!(!paved);
                        let (fx, fz) = to_local(&frame_at(&voronoi, wx, wz), wx, wz);
                        let params = cfg.blended_zone_params(&cell.zone_affinity);
                        let block = block_loc(fx, fz, params.block_size);
                        assert_eq!(
                            special_for(block.bx, block.bz, zone, cfg.seed),
                            SpecialKind::TowerPark,
                            "IS_PARK on {zone:?}-dominant cell outside tower-park"
                        );
                        let slot = lot_slot(&block, params.block_size, cfg.seed);
                        assert_ne!(slot.slot, slot.count / 2, "tower lot flagged park");
                        flagged += 1;
                    }
                }
            }
        }
    }
    assert!(park_cells > 0, "no park-dominant cells sampled");
    assert!(flagged > 0, "no IS_PARK flag was ever set");
}

#[test]
fn flow_avenues_add_to_the_network() {
    let (cfg, voronoi) = fixture();
    let avenue = |x: i64, z: i64| (x + 2 * z).rem_euclid(37) == 0;
    let map = survey(&voronoi);
    let mut upgraded = 0;
    let mut ringed = 0;
    for z in 0..24i64 {
        for x in 0..24i64 {
            let plain = compose_cell(&cfg, &voronoi, x, z, &measure(&map, x, z, &no_flow));
            let with = measure(&map, x, z, &avenue);
            let cell = compose_cell(&cfg, &voronoi, x, z, &with);
            if plain.flags.contains(CellFlags::IS_STREET) {
                assert!(cell.flags.contains(CellFlags::IS_STREET));
            }
            if avenue(x, z) {
                assert!(cell.flags.contains(CellFlags::IS_STREET));
                assert!(cell.flags.contains(CellFlags::IS_ARTERIAL));
                assert_eq!(n(cell.height), 0.0);
                assert_eq!(cell.interior_id, 0);
                upgraded += usize::from(!plain.flags.contains(CellFlags::IS_ARTERIAL));
            } else if !cell.flags.contains(CellFlags::IS_STREET)
                && !cell.flags.contains(CellFlags::IS_GREENWAY)
            {
                let params = cfg.blended_zone_params(&cell.zone_affinity);
                let abuts = abuts_street(x, z, &params, &with, &voronoi, cfg.seed);
                assert_eq!(abuts, cell.flags.contains(CellFlags::IS_SIDEWALK));
                ringed += usize::from(abuts && !plain.flags.contains(CellFlags::IS_SIDEWALK));
            }
        }
    }
    assert!(upgraded > 0, "no cell became an avenue");
    assert!(ringed > 0, "no pavement follows a flow avenue");
}

#[test]
fn chunk_edges_agree() {
    let (cfg, voronoi) = fixture();
    let small = WorldConfig {
        chunk_size: 8,
        ..cfg
    };
    let whole = make(0, 0, &WorldConfig { chunk_size: 16, ..cfg }, &voronoi);
    let quarter = make(1, 1, &small, &voronoi);
    for z in 0..8usize {
        for x in 0..8usize {
            assert_eq!(
                whole.get_cell((z + 8) * 16 + x + 8),
                quarter.get_cell(z * 8 + x)
            );
        }
    }
}

#[test]
fn new_engine_has_default_config() {
    let engine = WorldEngine::new(42);
    assert_eq!(engine.config().seed, 42);
    assert_eq!(engine.config().chunk_size, 32);
    assert_eq!(engine.config().draw_distance, 8);
    assert_eq!(engine.generated_count(), 0);
    assert!(engine.cache_len() == 0);
}

#[test]
fn generate_chunk_populates_cache_and_is_deterministic() {
    let mut engine = WorldEngine::new(445566);
    let a = ask(&mut engine, 0, 0);
    let b = ask(&mut engine, 0, 0);
    assert_eq!(a.as_bytes(), b.as_bytes());
    assert_eq!(engine.generated_count(), 1);
    assert_eq!(engine.cache_len(), 1);
    assert_eq!(engine.cache_memory_bytes(), a.as_bytes().len());
}

#[test]
fn cached_chunk_is_not_recomputed() {
    let mut engine = WorldEngine::new(1234);
    let _ = ask(&mut engine, 3, 7);
    assert_eq!(engine.generated_count(), 1);
    let _ = ask(&mut engine, 3, 7);
    assert_eq!(engine.generated_count(), 1);
    let _ = ask(&mut engine, 4, 7);
    assert_eq!(engine.generated_count(), 2);
}

#[test]
fn evict_distant_chunks_removes_far_entries() {
    let mut engine = WorldEngine::new(99);
    let _ = ask(&mut engine, 0, 0);
    let _ = ask(&mut engine, 1, 0);
    let _ = ask(&mut engine, 0, 1);
    assert_eq!(engine.cache_len(), 3);
    engine.set_center(100, 100);
    let _ = ask(&mut engine, 100, 100);
    assert_eq!(engine.cache_len(), 1);
}

#[test]
fn draw_distance_controls_eviction() {
    let mut engine = WorldEngine::new(99);
    let _ = ask(&mut engine, 5, 5);
    engine.set_draw_distance(4);
    engine.evict_distant_chunks();
    assert_eq!(engine.cache_len(), 0);
    engine.set_draw_distance(6);
    let _ = ask(&mut engine, 5, 5);
    assert_eq!(engine.cache_len(), 1);
    engine.evict_distant_chunks();
    assert_eq!(engine.cache_len(), 1);
}

#[test]
fn bounded_memory_over_simulated_walk() {
    let mut engine = WorldEngine::new(42);
    let dd = engine.config().draw_distance;
    let max_capacity = (2 * dd + 1) * (2 * dd + 1) + 1;
    for step in 0u32..1000 {
        let cx = step as i32;
        engine.set_center(cx, 0);
        let _ = ask(&mut engine, cx, 0);
        assert!(
            engine.cache_len() as u32 <= max_capacity,
            "step {step}: cache_len={} exceeds {max_capacity}",
            engine.cache_len()
        );
    }
    assert!(
        engine.cache_len() as u32 <= max_capacity,
        "final cache_len={} exceeds {max_capacity}",
        engine.cache_len()
    );
}

#[test]
fn get_zone_affinity_returns_valid_weights() {
    let engine = WorldEngine::new(445566);
    let affinity = engine
        .get_zone_affinity(&powers(engine.voronoi(), 100.0, 200.0))
        .map(n);
    assert_eq!(affinity.len(), ZONE_COUNT);
    let sum: f32 = affinity.iter().sum();
    assert!((sum - 1.0).abs() < 1e-6, "affinity sum={sum}");
    assert!(affinity.iter().all(|w| *w >= 0.0));
}

#[test]
fn engine_with_custom_config() {
    let cfg = WorldConfig {
        seed: 7,
        draw_distance: 3,
        chunk_size: 16,
        ..Default::default()
    };
    let mut engine = WorldEngine::with_config(cfg);
    assert_eq!(engine.config().draw_distance, 3);
    assert_eq!(engine.config().chunk_size, 16);
    let _ = ask(&mut engine, 0, 0);
    engine.set_center(10, 10);
    let _ = ask(&mut engine, 10, 10);
    assert_eq!(engine.cache_len(), 1);
}

#[test]
fn set_chunk_size_applies_to_later_generation() {
    let mut engine = WorldEngine::new(7);
    let _ = ask(&mut engine, 0, 0);
    assert_eq!(engine.config().chunk_size, 32);
    engine.set_chunk_size(64);
    assert_eq!(engine.config().chunk_size, 64);
    let chunk = ask(&mut engine, 0, 0);
    assert_eq!(chunk.header().chunk_size, 64);
    assert_eq!(chunk.cell_count(), 64 * 64);
}

#[test]
fn set_chunk_size_clears_cached_chunks() {
    let mut engine = WorldEngine::new(7);
    let _ = ask(&mut engine, 1, 2);
    assert_eq!(engine.cache_len(), 1);
    engine.set_chunk_size(16);
    assert_eq!(engine.cache_len(), 0);
    let chunk = ask(&mut engine, 1, 2);
    assert_eq!(chunk.header().chunk_size, 16);
    assert_eq!(engine.cache_len(), 1);
}

#[test]
fn set_config_starts_over() {
    let mut engine = WorldEngine::new(7);
    let _ = ask(&mut engine, 0, 0);
    engine.set_config(WorldConfig {
        seed: 8,
        chunk_size: 4,
        draw_distance: 2,
        ..Default::default()
    });
    assert_eq!(engine.cache_len(), 0);
    assert_eq!(engine.generated_count(), 1);
    let chunk = ask(&mut engine, 3, 3);
    assert_eq!(chunk.header().seed, 8);
    assert_eq!(engine.cache_len(), 0);
    assert_eq!(
        engine.voronoi().sites(),
        VoronoiDiagram::generate(8, 32).sites()
    );
}

#[test]
fn generate_and_free_round_trips() {
    let mut handle = urbix_engine_create(445566);
    let data = chunk_of(&mut handle, 1, 2);
    assert!(!data.is_empty());
    let len = data.len();
    let header = ChunkBuffer::from_raw_bytes(data).header();
    assert_eq!(header.cx, 1);
    assert_eq!(header.cy, 2);
    assert_eq!(header.chunk_size, 32);
    assert_eq!(header.cell_count, 32 * 32);
    assert_eq!(len, 32 + header.cell_count as usize * 40);
    urbix_engine_destroy(&mut handle);
}

#[test]
fn ffi_chunk_round_trip_and_layout() {
    let mut handle = urbix_engine_create(445566);
    let raw = chunk_of(&mut handle, 1, 2);
    assert!(raw.len() >= 32, "buffer shorter than a header");
    let word = |at: usize| i32::from_le_bytes(raw[at..at + 4].try_into().unwrap());
    assert_eq!((word(0), word(4)), (1, 2));
    assert_eq!(word(8), 32 * 32);
    let expected = 32 + word(8) as usize * 40;
    assert_eq!(raw.len(), expected, "on-wire length mismatch");
    urbix_engine_destroy(&mut handle);
}

#[test]
fn buffers_carry_their_length() {
    let mut engine = WorldEngine::new(445566);
    let chunk = ask(&mut engine, 1, 2);
    let bytes = chunk.as_bytes().to_vec();
    let buf = chunk_out(chunk);
    assert_eq!(buf.len, 32 + 32 * 32 * 40);
    assert_eq!(buf.data, bytes);
}

fn interior_at(engine: &mut WorldEngine, wx: i32, wz: i32) -> urbix::ffi::UrbixInterior {
    let (cx, cy, index) = cell_address(wx, wz, engine.config().chunk_size);
    let chunk = ask(engine, cx, cy);
    let cell = chunk.get_cell(index);
    let (x, z) = (i64::from(wx), i64::from(wz));
    let (lx, lz) = to_local(&frame_at(engine.voronoi(), x, z), x, z);
    interior_out(engine.config(), lx, lz, x, z, &cell)
}

fn handed_interior(handle: &mut UrbixEngine, wx: i32, wz: i32) -> urbix::ffi::UrbixInterior {
    let e = handle.world().unwrap();
    let (x, z) = (i64::from(wx), i64::from(wz));
    let (cx, cy, _) = cell_address(wx, wz, e.config().chunk_size);
    let (lx, lz) = to_local(&frame_at(e.voronoi(), x, z), x, z);
    let fields = if e.holds_chunk(cx, cy) {
        Vec::new()
    } else {
        field(cx, cy, e.config(), e.voronoi())
    };
    urbix_generate_interior(handle, wx, wz, lx, lz, &fields)
}

#[test]
fn interior_round_trips_and_is_deterministic() {
    let mut handle = urbix_engine_create(445566);
    let chunk = ChunkBuffer::from_raw_bytes(chunk_of(&mut handle, 0, 0));
    let mut built = None;
    for (i, cell) in chunk.cells().iter().enumerate() {
        if n(cell.height) > 0.0 && built.is_none() {
            built = Some(((i % 32) as i32, (i / 32) as i32));
        }
    }
    let (wx, wz) = built.expect("seed 445566 has a built cell near (0,0)");
    let i1 = handed_interior(&mut handle, wx, wz);
    assert!(!i1.data.is_empty());
    assert!(i1.door_side <= 3, "door_side is a valid DoorSide");
    assert!(i1.floor_count >= 1);
    assert!(i1.footprint_w >= 3 && i1.footprint_d >= 3);
    let expected =
        u64::from(i1.floor_count) * 2 * u64::from(i1.footprint_w) * u64::from(i1.footprint_d);
    assert_eq!(i1.len, expected);
    assert_eq!(i1.data.len() as u64, expected);
    let grid = usize::from(i1.footprint_w) * usize::from(i1.footprint_d);
    let tiles = &i1.data[..grid];
    assert!(tiles.iter().all(|&b| b <= 5), "tile bytes within enum range");
    assert!(tiles.contains(&1), "has exterior walls");
    assert!(tiles.contains(&3), "has circulation core");
    let i2 = handed_interior(&mut handle, wx, wz);
    assert_eq!(i2.interior_id, i1.interior_id);
    assert_eq!(i2.seed, i1.seed);
    assert_eq!(i2.len, i1.len);
    assert_eq!(i2.data, i1.data);
    urbix_engine_destroy(&mut handle);
}

#[test]
fn wide_lots_have_a_core() {
    let mut engine = WorldEngine::new(445566);
    let homes: Vec<(i32, i32)> = engine
        .voronoi()
        .sites()
        .iter()
        .filter(|s| s.zone == ZoneType::Residential)
        .map(|s| ((m(s.x) as i32).div_euclid(32), (m(s.y) as i32).div_euclid(32)))
        .collect();
    let mut found = 0;
    for (cx, cy) in homes {
        engine.set_center(cx, cy);
        let chunk = ask(&mut engine, cx, cy);
        let mut seen = HashSet::new();
        for (i, cell) in chunk.cells().iter().enumerate() {
            if n(cell.height) <= 0.0 || found > 2 || !seen.insert(cell.interior_id) {
                continue;
            }
            let (wx, wz) = (cx * 32 + (i % 32) as i32, cy * 32 + (i / 32) as i32);
            let one = interior_at(&mut engine, wx, wz);
            assert!(
                one.footprint_w >= 7 && one.footprint_d >= 7,
                "residential blocks are one lot each"
            );
            found += 1;
            let grid = usize::from(one.footprint_w) * usize::from(one.footprint_d);
            let tiles = &one.data[..grid];
            assert!(tiles.contains(&1), "has exterior walls");
            assert!(tiles.contains(&3), "has circulation core");
            assert_eq!(one, interior_at(&mut engine, wx, wz));
        }
    }
    assert!(found > 0, "no wide lot sampled");
}

#[test]
fn surveyed_cells_match_the_map() {
    let v = VoronoiDiagram::generate(42, 32);
    let s = survey(&v);
    for (x, z) in [(0, 0), (-4000, 812), (9999, -7), (31, 5200)] {
        let cell = measure(&s, x, z, &no_flow);
        assert_eq!(cell.powers, powers(&v, x as f64, z as f64));
        let (lx, lz) = to_local(&frame_at(&v, x, z), x, z);
        assert_eq!((cell.here.local_x, cell.here.local_z), (lx, lz));
        assert_eq!(cell.here.diagonal, on_boulevard(&v, x, z));
    }
}

#[test]
fn interior_negative_world_coords_round_trip() {
    let mut engine = WorldEngine::new(445566);
    let a = interior_at(&mut engine, -3, -7);
    let b = interior_at(&mut engine, -3, -7);
    assert_eq!(a.interior_id, b.interior_id);
    assert_eq!(a.len, b.len);
    assert_eq!(a.data, b.data);
}

#[test]
fn unbuilt_cell_yields_empty_interior() {
    let mut engine = WorldEngine::new(7);
    let chunk = ask(&mut engine, 0, 0);
    let i = chunk
        .cells()
        .iter()
        .position(|c| n(c.height) == 0.0)
        .expect("every chunk has street cells");
    let interior = interior_at(&mut engine, (i % 32) as i32, (i / 32) as i32);
    assert!(interior.data.is_empty());
    assert_eq!(interior.len, 0);
    assert_eq!(interior.floor_count, 0);
    assert_eq!(interior, empty_interior());
}

#[test]
fn zone_query_and_setters_work() {
    let mut handle = urbix_engine_create(7);
    let p = powers(handle.world().unwrap().voronoi(), 3.0, 4.0);
    let sum: f32 = urbix_get_zone(&handle, &p).weights.map(n).iter().sum();
    assert!((sum - 1.0).abs() < 1e-6, "affinity sum={sum}");
    urbix_set_draw_distance(&mut handle, 4);
    urbix_set_chunk_size(&mut handle, 16);
    let header = ChunkBuffer::from_raw_bytes(chunk_of(&mut handle, 0, 0)).header();
    assert_eq!(header.chunk_size, 16);
    assert_eq!(header.cell_count, 16 * 16);
    urbix_engine_destroy(&mut handle);
}

#[test]
fn addresses_cover_negative_space() {
    assert_eq!(cell_address(0, 0, 32), (0, 0, 0));
    assert_eq!(cell_address(33, 64, 32), (1, 2, 1));
    assert_eq!(cell_address(-1, -1, 32), (-1, -1, 32 * 32 - 1));
    assert_eq!(cell_address(i32::MIN, i32::MAX, 1), (i32::MIN, i32::MAX, 0));
}

#[test]
fn payload_lists_tiles_and_then_kinds() {
    let (cfg, _) = fixture();
    let mut affinity = [f(0.0); ZONE_COUNT];
    affinity[1] = f(1.0);
    let cell = Cell {
        height: f(9.0),
        zone_affinity: affinity,
        palette_id: 0,
        flags: CellFlags::of(0),
        _pad: 0,
        interior_id: 5,
    };
    let ctx = interior_context_for(&cfg, 3, 3, 3, 3, &cell);
    let layout = generate_layout(5, &ctx, &cfg.blueprint_for(ctx.zone));
    let bytes = interior_payload(&layout);
    let grid = usize::from(ctx.footprint_w) * usize::from(ctx.footprint_d);
    assert_eq!(bytes.len(), layout.floors.len() * 2 * grid);
    for (k, floor) in layout.floors.iter().enumerate() {
        let at = k * 2 * grid;
        for i in 0..grid {
            assert_eq!(bytes[at + i], floor.tiles[i].code());
            assert_eq!(bytes[at + grid + i], floor.kinds[i]);
        }
    }
}

#[test]
fn region_generation_is_deterministic() {
    assert_eq!(
        VoronoiDiagram::generate(7, 32),
        VoronoiDiagram::generate(7, 32)
    );
    assert_eq!(
        VoronoiDiagram::generate(u64::MAX, 24),
        VoronoiDiagram::generate(u64::MAX, 24)
    );
}

#[test]
fn generation_differs_across_seeds() {
    assert_ne!(
        VoronoiDiagram::generate(1, 32),
        VoronoiDiagram::generate(2, 32)
    );
    assert_ne!(
        VoronoiDiagram::generate(7, 32),
        VoronoiDiagram::generate(8, 24)
    );
}

#[test]
fn site_count_is_respected() {
    assert_eq!(VoronoiDiagram::generate(5, 24).sites().len(), 24);
    assert_eq!(VoronoiDiagram::generate(5, 48).sites().len(), 48);
}

#[test]
fn sites_lie_within_span() {
    const SPAN: f64 = 10_000.0;
    for site in VoronoiDiagram::generate(12345, 48).sites() {
        assert!(m(site.x).abs() <= SPAN + 1e-6);
        assert!(m(site.y).abs() <= SPAN + 1e-6);
    }
}

#[test]
fn query_is_deterministic() {
    let v = VoronoiDiagram::generate(99, 32);
    let a = query(&v, 123.0, -456.0);
    let b = query(&v, 123.0, -456.0);
    assert_eq!(a, b);
}

#[test]
fn cbd_anchor_forces_downtown_near_origin() {
    for seed in [1u64, 7, 42, 445566] {
        let v = VoronoiDiagram::generate(seed, 32);
        let mut best_idx = 0usize;
        let mut best_d2 = f64::INFINITY;
        for (i, s) in v.sites().iter().enumerate() {
            let d2 = m(s.x) * m(s.x) + m(s.y) * m(s.y);
            if d2 < best_d2 {
                best_d2 = d2;
                best_idx = i;
            }
        }
        assert_eq!(v.sites()[best_idx].zone, ZoneType::Downtown);
    }
}

#[test]
fn industrial_never_abuts_residential() {
    for seed in [1u64, 7, 42, 99] {
        let v = VoronoiDiagram::generate(seed, 48);
        let sites = v.sites();
        for (i, s) in sites.iter().enumerate() {
            if s.zone != ZoneType::Industrial {
                continue;
            }
            let mut best = f64::INFINITY;
            let mut neighbour = ZoneType::Industrial;
            for (j, o) in sites.iter().enumerate() {
                if i == j {
                    continue;
                }
                let d2 = (m(o.x) - m(s.x)).powi(2) + (m(o.y) - m(s.y)).powi(2);
                if d2 < best {
                    best = d2;
                    neighbour = o.zone;
                }
            }
            assert_ne!(neighbour, ZoneType::Residential, "seed {seed} site {i}");
        }
    }
}

#[test]
fn district_frame_is_deterministic_and_quantized() {
    let v = VoronoiDiagram::generate(42, 32);
    let a = v.district_frame_for(d(100.0), d(200.0));
    assert_eq!(a, v.district_frame_for(d(100.0), d(200.0)));
    let deg = m(a.angle_rad) * 180.0 / std::f64::consts::PI;
    assert!(
        [0.0, 10.0, -10.0, 18.0, -18.0, 27.0, -27.0]
            .iter()
            .any(|v| (v - deg).abs() < 1e-9),
        "angle {deg} not quantized"
    );
    assert!((0.5..=1.5).contains(&m(a.warp_amp)));
    assert!((40.0..=80.0).contains(&m(a.warp_len)));
    assert!((0.3..=1.0).contains(&m(a.warp_amp2)));
    assert!((12.0..=30.0).contains(&m(a.warp_len2)));
}

#[test]
fn diagonals_are_deterministic_distinct_and_global() {
    let v = VoronoiDiagram::generate(42, 32);
    let ds = v.diagonals();
    assert_eq!(ds.len(), 2);
    assert_eq!(ds, VoronoiDiagram::generate(42, 32).diagonals());
    let sep = ((m(ds[0].angle_rad) - m(ds[1].angle_rad)).abs() * 180.0 / std::f64::consts::PI)
        % 180.0;
    assert!((sep - 90.0).abs() < 1e-6, "separation {sep}");
    for diag in ds {
        let (angle, offset) = (m(diag.angle_rad), m(diag.offset));
        let mut covered = 0;
        for t in (-5000..5000).step_by(7) {
            let nx = -angle.sin();
            let nz = angle.cos();
            let wx = (offset * nx + t as f64 * angle.cos()) as i64;
            let wz = (offset * nz + t as f64 * angle.sin()) as i64;
            if covers(diag, wx, wz) {
                covered += 1;
            }
        }
        assert!(covered > 100, "boulevard covers nothing");
    }
}

#[test]
fn seam_road_hugs_bisectors_not_site_cores() {
    let v = VoronoiDiagram::generate(42, 32);
    let sites: Vec<(f64, f64)> = v.sites().iter().map(|s| (m(s.x), m(s.y))).collect();
    let mut found = 0;
    for (i, a) in sites.iter().enumerate() {
        let mut best = f64::INFINITY;
        let mut nb = 0usize;
        for (j, b) in sites.iter().enumerate() {
            if i == j {
                continue;
            }
            let d2 = (a.0 - b.0).powi(2) + (a.1 - b.1).powi(2);
            if d2 < best {
                best = d2;
                nb = j;
            }
        }
        if best.sqrt() > 3000.0 {
            continue;
        }
        let b = &sites[nb];
        let mx = (a.0 + b.0) / 2.0;
        let mz = (a.1 + b.1) / 2.0;
        let mid_to_a = (best / 4.0).sqrt();
        let owned_by_third = sites.iter().enumerate().any(|(k, s)| {
            k != i
                && k != nb
                && ((s.0 - mx).powi(2) + (s.1 - mz).powi(2)).sqrt() < mid_to_a - 1e-9
        });
        if owned_by_third {
            continue;
        }
        assert!(
            v.is_seam_road(d(mx), d(mz)),
            "midpoint of close pair is not a seam road"
        );
        found += 1;
    }
    assert!(found > 0, "no close site pairs sampled");
    for s in &sites {
        assert!(!v.is_seam_road(d(s.0), d(s.1)), "site core flagged as seam");
    }
}

#[test]
fn seam_queries_are_deterministic() {
    let v = VoronoiDiagram::generate(7, 32);
    assert_eq!(
        v.seam_distance(d(123.0), d(-456.0)),
        v.seam_distance(d(123.0), d(-456.0))
    );
    assert_eq!(
        v.is_seam_road(d(123.0), d(-456.0)),
        v.is_seam_road(d(123.0), d(-456.0))
    );
}

#[test]
fn cbd_factor_peaks_downtown_and_fades() {
    let v = VoronoiDiagram::generate(7, 32);
    let downtown = v
        .sites()
        .iter()
        .find(|s| s.zone == ZoneType::Downtown)
        .copied()
        .expect("CBD anchor guarantees a downtown site");
    let peak = n(v.cbd_factor(downtown.x, downtown.y));
    assert!((peak - 1.5).abs() < 1e-6, "peak {peak}");
    let far = n(v.cbd_factor(d(m(downtown.x) + 20_000.0), downtown.y));
    assert!((1.0..1.05).contains(&far), "far {far}");
}

#[test]
fn affinity_at_site_is_near_one_for_its_zone() {
    for seed in [1u64, 7, 42] {
        let v = VoronoiDiagram::generate(seed, 32);
        for site in v.sites() {
            let aff = query(&v, m(site.x), m(site.y));
            assert!(
                aff[site.zone.index()] > 0.99,
                "seed {seed} zone {:?}",
                site.zone
            );
        }
    }
}

#[test]
fn affinity_sums_to_one() {
    let v = VoronoiDiagram::generate(445566, 32);
    for xi in -50..50 {
        for yi in -50..50 {
            let aff = query(&v, xi as f64 * 400.0, yi as f64 * 400.0);
            let sum: f32 = aff.iter().sum();
            assert!(
                (sum - 1.0).abs() < 1e-5,
                "affinity does not sum to 1 at ({xi},{yi}): {aff:?}"
            );
        }
    }
}

#[test]
fn query_is_continuous() {
    let v = VoronoiDiagram::generate(314159, 32);
    let step = 0.01;
    for xi in -20..20 {
        for yi in -20..20 {
            let wx = xi as f64 * 500.0;
            let wz = yi as f64 * 500.0;
            let a = query(&v, wx, wz);
            let b = query(&v, wx + step, wz + step);
            for k in 0..ZONE_COUNT {
                assert!(
                    (a[k] - b[k]).abs() < 0.001,
                    "large affinity jump at ({wx},{wz}), zone {k}: {a:?} vs {b:?}"
                );
            }
        }
    }
}

#[test]
fn query_is_continuous_across_site_bisectors() {
    for seed in [1u64, 7, 42, 99, 314159] {
        let v = VoronoiDiagram::generate(seed, 48);
        let sites: Vec<(f64, f64)> = v.sites().iter().map(|s| (m(s.x), m(s.y))).collect();
        let step = 0.001;
        for i in 0..sites.len() {
            for j in 0..sites.len() {
                if i == j {
                    continue;
                }
                let a = &sites[i];
                let b = &sites[j];
                let dx = b.0 - a.0;
                let dy = b.1 - a.1;
                let dist = (dx * dx + dy * dy).sqrt();
                if dist > 3000.0 {
                    continue;
                }
                let mx = (a.0 + b.0) / 2.0;
                let my = (a.1 + b.1) / 2.0;
                for k in 0..200 {
                    let t = (k as f64) / 200.0 - 0.5;
                    let px = mx + t * dx * 0.5;
                    let py = my + t * dy * 0.5;
                    let q1 = query(&v, px, py);
                    let q2 = query(&v, px + step, py + step);
                    for z in 0..ZONE_COUNT {
                        assert!(
                            (q1[z] - q2[z]).abs() < 0.001,
                            "jump seed {seed} zone {z} at ({px},{py}): {q1:?} -> {q2:?}"
                        );
                    }
                }
            }
        }
    }
}

#[test]
fn field_formulas_match_the_hardware() {
    let v = VoronoiDiagram::generate(42, 32);
    for (x, z) in [(0.0, 0.0), (812.0, -4431.0), (-9000.0, 77.0)] {
        let mut best = f64::INFINITY;
        let mut weighted = [0.0f64; ZONE_COUNT];
        for s in v.sites() {
            let (dx, dy) = (m(s.x) - x, m(s.y) - z);
            let d2 = dx * dx + dy * dy;
            if s.zone == ZoneType::Downtown && d2 < best {
                best = d2;
            }
            weighted[s.zone.index()] += 1.0 / (d2.powf(2.0) + 1e-8);
        }
        let r = best.sqrt() / 1500.0;
        assert_eq!(n(v.cbd_factor(d(x), d(z))), (1.0 + 0.5 / (1.0 + r * r)) as f32);
        let total: f64 = weighted.iter().sum();
        let inv = 1.0 / total;
        let want: Vec<f32> = weighted.iter().map(|w| (w * inv) as f32).collect();
        assert_eq!(query(&v, x, z).to_vec(), want);
    }
}

fn chunk_of(handle: &mut UrbixEngine, cx: i32, cy: i32) -> Vec<u8> {
    let fields = match handle.world() {
        Some(e) if !e.holds_chunk(cx, cy) => field(cx, cy, e.config(), e.voronoi()),
        _ => Vec::new(),
    };
    let out = urbix_generate_chunk(handle, cx, cy, &fields);
    assert_eq!(out.len, out.data.len() as u64);
    out.data
}

#[test]
fn create_destroy_null_safe() {
    let mut handle = urbix_engine_create(445566);
    assert!(handle.world().is_some());
    urbix_engine_destroy(&mut handle);
    assert!(handle.world().is_none());
    urbix_engine_destroy(&mut handle);
    urbix_set_draw_distance(&mut handle, 3);
    urbix_set_chunk_size(&mut handle, 3);
    urbix_set_config(&mut handle, Some(&WorldConfig::default()));
    assert!(handle.world().is_none());
    assert!(chunk_of(&mut handle, 0, 0).is_empty());
    assert_eq!(urbix_get_zone(&handle, &Vec::new()).weights, [f(0.0); ZONE_COUNT]);
}

#[test]
fn set_chunk_size_zero_is_noop_not_panic() {
    let mut handle = urbix_engine_create(42);
    urbix_set_chunk_size(&mut handle, 0);
    let chunk = ChunkBuffer::from_raw_bytes(chunk_of(&mut handle, 0, 0));
    assert_eq!(chunk.header().chunk_size, 32);
    urbix_set_chunk_size(&mut handle, 8);
    let chunk = ChunkBuffer::from_raw_bytes(chunk_of(&mut handle, 0, 0));
    assert_eq!(chunk.header().chunk_size, 8);
}

#[test]
fn interior_null_engine_safe() {
    let interior = urbix_generate_interior(&mut UrbixEngine::none(), 0, 0, 0, 0, &Vec::new());
    assert_eq!(interior, empty_interior());
}

#[test]
fn handles_take_valid_configurations_only() {
    let bad = WorldConfig {
        chunk_size: 0,
        ..Default::default()
    };
    let good = WorldConfig {
        seed: 5,
        chunk_size: 4,
        ..Default::default()
    };
    assert!(urbix_engine_create_with_config(None).world().is_none());
    assert!(urbix_engine_create_with_config(Some(&bad)).world().is_none());
    let mut handle = urbix_engine_create_with_config(Some(&good));
    let bytes = chunk_of(&mut handle, 2, -1);
    urbix_set_config(&mut handle, Some(&bad));
    urbix_set_config(&mut handle, None);
    assert_eq!(handle.world().unwrap().cache_len(), 1);
    assert_eq!(chunk_of(&mut handle, 2, -1), bytes);
    urbix_set_config(&mut handle, Some(&WorldConfig { seed: 6, ..good }));
    assert_eq!(handle.world().unwrap().cache_len(), 0);
    assert_ne!(chunk_of(&mut handle, 2, -1), bytes);
    urbix_set_draw_distance(&mut handle, 0);
    let mut engine = WorldEngine::with_config(good);
    assert_eq!(ask(&mut engine, 2, -1).as_bytes(), &bytes[..]);
}

#[test]
fn handles_agree_with_the_engine() {
    let mut handle = urbix_engine_create(445566);
    let mut engine = WorldEngine::new(445566);
    for (wx, wz) in [(3, 5), (-3, -7), (17, 40)] {
        let (x, z) = (i64::from(wx), i64::from(wz));
        let (cx, cy, _) = cell_address(wx, wz, 32);
        let (lx, lz) = to_local(&frame_at(engine.voronoi(), x, z), x, z);
        let fields = field(cx, cy, engine.config(), engine.voronoi());
        assert_eq!(
            urbix_generate_interior(&mut handle, wx, wz, lx, lz, &fields),
            interior_at(&mut engine, wx, wz)
        );
    }
    let p = powers(engine.voronoi(), 100.0, 200.0);
    assert_eq!(urbix_get_zone(&handle, &p).weights, engine.get_zone_affinity(&p));
}

#[test]
fn dropped_chunks_come_back_the_same() {
    let mut engine = WorldEngine::new(31);
    let first = ask(&mut engine, 0, 0);
    engine.set_center(50, 0);
    let _ = ask(&mut engine, 50, 0);
    assert!(!engine.holds_chunk(0, 0));
    let again = ask(&mut engine, 0, 0);
    assert_eq!(first.as_bytes(), again.as_bytes());
    assert_eq!(engine.generated_count(), 3);
}
