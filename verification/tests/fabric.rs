use urbix::building::assign_building;
use urbix::chunk::{
    dominant_zone, door_side_for, interior_id_for_lot, is_intersection, is_landmark, market_shed,
    secondary_zone, special_for, SpecialKind,
};
use urbix::config::WorldConfig;
use urbix::data::CellFlags;
use urbix::hash::{domain, hash_unit};
use urbix::layout::DoorSide;
use urbix::lot::{block_loc, block_noise, floor_division, lot_rect, lot_slot, DistrictFrame};
use urbix::single::F32;
use urbix::street::{layout_block, street_info};
use urbix::zones::{ZoneParams, ZoneType};

fn f(x: f32) -> F32 {
    F32::from_bits(x.to_bits())
}

fn n(x: F32) -> f32 {
    f32::from_bits(x.bits)
}

fn zone_defaults(zone: ZoneType) -> ZoneParams {
    WorldConfig::default().zone_params_for(zone)
}

fn rotate(angle: f64, x: i64, z: i64) -> (i64, i64) {
    let (s, c) = angle.sin_cos();
    let (x, z) = (x as f64, z as f64);
    ((c * x + s * z).round() as i64, (-s * x + c * z).round() as i64)
}

fn covers(angle: f64, offset: f64, half_width: f64, x: i64, z: i64) -> bool {
    let (s, c) = angle.sin_cos();
    (-s * x as f64 + c * z as f64 - offset).abs() <= half_width
}

#[test]
fn identity_frame_preserves_grid() {
    let loc = block_loc(11, 3, 8);
    assert_eq!((loc.bx, loc.rx), (1, 3));
    assert_eq!((loc.bz, loc.rz), (0, 3));
}

#[test]
fn block_loc_is_sign_stable() {
    for (x, z) in [(-17, 3), (-1, -1), (-9, -16)] {
        let a = block_loc(x, z, 10);
        let b = block_loc(x, z, 10);
        assert_eq!(a, b);
        assert!((0..10).contains(&a.rx) && (0..10).contains(&a.rz));
    }
}

#[test]
fn lot_ids_are_stable_per_lot_and_vary_across_lots() {
    let a = lot_slot(&block_loc(2, 5, 11), 11, 99);
    let b = lot_slot(&block_loc(2, 5, 11), 11, 99);
    assert_eq!(a.lot_id, b.lot_id);
    assert_eq!(a.slot, b.slot);
    let mut varied = false;
    for x in 0..24 {
        for z in 0..24 {
            let c = lot_slot(&block_loc(x, z, 11), 11, 99);
            if c.lot_id != a.lot_id {
                varied = true;
            }
        }
    }
    assert!(varied, "no lot variation across a 24x24 sample");
}

#[test]
fn small_blocks_stay_single_lot() {
    let lot = lot_slot(&block_loc(1, 1, 4), 4, 7);
    assert_eq!((lot.slot, lot.count), (0, 1));
    assert!(lot.corner);
}

#[test]
fn lot_count_stays_bounded() {
    for b in [6u8, 9, 11, 14, 18, 32] {
        for x in 0..40 {
            let lot = lot_slot(&block_loc(x, 5, b), b, 1234);
            assert!((1..=6).contains(&lot.count), "b={b} count={}", lot.count);
            assert!(lot.slot < lot.count, "b={b}");
        }
    }
}

#[test]
fn block_noise_is_deterministic_unit() {
    let t = block_noise(2, -5, 445566);
    assert!((0.0..1.0).contains(&n(t)));
    assert_eq!(t, block_noise(2, -5, 445566));
}

fn downtown_no_arterial() -> ZoneParams {
    ZoneParams {
        arterial_every: 0,
        ..zone_defaults(ZoneType::Downtown)
    }
}

#[test]
fn street_falls_on_block_boundaries() {
    let params = downtown_no_arterial();
    assert!(layout_block(0, 0, &params).contains(CellFlags::IS_STREET));
    assert!(layout_block(11, 0, &params).contains(CellFlags::IS_STREET));
    assert!(layout_block(0, 22, &params).contains(CellFlags::IS_STREET));
    assert!(layout_block(22, 3, &params).contains(CellFlags::IS_STREET));
    assert_eq!(layout_block(1, 1, &params), CellFlags::of(CellFlags::NONE));
    assert_eq!(layout_block(10, 10, &params), CellFlags::of(CellFlags::NONE));
}

#[test]
fn street_handles_negative_coordinates() {
    let params = ZoneParams {
        arterial_every: 0,
        ..zone_defaults(ZoneType::Commercial)
    };
    let b = i64::from(params.block_size);
    assert!(layout_block(-b, 2, &params).contains(CellFlags::IS_STREET));
    assert!(layout_block(b, 2, &params).contains(CellFlags::IS_STREET));
    assert!(layout_block(0, -2 * b, &params).contains(CellFlags::IS_STREET));
    assert!(!layout_block(-2, -2, &params).contains(CellFlags::IS_STREET));
}

#[test]
fn block_layout_is_deterministic() {
    let params = zone_defaults(ZoneType::Residential);
    for (x, y) in [(-17, 3), (0, 0), (255, 99), (1000, -1000)] {
        assert_eq!(
            layout_block(x, y, &params),
            layout_block(x, y, &params)
        );
    }
}

#[test]
fn block_size_is_clamped_from_zero() {
    let params = ZoneParams {
        height_min: f(0.0),
        height_max: f(1.0),
        density: f(1.0),
        block_size: 0,
        palette_count: 1,
        arterial_every: 0,
    };
    assert!(
        layout_block(0, 3, &params).contains(CellFlags::IS_STREET)
    );
    assert!(
        layout_block(1, 3, &params).contains(CellFlags::IS_STREET)
    );
}

#[test]
fn arterials_are_two_cells_wide_and_flagged() {
    let params = ZoneParams {
        arterial_every: 2,
        ..zone_defaults(ZoneType::Commercial)
    };
    let b = i64::from(params.block_size);
    let wide = layout_block(1, 5, &params);
    assert!(wide.contains(CellFlags::IS_STREET));
    assert!(wide.contains(CellFlags::IS_ARTERIAL));
    let local = layout_block(b + 1, 5, &params);
    assert_eq!(local, CellFlags::of(CellFlags::NONE));
    let edge = layout_block(0, 5, &params);
    assert!(edge.contains(CellFlags::IS_ARTERIAL));
}

#[test]
fn rotated_frame_shifts_the_grid() {
    let params = downtown_no_arterial();
    let angle = 24.0 * std::f64::consts::PI / 180.0;
    let mut differs = false;
    for x in 0..30i64 {
        for y in 0..30i64 {
            let (lx, lz) = rotate(angle, x, y);
            if layout_block(x, y, &params) != layout_block(lx, lz, &params) {
                differs = true;
            }
        }
    }
    assert!(differs, "rotated frame never changes the grid");
}

#[test]
fn dropout_merges_some_locals_but_never_arterials() {
    let params = zone_defaults(ZoneType::Downtown);
    let mut dropped = 0usize;
    let mut greenway = 0usize;
    let mut local_street = 0usize;
    for x in 0..220 {
        for z in 0..220 {
            let info = street_info(x, z, &params, false, false, 445566);
            if info.dropped {
                dropped += 1;
            }
            if info.greenway {
                greenway += 1;
                assert!(!info.street);
            }
            if info.street && !info.arterial {
                local_street += 1;
            }
            let base = layout_block(x, z, &params);
            if base.contains(CellFlags::IS_ARTERIAL) {
                assert!(info.street, "arterial dropped at ({x},{z})");
                assert!(!info.dropped);
            }
        }
    }
    assert!(dropped > 0, "no dropout sampled");
    assert!(greenway > 0, "no greenways sampled");
    assert!(local_street > 0, "no local streets left");
    let total = 220 * 220;
    assert!(
        dropped < total / 5,
        "dropout too aggressive: {dropped}/{total}"
    );
}

#[test]
fn diagonals_pave_arterial_boulevards() {
    let params = downtown_no_arterial();
    let (angle, offset, half_width) = (0.0, 0.0, 1.0);
    let on = |x, z| covers(angle, offset, half_width, x, z);
    let mid = street_info(5, 0, &params, on(5, 0), false, 7);
    assert!(mid.street && mid.arterial && mid.diagonal);
    let mid2 = street_info(5, 1, &params, on(5, 1), false, 7);
    assert!(mid2.street && mid2.diagonal);
    let off = street_info(5, 30, &params, on(5, 30), false, 7);
    assert!(!off.diagonal);
    assert!(!street_info(5, 0, &params, false, false, 7).diagonal);
}

#[test]
fn street_info_is_deterministic() {
    let params = zone_defaults(ZoneType::Commercial);
    for (x, z) in [(-40, 17), (0, 0), (300, -211)] {
        let on = covers(0.7, 13.0, 1.0, x, z);
        assert_eq!(
            street_info(x, z, &params, on, false, 99),
            street_info(x, z, &params, on, false, 99)
        );
    }
}

#[test]
fn seam_cells_are_arterial_and_immune_to_dropout() {
    let params = zone_defaults(ZoneType::Downtown);
    let info = street_info(4, 4, &params, false, true, 445566);
    assert!(info.street && info.arterial);
    assert!(!info.dropped && !info.greenway);
    let plain = street_info(4, 4, &params, false, false, 445566);
    assert!(!plain.street);
}

fn lot_of(x: i64, y: i64, seed: u64) -> (u64, bool) {
    let params = zone_defaults(ZoneType::Downtown);
    let loc = block_loc(x, y, params.block_size);
    let slot = lot_slot(&loc, params.block_size, seed);
    (slot.lot_id, slot.corner)
}

#[test]
fn building_is_deterministic() {
    let params = zone_defaults(ZoneType::Downtown);
    let (lot, corner) = lot_of(3, 3, 445566);
    let a = assign_building(lot, corner, f(0.9), f(1.0), Some((3, 3)), &params, 445566);
    let b = assign_building(lot, corner, f(0.9), f(1.0), Some((3, 3)), &params, 445566);
    assert_eq!(a, b);
    let (lot2, corner2) = lot_of(-7, 5, 99);
    assert_eq!(
        assign_building(lot2, corner2, f(0.5), f(1.0), Some((-7, 5)), &params, 99),
        assign_building(lot2, corner2, f(0.5), f(1.0), Some((-7, 5)), &params, 99)
    );
}

#[test]
fn lot_cells_share_palette_and_near_height() {
    let params = zone_defaults(ZoneType::Commercial);
    let mut pair = None;
    for x in 1..20 {
        let a = block_loc(x, 5, params.block_size);
        let b = block_loc(x + 1, 5, params.block_size);
        let (sa, sb) = (
            lot_slot(&a, params.block_size, 42),
            lot_slot(&b, params.block_size, 42),
        );
        if sa.lot_id == sb.lot_id {
            pair = Some(((x, 5, sa), (x + 1, 5, sb)));
            break;
        }
    }
    if pair.is_none() {
        for z in 1..20 {
            let a = block_loc(5, z, params.block_size);
            let b = block_loc(5, z + 1, params.block_size);
            let (sa, sb) = (
                lot_slot(&a, params.block_size, 42),
                lot_slot(&b, params.block_size, 42),
            );
            if sa.lot_id == sb.lot_id {
                pair = Some(((5, z, sa), (5, z + 1, sb)));
                break;
            }
        }
    }
    let ((ax, ay, sa), (bx, by, sb)) = pair.expect("no same-lot pair found");
    let (ha, pa) = assign_building(sa.lot_id, sa.corner, f(0.9), f(1.0), Some((ax, ay)), &params, 42);
    let (hb, pb) = assign_building(sb.lot_id, sb.corner, f(0.9), f(1.0), Some((bx, by)), &params, 42);
    assert_eq!(pa, pb);
    let (ha, hb) = (n(ha), n(hb));
    if ha > 0.0 && hb > 0.0 {
        let ratio = ha / hb;
        assert!(
            (0.8..=1.25).contains(&ratio),
            "jitter band broken: {ha}/{hb}"
        );
    }
}

#[test]
fn built_heights_stay_in_zone_envelope() {
    let params = zone_defaults(ZoneType::Downtown);
    let mut built = 0;
    for x in 1..40 {
        for y in 1..40 {
            let loc = block_loc(x, y, params.block_size);
            let slot = lot_slot(&loc, params.block_size, 42);
            let clump = block_noise(loc.bx, loc.bz, 42);
            let (h, _) = assign_building(
                slot.lot_id,
                slot.corner,
                clump,
                f(1.0),
                Some((x, y)),
                &params,
                42,
            );
            let h = n(h);
            if h > 0.0 {
                built += 1;
                assert!(h <= n(params.height_max) * 1.6 + 1.0, "h={h} escapes envelope");
            } else {
                assert_eq!(h, 0.0);
            }
        }
    }
    assert!(
        built as f64 / (39.0 * 39.0) > 0.5,
        "built ratio too low: {built}"
    );
}

#[test]
fn sparse_zone_builds_few_lots() {
    let params = zone_defaults(ZoneType::Park);
    let mut built = 0;
    let mut total = 0;
    for x in 1..60 {
        for y in 1..60 {
            total += 1;
            let loc = block_loc(x, y, params.block_size);
            let slot = lot_slot(&loc, params.block_size, 7);
            let clump = block_noise(loc.bx, loc.bz, 7);
            let (h, _) = assign_building(
                slot.lot_id,
                slot.corner,
                clump,
                f(1.0),
                Some((x, y)),
                &params,
                7,
            );
            if n(h) > 0.0 {
                built += 1;
            }
        }
    }
    assert!(
        (built as f64) / (total as f64) < 0.25,
        "park built too much: {built}/{total}"
    );
}

#[test]
fn palette_is_bounded_by_zone_count() {
    let params = zone_defaults(ZoneType::Commercial);
    let count = params.palette_count as u64;
    for x in 0..50 {
        for y in 0..50 {
            let (lot, corner) = lot_of(x, y, 123);
            let (_, p) = assign_building(lot, corner, f(0.9), f(1.0), Some((x, y)), &params, 123);
            assert!((p as u64) < count, "palette {p} out of range");
        }
    }
}

#[test]
fn zero_size_ranges_do_not_panic() {
    let params = ZoneParams {
        height_min: f(5.0),
        height_max: f(5.0),
        density: f(1.0),
        block_size: 1,
        palette_count: 0,
        arterial_every: 0,
    };
    let (h, p) = assign_building(1, false, f(1.0), f(1.0), Some((1, 1)), &params, 1);
    assert!(!n(h).is_nan());
    assert_eq!(p, 0);
}

#[test]
fn floor_division_rounds_down() {
    for (a, b) in [(7, 3), (-7, 3), (-9, 3), (0, 5), (i64::MIN, 7), (i64::MAX, 255), (-1, 255)] {
        assert_eq!(floor_division(a, b), (a.div_euclid(b), a.rem_euclid(b)));
    }
    assert_eq!(DistrictFrame::identity().angle_rad.bits, 0);
}

#[test]
fn strips_tile_the_block() {
    for b in [6u8, 9, 11, 14, 18, 32, 255] {
        for bx in -3..3i64 {
            let mut widths: Vec<(u8, u32)> = Vec::new();
            let mut along_x = true;
            for r in 1..i64::from(b) {
                let a = block_loc(bx * i64::from(b) + r, 5, b);
                let c = block_loc(bx * i64::from(b) + 5.min(i64::from(b) - 1), r, b);
                let (sa, sc) = (lot_slot(&a, b, 77), lot_slot(&c, b, 77));
                if r == 1 {
                    let end = block_loc(bx * i64::from(b) + i64::from(b) - 1, 5, b);
                    along_x = lot_slot(&end, b, 77).slot != sa.slot || sa.count == 1;
                }
                let s = if along_x { sa } else { sc };
                let (w, d) = lot_rect(if along_x { &a } else { &c }, b, 77);
                let (width, depth) = if along_x { (w, d) } else { (d, w) };
                if s.count > 1 {
                    assert_eq!(depth, b - 1);
                    match widths.last_mut() {
                        Some((slot, seen)) if *slot == s.slot => *seen += 1,
                        _ => widths.push((s.slot, 1)),
                    }
                    let _ = width;
                }
            }
            let total: u32 = widths.iter().map(|w| w.1).sum();
            if !widths.is_empty() {
                assert_eq!(total, u32::from(b) - 1);
            }
        }
    }
    assert_eq!(lot_rect(&block_loc(1, 1, 4), 4, 7), (3, 3));
    assert_eq!(lot_rect(&block_loc(0, 0, 0), 0, 7), (1, 1));
}

#[test]
fn lots_of_a_row_have_their_own_keys() {
    let mut keys = std::collections::HashSet::new();
    let mut lots = 0;
    for bx in -20..20i64 {
        for r in 1..11i64 {
            let loc = block_loc(bx * 11 + r, 5, 11);
            let s = lot_slot(&loc, 11, 5);
            if keys.insert(s.lot_id) {
                lots += 1;
            }
        }
    }
    assert!(lots >= 40);
}

#[test]
fn stretches_drop_from_avenue_to_avenue() {
    let params = zone_defaults(ZoneType::Downtown);
    let b = i64::from(params.block_size);
    let band = i64::from(params.arterial_every) * b;
    for street in [1i64, 2, 3, 5] {
        for k in 0..6i64 {
            let first = street_info(street * b, k * band + 2, &params, false, false, 445566);
            for z in 2..band {
                let info = street_info(street * b, k * band + z, &params, false, false, 445566);
                if !info.arterial {
                    assert_eq!(info, first);
                }
            }
        }
    }
}

#[test]
fn heights_follow_the_formula() {
    let params = zone_defaults(ZoneType::Downtown);
    let seed = 42;
    for lot in [1u64, 99, 0x9e37_79b9_7f4a_7c15, u64::MAX] {
        let unit = |x: i64, y: i64, d: u8| n(hash_unit(x, y, seed, d));
        let (lo, hi) = (lot as i64, (lot >> 32) as i64);
        let roll = unit(lo, hi, domain::DENSITY) * 0.65 + 0.4 * 0.35;
        let (h, _) = assign_building(lot, true, f(0.4), f(1.25), Some((3, -9)), &params, seed);
        if roll > 0.95 {
            assert_eq!(n(h), 0.0);
            continue;
        }
        let t = unit(hi, lo, domain::LOT_HEIGHT);
        let mut want = 40.0f32 + t * (200.0f32 - 40.0);
        want *= 0.85 + 0.4f32 * 0.30;
        want *= 1.25;
        want *= 1.2;
        want *= 0.9 + unit(3, -9, domain::HEIGHT) * 0.2;
        want = want.max(0.0).min(200.0 * 1.6 + 1.0);
        assert_eq!(n(h), want);
    }
    let (shed, _) = market_shed(12345, &params, seed);
    assert_eq!(
        n(shed),
        4.0 + n(hash_unit(12345, 0, seed, domain::LOT_HEIGHT)) * 6.0
    );
}

#[test]
fn special_shares_by_zone() {
    let mut plaza = 0;
    let mut tower = 0;
    for bx in 0..100 {
        for bz in 0..100 {
            let r = n(hash_unit(bx, bz, 3, domain::SPECIAL));
            let want = if r < 0.02 {
                SpecialKind::Plaza
            } else if r < 0.04 {
                SpecialKind::TowerPark
            } else {
                SpecialKind::Ordinary
            };
            let got = special_for(bx, bz, ZoneType::Downtown, 3);
            assert_eq!(got, want);
            plaza += usize::from(got == SpecialKind::Plaza);
            tower += usize::from(got == SpecialKind::TowerPark);
            let want = if r < 0.03 {
                SpecialKind::Market
            } else {
                SpecialKind::Ordinary
            };
            assert_eq!(special_for(bx, bz, ZoneType::Industrial, 3), want);
            assert_eq!(
                special_for(bx, bz, ZoneType::Park, 3),
                SpecialKind::Ordinary
            );
        }
    }
    assert!(plaza > 100 && tower > 100);
    for lot in 0..3000u64 {
        let r = n(hash_unit(lot as i64, 0, 9, domain::LANDMARK));
        assert_eq!(is_landmark(lot, ZoneType::Downtown, 9), r < 0.04);
        assert_eq!(is_landmark(lot, ZoneType::Commercial, 9), r < 0.02);
        assert_eq!(is_landmark(lot, ZoneType::Residential, 9), r < 0.01);
        assert!(!is_landmark(lot, ZoneType::Park, 9));
    }
}

#[test]
fn doors_face_the_nearest_street() {
    assert_eq!(door_side_for(1, 5, 11), DoorSide::West);
    assert_eq!(door_side_for(10, 5, 11), DoorSide::East);
    assert_eq!(door_side_for(5, 1, 11), DoorSide::North);
    assert_eq!(door_side_for(5, 10, 11), DoorSide::South);
    assert_eq!(door_side_for(-10, 5, 11), DoorSide::West);
    assert_eq!(door_side_for(3, 3, 11), DoorSide::West);
}

#[test]
fn zones_rank_by_pull() {
    let a = [f(0.1), f(0.4), f(0.4), f(0.05), f(0.05)];
    assert_eq!(dominant_zone(&a), ZoneType::Residential);
    assert_eq!(secondary_zone(&a, ZoneType::Residential), ZoneType::Commercial);
    let none = [f(0.0); 5];
    assert_eq!(dominant_zone(&none), ZoneType::Downtown);
    assert_eq!(secondary_zone(&none, ZoneType::Downtown), ZoneType::Residential);
    let nan = [f(0.2), f(f32::NAN), f(0.3), f(0.1), f(0.3)];
    assert_eq!(dominant_zone(&nan), ZoneType::Commercial);
}

#[test]
fn keys_and_crossings() {
    assert_ne!(interior_id_for_lot(0, 0, 0, 1), interior_id_for_lot(0, 0, 1, 1));
    assert_ne!(interior_id_for_lot(0, 0, 0, 1), interior_id_for_lot(1, 0, 0, 1));
    let p = zone_defaults(ZoneType::Downtown);
    assert!(is_intersection(11, -22, &p));
    assert!(!is_intersection(11, 1, &p));
}
