use urbix::hash::{domain, hash_coords, hash_unit};

#[test]
fn deterministic_across_calls() {
    assert_eq!(hash_coords(3, 7, 445566, 1), hash_coords(3, 7, 445566, 1));
    assert_eq!(hash_coords(-5, 12, 99, 0), hash_coords(-5, 12, 99, 0));
    assert_eq!(
        hash_coords(i64::MAX, i64::MIN, u64::MAX, 255),
        hash_coords(i64::MAX, i64::MIN, u64::MAX, 255)
    );
}

#[test]
fn differs_across_domains_for_same_coords() {
    let a = hash_coords(3, 7, 445566, 1);
    let b = hash_coords(3, 7, 445566, 2);
    let c = hash_coords(3, 7, 445566, 3);
    assert_ne!(a, b);
    assert_ne!(a, c);
    assert_ne!(b, c);
}

#[test]
fn differs_across_seeds() {
    assert_ne!(hash_coords(3, 7, 1, 1), hash_coords(3, 7, 2, 1));
    assert_ne!(hash_coords(3, 7, 0, 0), hash_coords(3, 7, 12345, 0));
}

#[test]
fn differs_across_coordinates() {
    assert_ne!(hash_coords(0, 0, 445566, 1), hash_coords(1, 0, 445566, 1));
    assert_ne!(hash_coords(0, 0, 445566, 1), hash_coords(0, 1, 445566, 1));
    assert_ne!(hash_coords(-1, 2, 7, 1), hash_coords(1, 2, 7, 1));
}

#[test]
fn outputs_are_nonzero_for_typical_inputs() {
    assert_ne!(hash_coords(0, 0, 0, 0), 0);
    assert_ne!(hash_coords(1, 1, 1, 1), 0);
}

#[test]
fn i32_range_values_match_legacy_sign_extension() {
    fn narrow(x: i32, y: i32, s: u64, d: u8) -> u64 {
        let c1 = 0x6a09_e667_f3bc_c909u64;
        let c2 = 0xbf58_476d_1ce4_e5b9u64;
        let c3 = 0x94d0_49bb_1331_11ebu64;
        let g = 0x9e37_79b9_7f4a_7c15u64;
        let mut acc = s
            ^ (d as u64).wrapping_mul(c1)
            ^ (x as i64 as u64).wrapping_mul(c2)
            ^ (y as i64 as u64).wrapping_mul(c3);
        acc = acc.wrapping_add(g);
        acc = (acc ^ (acc >> 30)).wrapping_mul(c2);
        acc = (acc ^ (acc >> 27)).wrapping_mul(c3);
        acc ^ (acc >> 31)
    }
    for (x, y, s, d) in [
        (0, 0, 0, 0),
        (3, -7, 445566, 1),
        (-45, 200, 99, 5),
        (i32::MIN, i32::MAX, u64::MAX, 9),
    ] {
        assert_eq!(hash_coords(x as i64, y as i64, s, d), narrow(x, y, s, d));
    }
}

#[test]
fn wide_coordinates_do_not_collapse() {
    let a = hash_coords(1i64 << 40, 0, 7, 2);
    let b = hash_coords((1i64 << 40) + 1, 0, 7, 2);
    assert_ne!(a, b);
    assert_ne!(
        hash_coords(i64::MIN, 0, 7, 2),
        hash_coords(i64::MAX, 0, 7, 2)
    );
}

#[test]
fn every_input_separates() {
    let base = hash_coords(-9, 40, 1234, domain::HEIGHT);
    for k in 1..200i64 {
        assert_ne!(base, hash_coords(-9 + k, 40, 1234, domain::HEIGHT));
        assert_ne!(base, hash_coords(-9, 40 + k, 1234, domain::HEIGHT));
        assert_ne!(base, hash_coords(-9, 40, 1234 + k as u64, domain::HEIGHT));
    }
    for d in 0..=255u8 {
        assert_eq!(
            d == domain::HEIGHT,
            base == hash_coords(-9, 40, 1234, d),
            "domain {d}"
        );
    }
}

#[test]
fn unit_draws_are_the_leading_bits() {
    for k in 0..500 {
        let want = (hash_coords(k, -k, 77, 5) >> 40) as f32 / (1u32 << 24) as f32;
        let got = f32::from_bits(hash_unit(k, -k, 77, 5).bits);
        assert_eq!(got, want);
        assert!((0.0..1.0).contains(&got));
    }
}
