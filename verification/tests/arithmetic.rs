use urbix::double::F64;
use urbix::hash::hash_coords;
use urbix::single::F32;

fn s(x: f32) -> F32 {
    F32::from_bits(x.to_bits())
}

fn d(x: f64) -> F64 {
    F64::from_bits(x.to_bits())
}

fn same32(got: F32, want: f32) -> bool {
    if want.is_nan() {
        f32::from_bits(got.bits).is_nan()
    } else {
        got.bits == want.to_bits()
    }
}

fn same64(got: F64, want: f64) -> bool {
    if want.is_nan() {
        f64::from_bits(got.bits).is_nan()
    } else {
        got.bits == want.to_bits()
    }
}

fn singles() -> Vec<f32> {
    let mut v = vec![
        0.0,
        -0.0,
        1.0,
        -1.0,
        0.1,
        0.65,
        1.5,
        2.0,
        3.0,
        255.4,
        255.5,
        0.5,
        1e-6,
        f32::EPSILON,
        f32::MAX,
        f32::MIN,
        f32::MIN_POSITIVE,
        f32::from_bits(1),
        f32::from_bits(0x007f_ffff),
        f32::INFINITY,
        f32::NEG_INFINITY,
        f32::NAN,
        16777216.0,
        16777215.0,
    ];
    for k in 0..60 {
        v.push(f32::from_bits(hash_coords(k, 1, 7, 1) as u32));
    }
    for k in 0..60 {
        let h = hash_coords(k, 2, 7, 1);
        v.push((h >> 40) as f32 / (1u32 << 24) as f32 * 200.0);
    }
    v
}

fn doubles() -> Vec<f64> {
    let mut v = vec![
        0.0,
        -0.0,
        1.0,
        -1.0,
        0.1,
        1500.0,
        10_000.0,
        1e-8,
        1e-9,
        f64::MAX,
        f64::MIN_POSITIVE,
        f64::from_bits(1),
        f64::from_bits(0x000f_ffff_ffff_ffff),
        f64::INFINITY,
        f64::NEG_INFINITY,
        f64::NAN,
        std::f64::consts::PI,
        9007199254740993.0,
    ];
    for k in 0..60 {
        v.push(f64::from_bits(hash_coords(k, 3, 7, 1)));
    }
    for k in 0..60 {
        let h = hash_coords(k, 4, 7, 1);
        v.push((h >> 11) as f64 / (1u64 << 53) as f64 * 20_000.0 - 10_000.0);
    }
    v
}

#[test]
fn single_operations_match_the_hardware() {
    let v = singles();
    for &a in &v {
        for &b in &v {
            assert!(same32(s(a).plus(s(b)), a + b), "{a} + {b}");
            assert!(same32(s(a).minus(s(b)), a - b), "{a} - {b}");
            assert!(same32(s(a).times(s(b)), a * b), "{a} * {b}");
            assert!(same32(s(a).over(s(b)), a / b), "{a} / {b}");
            assert_eq!(s(a).lt(s(b)), a < b, "{a} < {b}");
            assert_eq!(s(a).le(s(b)), a <= b, "{a} <= {b}");
            if a != b {
                assert!(same32(s(a).max(s(b)), a.max(b)), "max {a} {b}");
                assert!(same32(s(a).min(s(b)), a.min(b)), "min {a} {b}");
            }
        }
        assert_eq!(s(a).to_u8(), a as u8, "{a} as u8");
        assert_eq!(s(a).round_to_u8(), a.round() as u8, "{a} round");
        assert_eq!(s(a).is_nan(), a.is_nan());
        assert!(same64(F64::from_single(s(a)), f64::from(a)), "widen {a}");
    }
}

#[test]
fn double_operations_match_the_hardware() {
    let v = doubles();
    for &a in &v {
        for &b in &v {
            assert!(same64(d(a).plus(d(b)), a + b), "{a} + {b}");
            assert!(same64(d(a).minus(d(b)), a - b), "{a} - {b}");
            assert!(same64(d(a).times(d(b)), a * b), "{a} * {b}");
            assert!(same64(d(a).over(d(b)), a / b), "{a} / {b}");
            assert_eq!(d(a).lt(d(b)), a < b, "{a} < {b}");
            assert_eq!(d(a).le(d(b)), a <= b, "{a} <= {b}");
        }
        assert!(same64(d(a).sqrt(), a.sqrt()), "sqrt {a}");
        assert!(same64(d(a).abs(), a.abs()), "abs {a}");
        assert!(same64(d(a).negated(), -a), "neg {a}");
        assert_eq!(d(a).is_finite(), a.is_finite());
        let narrow = d(a).to_single();
        assert!(same32(narrow, a as f32), "narrow {a}");
    }
}

#[test]
fn integers_and_fractions_convert_exactly() {
    for n in [0u32, 1, 2, 255, 256, 16777215, 16777217, u32::MAX] {
        assert_eq!(F32::from_u32(n).bits, (n as f32).to_bits());
    }
    for n in [0u32, 1, 3, 0xff_ffff, 0x80_0000] {
        assert_eq!(
            F32::from_fraction(n).bits,
            (n as f32 / (1u32 << 24) as f32).to_bits()
        );
    }
    for n in [0i64, 1, -1, 31, -4096, i64::MAX, i64::MIN, 1 << 53, -(1 << 60) - 3] {
        assert_eq!(F64::from_i64(n).bits, (n as f64).to_bits());
    }
    for n in [0u64, 1, (1 << 53) - 1, 1 << 52] {
        assert_eq!(
            F64::from_fraction(n).bits,
            (n as f64 / (1u64 << 53) as f64).to_bits()
        );
    }
}

#[test]
fn a_scaled_draw_stays_below_its_span() {
    for span in 1u32..=256 {
        let top = F32::from_fraction(0xff_ffff).times(F32::from_u32(span)).to_u8();
        assert!(u32::from(top) < span);
    }
    // A draw that rounds up to the next whole number.
    let n = 13_981_013u32;
    let want = (n as f32 / (1u32 << 24) as f32 * 6.0) as u8;
    assert_eq!(F32::from_fraction(n).times(F32::from_u32(6)).to_u8(), want);
}

#[test]
fn rounding_takes_the_nearest_and_even_on_ties() {
    // 2^24 + 1 lies midway and goes to the even neighbour.
    assert_eq!(s(16777216.0).plus(s(1.0)).bits, 16777216.0f32.to_bits());
    assert_eq!(s(16777216.0).plus(s(3.0)).bits, 16777220.0f32.to_bits());
    assert_eq!(s(0.1).plus(s(0.2)).bits, (0.1f32 + 0.2f32).to_bits());
}

#[test]
fn order_follows_value() {
    assert!(s(-2.0).lt(s(-1.0)));
    assert!(s(-1.0).lt(s(0.5)));
    assert!(!s(0.0).lt(s(-0.0)) && !s(-0.0).lt(s(0.0)));
    assert!(d(1e-300).lt(d(1e300)));
}
