//! What holds of the field of districts.
use crate::config::WorldConfig;
use crate::double::error::{
    lemma_narrowing_error, lemma_narrowing_exact, lemma_narrowing_keeps_order, lemma_plain,
    lemma_powers, lemma_product_error, lemma_reciprocal_error, lemma_share_at_most,
    lemma_small_worth, lemma_sum_at_most, lemma_sum_error, lemma_sum_not_less, lemma_widened,
    lemma_worth_order, lemma_worth_range, lemma_worth_value, plain, unit, worth,
};
use crate::double::{double, lemma_double, lemma_squares_are_not_negative, F64};
use crate::float::error::{lemma_nearest_keeps_order, lemma_rounding_keeps_order};
use crate::float::laws::off;
use crate::float::{
    absolute, lemma_bit_length_unique, lemma_fields, lemma_packed, lemma_ratio_bound,
    lemma_root_finite, lemma_rounded_bound, lemma_rounded_exact, lemma_rounded_own,
    lemma_rounded_scale, magnitude, nearest, negative, ratio_order, scale, significand, value,
};
use crate::hash::{coord_hash, coord_unit, domain, law_unit_draw_range};
use crate::region::{
    buffered, centre_pull, centred, district_unit, downtown2, drawn_site, frame_of, gap2,
    lemma_central, long_unit, nearest_site, orientation, radians, site_map, site_weight, spread,
    two_nearest, weight_sum, zone_pull, zone_weight, VoronoiSite, INFINITY, ONE, TWO,
};
use crate::single::{lemma_single, single, F32};
use crate::zones::ZONE_COUNT;
use vstd::arithmetic::power2::{lemma_pow2_adds, lemma_pow2_pos, lemma_pow2_unfold, pow2};
use vstd::prelude::*;

verus! {

/// One half.
pub const HALF_DOUBLE: u64 = 0x3fe0_0000_0000_0000;

/// Is the power of a distance not negative, and at most two to the 1000?
pub open spec fn moderate(power: F64) -> bool {
    power.bits <= 0x7e70_0000_0000_0000
}

/// Is the guard against a distance of zero in its range, from 1e-12 to 1e-3?
pub open spec fn valid_guard(epsilon: F64) -> bool {
    epsilon.within(
        F64 { bits: 0x3d71_9799_812d_ea11 },
        F64 { bits: 0x3f50_624d_d2f1_a9fc },
    )
}

/// The weight of a site is a number of moderate size.
pub proof fn lemma_site_weight(power: F64, epsilon: F64)
    requires
        moderate(power),
        valid_guard(epsilon),
    ensures
        plain(site_weight(power, epsilon)),
        pow2(70) <= worth(site_weight(power, epsilon)) <= pow2(1116),
        plain(power.sum(epsilon)),
        0x10_0000_0000_0000 * off(
            (worth(site_weight(power, epsilon)) * worth(power.sum(epsilon))) as int,
            (unit() * unit()) as int,
        ) <= unit() * unit(),
{
    reveal(F64::at_most);
    lemma_double();
    assert(0x3d71_9799_812d_ea11 <= epsilon.bits <= 0x3f50_624d_d2f1_a9fc);
    lemma_worth_range(epsilon);
    let t = (epsilon.bits / 0x10_0000_0000_0000) as nat;
    assert(0x3d7 <= t <= 0x3f5);
    lemma_powers(1034, t + 51);
    lemma_powers(t + 52, 1065);
    assert(worth(power) < pow2(2075)) by {
        if power.bits >= 0x10_0000_0000_0000 {
            lemma_worth_range(power);
            let u = (power.bits / 0x10_0000_0000_0000) as nat;
            lemma_powers(u + 52, 2075);
        } else {
            lemma_small_worth(power);
            crate::float::lemma_pow2_values();
            lemma_powers(52, 2075);
        }
    }
    let n = worth(power) + worth(epsilon);
    lemma_powers(1065, 2075);
    lemma_pow2_unfold(2076);
    lemma_powers(2076, 2097);
    lemma_sum_error(power, epsilon);
    let s = power.sum(epsilon);
    lemma_pow2_unfold(1034);
    lemma_pow2_unfold(2077);
    assert(pow2(1033) <= worth(s) < pow2(2077));
    lemma_powers(60, 1033);
    lemma_powers(2077, 2080);
    lemma_reciprocal_error(s);
    let r = site_weight(power, epsilon);
    let square = unit() * unit();
    lemma_pow2_adds(1074, 1074);
    lemma_pow2_unfold(2149);
    lemma_pow2_unfold(2148);
    assert(square > 0) by {
        lemma_pow2_pos(2148);
    }
    assert(worth(r) <= pow2(1116)) by {
        if worth(r) > pow2(1116) {
            lemma_pow2_adds(1116, 1033);
            assert(worth(r) * worth(s) > pow2(1116) * pow2(1033)) by (nonlinear_arith)
                requires
                    worth(r) > pow2(1116),
                    worth(s) >= pow2(1033),
                    pow2(1033) > 0,
            ;
        }
    }
    assert(worth(r) >= pow2(70)) by {
        if worth(r) < pow2(70) {
            lemma_pow2_adds(70, 2077);
            assert(worth(r) * worth(s) <= pow2(70) * pow2(2077)) by (nonlinear_arith)
                requires
                    worth(r) <= pow2(70),
                    worth(s) <= pow2(2077),
            ;
        }
    }
}

/// Is something measured for every site, and all of it moderate?
pub open spec fn measured(sites: Seq<VoronoiSite>, powers: Seq<F64>) -> bool {
    &&& 0 < sites.len() <= 0x1_0000
    &&& powers.len() == sites.len()
    &&& forall|i: int| 0 <= i < powers.len() ==> moderate(#[trigger] powers[i])
}

/// The weight of a zone is bounded, and that of the zone of the first site is
/// not too small.
proof fn lemma_zone_weight(
    sites: Seq<VoronoiSite>,
    powers: Seq<F64>,
    epsilon: F64,
    zone: int,
    n: int,
)
    requires
        measured(sites, powers),
        valid_guard(epsilon),
        0 <= n <= sites.len(),
    ensures
        ({
            let t = zone_weight(sites, powers, epsilon, zone, n);
            &&& plain(t)
            &&& worth(t) <= n * (2 * pow2(1116))
            &&& n > 0 && sites[0].zone.ordinal() == zone ==> worth(t) >= pow2(70)
        }),
    decreases n,
{
    let c = pow2(1116);
    lemma_pow2_pos(1116);
    if n <= 0 {
        lemma_small_worth(F64 { bits: 0 });
        assert(n * (2 * c) == 0) by (nonlinear_arith)
            requires
                n == 0,
        ;
    } else {
        lemma_zone_weight(sites, powers, epsilon, zone, n - 1);
        let acc = zone_weight(sites, powers, epsilon, zone, n - 1);
        assert((n - 1) * (2 * c) + 2 * c == n * (2 * c)) by (nonlinear_arith);
        if sites[n - 1].zone.ordinal() == zone {
            let w = site_weight(powers[n - 1], epsilon);
            lemma_site_weight(powers[n - 1], epsilon);
            let e = worth(acc) + worth(w);
            assert(n * (2 * c) <= 0x1_0000 * (2 * c)) by (nonlinear_arith)
                requires
                    n <= 0x1_0000,
                    c > 0,
            ;
            crate::float::lemma_pow2_values();
            lemma_pow2_adds(20, 1116);
            vstd::arithmetic::power2::lemma2_to64();
            lemma_powers(1136, 2097);
            lemma_sum_error(acc, w);
            lemma_sum_not_less(acc, w);
        }
    }
}

/// The weights of the first `k` zones, added up without rounding.
spec fn exact_sum(sites: Seq<VoronoiSite>, powers: Seq<F64>, epsilon: F64, k: int) -> nat
    decreases k,
{
    if k <= 0 {
        0
    } else {
        exact_sum(sites, powers, epsilon, k - 1) + worth(
            zone_weight(sites, powers, epsilon, k - 1, sites.len() as int),
        )
    }
}

/// The total weight is near the exact total, and not too small.
proof fn lemma_weight_sum(sites: Seq<VoronoiSite>, powers: Seq<F64>, epsilon: F64, k: int)
    requires
        measured(sites, powers),
        valid_guard(epsilon),
        0 <= k <= ZONE_COUNT,
    ensures
        ({
            let t = weight_sum(sites, powers, epsilon, k);
            let exact = exact_sum(sites, powers, epsilon, k);
            &&& plain(t)
            &&& exact <= k * pow2(1133)
            &&& 0x4_0000_0000_0000 * off(worth(t) as int, exact as int) <= k * exact
            &&& k > sites[0].zone.ordinal() ==> worth(t) >= pow2(70)
        }),
    decreases k,
{
    if k <= 0 {
        lemma_small_worth(F64 { bits: 0 });
    } else {
        lemma_weight_sum(sites, powers, epsilon, k - 1);
        let n = sites.len() as int;
        let before = weight_sum(sites, powers, epsilon, k - 1);
        let w = zone_weight(sites, powers, epsilon, k - 1, n);
        lemma_zone_weight(sites, powers, epsilon, k - 1, n);
        let old_sum = exact_sum(sites, powers, epsilon, k - 1);
        let exact = old_sum + worth(w);
        assert(worth(w) <= pow2(1133)) by {
            let c = pow2(1116);
            lemma_pow2_pos(1116);
            lemma_pow2_adds(17, 1116);
            vstd::arithmetic::power2::lemma2_to64();
            assert(n * (2 * c) <= 0x1_0000 * (2 * c)) by (nonlinear_arith)
                requires
                    n <= 0x1_0000,
                    c > 0,
            ;
        }
        let b = pow2(1133);
        lemma_pow2_pos(1133);
        lemma_pow2_adds(4, 1133);
        vstd::arithmetic::power2::lemma2_to64();
        lemma_powers(1137, 2097);
        assert(k * b == (k - 1) * b + b) by (nonlinear_arith);
        assert(k * b <= 5 * b) by (nonlinear_arith)
            requires
                k <= 5,
                b > 0,
        ;
        assert((k - 1) * old_sum <= 4 * old_sum) by (nonlinear_arith)
            requires
                k - 1 <= 4,
                old_sum >= 0,
        ;
        lemma_sum_error(before, w);
        lemma_sum_not_less(before, w);
        assert(k * exact == (k - 1) * old_sum + (k - 1) * worth(w) + exact) by (nonlinear_arith)
            requires
                exact == old_sum + worth(w),
        ;
        assert((k - 1) * worth(w) >= 0) by (nonlinear_arith)
            requires
                k >= 1,
        ;
    }
}

/// The reciprocal of the total weight.
pub open spec fn inverse(sites: Seq<VoronoiSite>, powers: Seq<F64>, epsilon: F64) -> F64 {
    (F64 { bits: ONE }).quotient(weight_sum(sites, powers, epsilon, ZONE_COUNT as int))
}

/// The reciprocal times the total is near 1, and so is the reciprocal times
/// the exact total.
proof fn lemma_inverse(sites: Seq<VoronoiSite>, powers: Seq<F64>, epsilon: F64)
    requires
        measured(sites, powers),
        valid_guard(epsilon),
    ensures
        ({
            let total = weight_sum(sites, powers, epsilon, ZONE_COUNT as int);
            let inv = inverse(sites, powers, epsilon);
            let exact = exact_sum(sites, powers, epsilon, ZONE_COUNT as int);
            let square = unit() * unit();
            &&& plain(total)
            &&& total.bits > 0
            &&& plain(inv)
            &&& square > 0
            &&& 0x1000_0000_0000 * off((exact * worth(inv)) as int, square as int) <= square
        }),
{
    let total = weight_sum(sites, powers, epsilon, ZONE_COUNT as int);
    let inv = inverse(sites, powers, epsilon);
    let exact = exact_sum(sites, powers, epsilon, ZONE_COUNT as int);
    let square = unit() * unit();
    lemma_weight_sum(sites, powers, epsilon, ZONE_COUNT as int);
    lemma_powers(60, 70);
    lemma_pow2_adds(4, 1133);
    vstd::arithmetic::power2::lemma2_to64();
    lemma_powers(1137, 2080);
    lemma_pow2_pos(1133);
    assert(total.bits > 0) by {
        if total.bits == 0 {
            lemma_small_worth(total);
        }
    }
    lemma_reciprocal_error(total);
    lemma_pow2_adds(1074, 1074);
    lemma_pow2_pos(2148);
    let (t, r) = (worth(total), worth(inv));
    let gap = off(t as int, exact as int);
    assert(0x4_0000_0000_0000 * gap <= 5 * exact);
    assert(exact <= 2 * t);
    assert(0x4_0000_0000_0000 * (gap * r) <= 10 * (t * r)) by (nonlinear_arith)
        requires
            0x4_0000_0000_0000 * gap <= 5 * exact,
            exact <= 2 * t,
            r >= 0,
    {
        assert(0x4_0000_0000_0000 * gap <= 10 * t);
        assert((0x4_0000_0000_0000 * gap) * r <= (10 * t) * r);
    }
    assert(off((t * r) as int, (exact * r) as int) == gap * r) by (nonlinear_arith)
        requires
            gap == off(t as int, exact as int),
            r >= 0,
    ;
    assert(t * r == r * t) by (nonlinear_arith);
    assert(exact * r >= 0) by (nonlinear_arith)
        requires
            exact >= 0,
            r >= 0,
    ;
}

/// The pull of a zone, counted in the least positive single.
pub open spec fn pull_worth(
    sites: Seq<VoronoiSite>,
    powers: Seq<F64>,
    epsilon: F64,
    zone: int,
) -> nat {
    absolute(single(), zone_pull(sites, powers, epsilon, zone).bits as nat)
}

/// The pull of a zone is near its share of the weight: `p` is the share before
/// it is brought to single precision.
pub proof fn lemma_zone_share(
    sites: Seq<VoronoiSite>,
    powers: Seq<F64>,
    epsilon: F64,
    zone: int,
) -> (p: nat)
    requires
        measured(sites, powers),
        valid_guard(epsilon),
        0 <= zone < ZONE_COUNT,
    ensures
        zone_pull(sites, powers, epsilon, zone).bits < 0x7f80_0000,
        ({
            let w = zone_weight(sites, powers, epsilon, zone, sites.len() as int);
            let inv = inverse(sites, powers, epsilon);
            &&& plain(w)
            &&& plain(inv)
            &&& plain(w.product(inv))
            &&& zone_pull(sites, powers, epsilon, zone) == w.product(inv).narrowed()
        }),
        ({
            let part = worth(zone_weight(sites, powers, epsilon, zone, sites.len() as int))
                * worth(inverse(sites, powers, epsilon));
            0x20_0000_0000_0000 * off((p * unit()) as int, part as int) <= part + unit()
                * 0x10_0000_0000_0000
        }),
        ({
            let s = pull_worth(sites, powers, epsilon, zone);
            0x100_0000 * off((s * pow2(925)) as int, p as int) <= p + pow2(925) * 0x80_0000
        }),
{
    let total = weight_sum(sites, powers, epsilon, ZONE_COUNT as int);
    let inv = inverse(sites, powers, epsilon);
    let exact = exact_sum(sites, powers, epsilon, ZONE_COUNT as int);
    let w = zone_weight(sites, powers, epsilon, zone, sites.len() as int);
    let u = unit();
    let square = u * u;
    lemma_inverse(sites, powers, epsilon);
    lemma_zone_weight(sites, powers, epsilon, zone, sites.len() as int);
    reveal(F64::at_most);
    lemma_double();
    reveal_with_fuel(exact_sum, 6);
    assert(worth(w) <= exact);
    let part = worth(w) * worth(inv);
    assert(part <= exact * worth(inv)) by (nonlinear_arith)
        requires
            part == worth(w) * worth(inv),
            worth(w) <= exact,
    ;
    assert(part >= 0) by (nonlinear_arith)
        requires
            part == worth(w) * worth(inv),
    ;
    lemma_pow2_adds(1074, 1074);
    lemma_pow2_unfold(2149);
    lemma_powers(2149, 3171);
    lemma_product_error(w, inv);
    let x = w.product(inv);
    let p = worth(x);
    lemma_pow2_pos(1074);
    // The share is below 8.
    assert(p < 8 * u) by (nonlinear_arith)
        requires
            p * u <= 2 * part + u,
            part <= 2 * (u * u),
            u > 0,
    ;
    lemma_pow2_unfold(1075);
    lemma_pow2_unfold(1076);
    lemma_pow2_unfold(1077);
    lemma_powers(1077, 1100);
    lemma_narrowing_error(x);
    assert(zone_pull(sites, powers, epsilon, zone) == x.narrowed());
    p
}

/// Five shares that are each near enough add up to nearly 1.
proof fn lemma_shares_add_up(
    parts: (nat, nat, nat, nat, nat),
    p: (nat, nat, nat, nat, nat),
    s: (nat, nat, nat, nat, nat),
    u: nat,
    h: nat,
)
    requires
        u > 0x8000_0000_0000_0000,
        u >= 0x1_0000_0000 * h,
        0x1000_0000_0000 * off(
            (parts.0 + parts.1 + parts.2 + parts.3 + parts.4) as int,
            (u * u) as int,
        ) <= u * u,
        0x20_0000_0000_0000 * off((p.0 * u) as int, parts.0 as int) <= parts.0 + u
            * 0x10_0000_0000_0000,
        0x20_0000_0000_0000 * off((p.1 * u) as int, parts.1 as int) <= parts.1 + u
            * 0x10_0000_0000_0000,
        0x20_0000_0000_0000 * off((p.2 * u) as int, parts.2 as int) <= parts.2 + u
            * 0x10_0000_0000_0000,
        0x20_0000_0000_0000 * off((p.3 * u) as int, parts.3 as int) <= parts.3 + u
            * 0x10_0000_0000_0000,
        0x20_0000_0000_0000 * off((p.4 * u) as int, parts.4 as int) <= parts.4 + u
            * 0x10_0000_0000_0000,
        0x100_0000 * off((s.0 * h) as int, p.0 as int) <= p.0 + h * 0x80_0000,
        0x100_0000 * off((s.1 * h) as int, p.1 as int) <= p.1 + h * 0x80_0000,
        0x100_0000 * off((s.2 * h) as int, p.2 as int) <= p.2 + h * 0x80_0000,
        0x100_0000 * off((s.3 * h) as int, p.3 as int) <= p.3 + h * 0x80_0000,
        0x100_0000 * off((s.4 * h) as int, p.4 as int) <= p.4 + h * 0x80_0000,
    ensures
        0x80_0000 * off(((s.0 + s.1 + s.2 + s.3 + s.4) * h) as int, u as int) <= u,
{
    let z = u * u;
    let x = p.0 + p.1 + p.2 + p.3 + p.4;
    let y = s.0 + s.1 + s.2 + s.3 + s.4;
    assert(z > 0x8000_0000_0000_0000 * u) by (nonlinear_arith)
        requires
            z == u * u,
            u > 0x8000_0000_0000_0000,
    ;
    assert(x * u == p.0 * u + p.1 * u + p.2 * u + p.3 * u + p.4 * u) by (nonlinear_arith)
        requires
            x == p.0 + p.1 + p.2 + p.3 + p.4,
    ;
    assert(y * h == s.0 * h + s.1 * h + s.2 * h + s.3 * h + s.4 * h) by (nonlinear_arith)
        requires
            y == s.0 + s.1 + s.2 + s.3 + s.4,
    ;
    assert(0x400_0000_0000 * off((x * u) as int, z as int) <= z);
    let gap = off(x as int, u as int);
    assert(off((x * u) as int, (u * u) as int) == gap * u) by (nonlinear_arith)
        requires
            gap == off(x as int, u as int),
            u > 0,
    ;
    assert(0x400_0000_0000 * gap <= u) by (nonlinear_arith)
        requires
            0x400_0000_0000 * (gap * u) <= u * u,
            u > 0,
    ;
}

/// The pulls at a point are shares: none is negative, and together they come
/// to 1 to within one part in two to the 23.
pub proof fn law_pulls_are_shares(sites: Seq<VoronoiSite>, powers: Seq<F64>, epsilon: F64)
    requires
        measured(sites, powers),
        valid_guard(epsilon),
    ensures
        forall|z: int|
            0 <= z < ZONE_COUNT ==> (#[trigger] zone_pull(sites, powers, epsilon, z)).bits
                < 0x7f80_0000,
        ({
            let together = pull_worth(sites, powers, epsilon, 0) + pull_worth(
                sites,
                powers,
                epsilon,
                1,
            ) + pull_worth(sites, powers, epsilon, 2) + pull_worth(sites, powers, epsilon, 3)
                + pull_worth(sites, powers, epsilon, 4);
            0x80_0000 * off(together as int, pow2(149) as int) <= pow2(149)
        }),
{
    let p = (
        lemma_zone_share(sites, powers, epsilon, 0),
        lemma_zone_share(sites, powers, epsilon, 1),
        lemma_zone_share(sites, powers, epsilon, 2),
        lemma_zone_share(sites, powers, epsilon, 3),
        lemma_zone_share(sites, powers, epsilon, 4),
    );
    let n = sites.len() as int;
    let inv = worth(inverse(sites, powers, epsilon));
    let w = (
        worth(zone_weight(sites, powers, epsilon, 0, n)),
        worth(zone_weight(sites, powers, epsilon, 1, n)),
        worth(zone_weight(sites, powers, epsilon, 2, n)),
        worth(zone_weight(sites, powers, epsilon, 3, n)),
        worth(zone_weight(sites, powers, epsilon, 4, n)),
    );
    let s = (
        pull_worth(sites, powers, epsilon, 0),
        pull_worth(sites, powers, epsilon, 1),
        pull_worth(sites, powers, epsilon, 2),
        pull_worth(sites, powers, epsilon, 3),
        pull_worth(sites, powers, epsilon, 4),
    );
    lemma_inverse(sites, powers, epsilon);
    reveal_with_fuel(exact_sum, 6);
    let parts = (
        (w.0 * inv) as nat,
        (w.1 * inv) as nat,
        (w.2 * inv) as nat,
        (w.3 * inv) as nat,
        (w.4 * inv) as nat,
    );
    assert((w.0 + w.1 + w.2 + w.3 + w.4) * inv == w.0 * inv + w.1 * inv + w.2 * inv + w.3 * inv
        + w.4 * inv) by (nonlinear_arith);
    let (u, h) = (unit(), pow2(925));
    lemma_pow2_adds(149, 925);
    lemma_pow2_pos(925);
    lemma_pow2_pos(149);
    crate::float::lemma_pow2_values();
    vstd::arithmetic::power2::lemma2_to64();
    lemma_powers(64, 1074);
    lemma_pow2_adds(32, 925);
    lemma_powers(957, 1074);
    lemma_shares_add_up(parts, p, s, u, h);
    let together = s.0 + s.1 + s.2 + s.3 + s.4;
    let one = pow2(149);
    let gap = off(together as int, one as int);
    assert(off((together * h) as int, (one * h) as int) == gap * h) by (nonlinear_arith)
        requires
            gap == off(together as int, one as int),
            h > 0,
    ;
    assert(0x80_0000 * gap <= one) by (nonlinear_arith)
        requires
            0x80_0000 * (gap * h) <= one * h,
            h > 0,
    ;
}

/// Among plain numbers the order is that of the bits.
pub proof fn lemma_within(x: F64, lo: F64, hi: F64)
    requires
        plain(lo),
        plain(x),
        plain(hi),
        lo.bits <= x.bits <= hi.bits,
    ensures
        x.within(lo, hi),
{
    reveal(F64::at_most);
    lemma_double();
}

/// A number and a share of another, where the two together do not exceed a
/// third.
proof fn lemma_eased(base: F64, u: F64, part: F64, hi: F64)
    requires
        plain(base),
        plain(u),
        worth(u) <= unit(),
        plain(part),
        plain(hi),
        worth(base) + worth(part) <= worth(hi),
    ensures
        base.sum(u.product(part)).within(base, hi),
{
    lemma_share_at_most(u, part);
    lemma_worth_order(u.product(part), part);
    lemma_sum_at_most(base, u.product(part), hi);
    lemma_within(base.sum(u.product(part)), base, hi);
}

/// The street frame of a district is gentle: its orientation is one of seven,
/// its long wave is of 0.5 to 1.5 cells over 40 to 80, and its short wave of
/// 0.3 to 1 over 12 to 30.
pub proof fn law_frames_are_gentle(site: i64, seed: u64)
    ensures
        ({
            let f = frame_of(site, seed);
            &&& exists|i: int|
                0 <= i < 7 && f.angle_rad == radians(#[trigger] orientation(i))
            &&& f.warp_amp.within(
                F64 { bits: 0x3fe0_0000_0000_0000 },
                F64 { bits: 0x3ff8_0000_0000_0000 },
            )
            &&& f.warp_len.within(
                F64 { bits: 0x4044_0000_0000_0000 },
                F64 { bits: 0x4054_0000_0000_0000 },
            )
            &&& f.warp_amp2.within(
                F64 { bits: 0x3fd3_3333_3333_3333 },
                F64 { bits: 0x3ff0_0000_0000_0000 },
            )
            &&& f.warp_len2.within(
                F64 { bits: 0x4028_0000_0000_0000 },
                F64 { bits: 0x403e_0000_0000_0000 },
            )
        }),
{
    let f = frame_of(site, seed);
    let turn = coord_hash(site, 0, seed, domain::ORIENTATION) as int % 7;
    assert(f.angle_rad == radians(orientation(turn)));
    assert forall|k: i64|
        plain(#[trigger] district_unit(site, k, seed)) && worth(district_unit(site, k, seed))
            <= unit() by {
        law_unit_draw_range(site, k, seed, domain::ORIENTATION);
        lemma_widened(coord_unit(site, k, seed, domain::ORIENTATION));
    }
    let w = pow2(1020);
    lemma_pow2_unfold(1021);
    lemma_pow2_unfold(1022);
    lemma_pow2_unfold(1023);
    lemma_pow2_unfold(1024);
    lemma_pow2_unfold(1025);
    lemma_pow2_unfold(1026);
    lemma_pow2_unfold(1027);
    lemma_pow2_unfold(1028);
    lemma_pow2_adds(1022, 52);
    crate::float::lemma_pow2_values();
    // 0.5, 1.5.
    let (half, three) = (F64 { bits: 0x3fe0_0000_0000_0000 }, F64 { bits: 0x3ff8_0000_0000_0000 });
    lemma_worth_value(half, 1021, 0x10_0000_0000_0000);
    lemma_worth_value(three, 1022, 0x18_0000_0000_0000);
    lemma_sum_at_most(half, district_unit(site, 1, seed), three);
    lemma_within(f.warp_amp, half, three);
    // 40, 80.
    let (c40, c80) = (F64 { bits: 0x4044_0000_0000_0000 }, F64 { bits: 0x4054_0000_0000_0000 });
    lemma_worth_value(c40, 1027, 0x14_0000_0000_0000);
    lemma_worth_value(c80, 1028, 0x14_0000_0000_0000);
    lemma_eased(c40, district_unit(site, 2, seed), c40, c80);
    // 0.3, 0.7, 1.
    let (c3, c7) = (F64 { bits: 0x3fd3_3333_3333_3333 }, F64 { bits: 0x3fe6_6666_6666_6666 });
    let one = F64 { bits: ONE };
    lemma_worth_value(c3, 1020, 0x13_3333_3333_3333);
    lemma_worth_value(c7, 1021, 0x16_6666_6666_6666);
    lemma_worth_value(one, 1022, 0x10_0000_0000_0000);
    lemma_eased(c3, district_unit(site, 4, seed), c7, one);
    // 12, 18, 30.
    let (c12, c18) = (F64 { bits: 0x4028_0000_0000_0000 }, F64 { bits: 0x4032_0000_0000_0000 });
    let c30 = F64 { bits: 0x403e_0000_0000_0000 };
    lemma_worth_value(c12, 1025, 0x18_0000_0000_0000);
    lemma_worth_value(c18, 1026, 0x12_0000_0000_0000);
    lemma_worth_value(c30, 1026, 0x1e_0000_0000_0000);
    lemma_eased(c12, district_unit(site, 5, seed), c18, c30);
}

/// A draw in double precision is at most 1.
pub proof fn lemma_long_unit(h: u64)
    ensures
        plain(long_unit(h)),
        worth(long_unit(h)) <= unit(),
{
    let f = double();
    let n = (h >> 11) as nat;
    reveal(F64::fraction);
    lemma_double();
    crate::float::lemma_pow2_values();
    assert(h >> 11 < 0x20_0000_0000_0000) by (bit_vector);
    lemma_rounded_exact(f, n, 1021);
    lemma_pow2_adds(53, 1021);
    lemma_pow2_pos(1021);
    assert(n * pow2(1021) <= pow2(53) * pow2(1021)) by (nonlinear_arith)
        requires
            n <= pow2(53),
    ;
}

/// A hash spread over `-span..span` stays there.
pub proof fn law_spread_stays(h: u64, span: F64)
    requires
        0 < span.bits < 0x7fd0_0000_0000_0000,
    ensures
        spread(h, span).within(span.negation(), span),
{
    let f = double();
    let two = F64 { bits: TWO };
    let u = long_unit(h);
    let s = worth(span);
    lemma_double();
    lemma_plain(span);
    lemma_long_unit(h);
    // Twice the span is exact.
    let twice = two.product(span);
    assert(plain(twice) && worth(twice) == 2 * s) by {
        reveal(F64::product);
        let m = span.bits as nat;
        lemma_worth_value(two, 1023, 0x10_0000_0000_0000);
        lemma_plain(two);
        lemma_fields(f, m);
        let (a, e) = (significand(f, m), scale(f, m));
        assert(e <= 2043);
        assert(significand(f, TWO as nat) == 0x10_0000_0000_0000 && scale(f, TWO as nat) == 1023);
        crate::float::lemma_pow2_values();
        lemma_rounded_scale(f, a, 52, 1023 + e - 1074);
        assert(a * 0x10_0000_0000_0000 == 0x10_0000_0000_0000 * a);
        lemma_rounded_exact(f, a, e + 1);
        lemma_pow2_unfold(e + 1);
        assert(a * pow2(e + 1) == 2 * (a * pow2(e))) by (nonlinear_arith)
            requires
                pow2(e + 1) == 2 * pow2(e),
        ;
    }
    let t = u.product(twice);
    lemma_share_at_most(u, twice);
    lemma_worth_order(t, twice);
    lemma_plain(t);
    let x = spread(h, span);
    reveal(F64::negation);
    reveal(F64::sum);
    reveal(F64::at_most);
    let back = span.negation();
    assert(magnitude(f, back.bits) == span.bits && negative(f, back.bits));
    assert(value(f, back.bits) == -(s as int));
    assert(value(f, t.bits) == worth(t));
    let gap = off(worth(t) as int, s as int) as nat;
    lemma_rounding_keeps_order(f, gap, s, 0);
    lemma_rounded_own(f, span.bits as nat);
}

/// Giving sites their zones moves none.
pub proof fn lemma_sites_stay(sites: Seq<VoronoiSite>, i: int)
    requires
        0 <= i < sites.len(),
    ensures
        buffered(centred(sites))[i].x == sites[i].x,
        buffered(centred(sites))[i].y == sites[i].y,
{
    let mid = centred(sites);
    lemma_central(sites, sites.len() as int);
    assert(mid.len() == sites.len());
    assert(mid[i].x == sites[i].x && mid[i].y == sites[i].y);
}

/// Every site lies within the span.
pub proof fn law_sites_lie_within_the_span(c: WorldConfig, i: int)
    requires
        0 < c.voronoi_span.bits < 0x7fd0_0000_0000_0000,
        0 <= i < c.voronoi_site_count,
    ensures
        site_map(c)[i].x.within(c.voronoi_span.negation(), c.voronoi_span),
        site_map(c)[i].y.within(c.voronoi_span.negation(), c.voronoi_span),
{
    law_spread_stays(coord_hash(i as i64, 0, c.seed, domain::SITE_X), c.voronoi_span);
    law_spread_stays(coord_hash(i as i64, 0, c.seed, domain::SITE_Y), c.voronoi_span);
    let drawn = Seq::new(c.voronoi_site_count as nat, |k: int| drawn_site(c, k));
    lemma_sites_stay(drawn, i);
}

/// The square of the distance to the nearest downtown is not negative.
proof fn lemma_downtown2(sites: Seq<VoronoiSite>, x: F64, z: F64, n: int)
    requires
        0 <= n <= sites.len(),
    ensures
        ({
            let d2 = downtown2(sites, x, z, n);
            d2.is_bounded() ==> plain(d2)
        }),
    decreases n,
{
    reveal(F64::is_bounded);
    lemma_double();
    if n > 0 {
        lemma_downtown2(sites, x, z, n - 1);
        let s = sites[n - 1];
        let d = gap2(s.x, s.y, x, z);
        lemma_squares_are_not_negative(s.x.difference(x), s.y.difference(z));
    }
}

/// Half, divided by a number from 1 on, is at most half.
pub proof fn lemma_half_over(y: F64)
    requires
        0x3ff0_0000_0000_0000 <= y.bits <= 0x7ff0_0000_0000_0000,
    ensures
        (F64 { bits: HALF_DOUBLE }).quotient(y).bits <= HALF_DOUBLE,
{
    let f = double();
    let half = F64 { bits: HALF_DOUBLE };
    reveal(F64::quotient);
    lemma_double();
    crate::float::lemma_pow2_values();
    vstd::arithmetic::power2::lemma2_to64();
    if y.bits < 0x7ff0_0000_0000_0000 {
        let m = y.bits as nat;
        lemma_fields(f, m);
        let num: nat = 0x10_0000_0000_0000;
        let (den, s) = (significand(f, m), scale(f, m));
        assert(significand(f, HALF_DOUBLE as nat) == num);
        assert(scale(f, HALF_DOUBLE as nat) == 1021);
        assert(1022 <= s <= 2045);
        let e = 2095 - s;
        lemma_bit_length_unique(num, 53);
        lemma_bit_length_unique(den, 53);
        assert(den * pow2(0) == den) by (nonlinear_arith)
            requires
                pow2(0) == 1,
        ;
        let k = ratio_order(num, den);
        assert(k == if num < den { 0int } else { 1 });
        let d = if -e >= k - 53 {
            -e
        } else {
            k - 53
        };
        let c = pow2((-d) as nat);
        lemma_pow2_pos((-d) as nat);
        let q = nearest(num * c, den);
        // The quotient of the significands is at most 1.
        assert(q <= c) by {
            assert(num * c <= den * c) by (nonlinear_arith)
                requires
                    num <= den,
            ;
            lemma_nearest_keeps_order(num * c, den * c, den);
            vstd::arithmetic::div_mod::lemma_fundamental_div_mod_converse(
                (den * c) as int,
                den as int,
                c as int,
                0,
            );
        }
        let bits = (e + d) * f.step() + q;
        if d == -e {
            lemma_powers(e as nat, 53);
            assert(bits <= HALF_DOUBLE);
        } else {
            assert(bits <= HALF_DOUBLE);
        }
    }
}

/// The pull of the centre on heights runs from 1 to 1.5.
pub proof fn law_centre_pull_range(sites: Seq<VoronoiSite>, x: F64, z: F64)
    ensures
        0x3f80_0000 <= centre_pull(sites, x, z).bits <= 0x3fc0_0000,
{
    let one = F64 { bits: ONE };
    let f = double();
    let d2 = downtown2(sites, x, z, sites.len() as int);
    lemma_downtown2(sites, x, z, sites.len() as int);
    lemma_double();
    if d2.is_bounded() {
        let knee = F64 { bits: 0x4097_7000_0000_0000 };
        let root = d2.root();
        assert(plain(root)) by {
            reveal(F64::root);
            if d2.bits > 0 {
                lemma_plain(d2);
                lemma_root_finite(f, d2.bits as nat);
            }
        }
        let r = root.quotient(knee);
        assert(r.bits <= 0x7ff0_0000_0000_0000) by {
            reveal(F64::quotient);
            lemma_plain(root);
            lemma_ratio_bound(
                f,
                significand(f, root.bits as nat),
                significand(f, knee.bits as nat),
                scale(f, root.bits as nat) - scale(f, knee.bits as nat) + f.depth(),
            );
        }
        let rr = r.product(r);
        assert(rr.bits <= 0x7ff0_0000_0000_0000) by {
            reveal(F64::product);
            let m = r.bits as nat;
            lemma_rounded_bound(
                f,
                significand(f, m) * significand(f, m),
                scale(f, m) + scale(f, m) - f.depth(),
            );
        }
        let y = one.sum(rr);
        assert(0x3ff0_0000_0000_0000 <= y.bits <= 0x7ff0_0000_0000_0000) by {
            reveal(F64::sum);
            if plain(rr) {
                lemma_plain(one);
                lemma_plain(rr);
                lemma_worth_value(one, 1022, 0x10_0000_0000_0000);
                lemma_pow2_pos(1022);
                lemma_rounded_bound(f, worth(one) + worth(rr), 0);
                lemma_rounding_keeps_order(f, worth(one), worth(one) + worth(rr), 0);
                lemma_rounded_own(f, one.bits as nat);
            }
        }
        lemma_half_over(y);
        let half = F64 { bits: HALF_DOUBLE };
        let q = half.quotient(y);
        let top = F64 { bits: 0x3ff8_0000_0000_0000 };
        crate::float::lemma_pow2_values();
        lemma_worth_value(one, 1022, 0x10_0000_0000_0000);
        lemma_worth_value(half, 1021, 0x10_0000_0000_0000);
        lemma_worth_value(top, 1022, 0x18_0000_0000_0000);
        lemma_pow2_unfold(1022);
        lemma_worth_order(q, half);
        lemma_sum_at_most(one, q, top);
        let v = one.sum(q);
        // The bounds are singles.
        lemma_narrowing_keeps_order(one, v);
        lemma_narrowing_keeps_order(v, top);
        let (low, high) = (F32 { bits: 0x3f80_0000 }, F32 { bits: 0x3fc0_0000 });
        lemma_single();
        lemma_packed(single(), 126, 0x80_0000);
        lemma_packed(single(), 126, 0xc0_0000);
        lemma_pow2_adds(126, 896);
        lemma_pow2_adds(29, 896);
        assert(pow2(29) == 0x2000_0000) by {
            vstd::arithmetic::power2::lemma2_to64();
        }
        assert(0x10_0000_0000_0000 * pow2(1022) == (0x80_0000 * pow2(126)) * pow2(925))
            by (nonlinear_arith)
            requires
                pow2(1022) == pow2(126) * pow2(896),
                pow2(925) == 0x2000_0000 * pow2(896),
        ;
        assert(0x18_0000_0000_0000 * pow2(1022) == (0xc0_0000 * pow2(126)) * pow2(925))
            by (nonlinear_arith)
            requires
                pow2(1022) == pow2(126) * pow2(896),
                pow2(925) == 0x2000_0000 * pow2(896),
        ;
        lemma_narrowing_exact(one, low);
        lemma_narrowing_exact(top, high);
    }
}

/// The square of the distance from a site to a point.
pub open spec fn apart2(s: VoronoiSite, x: F64, z: F64) -> F64 {
    gap2(s.x, s.y, x, z)
}

/// The nearest site is the nearest: no site is nearer, and an earlier one is
/// as near only where the earlier one is chosen.
pub proof fn law_nearest_is_nearest(sites: Seq<VoronoiSite>, x: F64, z: F64, n: int)
    requires
        0 <= n <= sites.len(),
    ensures
        ({
            let (i, d) = nearest_site(sites, x, z, n);
            &&& forall|j: int| 0 <= j < n ==> !(#[trigger] apart2(sites[j], x, z)).below(d)
            &&& d.is_bounded() ==> {
                &&& 0 <= i < n
                &&& d == apart2(sites[i], x, z)
                &&& forall|j: int|
                    0 <= j < i ==> !(#[trigger] apart2(sites[j], x, z)).at_most(d)
            }
        }),
    decreases n,
{
    reveal(F64::below);
    reveal(F64::at_most);
    reveal(F64::is_bounded);
    lemma_double();
    if n > 0 {
        law_nearest_is_nearest(sites, x, z, n - 1);
        let (i, best) = nearest_site(sites, x, z, n - 1);
        let d = apart2(sites[n - 1], x, z);
        if d.below(best) {
            assert forall|j: int| 0 <= j < n - 1 implies !(#[trigger] apart2(sites[j], x, z)).at_most(
                d,
            ) by {
                assert(!apart2(sites[j], x, z).below(best));
            }
        }
    }
}

/// The squares of the two least distances are not negative.
proof fn lemma_two_nearest_range(sites: Seq<VoronoiSite>, x: F64, z: F64, n: int)
    requires
        0 <= n <= sites.len(),
    ensures
        two_nearest(sites, x, z, n).first_d2.bits <= INFINITY,
        two_nearest(sites, x, z, n).second_d2.bits <= INFINITY,
    decreases n,
{
    reveal(F64::below);
    lemma_double();
    if n > 0 {
        lemma_two_nearest_range(sites, x, z, n - 1);
        let s = sites[n - 1];
        lemma_squares_are_not_negative(s.x.difference(x), s.y.difference(z));
    }
}

/// The two nearest sites are the nearest and the next: no site but the first
/// is nearer than the second, and none is nearer than the first.
pub proof fn law_two_nearest(sites: Seq<VoronoiSite>, x: F64, z: F64, n: int)
    requires
        0 <= n <= sites.len(),
    ensures
        ({
            let t = two_nearest(sites, x, z, n);
            &&& !t.second_d2.below(t.first_d2)
            &&& forall|j: int|
                0 <= j < n ==> !(#[trigger] apart2(sites[j], x, z)).below(t.first_d2)
            &&& t.first_d2.is_bounded() ==> 0 <= t.first < n && t.first_d2 == apart2(
                sites[t.first],
                x,
                z,
            )
            &&& t.second_d2.is_bounded() ==> {
                &&& t.first_d2.is_bounded()
                &&& 0 <= t.second < n
                &&& t.second != t.first
                &&& t.second_d2 == apart2(sites[t.second], x, z)
            }
            &&& forall|j: int|
                0 <= j < n && j != t.first ==> !(#[trigger] apart2(sites[j], x, z)).below(
                    t.second_d2,
                )
        }),
    decreases n,
{
    reveal(F64::below);
    reveal(F64::is_bounded);
    lemma_double();
    if n > 0 {
        law_two_nearest(sites, x, z, n - 1);
        let s = sites[n - 1];
        let d = apart2(s, x, z);
        lemma_squares_are_not_negative(s.x.difference(x), s.y.difference(z));
        lemma_two_nearest_range(sites, x, z, n - 1);
    }
}

} // verus!
