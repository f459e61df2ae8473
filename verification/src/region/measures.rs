//! Distances between sites and points, and what follows from them.
use crate::double::error::{
    lemma_narrowing_exact, lemma_narrowing_keeps_order, lemma_plain, lemma_share_at_most,
    lemma_sum_at_most, lemma_sum_not_less, lemma_worth_order, lemma_worth_value, plain, unit, worth,
};
use crate::double::{double, lemma_double, F64};
use crate::float::error::lemma_rounding_keeps_order;
use crate::float::laws::{lemma_absolute_increases, off};
use crate::float::order::{
    lemma_product_exact, lemma_product_order, lemma_quotient_order, lemma_sum_exact,
    lemma_turned_exact, size, stands,
};
use crate::float::{lemma_rounded_bound, lemma_rounded_exact, value};
use crate::region::draws::law_draws_are_fractions;
use crate::region::laws::{
    inverse, lemma_site_weight, lemma_zone_share, measured, moderate, valid_guard,
};
use crate::single::order::is_binary;
use crate::single::F32;
use crate::region::{
    gap2, long_unit, site_weight, spread, zone_pull, zone_weight, VoronoiSite, ONE, TWO,
};
use crate::zones::ZONE_COUNT;
use vstd::arithmetic::power2::{lemma_pow2_adds, lemma_pow2_pos, lemma_pow2_unfold, pow2};
use vstd::prelude::*;

verus! {

/// Does the number stand for `n` over two to the `k`?
pub open spec fn is_dyadic(x: F64, n: int, k: nat) -> bool {
    k <= 1074 && stands(double(), x.bits, n, (1074 - k) as nat)
}

/// Is the number an integer, and which?
pub open spec fn is_whole(x: F64, n: int) -> bool {
    is_dyadic(x, n, 0)
}

/// The coordinates of cells below two to the 53 are exact.
pub proof fn law_coordinates_are_exact(n: int)
    requires
        size(n) < 0x20_0000_0000_0000,
    ensures
        is_whole(F64::integer(n), n),
{
    reveal(F64::integer);
    lemma_double();
    crate::float::lemma_pow2_values();
    lemma_rounded_exact(double(), size(n), 1074);
    let w = pow2(1074);
    assert((-n) * w == -(n * w)) by (nonlinear_arith);
}

/// A sum that fits is exact.
pub proof fn lemma_dyadic_sum(a: F64, b: F64, n: int, m: int, k: nat)
    requires
        is_dyadic(a, n, k),
        is_dyadic(b, m, k),
        size(n + m) < 0x20_0000_0000_0000,
    ensures
        is_dyadic(a.sum(b), n + m, k),
{
    reveal(F64::sum);
    lemma_double();
    crate::float::lemma_pow2_values();
    lemma_sum_exact(double(), a.bits, b.bits, n, m, (1074 - k) as nat);
}

/// The negative of a number is exact.
pub proof fn lemma_dyadic_negation(a: F64, n: int, k: nat)
    requires
        is_dyadic(a, n, k),
    ensures
        is_dyadic(a.negation(), -n, k),
{
    reveal(F64::negation);
    lemma_double();
    lemma_turned_exact(double(), a.bits, n, (1074 - k) as nat);
}

/// A product that fits is exact.
pub proof fn lemma_dyadic_product(a: F64, b: F64, n: int, m: int, k: nat, l: nat)
    requires
        is_dyadic(a, n, k),
        is_dyadic(b, m, l),
        k + l <= 1074,
        size(n * m) < 0x20_0000_0000_0000,
    ensures
        is_dyadic(a.product(b), n * m, k + l),
{
    reveal(F64::product);
    lemma_double();
    crate::float::lemma_pow2_values();
    lemma_product_exact(
        double(),
        a.bits,
        b.bits,
        n,
        m,
        (1074 - k) as nat,
        (1074 - l) as nat,
    );
}

/// A number by its digits: `n` times two to the `t` of them.
pub proof fn lemma_dyadic_digits(x: F64, s: nat, a: nat, n: nat, t: nat)
    requires
        x.bits == s * 0x10_0000_0000_0000 + a,
        0x10_0000_0000_0000 <= a < 0x20_0000_0000_0000,
        a == n * pow2(t),
        s + t <= 1074,
    ensures
        is_dyadic(x, n as int, (1074 - s - t) as nat),
{
    lemma_worth_value(x, s, a);
    lemma_plain(x);
    lemma_double();
    lemma_pow2_adds(t, s);
    let (p, q) = (pow2(t), pow2(s));
    assert((n * p) * q == n * (p * q)) by (nonlinear_arith);
}

/// A draw keeps its parts in double precision.
pub proof fn lemma_widened_parts(u: F32, r: int)
    requires
        u.bits <= 0x3f80_0000,
        is_binary(u, r, 12),
    ensures
        is_dyadic(F64::widened(u), r, 12),
{
    crate::single::lemma_single();
    lemma_double();
    crate::double::error::lemma_widened(u);
    lemma_plain(F64::widened(u));
    lemma_pow2_adds(137, 925);
    let (p, q) = (pow2(137), pow2(925));
    assert((r * p) * q == r * (p * q)) by (nonlinear_arith);
}

/// Distances are those of the plane: between two whole points the square of
/// the distance is the sum of the squares of the two offsets, exactly.
pub proof fn law_gaps_are_distances(
    ax: F64,
    ay: F64,
    bx: F64,
    by: F64,
    a: (int, int),
    b: (int, int),
)
    requires
        is_whole(ax, a.0),
        is_whole(ay, a.1),
        is_whole(bx, b.0),
        is_whole(by, b.1),
        size(a.0 - b.0) <= 0x200_0000,
        size(a.1 - b.1) <= 0x200_0000,
    ensures
        is_whole(
            gap2(ax, ay, bx, by),
            (a.0 - b.0) * (a.0 - b.0) + (a.1 - b.1) * (a.1 - b.1),
        ),
{
    let (u, v) = (a.0 - b.0, a.1 - b.1);
    lemma_dyadic_negation(bx, b.0, 0);
    lemma_dyadic_negation(by, b.1, 0);
    lemma_dyadic_sum(ax, bx.negation(), a.0, -b.0, 0);
    lemma_dyadic_sum(ay, by.negation(), a.1, -b.1, 0);
    let (dx, dy) = (ax.difference(bx), ay.difference(by));
    lemma_square(u);
    lemma_square(v);
    lemma_dyadic_product(dx, dx, u, u, 0, 0);
    lemma_dyadic_product(dy, dy, v, v, 0, 0);
    lemma_dyadic_sum(dx.product(dx), dy.product(dy), u * u, v * v, 0);
}

proof fn lemma_square(u: int)
    requires
        size(u) <= 0x200_0000,
    ensures
        0 <= u * u <= 0x4_0000_0000_0000,
{
    assert(0 <= u * u <= 0x200_0000 * 0x200_0000) by (nonlinear_arith)
        requires
            -0x200_0000 <= u <= 0x200_0000,
    ;
}

/// A hash is spread evenly: where the first 21 bits of the hash are `k` and
/// the next 32 are zero, and the span is a whole number, it comes to the span
/// times `2 k / 2^21 - 1`, exactly.
pub proof fn law_spread_is_even(h: u64, span: F64, k: int, s: int)
    requires
        h as nat / 2048 == k * 0x1_0000_0000,
        is_whole(span, s),
        0 < s < 0x4000_0000,
    ensures
        is_dyadic(spread(h, span), s * (k - 0x10_0000), 20),
{
    let u = long_unit(h);
    let two = F64 { bits: TWO };
    law_draws_are_fractions(h);
    lemma_double();
    assert(0 <= k < 0x20_0000);
    crate::float::lemma_pow2_values();
    vstd::arithmetic::power2::lemma2_to64();
    // The draw is k over two to the 21.
    lemma_pow2_adds(21, 1053);
    lemma_pow2_pos(1053);
    lemma_plain(u);
    let p = pow2(1053);
    assert(worth(u) == k * p) by (nonlinear_arith)
        requires
            worth(u) * 0x20_0000_0000_0000 == (k * 0x1_0000_0000) * unit(),
            unit() == 0x20_0000 * p,
    ;
    assert(is_dyadic(u, k, 21));
    lemma_worth_value(two, 1023, 0x10_0000_0000_0000);
    lemma_plain(two);
    lemma_pow2_adds(51, 1023);
    assert(is_whole(two, 2)) by {
        assert(pow2(51) == 0x8_0000_0000_0000) by {
            lemma_pow2_unfold(52);
        }
    }
    lemma_dyadic_product(two, span, 2, s, 0, 0);
    let twice = two.product(span);
    assert(0 <= k * (2 * s) < 0x20_0000_0000_0000) by (nonlinear_arith)
        requires
            0 <= k < 0x20_0000,
            0 < s < 0x4000_0000,
    ;
    lemma_dyadic_product(u, twice, k, 2 * s, 21, 0);
    let t = u.product(twice);
    lemma_dyadic_negation(span, s, 0);
    let back = span.negation();
    // Everything in parts of two to the 20.
    let q = pow2(1054);
    lemma_pow2_unfold(1054);
    lemma_pow2_adds(20, 1054);
    assert(pow2(20) == 0x10_0000);
    assert(value(double(), t.bits) == (k * s) * q) by (nonlinear_arith)
        requires
            value(double(), t.bits) == (k * (2 * s)) * p,
            q == 2 * p,
    ;
    assert(value(double(), back.bits) == (-(s * 0x10_0000)) * q) by (nonlinear_arith)
        requires
            value(double(), back.bits) == (-s) * pow2(1074),
            pow2(1074) == 0x10_0000 * q,
    ;
    assert(size(-(s * 0x10_0000) + k * s) < 0x20_0000_0000_0000
        && -(s * 0x10_0000) + k * s == s * (k - 0x10_0000)) by (nonlinear_arith)
        requires
            0 <= k < 0x20_0000,
            0 < s < 0x4000_0000,
            size(-(s * 0x10_0000) + k * s) == if -(s * 0x10_0000) + k * s < 0 {
                -(-(s * 0x10_0000) + k * s)
            } else {
                -(s * 0x10_0000) + k * s
            },
    ;
    assert(is_dyadic(back, -(s * 0x10_0000), 20));
    assert(is_dyadic(t, k * s, 20));
    lemma_dyadic_sum(back, t, -(s * 0x10_0000), k * s, 20);
}

/// The larger the hash, the farther along the span.
pub proof fn law_spread_keeps_order(h: u64, g: u64, span: F64)
    requires
        h <= g,
        0 < span.bits < 0x7fd0_0000_0000_0000,
    ensures
        !spread(g, span).below(spread(h, span)),
{
    let f = double();
    lemma_double();
    law_draws_are_fractions(h);
    law_draws_are_fractions(g);
    let (u, v) = (long_unit(h), long_unit(g));
    let twice = (F64 { bits: TWO }).product(span);
    assert(worth(u) <= worth(v)) by {
        let (a, b) = (h as nat / 2048, g as nat / 2048);
        assert(a <= b) by (nonlinear_arith)
            requires
                a == h as nat / 2048,
                b == g as nat / 2048,
                h <= g,
        ;
        assert(a * unit() <= b * unit()) by (nonlinear_arith)
            requires
                a <= b,
        ;
    }
    lemma_plain(span);
    assert(twice.bits <= 0x7ff0_0000_0000_0000) by {
        reveal(F64::product);
        lemma_rounded_bound(
            f,
            crate::float::significand(f, TWO as nat) * crate::float::significand(
                f,
                span.bits as nat,
            ),
            crate::float::scale(f, TWO as nat) + crate::float::scale(f, span.bits as nat)
                - f.depth(),
        );
    }
    assert(plain(twice)) by {
        let top = F64 { bits: 0x7fd0_0000_0000_0000 };
        let two = F64 { bits: TWO };
        lemma_worth_order(span, top);
        let (x, y, z) = (worth(two), worth(span), worth(top));
        assert(x * y <= x * z) by (nonlinear_arith)
            requires
                y <= z,
        ;
        lemma_product_order(f, TWO, span.bits, TWO, top.bits);
        reveal(F64::product);
        lemma_doubled_top();
    }
    lemma_share_at_most(u, twice);
    lemma_share_at_most(v, twice);
    let (s, t) = (u.product(twice), v.product(twice));
    assert(s.bits <= t.bits) by {
        reveal(F64::product);
        let (x, y, z) = (worth(u), worth(v), worth(twice));
        assert(x * z <= y * z) by (nonlinear_arith)
            requires
                x <= y,
        ;
        lemma_product_order(f, u.bits, twice.bits, v.bits, twice.bits);
    }
    lemma_worth_order(s, t);
    lemma_plain(s);
    lemma_plain(t);
    reveal(F64::negation);
    let back = span.negation();
    let (n, m, w) = (worth(s) as int, worth(t) as int, worth(span) as int);
    assert(value(f, back.bits) == -w);
    lemma_rounded_bound(f, size(n - w), 0);
    lemma_rounded_bound(f, size(m - w), 0);
    if n - w >= 0 {
        lemma_rounding_keeps_order(f, size(n - w), size(m - w), 0);
    } else if m - w < 0 {
        lemma_rounding_keeps_order(f, size(m - w), size(n - w), 0);
    }
    reveal(F64::sum);
    reveal(F64::below);
}

/// Twice the greatest span is a number.
proof fn lemma_doubled_top()
    ensures
        (F64 { bits: TWO }).product(F64 { bits: 0x7fd0_0000_0000_0000 }).bits
            < 0x7ff0_0000_0000_0000,
{
    let f = double();
    reveal(F64::product);
    lemma_double();
    crate::float::lemma_pow2_values();
    let a: nat = 0x10_0000_0000_0000;
    assert(crate::float::significand(f, TWO as nat) == a);
    assert(crate::float::scale(f, TWO as nat) == 1023);
    assert(crate::float::significand(f, 0x7fd0_0000_0000_0000) == a);
    assert(crate::float::scale(f, 0x7fd0_0000_0000_0000) == 2044);
    crate::float::lemma_rounded_scale(f, a, 52, 1993);
    lemma_rounded_exact(f, 0x10_0000_0000_0000, 2045);
}

/// The nearer a site, the greater its weight.
pub proof fn law_nearer_sites_weigh_more(p: F64, q: F64, epsilon: F64)
    requires
        moderate(p),
        moderate(q),
        p.bits <= q.bits,
        valid_guard(epsilon),
    ensures
        site_weight(q, epsilon).bits <= site_weight(p, epsilon).bits,
{
    let f = double();
    let one = F64 { bits: ONE };
    lemma_double();
    reveal(F64::at_most);
    assert(0x3d71_9799_812d_ea11 <= epsilon.bits <= 0x3f50_624d_d2f1_a9fc);
    lemma_worth_order(p, q);
    let (a, b) = (p.sum(epsilon), q.sum(epsilon));
    lemma_rounding_keeps_order(f, worth(p) + worth(epsilon), worth(q) + worth(epsilon), 0);
    lemma_rounded_bound(f, worth(q) + worth(epsilon), 0);
    crate::double::error::lemma_small_worth(F64 { bits: 0 });
    lemma_absolute_increases(f, 0, epsilon.bits as nat);
    lemma_rounding_keeps_order(f, worth(epsilon), worth(p) + worth(epsilon), 0);
    crate::float::lemma_rounded_own(f, epsilon.bits as nat);
    assert(0 < a.bits <= b.bits <= 0x7ff0_0000_0000_0000) by {
        reveal(F64::sum);
    }
    if plain(b) {
        lemma_worth_order(a, b);
        let (x, y, z) = (worth(one), worth(a), worth(b));
        assert(x * y <= x * z) by (nonlinear_arith)
            requires
                y <= z,
        ;
        lemma_quotient_order(f, ONE, b.bits, ONE, a.bits);
        reveal(F64::quotient);
    } else {
        reveal(F64::quotient);
    }
}

/// The greater the weight of a zone, the greater its pull.
pub proof fn law_pulls_follow_weights(
    sites: Seq<VoronoiSite>,
    powers: Seq<F64>,
    epsilon: F64,
    a: int,
    b: int,
)
    requires
        measured(sites, powers),
        valid_guard(epsilon),
        0 <= a < ZONE_COUNT,
        0 <= b < ZONE_COUNT,
        zone_weight(sites, powers, epsilon, a, sites.len() as int).bits <= zone_weight(
            sites,
            powers,
            epsilon,
            b,
            sites.len() as int,
        ).bits,
    ensures
        zone_pull(sites, powers, epsilon, a).bits <= zone_pull(sites, powers, epsilon, b).bits,
{
    lemma_zone_share(sites, powers, epsilon, a);
    lemma_zone_share(sites, powers, epsilon, b);
    let n = sites.len() as int;
    let v = zone_weight(sites, powers, epsilon, a, n);
    let w = zone_weight(sites, powers, epsilon, b, n);
    let inv = inverse(sites, powers, epsilon);
    lemma_double();
    lemma_worth_order(v, w);
    let (x, y, z) = (worth(v), worth(w), worth(inv));
    assert(x * z <= y * z) by (nonlinear_arith)
        requires
            x <= y,
    ;
    lemma_product_order(double(), v.bits, inv.bits, w.bits, inv.bits);
    reveal(F64::product);
    lemma_narrowing_keeps_order(v.product(inv), w.product(inv));
}

/// The weight of a zone with no site among the first `n` is nothing; with one,
/// it is the weight of that site.
proof fn lemma_sole(
    sites: Seq<VoronoiSite>,
    powers: Seq<F64>,
    epsilon: F64,
    zone: int,
    i: int,
    n: int,
)
    requires
        measured(sites, powers),
        valid_guard(epsilon),
        0 <= n <= sites.len(),
        forall|j: int|
            0 <= j < n && j != i ==> (#[trigger] sites[j]).zone.ordinal() != zone,
    ensures
        zone_weight(sites, powers, epsilon, zone, n) == (if 0 <= i < n
            && sites[i].zone.ordinal() == zone {
            site_weight(powers[i], epsilon)
        } else {
            F64 { bits: 0 }
        }),
    decreases n,
{
    if n > 0 {
        lemma_sole(sites, powers, epsilon, zone, i, n - 1);
        if n - 1 == i && sites[i].zone.ordinal() == zone {
            let w = site_weight(powers[i], epsilon);
            let zero = F64 { bits: 0 };
            lemma_site_weight(powers[i], epsilon);
            crate::double::error::lemma_small_worth(zero);
            lemma_sum_at_most(zero, w, w);
            lemma_sum_not_less(zero, w);
            let s = zero.sum(w);
            lemma_double();
            if s.bits < w.bits {
                lemma_absolute_increases(double(), s.bits as nat, w.bits as nat);
            }
        }
    }
}

/// A zone without a site has no pull.
pub proof fn law_no_site_no_pull(
    sites: Seq<VoronoiSite>,
    powers: Seq<F64>,
    epsilon: F64,
    zone: int,
)
    requires
        measured(sites, powers),
        valid_guard(epsilon),
        0 <= zone < ZONE_COUNT,
        forall|j: int| 0 <= j < sites.len() ==> (#[trigger] sites[j]).zone.ordinal() != zone,
    ensures
        zone_pull(sites, powers, epsilon, zone).bits == 0,
{
    lemma_sole(sites, powers, epsilon, zone, -1, sites.len() as int);
    lemma_zone_share(sites, powers, epsilon, zone);
    let inv = inverse(sites, powers, epsilon);
    let zero = F64 { bits: 0 };
    lemma_double();
    assert(zero.product(inv).bits == 0) by {
        reveal(F64::product);
        lemma_plain(inv);
        lemma_plain(zero);
        crate::float::lemma_fields(double(), 0);
        assert(0 * crate::float::significand(double(), inv.bits as nat) == 0);
    }
    crate::double::error::lemma_small_worth(zero);
    crate::single::lemma_single();
    crate::float::laws::lemma_zero(crate::single::single());
    assert(0 * pow2(925) == 0);
    lemma_narrowing_exact(zero, F32 { bits: 0 });
}

/// Of two zones with one site each, the one with the nearer site pulls no less.
pub proof fn law_nearer_zones_pull_more(
    sites: Seq<VoronoiSite>,
    powers: Seq<F64>,
    epsilon: F64,
    i: int,
    k: int,
)
    requires
        measured(sites, powers),
        valid_guard(epsilon),
        0 <= i < sites.len(),
        0 <= k < sites.len(),
        forall|j: int|
            0 <= j < sites.len() && j != i ==> (#[trigger] sites[j]).zone != sites[i].zone,
        forall|j: int|
            0 <= j < sites.len() && j != k ==> (#[trigger] sites[j]).zone != sites[k].zone,
        powers[i].bits <= powers[k].bits,
    ensures
        zone_pull(sites, powers, epsilon, sites[k].zone.ordinal() as int).bits <= zone_pull(
            sites,
            powers,
            epsilon,
            sites[i].zone.ordinal() as int,
        ).bits,
{
    let (a, b) = (sites[i].zone.ordinal() as int, sites[k].zone.ordinal() as int);
    lemma_sole(sites, powers, epsilon, a, i, sites.len() as int);
    lemma_sole(sites, powers, epsilon, b, k, sites.len() as int);
    law_nearer_sites_weigh_more(powers[i], powers[k], epsilon);
    law_pulls_follow_weights(sites, powers, epsilon, b, a);
}

/// The weight of a site is 1 over the power of its distance and the guard, to
/// within one part in two to the 52.
pub proof fn law_weights_are_reciprocals(power: F64, epsilon: F64)
    requires
        moderate(power),
        valid_guard(epsilon),
    ensures
        ({
            let (w, x) = (site_weight(power, epsilon), power.sum(epsilon));
            &&& plain(x)
            &&& worth(x) >= worth(power) && worth(x) >= worth(epsilon)
            &&& 0x10_0000_0000_0000 * off(
                (worth(w) * worth(x)) as int,
                (unit() * unit()) as int,
            ) <= unit() * unit()
        }),
{
    lemma_site_weight(power, epsilon);
    reveal(F64::at_most);
    lemma_double();
    lemma_sum_not_less(power, epsilon);
}

} // verus!
