//! How the sites of the districts are drawn: where they lie and which zones
//! they get.
use crate::config::{share_total, WorldConfig};
use crate::double::error::{
    lemma_plain, lemma_sum_at_most, lemma_sum_not_less, lemma_worth_order, lemma_worth_value,
    plain, unit, worth,
};
use crate::double::{double, lemma_double, lemma_squares_are_not_negative, F64};
use crate::float::laws::lemma_absolute_increases;
use crate::float::{
    finite, lemma_rounded_bound, lemma_rounded_exact, magnitude, scale, significand,
};
use crate::hash::{coord_hash, domain};
use crate::region::{
    buffered, buffered_zone, central, centred, drawn_site, drawn_zone, from_origin2, gap2,
    lemma_central, lemma_central_same, long_unit, nearest_other, share_holding, site_map,
    VoronoiSite, INFINITY, ONE,
};
use crate::zones::{ZoneType, ZONE_COUNT};
use vstd::arithmetic::power2::{lemma_pow2_adds, lemma_pow2_pos, pow2};
use vstd::prelude::*;

verus! {

/// A draw is the upper 53 bits of its hash over two to the 53.
pub proof fn law_draws_are_fractions(h: u64)
    ensures
        plain(long_unit(h)),
        worth(long_unit(h)) * 0x20_0000_0000_0000 == (h as nat / 2048) * unit(),
        worth(long_unit(h)) < unit(),
{
    let f = double();
    let n = (h >> 11) as nat;
    reveal(F64::fraction);
    lemma_double();
    crate::float::lemma_pow2_values();
    assert(h >> 11 < 0x20_0000_0000_0000 && h >> 11 == h / 2048) by (bit_vector);
    lemma_rounded_exact(f, n, 1021);
    lemma_pow2_adds(53, 1021);
    lemma_pow2_pos(1021);
    assert(n * pow2(1021) < pow2(53) * pow2(1021)) by (nonlinear_arith)
        requires
            n < pow2(53),
            pow2(1021) > 0,
    ;
    assert((n * pow2(1021)) * pow2(53) == n * (pow2(53) * pow2(1021))) by (nonlinear_arith);
}

/// Among plain numbers, smaller means worth less.
proof fn lemma_below(a: F64, b: F64)
    requires
        plain(a),
        plain(b),
    ensures
        a.below(b) <==> worth(a) < worth(b),
        a.below(b) <==> a.bits < b.bits,
{
    reveal(F64::below);
    lemma_double();
    lemma_plain(a);
    lemma_plain(b);
    if a.bits < b.bits {
        lemma_absolute_increases(double(), a.bits as nat, b.bits as nat);
    } else {
        lemma_worth_order(b, a);
    }
}

/// Adding nothing changes nothing.
proof fn lemma_sum_zero(a: F64, zero: F64)
    requires
        plain(a),
        zero.bits == 0,
    ensures
        a.sum(zero) == a,
{
    crate::double::error::lemma_small_worth(zero);
    lemma_sum_at_most(a, zero, a);
}

proof fn lemma_holding(t: F64, w: [F64; ZONE_COUNT], i: int)
    requires
        0 <= i <= ZONE_COUNT,
    ensures
        ({
            let k = share_holding(t, w, share_total(w, i), i).ordinal() as int;
            &&& k < ZONE_COUNT
            &&& i < ZONE_COUNT ==> i <= k
            &&& forall|j: int| i <= j < k ==> !t.below(#[trigger] share_total(w, j + 1))
            &&& k + 1 < ZONE_COUNT && i < ZONE_COUNT ==> t.below(share_total(w, k + 1))
        }),
    decreases ZONE_COUNT - i,
{
    if i < ZONE_COUNT {
        assert(share_total(w, i + 1) == share_total(w, i).sum(w[i]));
        lemma_holding(t, w, i + 1);
    }
}

/// Zones are drawn by their shares: the zone drawn is the one whose share
/// holds the draw, when the shares are laid end to end. No share before its
/// own reaches beyond the draw, and its own does (the last zone takes what the
/// shares leave).
pub proof fn law_zones_by_share(h: u64, w: [F64; ZONE_COUNT])
    ensures
        ({
            let t = long_unit(h);
            let k = drawn_zone(h, w).ordinal() as int;
            &&& k < ZONE_COUNT
            &&& forall|j: int| 0 <= j < k ==> !t.below(#[trigger] share_total(w, j + 1))
            &&& k + 1 < ZONE_COUNT ==> t.below(share_total(w, k + 1))
        }),
{
    lemma_holding(long_unit(h), w, 0);
}

/// Are the shares from 0 to 1 each?
pub open spec fn are_shares(w: [F64; ZONE_COUNT]) -> bool {
    forall|i: int| 0 <= i < ZONE_COUNT ==> (#[trigger] w[i]).bits <= ONE
}

/// The shares add up to no more than their number.
proof fn lemma_total(w: [F64; ZONE_COUNT], n: int)
    requires
        are_shares(w),
        0 <= n <= ZONE_COUNT,
    ensures
        plain(share_total(w, n)),
        worth(share_total(w, n)) <= n * unit(),
        n > 0 ==> worth(share_total(w, n)) >= worth(share_total(w, n - 1)),
        n > 0 ==> worth(share_total(w, n)) >= worth(w[n - 1]),
    decreases n,
{
    crate::double::error::lemma_small_worth(F64 { bits: 0 });
    let one = F64 { bits: ONE };
    crate::float::lemma_pow2_values();
    lemma_worth_value(one, 1022, 0x10_0000_0000_0000);
    lemma_pow2_adds(52, 1022);
    lemma_pow2_pos(1022);
    assert(unit() == 0x10_0000_0000_0000 * pow2(1022));
    if n > 0 {
        lemma_total(w, n - 1);
        let acc = share_total(w, n - 1);
        lemma_worth_order(w[n - 1], one);
        // 1, 2, 3, 4 and 5.
        let hi = if n == 1 {
            one
        } else if n == 2 {
            F64 { bits: 0x4000_0000_0000_0000 }
        } else if n == 3 {
            F64 { bits: 0x4008_0000_0000_0000 }
        } else if n == 4 {
            F64 { bits: 0x4010_0000_0000_0000 }
        } else {
            F64 { bits: 0x4014_0000_0000_0000 }
        };
        vstd::arithmetic::power2::lemma_pow2_unfold(1023);
        vstd::arithmetic::power2::lemma_pow2_unfold(1024);
        lemma_worth_value(F64 { bits: 0x4000_0000_0000_0000 }, 1023, 0x10_0000_0000_0000);
        lemma_worth_value(F64 { bits: 0x4008_0000_0000_0000 }, 1023, 0x18_0000_0000_0000);
        lemma_worth_value(F64 { bits: 0x4010_0000_0000_0000 }, 1024, 0x10_0000_0000_0000);
        lemma_worth_value(F64 { bits: 0x4014_0000_0000_0000 }, 1024, 0x14_0000_0000_0000);
        assert(n * unit() == (n - 1) * unit() + unit()) by (nonlinear_arith);
        if n == 1 {
            assert(worth(hi) == 1 * unit());
        } else if n == 2 {
            assert(worth(hi) == 2 * unit());
        } else if n == 3 {
            assert(worth(hi) == 3 * unit());
        } else if n == 4 {
            assert(worth(hi) == 4 * unit());
        } else {
            assert(n == 5);
            assert(worth(hi) == 5 * unit());
        }
        lemma_sum_at_most(acc, w[n - 1], hi);
        lemma_worth_order(acc.sum(w[n - 1]), hi);
        lemma_sum_not_less(acc, w[n - 1]);
    }
}

/// A zone without a share is never drawn (the last one only where the shares
/// before it fall short of 1).
pub proof fn law_no_share_no_zone(h: u64, w: [F64; ZONE_COUNT], k: int)
    requires
        are_shares(w),
        0 <= k < ZONE_COUNT,
        w[k].bits == 0,
        k + 1 < ZONE_COUNT || share_total(w, k).bits >= ONE,
    ensures
        drawn_zone(h, w).ordinal() != k,
{
    let t = long_unit(h);
    let one = F64 { bits: ONE };
    law_zones_by_share(h, w);
    law_draws_are_fractions(h);
    lemma_total(w, k);
    lemma_total(w, k + 1);
    lemma_sum_zero(share_total(w, k), w[k]);
    assert(share_total(w, k + 1) == share_total(w, k));
    lemma_below(t, share_total(w, k));
    if k > 0 {
        assert(share_total(w, k - 1 + 1) == share_total(w, k));
        crate::float::lemma_pow2_values();
        lemma_worth_value(one, 1022, 0x10_0000_0000_0000);
        lemma_pow2_adds(52, 1022);
        if share_total(w, k).bits >= ONE {
            lemma_worth_order(one, share_total(w, k));
        }
    }
}

/// The shares of nothing add up to nothing.
proof fn lemma_no_total(w: [F64; ZONE_COUNT], n: int)
    requires
        0 <= n <= ZONE_COUNT,
        forall|j: int| 0 <= j < n ==> (#[trigger] w[j]).bits == 0,
    ensures
        share_total(w, n).bits == 0,
    decreases n,
{
    if n > 0 {
        lemma_no_total(w, n - 1);
        lemma_sum_zero(share_total(w, n - 1), w[n - 1]);
    }
}

/// A zone with the whole share is always drawn, where no zone before it has
/// any.
pub proof fn law_whole_share_always(h: u64, w: [F64; ZONE_COUNT], k: int)
    requires
        are_shares(w),
        0 <= k < ZONE_COUNT,
        w[k].bits == ONE,
        forall|j: int| 0 <= j < k ==> (#[trigger] w[j]).bits == 0,
    ensures
        drawn_zone(h, w).ordinal() == k,
{
    let t = long_unit(h);
    let one = F64 { bits: ONE };
    let i = drawn_zone(h, w).ordinal() as int;
    law_zones_by_share(h, w);
    law_draws_are_fractions(h);
    if i < k {
        lemma_no_total(w, i + 1);
        lemma_below(t, share_total(w, i + 1));
    } else if i > k {
        lemma_total(w, k + 1);
        crate::float::lemma_pow2_values();
        lemma_worth_value(one, 1022, 0x10_0000_0000_0000);
        lemma_pow2_adds(52, 1022);
        lemma_below(t, share_total(w, k + 1));
    }
}

/// The larger the draw, the later the zone.
pub proof fn law_zones_are_drawn_in_order(h: u64, g: u64, w: [F64; ZONE_COUNT])
    requires
        are_shares(w),
        h <= g,
    ensures
        drawn_zone(h, w).ordinal() <= drawn_zone(g, w).ordinal(),
{
    let (i, j) = (drawn_zone(h, w).ordinal() as int, drawn_zone(g, w).ordinal() as int);
    law_zones_by_share(h, w);
    law_zones_by_share(g, w);
    law_draws_are_fractions(h);
    law_draws_are_fractions(g);
    if j < i {
        let s = share_total(w, j + 1);
        lemma_total(w, j + 1);
        lemma_below(long_unit(h), s);
        lemma_below(long_unit(g), s);
        assert(h as nat / 2048 <= g as nat / 2048) by (nonlinear_arith)
            requires
                h <= g,
        ;
        let (a, b) = (h as nat / 2048, g as nat / 2048);
        assert(a * unit() <= b * unit()) by (nonlinear_arith)
            requires
                a <= b,
        ;
    }
}

/// The most central site is the nearest to the origin: none is nearer, and
/// none before it is as near.
pub proof fn law_central_is_nearest(sites: Seq<VoronoiSite>, n: int, j: int)
    requires
        1 <= n <= sites.len(),
        0 <= j < n,
        forall|k: int| 0 <= k < n ==> from_origin2(#[trigger] sites[k]).is_bounded(),
    ensures
        0 <= central(sites, n) < n,
        !from_origin2(sites[j]).below(from_origin2(sites[central(sites, n)])),
        j < central(sites, n) ==> !from_origin2(sites[j]).at_most(
            from_origin2(sites[central(sites, n)]),
        ),
    decreases n,
{
    reveal(F64::below);
    reveal(F64::at_most);
    reveal(F64::is_bounded);
    lemma_double();
    lemma_central(sites, n);
    if n > 1 {
        let b = central(sites, n - 1);
        lemma_central(sites, n - 1);
        law_central_is_nearest(sites, n - 1, b);
        assert(from_origin2(sites[b]).is_bounded());
        assert(from_origin2(sites[n - 1]).is_bounded());
        assert(from_origin2(sites[j]).is_bounded());
        if j < n - 1 {
            law_central_is_nearest(sites, n - 1, j);
        }
    }
}

/// The nearest neighbour of a site is the nearest: no other site is nearer,
/// and its zone is that of one as near.
pub proof fn law_neighbour_is_nearest(sites: Seq<VoronoiSite>, i: int, n: int)
    requires
        0 <= i < sites.len(),
        0 <= n <= sites.len(),
    ensures
        ({
            let (d, zone) = nearest_other(sites, i, n);
            &&& forall|j: int|
                0 <= j < n && j != i ==> !gap2(
                    (#[trigger] sites[j]).x,
                    sites[j].y,
                    sites[i].x,
                    sites[i].y,
                ).below(d)
            &&& d.is_bounded() ==> exists|j: int|
                0 <= j < n && j != i && (#[trigger] sites[j]).zone == zone && gap2(
                    sites[j].x,
                    sites[j].y,
                    sites[i].x,
                    sites[i].y,
                ) == d
        }),
    decreases n,
{
    reveal(F64::below);
    reveal(F64::is_bounded);
    lemma_double();
    if n > 0 {
        law_neighbour_is_nearest(sites, i, n - 1);
        let (best, zone) = nearest_other(sites, i, n - 1);
        let s = sites[n - 1];
        let d = gap2(s.x, s.y, sites[i].x, sites[i].y);
        lemma_squares_are_not_negative(s.x.difference(sites[i].x), s.y.difference(sites[i].y));
        if n - 1 != i && d.below(best) {
            assert(sites[n - 1].zone == s.zone);
        } else if best.is_bounded() {
            let j = choose|j: int|
                0 <= j < n - 1 && j != i && (#[trigger] sites[j]).zone == zone && gap2(
                    sites[j].x,
                    sites[j].y,
                    sites[i].x,
                    sites[i].y,
                ) == best;
            assert(sites[j].zone == zone);
        }
    }
}

/// A neighbour that was residential before the change is so after it.
proof fn lemma_homes_stay(sites: Seq<VoronoiSite>, i: int, n: int)
    requires
        0 <= i < sites.len(),
        0 <= n <= sites.len(),
    ensures
        nearest_other(buffered(sites), i, n).0 == nearest_other(sites, i, n).0,
        nearest_other(sites, i, n).1 == ZoneType::Residential ==> nearest_other(
            buffered(sites),
            i,
            n,
        ).1 == ZoneType::Residential,
    decreases n,
{
    if n > 0 {
        lemma_homes_stay(sites, i, n - 1);
        let b = buffered(sites);
        assert(b[n - 1].x == sites[n - 1].x && b[n - 1].y == sites[n - 1].y);
        assert(b[i].x == sites[i].x && b[i].y == sites[i].y);
    }
}

/// A site has the zone that its own hash draws, with two exceptions: the most
/// central site is downtown, and industry whose nearest neighbour is
/// residential gives way to commerce.
pub proof fn law_zones_of_sites(c: WorldConfig, i: int)
    requires
        0 <= i < c.voronoi_site_count,
    ensures
        ({
            let m = site_map(c);
            let n = m.len() as int;
            let z = drawn_zone(
                coord_hash(i as i64, 0, c.seed, domain::SITE_ZONE),
                c.zone_weights,
            );
            &&& n == c.voronoi_site_count
            &&& i == central(m, n) ==> m[i].zone == ZoneType::Downtown
            &&& i != central(m, n) && !(z == ZoneType::Industrial && nearest_other(m, i, n).1
                == ZoneType::Residential) ==> m[i].zone == z
            &&& i != central(m, n) && z == ZoneType::Industrial && nearest_other(m, i, n).1
                == ZoneType::Residential ==> m[i].zone == ZoneType::Commercial
        }),
{
    let drawn = Seq::new(c.voronoi_site_count as nat, |k: int| drawn_site(c, k));
    let mid = centred(drawn);
    let m = site_map(c);
    let n = drawn.len() as int;
    lemma_central(drawn, n);
    lemma_central_same(drawn, mid, n);
    lemma_central_same(mid, m, n);
    lemma_homes_stay(mid, i, n);
    crate::region::lemma_neighbour(mid, i, n);
    assert(m[i].zone == buffered_zone(mid, i));
}

/// What lies nearest is the same whichever of the two points is asked from,
/// and whichever axis comes first.
pub proof fn law_gaps_are_symmetric(ax: F64, ay: F64, bx: F64, by: F64)
    requires
        ax.is_bounded(),
        ay.is_bounded(),
        bx.is_bounded(),
        by.is_bounded(),
    ensures
        gap2(ax, ay, bx, by) == gap2(bx, by, ax, ay),
        gap2(ax, ay, bx, by) == gap2(ay, ax, by, bx),
{
    lemma_difference_turns(ax, bx);
    lemma_difference_turns(ay, by);
    let dx = ax.difference(bx);
    let dy = ay.difference(by);
    lemma_square_range(dx);
    lemma_square_range(dy);
    lemma_sum_commutes(dx.product(dx), dy.product(dy));
}

/// A square is not negative.
proof fn lemma_square_range(d: F64)
    ensures
        d.product(d).bits <= INFINITY || d.product(d).bits == 0x7ff8_0000_0000_0000,
{
    reveal(F64::product);
    lemma_double();
    let m = magnitude(double(), d.bits);
    if finite(double(), d.bits) {
        lemma_rounded_bound(
            double(),
            significand(double(), m) * significand(double(), m),
            scale(double(), m) + scale(double(), m) - double().depth(),
        );
    }
}

/// The order of the two terms of a sum does not matter.
proof fn lemma_sum_commutes(a: F64, b: F64)
    requires
        a.bits <= INFINITY || a.bits == 0x7ff8_0000_0000_0000,
        b.bits <= INFINITY || b.bits == 0x7ff8_0000_0000_0000,
    ensures
        a.sum(b) == b.sum(a),
{
    reveal(F64::sum);
    lemma_double();
}

/// Turning a difference round leaves its square.
proof fn lemma_difference_turns(a: F64, b: F64)
    requires
        a.is_bounded(),
        b.is_bounded(),
    ensures
        ({
            let (d, e) = (a.difference(b), b.difference(a));
            d.product(d) == e.product(e)
        }),
{
    reveal(F64::is_bounded);
    reveal(F64::sum);
    reveal(F64::negation);
    reveal(F64::product);
    lemma_double();
}

} // verus!
