//! How the centre of the city pulls, and where the roads between districts
//! run.
use crate::double::error::{
    lemma_narrowing_exact, lemma_narrowing_keeps_order, lemma_plain, lemma_small_worth,
    lemma_worth_order, lemma_worth_value, plain, worth,
};
use crate::double::{double, lemma_double, lemma_squares_are_not_negative, F64};
use crate::float::error::{lemma_rounding_keeps_order, lemma_sum_grows};
use crate::float::order::{lemma_product_order, lemma_quotient_order};
use crate::float::roots::{lemma_root_exact, lemma_root_order};
use crate::float::{
    absolute, lemma_bit_length, lemma_nearest_exact, lemma_packed, lemma_root_finite,
    lemma_rounded_bound, lemma_rounded_own, lemma_rounded_scale, scale, significand,
};
use crate::region::laws::{apart2, law_centre_pull_range, HALF_DOUBLE};
use crate::region::{
    border_distance, centre_pull, downtown2, gap2, two_nearest, VoronoiSite, INFINITY, ONE, TWO,
};
use crate::single::{lemma_single, single, F32};
use crate::zones::ZoneType;
use vstd::arithmetic::power2::{lemma_pow2_adds, lemma_pow2_unfold, pow2};
use vstd::prelude::*;

verus! {

/// 1500, over which the pull of the centre falls off.
const KNEE: u64 = 0x4097_7000_0000_0000;

/// The nearest downtown is the nearest: no downtown site is nearer, and one is
/// as near.
pub proof fn law_downtown_is_nearest(sites: Seq<VoronoiSite>, x: F64, z: F64, n: int)
    requires
        0 <= n <= sites.len(),
    ensures
        ({
            let d = downtown2(sites, x, z, n);
            &&& d.bits <= INFINITY
            &&& forall|j: int|
                0 <= j < n && (#[trigger] sites[j]).zone == ZoneType::Downtown ==> !apart2(
                    sites[j],
                    x,
                    z,
                ).below(d)
            &&& d.is_bounded() ==> exists|j: int|
                0 <= j < n && (#[trigger] sites[j]).zone == ZoneType::Downtown && apart2(
                    sites[j],
                    x,
                    z,
                ) == d
        }),
    decreases n,
{
    reveal(F64::below);
    reveal(F64::is_bounded);
    lemma_double();
    if n > 0 {
        law_downtown_is_nearest(sites, x, z, n - 1);
        let s = sites[n - 1];
        let best = downtown2(sites, x, z, n - 1);
        let d = apart2(s, x, z);
        lemma_squares_are_not_negative(s.x.difference(x), s.y.difference(z));
        if s.zone == ZoneType::Downtown && d.below(best) {
            assert(sites[n - 1].zone == ZoneType::Downtown);
        } else if best.is_bounded() {
            let j = choose|j: int|
                0 <= j < n - 1 && (#[trigger] sites[j]).zone == ZoneType::Downtown && apart2(
                    sites[j],
                    x,
                    z,
                ) == best;
            assert(sites[j].zone == ZoneType::Downtown);
        }
    }
}

/// The pull, given the square of a distance.
spec fn pull_at(d2: F64) -> F32 {
    let one = F64 { bits: ONE };
    let r = d2.root().quotient(F64 { bits: KNEE });
    one.sum((F64 { bits: HALF_DOUBLE }).quotient(one.sum(r.product(r)))).narrowed()
}

/// The parts of the pull: the ratio of the distance, its square, 1 more than
/// that, and what it makes of a half.
spec fn ratio_at(d2: F64) -> F64 {
    d2.root().quotient(F64 { bits: KNEE })
}

spec fn over_at(d2: F64) -> F64 {
    (F64 { bits: ONE }).sum(ratio_at(d2).product(ratio_at(d2)))
}

/// The ratio of the distance rises with the distance.
proof fn lemma_ratio_rises(a: F64, b: F64)
    requires
        plain(a),
        plain(b),
        a.bits <= b.bits,
    ensures
        ratio_at(a).bits <= ratio_at(b).bits <= INFINITY,
{
    let f = double();
    lemma_double();
    let (x, y) = (a.root(), b.root());
    assert(x.bits <= y.bits && plain(y)) by {
        reveal(F64::root);
        if b.bits > 0 {
            lemma_root_finite(f, b.bits as nat);
            if a.bits > 0 {
                lemma_root_finite(f, a.bits as nat);
                lemma_root_order(f, a.bits as nat, b.bits as nat);
            }
        }
    }
    lemma_worth_order(x, y);
    let (m, n, k) = (worth(x), worth(y), worth(F64 { bits: KNEE }));
    assert(m * k <= n * k) by (nonlinear_arith)
        requires
            m <= n,
    ;
    lemma_quotient_order(f, x.bits, KNEE, y.bits, KNEE);
    reveal(F64::quotient);
}

/// 1 and the square of the ratio rise with the distance.
proof fn lemma_over_rises(a: F64, b: F64)
    requires
        plain(a),
        plain(b),
        a.bits <= b.bits,
    ensures
        ONE <= over_at(a).bits <= over_at(b).bits <= INFINITY,
{
    let f = double();
    lemma_double();
    lemma_ratio_rises(a, b);
    let (r, s) = (ratio_at(a), ratio_at(b));
    let (x, y) = (r.product(r), s.product(s));
    assert(x.bits <= y.bits <= INFINITY) by {
        reveal(F64::product);
        if s.bits < INFINITY {
            lemma_worth_order(r, s);
            let (m, n) = (worth(r), worth(s));
            assert(m * m <= n * n) by (nonlinear_arith)
                requires
                    m <= n,
            ;
            lemma_product_order(f, r.bits, r.bits, s.bits, s.bits);
        } else if r.bits < INFINITY {
            let m = r.bits as nat;
            lemma_rounded_bound(
                f,
                significand(f, m) * significand(f, m),
                scale(f, m) + scale(f, m) - f.depth(),
            );
        }
        if s.bits < INFINITY {
            let m = s.bits as nat;
            lemma_rounded_bound(
                f,
                significand(f, m) * significand(f, m),
                scale(f, m) + scale(f, m) - f.depth(),
            );
        }
    }
    reveal(F64::sum);
    lemma_sum_grows(f, ONE, x.bits);
    lemma_sum_grows(f, ONE, y.bits);
    if y.bits < INFINITY {
        lemma_worth_order(x, y);
        lemma_rounding_keeps_order(
            f,
            worth(F64 { bits: ONE }) + worth(x),
            worth(F64 { bits: ONE }) + worth(y),
            0,
        );
    }
}

/// The pull falls with the distance.
proof fn lemma_pull_falls(a: F64, b: F64)
    requires
        plain(a),
        plain(b),
        a.bits <= b.bits,
    ensures
        pull_at(b).bits <= pull_at(a).bits,
{
    let f = double();
    lemma_double();
    lemma_over_rises(a, b);
    let (y, z) = (over_at(a), over_at(b));
    let half = F64 { bits: HALF_DOUBLE };
    let one = F64 { bits: ONE };
    let (p, q) = (half.quotient(y), half.quotient(z));
    crate::region::laws::lemma_half_over(y);
    crate::region::laws::lemma_half_over(z);
    assert(q.bits <= p.bits) by {
        reveal(F64::quotient);
        if z.bits < INFINITY {
            lemma_worth_order(y, z);
            let (h, m, n) = (worth(half), worth(y), worth(z));
            assert(h * m <= h * n) by (nonlinear_arith)
                requires
                    m <= n,
            ;
            lemma_quotient_order(f, HALF_DOUBLE, z.bits, HALF_DOUBLE, y.bits);
        }
    }
    lemma_worth_order(q, p);
    let top = F64 { bits: TWO };
    crate::float::lemma_pow2_values();
    lemma_worth_value(one, 1022, 0x10_0000_0000_0000);
    lemma_worth_value(half, 1021, 0x10_0000_0000_0000);
    lemma_worth_value(top, 1023, 0x10_0000_0000_0000);
    lemma_pow2_unfold(1022);
    lemma_pow2_unfold(1023);
    lemma_worth_order(p, half);
    crate::double::error::lemma_sum_at_most(one, p, top);
    crate::double::error::lemma_sum_at_most(one, q, top);
    let (u, v) = (one.sum(p), one.sum(q));
    assert(v.bits <= u.bits) by {
        reveal(F64::sum);
        lemma_rounding_keeps_order(f, worth(one) + worth(q), worth(one) + worth(p), 0);
    }
    lemma_narrowing_keeps_order(v, u);
}

/// The pull of the centre falls off: of two points, the one whose nearest
/// downtown is nearer is pulled no less.
pub proof fn law_centre_pull_falls(
    sites: Seq<VoronoiSite>,
    near: (F64, F64),
    far: (F64, F64),
)
    requires
        downtown2(sites, near.0, near.1, sites.len() as int).bits <= downtown2(
            sites,
            far.0,
            far.1,
            sites.len() as int,
        ).bits,
    ensures
        centre_pull(sites, far.0, far.1).bits <= centre_pull(sites, near.0, near.1).bits,
{
    let n = sites.len() as int;
    let (a, b) = (downtown2(sites, near.0, near.1, n), downtown2(sites, far.0, far.1, n));
    lemma_double();
    reveal(F64::is_bounded);
    law_downtown_is_nearest(sites, near.0, near.1, n);
    law_downtown_is_nearest(sites, far.0, far.1, n);
    law_centre_pull_range(sites, near.0, near.1);
    if b.is_bounded() {
        lemma_pull_falls(a, b);
    }
}

/// A number, divided by itself, is 1.
proof fn lemma_over_itself(x: F64)
    requires
        plain(x),
        x.bits > 0,
    ensures
        x.quotient(x).bits == ONE,
{
    let f = double();
    reveal(F64::quotient);
    lemma_double();
    lemma_plain(x);
    crate::float::lemma_pow2_values();
    vstd::arithmetic::power2::lemma2_to64();
    crate::float::lemma_fields(f, x.bits as nat);
    let a = significand(f, x.bits as nat);
    lemma_bit_length(a);
    assert(a * pow2(0) == a);
    let c = pow2(52);
    assert(crate::float::nearest(a * c, a) == c) by {
        lemma_nearest_exact(c, a);
        assert(a * c == c * a) by (nonlinear_arith);
    }
}

/// A sum that is a number is that number.
proof fn lemma_sum_is(a: F64, b: F64, c: F64)
    requires
        plain(a),
        plain(b),
        plain(c),
        worth(a) + worth(b) == worth(c),
    ensures
        a.sum(b) == c,
{
    reveal(F64::sum);
    lemma_double();
    lemma_plain(a);
    lemma_plain(b);
    lemma_rounded_own(double(), c.bits as nat);
    lemma_plain(c);
    if worth(c) == 0 {
        if c.bits > 0 {
            crate::float::laws::lemma_zero(double());
            crate::float::laws::lemma_absolute_increases(double(), 0, c.bits as nat);
        }
    }
}

/// A half, divided by 1 and by 2.
proof fn lemma_halves()
    ensures
        (F64 { bits: HALF_DOUBLE }).quotient(F64 { bits: ONE }).bits == HALF_DOUBLE,
        (F64 { bits: HALF_DOUBLE }).quotient(F64 { bits: TWO }).bits == 0x3fd0_0000_0000_0000,
{
    let f = double();
    reveal(F64::quotient);
    lemma_double();
    crate::float::lemma_pow2_values();
    vstd::arithmetic::power2::lemma2_to64();
    let a: nat = 0x10_0000_0000_0000;
    assert(significand(f, HALF_DOUBLE as nat) == a && scale(f, HALF_DOUBLE as nat) == 1021);
    assert(significand(f, ONE as nat) == a && scale(f, ONE as nat) == 1022);
    assert(significand(f, TWO as nat) == a && scale(f, TWO as nat) == 1023);
    lemma_bit_length(a);
    assert(a * pow2(0) == a);
    let c = pow2(52);
    assert(crate::float::nearest(a * c, a) == c) by {
        lemma_nearest_exact(c, a);
        assert(a * c == c * a) by (nonlinear_arith);
    }
}

/// What the numbers 1, 1.25 and 1.5 are worth, and the singles they narrow to.
proof fn lemma_between_one_and_two(x: F64, y: F32, a: nat)
    requires
        0x10_0000_0000_0000 <= a < 0x20_0000_0000_0000,
        x.bits == 1022 * 0x10_0000_0000_0000 + a,
        a == 0x2000_0000 * (y.bits - 126 * 0x80_0000),
        0x3f80_0000 <= y.bits < 0x4000_0000,
    ensures
        plain(x),
        worth(x) == a * pow2(1022),
        x.narrowed() == y,
{
    lemma_worth_value(x, 1022, a);
    lemma_single();
    let b = (y.bits - 126 * 0x80_0000) as nat;
    lemma_packed(single(), 126, b);
    lemma_pow2_adds(126, 896);
    lemma_pow2_adds(29, 896);
    assert(pow2(29) == 0x2000_0000) by {
        vstd::arithmetic::power2::lemma2_to64();
    }
    let (p, q) = (pow2(126), pow2(896));
    assert(a * (p * q) == (b * p) * (0x2000_0000 * q)) by (nonlinear_arith)
        requires
            a == 0x2000_0000 * b,
    ;
    lemma_narrowing_exact(x, y);
}

/// At a downtown site the pull is 1.5; where the nearest one is 1500 cells off
/// it is 1.25; and where there is none it is 1.
pub proof fn law_centre_pull_values(sites: Seq<VoronoiSite>, x: F64, z: F64)
    ensures
        ({
            let d2 = downtown2(sites, x, z, sites.len() as int);
            let pull = centre_pull(sites, x, z);
            // 1.5, 1.25 and 1.
            &&& d2.bits == 0 ==> pull.bits == 0x3fc0_0000
            // The square of 1500.
            &&& d2.bits == 0x4141_2a88_0000_0000 ==> pull.bits == 0x3fa0_0000
            &&& d2.bits == INFINITY ==> pull.bits == 0x3f80_0000
            &&& (forall|j: int|
                0 <= j < sites.len() ==> (#[trigger] sites[j]).zone != ZoneType::Downtown)
                ==> pull.bits == 0x3f80_0000
        }),
{
    let f = double();
    let d2 = downtown2(sites, x, z, sites.len() as int);
    let (one, two, half) = (F64 { bits: ONE }, F64 { bits: TWO }, F64 { bits: HALF_DOUBLE });
    let zero = F64 { bits: 0 };
    let quarter = F64 { bits: 0x3fd0_0000_0000_0000 };
    let knee = F64 { bits: KNEE };
    lemma_double();
    reveal(F64::is_bounded);
    law_downtown_is_nearest(sites, x, z, sites.len() as int);
    lemma_halves();
    lemma_small_worth(zero);
    crate::float::lemma_pow2_values();
    lemma_worth_value(one, 1022, 0x10_0000_0000_0000);
    lemma_worth_value(half, 1021, 0x10_0000_0000_0000);
    lemma_worth_value(quarter, 1020, 0x10_0000_0000_0000);
    lemma_worth_value(two, 1023, 0x10_0000_0000_0000);
    lemma_pow2_unfold(1021);
    lemma_pow2_unfold(1022);
    lemma_pow2_unfold(1023);
    if d2.bits == 0 {
        assert(d2.root() == zero) by {
            reveal(F64::root);
        }
        assert(zero.quotient(knee) == zero) by {
            reveal(F64::quotient);
            crate::float::lemma_fields(f, 0);
        }
        assert(zero.product(zero) == zero) by {
            reveal(F64::product);
            crate::float::lemma_fields(f, 0);
            assert(significand(f, 0) == 0);
            assert(0nat * 0nat == 0);
        }
        lemma_sum_is(one, zero, one);
        let top = F64 { bits: 0x3ff8_0000_0000_0000 };
        lemma_between_one_and_two(top, F32 { bits: 0x3fc0_0000 }, 0x18_0000_0000_0000);
        lemma_sum_is(one, half, top);
    }
    if d2.bits == 0x4141_2a88_0000_0000 {
        assert(d2.root() == knee) by {
            reveal(F64::root);
            lemma_worth_value(d2, 1043, 0x11_2a88_0000_0000);
            lemma_worth_value(knee, 1032, 0x17_7000_0000_0000);
            lemma_square_of_1500();
            lemma_root_exact(f, d2.bits as nat, KNEE as nat);
        }
        lemma_over_itself(knee);
        assert(one.product(one) == one) by {
            reveal(F64::product);
            assert(significand(f, ONE as nat) == 0x10_0000_0000_0000);
            assert(scale(f, ONE as nat) == 1022);
            lemma_rounded_scale(f, 0x10_0000_0000_0000, 52, 970);
            lemma_rounded_own(f, ONE as nat);
        }
        lemma_sum_is(one, one, two);
        let mid = F64 { bits: 0x3ff4_0000_0000_0000 };
        lemma_between_one_and_two(mid, F32 { bits: 0x3fa0_0000 }, 0x14_0000_0000_0000);
        lemma_sum_is(one, quarter, mid);
    }
}

proof fn lemma_square_of_1500()
    ensures
        (0x17_7000_0000_0000 * pow2(1032)) * (0x17_7000_0000_0000 * pow2(1032)) == (
        0x11_2a88_0000_0000 * pow2(1043)) * pow2(1074),
{
    lemma_pow2_adds(1032, 1032);
    lemma_pow2_adds(1043, 1074);
    lemma_pow2_adds(2064, 53);
    crate::float::lemma_pow2_values();
    let (p, q) = (pow2(1032), pow2(2064));
    assert(pow2(53) == 0x20_0000_0000_0000);
    assert((0x17_7000_0000_0000 * p) * (0x17_7000_0000_0000 * p) == (0x17_7000_0000_0000
        * 0x17_7000_0000_0000) * (p * p)) by (nonlinear_arith);
    let (r, s) = (pow2(1043), pow2(1074));
    assert((0x11_2a88_0000_0000 * r) * s == 0x11_2a88_0000_0000 * (r * s)) by (nonlinear_arith);
    assert(0x17_7000_0000_0000 * 0x17_7000_0000_0000 == 0x11_2a88_0000_0000
        * 0x20_0000_0000_0000);
    assert((0x11_2a88_0000_0000 * 0x20_0000_0000_0000) * q == 0x11_2a88_0000_0000 * (q
        * 0x20_0000_0000_0000)) by (nonlinear_arith);
}

/// Roads run along the borders of districts: a point is on one where the
/// squares of its distances to its two nearest sites differ by no more than
/// twice the distance of the sites from each other, and is off it where they
/// differ by more than twice as much.
pub proof fn law_roads_along_borders(sites: Seq<VoronoiSite>, x: F64, z: F64)
    requires
        sites.len() >= 2,
    ensures
        ({
            let t = two_nearest(sites, x, z, sites.len() as int);
            let gap = gap2(
                sites[t.first].x,
                sites[t.first].y,
                sites[t.second].x,
                sites[t.second].y,
            ).root();
            let width = (F64 { bits: TWO }).product(gap);
            let off = t.second_d2.difference(t.first_d2).absolute();
            let r = border_distance(sites, x, z);
            // A billionth.
            &&& t.second_d2.is_bounded() && plain(gap) && gap.bits >= 0x3e11_2e0b_e826_d695
                && plain(width) && plain(off) ==> {
                &&& off.bits <= width.bits ==> r.bits <= ONE
                &&& width.bits <= off.bits ==> ONE <= r.bits
                &&& off.bits == 0 ==> r.bits == 0
            }
            &&& !t.second_d2.is_bounded() ==> r.bits == INFINITY
        }),
{
    let f = double();
    let t = two_nearest(sites, x, z, sites.len() as int);
    let gap = gap2(
        sites[t.first].x,
        sites[t.first].y,
        sites[t.second].x,
        sites[t.second].y,
    ).root();
    let width = (F64 { bits: TWO }).product(gap);
    let off = t.second_d2.difference(t.first_d2).absolute();
    lemma_double();
    reveal(F64::below);
    if t.second_d2.is_bounded() && plain(gap) && gap.bits >= 0x3e11_2e0b_e826_d695 && plain(width)
        && plain(off) {
        lemma_twice_not_less(gap);
        lemma_over_itself(width);
        reveal(F64::quotient);
        let (m, n) = (worth(off), worth(width));
        if off.bits <= width.bits {
            lemma_worth_order(off, width);
            assert(m * n <= n * n) by (nonlinear_arith)
                requires
                    m <= n,
            ;
            lemma_quotient_order(f, off.bits, width.bits, width.bits, width.bits);
        }
        if width.bits <= off.bits {
            lemma_worth_order(width, off);
            assert(n * n <= m * n) by (nonlinear_arith)
                requires
                    n <= m,
            ;
            lemma_quotient_order(f, width.bits, width.bits, off.bits, width.bits);
        }
        if off.bits == 0 {
            crate::float::lemma_fields(f, 0);
        }
    }
}

/// Twice a number is no less than it.
proof fn lemma_twice_not_less(x: F64)
    requires
        plain(x),
        x.bits > 0,
    ensures
        (F64 { bits: TWO }).product(x).bits >= x.bits,
{
    let f = double();
    lemma_double();
    let (one, two) = (F64 { bits: ONE }, F64 { bits: TWO });
    lemma_worth_order(one, two);
    let (m, n, k) = (worth(one), worth(two), worth(x));
    assert(m * k <= n * k) by (nonlinear_arith)
        requires
            m <= n,
    ;
    lemma_product_order(f, ONE, x.bits, TWO, x.bits);
    reveal(F64::product);
    crate::float::lemma_pow2_values();
    let (a, e) = (significand(f, x.bits as nat), scale(f, x.bits as nat));
    assert(significand(f, ONE as nat) == 0x10_0000_0000_0000);
    assert(scale(f, ONE as nat) == 1022);
    lemma_rounded_scale(f, a, 52, e - 52);
    lemma_rounded_own(f, x.bits as nat);
    assert(0x10_0000_0000_0000 * a == a * 0x10_0000_0000_0000);
    let m2 = TWO as nat;
    lemma_rounded_bound(f, significand(f, m2) * a, scale(f, m2) + e - f.depth());
}

} // verus!
