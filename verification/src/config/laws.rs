//! How the parameters of the zones blend.
use crate::config::{pull_total, pulled, trait_of, valid_params, Trait, WorldConfig, EPSILON};
use crate::double::error::{lemma_worth_order, lemma_worth_value, unit, worth};
use crate::double::{lemma_double, F64};
use crate::float::laws::lemma_absolute_increases;
use crate::float::{lemma_bit_length_unique, magnitude, nearest, significand};
use crate::single::order::{
    is_amount, is_binary, lemma_binary_product, lemma_binary_sum, lemma_once, ONE,
};
use crate::single::{lemma_single, single, F32};
use crate::zones::{ZoneParams, ZoneType, ZONE_COUNT};
use vstd::arithmetic::power2::{lemma_pow2_adds, lemma_pow2_pos, lemma_pow2_unfold, pow2};
use vstd::prelude::*;

verus! {

/// The sum of the first `n` of some numbers.
pub open spec fn sum_of(k: Seq<int>, n: int) -> int
    decreases n,
{
    if n <= 0 {
        0
    } else {
        sum_of(k, n - 1) + k[n - 1]
    }
}

/// The products of the first `n` pairs of numbers, added up.
pub open spec fn sum_of_products(k: Seq<int>, v: Seq<int>, n: int) -> int
    decreases n,
{
    if n <= 0 {
        0
    } else {
        sum_of_products(k, v, n - 1) + k[n - 1] * v[n - 1]
    }
}

/// Are the pulls of the zones `k` sixteenths?
pub open spec fn in_sixteenths(a: [F32; ZONE_COUNT], k: Seq<int>) -> bool {
    &&& k.len() == ZONE_COUNT
    &&& forall|i: int|
        0 <= i < ZONE_COUNT ==> 0 <= #[trigger] k[i] <= 16 && is_binary(a[i], k[i], 4)
}

/// Is the parameter of the zones `v` over two to the `s`?
pub open spec fn in_parts(
    zones: [ZoneParams; ZONE_COUNT],
    t: Trait,
    v: Seq<int>,
    s: nat,
) -> bool {
    &&& v.len() == ZONE_COUNT
    &&& forall|i: int|
        0 <= i < ZONE_COUNT ==> 0 <= #[trigger] v[i] <= 0xffff && is_binary(
            trait_of(zones[i], t),
            v[i],
            s,
        )
}

proof fn lemma_zero_binary(k: nat)
    requires
        k <= 149,
    ensures
        is_binary(F32 { bits: 0 }, 0, k),
{
    lemma_single();
    crate::float::laws::lemma_zero(single());
    assert(0 * pow2((149 - k) as nat) == 0);
}

proof fn lemma_totals(a: [F32; ZONE_COUNT], k: Seq<int>, n: int)
    requires
        in_sixteenths(a, k),
        0 <= n <= ZONE_COUNT,
    ensures
        0 <= sum_of(k, n) <= 16 * n,
        is_binary(pull_total(a, n), sum_of(k, n), 4),
    decreases n,
{
    if n > 0 {
        lemma_totals(a, k, n - 1);
        assert(0 <= k[n - 1] <= 16);
        lemma_binary_sum(pull_total(a, n - 1), a[n - 1], sum_of(k, n - 1), k[n - 1], 4);
    } else {
        lemma_zero_binary(4);
    }
}

proof fn lemma_pulled(
    a: [F32; ZONE_COUNT],
    zones: [ZoneParams; ZONE_COUNT],
    t: Trait,
    k: Seq<int>,
    v: Seq<int>,
    s: nat,
    n: int,
)
    requires
        in_sixteenths(a, k),
        in_parts(zones, t, v, s),
        s <= 100,
        0 <= n <= ZONE_COUNT,
    ensures
        0 <= sum_of_products(k, v, n) <= 0x10_0000 * n,
        is_binary(pulled(a, zones, t, n), sum_of_products(k, v, n), s + 4),
    decreases n,
{
    if n > 0 {
        lemma_pulled(a, zones, t, k, v, s, n - 1);
        let (x, y) = (k[n - 1], v[n - 1]);
        assert(0 <= k[n - 1] <= 16);
        assert(0 <= v[n - 1] <= 0xffff);
        assert(0 <= x * y <= 0x10_0000) by (nonlinear_arith)
            requires
                0 <= x <= 16,
                0 <= y <= 0xffff,
        ;
        let z = trait_of(zones[n - 1], t);
        lemma_binary_product(a[n - 1], z, x, y, 4, s);
        lemma_binary_sum(
            pulled(a, zones, t, n - 1),
            a[n - 1].product(z),
            sum_of_products(k, v, n - 1),
            x * y,
            s + 4,
        );
    } else {
        lemma_zero_binary(s + 4);
    }
}

/// 1, divided by 1, is 1.
proof fn lemma_one_over_one()
    ensures
        (F32 { bits: ONE }).quotient(F32 { bits: ONE }).bits == ONE,
{
    let f = single();
    reveal(F32::quotient);
    lemma_single();
    crate::float::lemma_pow2_values();
    vstd::arithmetic::power2::lemma2_to64();
    let num: nat = 0x80_0000;
    assert(significand(f, ONE as nat) == num);
    lemma_bit_length_unique(num, 24);
    assert(num * pow2(0) == num);
    let c = pow2(23);
    assert(nearest(num * c, num) == c) by {
        crate::float::lemma_nearest_exact(c, num);
        assert(num * c == c * num);
    }
}

/// Numbers that stand for the same amount are the same.
proof fn lemma_same_amount(x: F32, y: F32, n: int, k: nat)
    requires
        is_binary(x, n, k),
        is_binary(y, n, k),
        n > 0,
    ensures
        x == y,
        is_amount(x),
{
    let f = single();
    lemma_single();
    let w = pow2((149 - k) as nat);
    lemma_pow2_pos((149 - k) as nat);
    assert(n * w > 0) by (nonlinear_arith)
        requires
            n > 0,
            w > 0,
    ;
    let (a, b) = (magnitude(f, x.bits as u64), magnitude(f, y.bits as u64));
    if a < b {
        lemma_absolute_increases(f, a, b);
    } else if b < a {
        lemma_absolute_increases(f, b, a);
    }
}

/// 1 is sixteen sixteenths.
proof fn lemma_sixteen()
    ensures
        is_binary(F32 { bits: ONE }, 16, 4),
{
    let f = single();
    lemma_single();
    crate::float::lemma_packed(f, 126, 0x80_0000);
    lemma_pow2_adds(19, 126);
    vstd::arithmetic::power2::lemma2_to64();
    lemma_pow2_unfold(24);
    assert(pow2(145) == 0x8_0000 * pow2(126));
    assert(0x80_0000 * pow2(126) == 16 * (0x8_0000 * pow2(126))) by (nonlinear_arith);
}

/// The parameters at a point are the means of those of the zones, weighted by
/// their pulls: where the pulls are sixteenths that come to 1, the mean is
/// exact. (A parameter of nothing everywhere stays nothing.)
pub proof fn law_blends_are_means(
    c: WorldConfig,
    a: [F32; ZONE_COUNT],
    t: Trait,
    k: Seq<int>,
    v: Seq<int>,
    s: nat,
)
    requires
        in_sixteenths(a, k),
        sum_of(k, ZONE_COUNT as int) == 16,
        in_parts(c.zones, t, v, s),
        s <= 100,
        sum_of_products(k, v, ZONE_COUNT as int) > 0,
    ensures
        match t {
            Trait::HeightMin => is_binary(
                c.blended(a).height_min,
                sum_of_products(k, v, ZONE_COUNT as int),
                s + 4,
            ),
            Trait::HeightMax => is_binary(
                c.blended(a).height_max,
                sum_of_products(k, v, ZONE_COUNT as int),
                s + 4,
            ),
            Trait::Density => is_binary(
                c.blended(a).density,
                sum_of_products(k, v, ZONE_COUNT as int),
                s + 4,
            ),
            Trait::Palettes => s == 0 ==> c.blended(a).palette_count == if sum_of_products(
                k,
                v,
                ZONE_COUNT as int,
            ) < 255 * 16 {
                (sum_of_products(k, v, ZONE_COUNT as int) + 8) / 16
            } else {
                255
            },
        },
{
    let n = ZONE_COUNT as int;
    let one = F32 { bits: ONE };
    lemma_totals(a, k, n);
    lemma_pulled(a, c.zones, t, k, v, s, n);
    lemma_sixteen();
    let total = pull_total(a, n);
    lemma_same_amount(total, one, 16, 4);
    lemma_one_over_one();
    assert(!total.at_most(F32 { bits: EPSILON })) by {
        reveal(F32::at_most);
        lemma_single();
    }
    let x = pulled(a, c.zones, t, n);
    lemma_same_amount(x, x, sum_of_products(k, v, n), s + 4);
    lemma_once(x);
    assert(one.quotient(total) == one);
    if t is Palettes && s == 0 {
        lemma_rounds_half_up(x, sum_of_products(k, v, n));
    }
}

/// Sixteenths are rounded to the nearest integer, halves upwards.
proof fn lemma_rounds_half_up(x: F32, n: int)
    requires
        is_binary(x, n, 4),
        is_amount(x),
        n > 0,
    ensures
        x.round_within(255) == if n < 255 * 16 {
            (n + 8) / 16
        } else {
            255
        },
{
    lemma_single();
    reveal(F32::round_within);
    let p = pow2(145);
    lemma_pow2_pos(145);
    lemma_pow2_adds(4, 145);
    vstd::arithmetic::power2::lemma2_to64();
    let q = (n + 8) / 16;
    let r = (n + 8) % 16;
    assert(2 * (n * p) + 16 * p == q * (32 * p) + (2 * r) * p && 0 <= (2 * r) * p < 32 * p)
        by (nonlinear_arith)
        requires
            n + 8 == 16 * q + r,
            0 <= r < 16,
            p > 0,
    ;
    vstd::arithmetic::div_mod::lemma_fundamental_div_mod_converse(
        2 * (n * p) + 16 * p,
        (32 * p) as int,
        q,
        (2 * r) * p,
    );
}

/// A point with no pull is residential.
pub proof fn law_no_pull_is_residential(c: WorldConfig, a: [F32; ZONE_COUNT])
    requires
        forall|i: int| 0 <= i < ZONE_COUNT ==> (#[trigger] a[i]).bits == 0,
    ensures
        c.blended(a) == c.zones[ZoneType::Residential.ordinal() as int],
{
    let k = Seq::new(ZONE_COUNT as nat, |i: int| 0int);
    lemma_zero_binary(4);
    assert forall|i: int| 0 <= i < ZONE_COUNT implies 0 <= #[trigger] k[i] <= 16 && is_binary(
        a[i],
        k[i],
        4,
    ) by {
        assert(a[i] == (F32 { bits: 0 }));
    }
    lemma_totals(a, k, ZONE_COUNT as int);
    lemma_no_sum(k, ZONE_COUNT as int);
    reveal(F32::at_most);
    lemma_single();
    let total = pull_total(a, ZONE_COUNT as int);
    let f = single();
    let m = magnitude(f, total.bits as u64);
    assert(0 * pow2(145) == 0);
    if m > 0 {
        crate::float::laws::lemma_zero(f);
        lemma_absolute_increases(f, 0, m);
    }
}

proof fn lemma_no_sum(k: Seq<int>, n: int)
    requires
        0 <= n <= k.len(),
        forall|i: int| 0 <= i < k.len() ==> #[trigger] k[i] == 0,
    ensures
        sum_of(k, n) == 0,
    decreases n,
{
    if n > 0 {
        lemma_no_sum(k, n - 1);
    }
}

/// What a valid configuration holds to: chunks of 1 to 256 cells along a side,
/// 16 to 64 sites over a span of 100 to 100000, densities and shares from 0 to
/// 1, block sizes and palettes above zero, and ranges in order.
pub proof fn law_valid_configurations(c: WorldConfig, k: int)
    requires
        0 <= k < ZONE_COUNT,
        c.valid(),
    ensures
        1 <= c.chunk_size <= 256,
        c.draw_distance >= 1,
        16 <= c.voronoi_site_count <= 64,
        c.voronoi_span.bits < 0x7ff0_0000_0000_0000,
        100 * unit() <= worth(c.voronoi_span) <= 100_000 * unit(),
        worth(c.shepard_power) <= 10 * unit(),
        10 * worth(c.shepard_power) >= unit(),
        0 < c.shepard_epsilon.bits < c.shepard_power.bits,
        c.zone_weights[k].bits <= 0x3ff0_0000_0000_0000 || c.zone_weights[k].bits
            == 0x8000_0000_0000_0000,
        c.zones[k].density.bits <= ONE || c.zones[k].density.bits == 0x8000_0000,
        !c.zones[k].height_max.below(c.zones[k].height_min),
        c.zones[k].block_size >= 1,
        c.zones[k].palette_count >= 1,
        1 <= c.interior_width_range[0] <= c.interior_width_range[1],
        1 <= c.interior_height_range[0] <= c.interior_height_range[1],
        c.interior_max_floors >= 1,
{
    reveal(F64::at_most);
    reveal(F32::at_most);
    lemma_single();
    lemma_double();
    crate::float::lemma_pow2_values();
    let (hundred, most) = (
        F64 { bits: 0x4059_0000_0000_0000 },
        F64 { bits: 0x40f8_6a00_0000_0000 },
    );
    let (tenth, ten) = (F64 { bits: 0x3fb9_9999_9999_999a }, F64 { bits: 0x4024_0000_0000_0000 });
    assert(valid_params(c.zones[k]));
    assert(c.zone_weights[k].within(F64 { bits: 0 }, F64 { bits: 0x3ff0_0000_0000_0000 }));
    lemma_worth_value(hundred, 1028, 0x19_0000_0000_0000);
    lemma_worth_value(most, 1038, 0x18_6a00_0000_0000);
    lemma_worth_value(tenth, 1018, 0x19_9999_9999_999a);
    lemma_worth_value(ten, 1025, 0x14_0000_0000_0000);
    lemma_pow2_adds(56, 1018);
    lemma_pow2_adds(46, 1028);
    lemma_pow2_adds(36, 1038);
    lemma_pow2_adds(49, 1025);
    vstd::arithmetic::power2::lemma2_to64();
    lemma_worth_order(hundred, c.voronoi_span);
    lemma_worth_order(c.voronoi_span, most);
    lemma_worth_order(tenth, c.shepard_power);
    lemma_worth_order(c.shepard_power, ten);
    lemma_pow2_adds(32, 4);
    lemma_pow2_adds(32, 14);
    lemma_pow2_adds(32, 17);
    lemma_pow2_adds(32, 24);
    assert(pow2(46) == 0x4000_0000_0000 && pow2(36) == 0x10_0000_0000 && pow2(49)
        == 0x2_0000_0000_0000 && pow2(56) == 0x100_0000_0000_0000);
    lemma_unit(46, 1028);
    lemma_unit(36, 1038);
    lemma_unit(56, 1018);
    lemma_unit(49, 1025);
    assert(unit() == 0x4000_0000_0000 * pow2(1028));
    assert(unit() == 0x10_0000_0000 * pow2(1038));
    assert(unit() == 0x100_0000_0000_0000 * pow2(1018));
    assert(unit() == 0x2_0000_0000_0000 * pow2(1025));
}

proof fn lemma_unit(a: nat, b: nat)
    requires
        a + b == 1074,
    ensures
        unit() == pow2(a) * pow2(b),
{
    lemma_pow2_adds(a, b);
}

/// A configuration with any of these out of range is refused.
pub proof fn law_refused_configurations(c: WorldConfig, k: int)
    requires
        0 <= k < ZONE_COUNT,
        ({
            ||| c.chunk_size == 0 || c.chunk_size > 256
            ||| c.draw_distance == 0
            ||| c.voronoi_site_count < 16 || c.voronoi_site_count > 64
            ||| c.zones[k].block_size == 0
            ||| c.zones[k].palette_count == 0
            ||| c.interior_width_range[0] == 0
            ||| c.interior_width_range[0] > c.interior_width_range[1]
            ||| c.interior_height_range[0] == 0
            ||| c.interior_height_range[0] > c.interior_height_range[1]
            ||| c.interior_max_floors == 0
            ||| c.interior_blueprints[k].core_size == 0
            ||| c.interior_blueprints[k].room_count > 8
        }),
    ensures
        !c.valid(),
{
    if c.valid() {
        assert(valid_params(c.zones[k]));
        assert(crate::config::valid_blueprint(c.interior_blueprints[k]));
    }
}

} // verus!
