//! How the height of a building depends on what it is drawn from.
use crate::building::{
    built, height_cap, lot_palette, lot_unit, raw_height, stays_empty,
};
use crate::float::error::lemma_sum_bits;
use crate::float::lemma_packed;
use crate::hash::{coord_hash, coord_unit, domain, law_unit_draw_range};
use crate::single::order::{
    is_amount, lemma_amounts, lemma_less, lemma_less_than_twice, lemma_once, lemma_products,
    lemma_sum_within_step, lemma_sums, ONE,
};
use crate::single::{lemma_single, single, F32};
use crate::zones::ZoneParams;
use vstd::prelude::*;

verus! {

/// The draw that decides whether a lot is built on.
pub open spec fn lot_draw(lot_id: u64, seed: u64) -> F32 {
    lot_unit(lot_id, seed, domain::DENSITY)
}

/// The denser the zone, and the lower the draws of the lot and of its block,
/// the more is built: a lot that is built on stays so.
pub proof fn law_density_fills(
    a: u64,
    b: u64,
    seed: u64,
    clumps: (F32, F32),
    densities: (F32, F32),
)
    requires
        lot_draw(a, seed).bits <= lot_draw(b, seed).bits,
        clumps.0.bits <= clumps.1.bits < ONE,
        is_amount(densities.0),
        is_amount(densities.1),
        densities.1.bits <= densities.0.bits,
        !stays_empty(b, clumps.1, densities.1, seed),
    ensures
        !stays_empty(a, clumps.0, densities.0, seed),
{
    let (own, block) = (F32 { bits: 0x3f26_6666 }, F32 { bits: 0x3eb3_3333 });
    law_unit_draw_range(b as i64, (b >> 32) as i64, seed, domain::DENSITY);
    let (t, u) = (lot_draw(a, seed), lot_draw(b, seed));
    lemma_products(t, own, u, own);
    lemma_products(clumps.0, block, clumps.1, block);
    lemma_products(u, own, F32 { bits: ONE }, own);
    lemma_products(clumps.1, block, F32 { bits: ONE }, block);
    lemma_once(own);
    lemma_once(block);
    lemma_sums(t.product(own), clumps.0.product(block), u.product(own), clumps.1.product(block));
    let (r, s) = (
        t.product(own).sum(clumps.0.product(block)),
        u.product(own).sum(clumps.1.product(block)),
    );
    reveal(F32::below);
    lemma_single();
}

/// The draws of the lot and of its block count together, so that a full
/// density builds on every lot, and no density on none but those that draw
/// nothing.
pub proof fn law_full_density_builds(lot_id: u64, clump: F32, density: F32, seed: u64)
    requires
        clump.bits < ONE,
    ensures
        density.bits == ONE ==> !stays_empty(lot_id, clump, density, seed),
        density.bits == 0 && clump.bits >= 0x3400_0000 ==> stays_empty(
            lot_id,
            clump,
            density,
            seed,
        ),
        density.bits == 0 && lot_draw(lot_id, seed).bits >= 0x3400_0000 ==> stays_empty(
            lot_id,
            clump,
            density,
            seed,
        ),
{
    let one = F32 { bits: ONE };
    let (own, block) = (F32 { bits: 0x3f26_6666 }, F32 { bits: 0x3eb3_3333 });
    let least = F32 { bits: 0x3400_0000 };
    law_unit_draw_range(lot_id as i64, (lot_id >> 32) as i64, seed, domain::DENSITY);
    let u = lot_draw(lot_id, seed);
    lemma_single();
    lemma_products(u, own, one, own);
    lemma_products(clump, block, one, block);
    lemma_once(own);
    lemma_once(block);
    let (x, y) = (u.product(own), clump.product(block));
    lemma_sums(x, y, own, block);
    let r = x.sum(y);
    assert(own.sum(block).bits <= ONE) by {
        reveal(F32::sum);
        lemma_packed(single(), 125, 0xa6_6666);
        lemma_packed(single(), 124, 0xb3_3333);
        lemma_packed(single(), 126, 0x80_0000);
        vstd::arithmetic::power2::lemma_pow2_unfold(125);
        vstd::arithmetic::power2::lemma_pow2_unfold(126);
        lemma_sum_bits(single(), 0x3f26_6666, 0x3eb3_3333, ONE as u64);
    }
    lemma_sums(x, y, x, y);
    reveal(F32::below);
    if clump.bits >= 0x3400_0000 {
        lemma_products(least, block, clump, block);
        lemma_least(block);
    }
    if u.bits >= 0x3400_0000 {
        lemma_products(least, own, u, own);
        lemma_least(own);
    }
}

/// A small part of a part is still something.
proof fn lemma_least(k: F32)
    requires
        k.bits == 0x3f26_6666 || k.bits == 0x3eb3_3333,
    ensures
        (F32 { bits: 0x3400_0000 }).product(k).bits > 0,
{
    let quarter = F32 { bits: 0x3e80_0000 };
    let least = F32 { bits: 0x3400_0000 };
    lemma_products(least, quarter, least, k);
    reveal(F32::product);
    lemma_single();
    crate::float::lemma_pow2_values();
    let f = single();
    assert(crate::float::significand(f, 0x3e80_0000) == 0x80_0000);
    assert(crate::float::scale(f, 0x3e80_0000) == 124);
    assert(crate::float::significand(f, 0x3400_0000) == 0x80_0000);
    assert(crate::float::scale(f, 0x3400_0000) == 103);
    assert(vstd::arithmetic::power2::pow2(23) == 0x80_0000);
    crate::float::lemma_rounded_scale(f, 0x80_0000, 23, 78);
    crate::float::lemma_rounded_exact(f, 0x80_0000, 101);
    vstd::arithmetic::power2::lemma_pow2_unfold(24);
    vstd::arithmetic::power2::lemma_pow2_pos(101);
    let m = crate::float::rounded(f, 0x80_0000, 101);
    assert(0x80_0000 * vstd::arithmetic::power2::pow2(101) > 0) by (nonlinear_arith)
        requires
            vstd::arithmetic::power2::pow2(101) > 0,
    ;
    if m == 0 {
        crate::float::laws::lemma_zero(f);
    }
}

/// The draw of a lot that decides its height.
pub open spec fn height_draw(lot_id: u64, seed: u64) -> F32 {
    coord_unit((lot_id >> 32) as i64, lot_id as i64, seed, domain::LOT_HEIGHT)
}

/// Are the heights of a zone of ordinary size and in order?
pub open spec fn ordinary_heights(params: ZoneParams) -> bool {
    params.height_min.bits <= params.height_max.bits <= 0x7c00_0000
}

/// What a height is made from, besides the zone.
pub struct Making {
    pub lot_id: u64,
    pub corner: bool,
    pub clump: F32,
    pub boost: F32,
    pub jitter: Option<(i64, i64)>,
}

impl Making {
    /// Are the draws from `0..1`, and the pull of the centre from 1 to 1.5?
    pub open spec fn ordinary(self) -> bool {
        &&& self.clump.bits < ONE
        &&& ONE <= self.boost.bits <= 0x3fc0_0000
    }

    /// The height.
    pub open spec fn height(self, params: ZoneParams, seed: u64) -> F32 {
        raw_height(
            self.lot_id,
            self.corner,
            self.clump,
            self.boost,
            self.jitter,
            params,
            seed,
        )
    }
}

/// The factor of a draw that runs over a stretch.
pub proof fn lemma_factor(base: F32, u: F32, v: F32, part: F32)
    requires
        u.bits <= v.bits <= ONE,
        base.bits == 0x3f59_999a && part.bits == 0x3e99_999a || base.bits == 0x3f66_6666
            && part.bits == 0x3e4c_cccd,
    ensures
        base.bits <= base.sum(u.product(part)).bits <= base.sum(v.product(part)).bits
            <= base.sum(part).bits <= 0x4000_0000,
{
    let one = F32 { bits: ONE };
    lemma_products(u, part, v, part);
    lemma_products(v, part, one, part);
    lemma_once(part);
    lemma_sums(base, u.product(part), base, v.product(part));
    lemma_sums(base, v.product(part), base, part);
    lemma_sums(base, u.product(part), base, u.product(part));
    lemma_sum_within_step(base, part, one);
}

/// The height of a lot before the factors: from the least to little more than
/// the greatest.
pub proof fn lemma_drawn(params: ZoneParams, t: F32, u: F32)
    requires
        ordinary_heights(params),
        t.bits <= u.bits <= ONE,
    ensures
        ({
            let span = params.height_max.difference(params.height_min);
            let (x, y) = (
                params.height_min.sum(t.product(span)),
                params.height_min.sum(u.product(span)),
            );
            &&& params.height_min.bits <= x.bits <= y.bits <= params.height_min.sum(span).bits
            &&& params.height_min.sum(span).bits <= params.height_max.bits + 0x80_0000
        }),
{
    let (lo, hi) = (params.height_min, params.height_max);
    let span = hi.difference(lo);
    lemma_less(hi, lo);
    lemma_products(t, span, u, span);
    lemma_products(u, span, F32 { bits: ONE }, span);
    lemma_once(span);
    lemma_sums(lo, t.product(span), lo, u.product(span));
    lemma_sums(lo, u.product(span), lo, span);
    lemma_sums(lo, t.product(span), lo, t.product(span));
    lemma_sum_within_step(lo, span, hi);
}

/// Buildings rise with all that they are made from: a greater draw, a denser
/// block, the pull of the centre, a corner and a greater jitter never lower
/// one.
#[verifier::rlimit(40)]
pub proof fn law_heights_rise(a: Making, b: Making, params: ZoneParams, seed: u64)
    requires
        a.ordinary(),
        b.ordinary(),
        ordinary_heights(params),
        height_draw(a.lot_id, seed).bits <= height_draw(b.lot_id, seed).bits,
        a.clump.bits <= b.clump.bits,
        a.boost.bits <= b.boost.bits,
        a.corner ==> b.corner,
        a.jitter is Some <==> b.jitter is Some,
        a.jitter matches Some(p) ==> b.jitter matches Some(q) && coord_unit(
            p.0,
            p.1,
            seed,
            domain::HEIGHT,
        ).bits <= coord_unit(q.0, q.1, seed, domain::HEIGHT).bits,
    ensures
        a.height(params, seed).bits <= b.height(params, seed).bits,
        is_amount(b.height(params, seed)),
{
    let (t, u) = (height_draw(a.lot_id, seed), height_draw(b.lot_id, seed));
    law_unit_draw_range((b.lot_id >> 32) as i64, b.lot_id as i64, seed, domain::LOT_HEIGHT);
    let span = params.height_max.difference(params.height_min);
    lemma_drawn(params, t, u);
    let (d, e) = (params.height_min.sum(t.product(span)), params.height_min.sum(u.product(span)));
    let (base, part) = (F32 { bits: 0x3f59_999a }, F32 { bits: 0x3e99_999a });
    lemma_factor(base, a.clump, b.clump, part);
    let (f, g) = (base.sum(a.clump.product(part)), base.sum(b.clump.product(part)));
    lemma_less_than_twice(e, g);
    lemma_products(d, f, e, g);
    let (d, e) = (d.product(f), e.product(g));
    lemma_less_than_twice(e, b.boost);
    lemma_products(d, a.boost, e, b.boost);
    let (d, e) = (d.product(a.boost), e.product(b.boost));
    let corner = F32 { bits: 0x3f99_999a };
    let one = F32 { bits: ONE };
    lemma_less_than_twice(e, corner);
    lemma_products(d, corner, e, corner);
    lemma_products(d, one, e, corner);
    lemma_once(d);
    let d = if a.corner {
        d.product(corner)
    } else {
        d
    };
    let e = if b.corner {
        e.product(corner)
    } else {
        e
    };
    if let (Some(p), Some(q)) = (a.jitter, b.jitter) {
        let (base, part) = (F32 { bits: 0x3f66_6666 }, F32 { bits: 0x3e4c_cccd });
        let (v, w) = (
            coord_unit(p.0, p.1, seed, domain::HEIGHT),
            coord_unit(q.0, q.1, seed, domain::HEIGHT),
        );
        law_unit_draw_range(q.0, q.1, seed, domain::HEIGHT);
        lemma_factor(base, v, w, part);
        let (f, g) = (base.sum(v.product(part)), base.sum(w.product(part)));
        lemma_less_than_twice(e, g);
        lemma_products(d, f, e, g);
    }
}

/// Buildings keep near the range of their zone: none is lower than 0.85 times
/// 0.9 of the least height, nor, away from corners and without jitter, higher
/// than 1.15 times 1.5 of the greatest.
#[verifier::rlimit(40)]
pub proof fn law_heights_keep_near_the_range(m: Making, params: ZoneParams, seed: u64)
    requires
        m.ordinary(),
        ordinary_heights(params),
    ensures
        params.height_min.product(F32 { bits: 0x3f59_999a }).product(F32 { bits: 0x3f66_6666 }).bits
            <= m.height(params, seed).bits,
        m.jitter is None ==> params.height_min.product(F32 { bits: 0x3f59_999a }).bits <= m.height(
            params,
            seed,
        ).bits,
        m.jitter is None && !m.corner ==> m.height(params, seed).bits <= params.height_min.sum(
            params.height_max.difference(params.height_min),
        ).product((F32 { bits: 0x3f59_999a }).sum(F32 { bits: 0x3e99_999a })).product(
            F32 { bits: 0x3fc0_0000 },
        ).bits,
{
    let one = F32 { bits: ONE };
    let zero = F32 { bits: 0 };
    let lo = params.height_min;
    let t = height_draw(m.lot_id, seed);
    law_unit_draw_range((m.lot_id >> 32) as i64, m.lot_id as i64, seed, domain::LOT_HEIGHT);
    let span = params.height_max.difference(lo);
    lemma_drawn(params, t, t);
    let d = lo.sum(t.product(span));
    let top = lo.sum(span);
    let (base, part) = (F32 { bits: 0x3f59_999a }, F32 { bits: 0x3e99_999a });
    lemma_factor(base, m.clump, m.clump, part);
    let f = base.sum(m.clump.product(part));
    let most = base.sum(part);
    lemma_less_than_twice(top, most);
    lemma_products(lo, base, d, f);
    lemma_products(d, f, top, most);
    let least = lo.product(base);
    let e = d.product(f);
    let high = F32 { bits: 0x3fc0_0000 };
    lemma_less_than_twice(e, m.boost);
    lemma_products(least, one, e, m.boost);
    lemma_once(least);
    lemma_products(e, m.boost, top.product(most), high);
    let g = e.product(m.boost);
    let corner = F32 { bits: 0x3f99_999a };
    lemma_less_than_twice(g, corner);
    lemma_products(g, one, g, corner);
    lemma_once(g);
    let h = if m.corner {
        g.product(corner)
    } else {
        g
    };
    assert(least.bits <= h.bits);
    let ninety = F32 { bits: 0x3f66_6666 };
    lemma_products(least, ninety, least, one);
    if let Some(p) = m.jitter {
        let part = F32 { bits: 0x3e4c_cccd };
        let v = coord_unit(p.0, p.1, seed, domain::HEIGHT);
        law_unit_draw_range(p.0, p.1, seed, domain::HEIGHT);
        lemma_factor(ninety, v, v, part);
        lemma_products(least, ninety, h, ninety.sum(v.product(part)));
    }
}

/// A height in the ordinary range is built as it is, up to the cap of its
/// zone.
pub proof fn law_built_heights(m: Making, params: ZoneParams, seed: u64)
    requires
        m.ordinary(),
        ordinary_heights(params),
        !stays_empty(m.lot_id, m.clump, params.density, seed),
    ensures
        ({
            let h = built(m.lot_id, m.corner, m.clump, m.boost, m.jitter, params, seed).0;
            let cap = height_cap(params);
            let raw = m.height(params, seed);
            &&& h.bits == if raw.bits <= cap.bits {
                raw.bits
            } else {
                cap.bits
            }
            &&& params.height_max.bits <= cap.bits
            &&& ONE <= cap.bits
        }),
{
    let one = F32 { bits: ONE };
    let hi = params.height_max;
    let factor = F32 { bits: 0x3fcc_cccd };
    law_heights_rise(m, m, params, seed);
    lemma_less_than_twice(hi, factor);
    lemma_products(hi, one, hi, factor);
    lemma_once(hi);
    let x = hi.product(factor);
    lemma_sums(x, one, x, one);
    lemma_sum_within_step(
        x,
        one,
        if x.bits <= ONE {
            one
        } else {
            x
        },
    );
    let raw = m.height(params, seed);
    lemma_amounts(raw, F32 { bits: 0 });
    lemma_amounts(height_cap(params), raw);
}

/// A lot keeps its palette in step over the number of palettes: among `n` it
/// has that which it has among `m`, taken modulo `n`, wherever `n` divides
/// `m`. One palette, or none, is the first.
pub proof fn law_palettes(lot_id: u64, n: u8, m: u8, seed: u64)
    requires
        n > 0,
        m as int % n as int == 0,
    ensures
        lot_palette(lot_id, n, seed) < n,
        m > 0 ==> lot_palette(lot_id, n, seed) == lot_palette(lot_id, m, seed) as int % n as int,
        lot_palette(lot_id, 0, seed) == 0,
        lot_palette(lot_id, 1, seed) == 0,
{
    let h = coord_hash(lot_id as i64, (lot_id >> 32) as i64, seed, domain::PALETTE) as int;
    let k = m as int / n as int;
    vstd::arithmetic::div_mod::lemma_fundamental_div_mod(m as int, n as int);
    if m > 0 {
        assert(k > 0) by (nonlinear_arith)
            requires
                m as int == n as int * k,
                m > 0,
                n > 0,
        ;
        vstd::arithmetic::div_mod::lemma_mod_mod(h, n as int, k);
    }
}

} // verus!
