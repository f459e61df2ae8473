//! What a draw is worth.
use crate::hash::{coord_hash, coord_unit, lemma_draw_bound};
use crate::single::order::is_binary;
use crate::single::{lemma_single, single, F32};
use vstd::prelude::*;

verus! {

/// The upper 24 bits of a hash.
proof fn lemma_upper_bits(h: u64)
    ensures
        h >> 40 == h / 0x100_0000_0000,
{
    assert(h >> 40 == h / 0x100_0000_0000) by (bit_vector);
}

/// A unit draw is the upper 24 bits of the hash over two to the 24, exactly.
pub proof fn law_unit_draws_are_fractions(x: i64, y: i64, seed: u64, domain: u8)
    ensures
        is_binary(
            coord_unit(x, y, seed, domain),
            coord_hash(x, y, seed, domain) as int / 0x100_0000_0000,
            24,
        ),
{
    let h = coord_hash(x, y, seed, domain);
    lemma_draw_bound(x, y, seed, domain);
    lemma_upper_bits(h);
    reveal(F32::fraction);
    lemma_single();
    crate::float::lemma_pow2_values();
    vstd::arithmetic::power2::lemma_pow2_unfold(24);
    crate::float::lemma_rounded_exact(single(), (h >> 40) as nat, 125);
}

/// The greater the hash, the greater the draw.
pub proof fn law_unit_draws_keep_order(
    a: (i64, i64, u64, u8),
    b: (i64, i64, u64, u8),
)
    requires
        coord_hash(a.0, a.1, a.2, a.3) <= coord_hash(b.0, b.1, b.2, b.3),
    ensures
        coord_unit(a.0, a.1, a.2, a.3).bits <= coord_unit(b.0, b.1, b.2, b.3).bits,
{
    let (g, h) = (coord_hash(a.0, a.1, a.2, a.3), coord_hash(b.0, b.1, b.2, b.3));
    lemma_draw_bound(b.0, b.1, b.2, b.3);
    crate::hash::law_unit_draw_range(a.0, a.1, a.2, a.3);
    crate::hash::law_unit_draw_range(b.0, b.1, b.2, b.3);
    lemma_upper_bits(g);
    lemma_upper_bits(h);
    reveal(F32::fraction);
    lemma_single();
    crate::float::error::lemma_rounding_keeps_order(
        single(),
        (g >> 40) as nat,
        (h >> 40) as nat,
        125,
    );
    crate::float::lemma_rounded_bound(single(), (h >> 40) as nat, 125);
}

} // verus!
