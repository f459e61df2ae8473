//! Coordinate hashing: the sole source of randomness in a world.
//!
//! Every decision anywhere in a city is a function of the world seed, the
//! coordinates it concerns and a domain separator. There is no stream to
//! advance and no order to respect, so any part of a world can be produced
//! without producing the rest.
use crate::single::F32;
use vstd::prelude::*;

pub mod domain;
pub mod laws;

verus! {

/// Whitens the running accumulator: a full-avalanche 64-bit finalizer.
pub open spec fn finalized(acc: u64) -> u64 {
    let a0: u64 = acc.wrapping_add(0x9e3779b97f4a7c15u64);
    let a1: u64 = (a0 ^ (a0 >> 30)).wrapping_mul(0xbf58476d1ce4e5b9u64);
    let a2: u64 = (a1 ^ (a1 >> 27)).wrapping_mul(0x94d049bb133111ebu64);
    a2 ^ (a2 >> 31)
}

/// The accumulator before whitening: seed, domain and both coordinates, each
/// spread by its own odd constant.
pub open spec fn mixed(x: i64, y: i64, seed: u64, domain: u8) -> u64 {
    seed ^ (domain as u64).wrapping_mul(0x6a09e667f3bcc909u64) ^ (x as u64).wrapping_mul(
        0xbf58476d1ce4e5b9u64,
    ) ^ (y as u64).wrapping_mul(0x94d049bb133111ebu64)
}

/// The hash of a coordinate pair under a seed and a domain.
pub open spec fn coord_hash(x: i64, y: i64, seed: u64, domain: u8) -> u64 {
    finalized(mixed(x, y, seed, domain))
}

/// Hashes the coordinates `(x, y)` under `seed` in the given domain.
pub fn hash_coords(x: i64, y: i64, seed: u64, domain: u8) -> (h: u64)
    ensures
        h == coord_hash(x, y, seed, domain),
{
    let acc: u64 = seed ^ (domain as u64).wrapping_mul(0x6a09e667f3bcc909u64) ^ (
    x as u64).wrapping_mul(0xbf58476d1ce4e5b9u64) ^ (y as u64).wrapping_mul(
        0x94d049bb133111ebu64,
    );
    let a0: u64 = acc.wrapping_add(0x9e3779b97f4a7c15u64);
    let a1: u64 = (a0 ^ (a0 >> 30)).wrapping_mul(0xbf58476d1ce4e5b9u64);
    let a2: u64 = (a1 ^ (a1 >> 27)).wrapping_mul(0x94d049bb133111ebu64);
    a2 ^ (a2 >> 31)
}

/// The 24 leading bits of the hash, as a number out of `2^24`.
pub open spec fn coord_draw(x: i64, y: i64, seed: u64, domain: u8) -> nat {
    (coord_hash(x, y, seed, domain) >> 40) as nat
}

/// A draw from `0..1`: the leading bits of the hash over `2^24`.
pub open spec fn coord_unit(x: i64, y: i64, seed: u64, domain: u8) -> F32 {
    F32::fraction(coord_draw(x, y, seed, domain))
}

/// Draws one of the `2^24` equally spaced numbers from 0 up to but not
/// reaching 1.
pub fn hash_unit(x: i64, y: i64, seed: u64, domain: u8) -> (u: F32)
    ensures
        u == coord_unit(x, y, seed, domain),
{
    let h: u64 = hash_coords(x, y, seed, domain);
    proof {
        lemma_draw_bound(x, y, seed, domain);
    }
    F32::from_fraction((h >> 40) as u32)
}

/// A draw is below `2^24`.
pub proof fn lemma_draw_bound(x: i64, y: i64, seed: u64, domain: u8)
    ensures
        coord_draw(x, y, seed, domain) < 0x100_0000,
{
    let h = coord_hash(x, y, seed, domain);
    assert(h >> 40 < 0x100_0000u64) by (bit_vector);
}

/// Multiplying by an odd constant loses nothing: its inverse undoes it.
proof fn lemma_spread_inverse(a: u64)
    ensures
        a.wrapping_mul(0xbf58476d1ce4e5b9u64).wrapping_mul(0x96de1b173f119089u64) == a,
        a.wrapping_mul(0x94d049bb133111ebu64).wrapping_mul(0x319642b2d24d8ec3u64) == a,
        a.wrapping_mul(0x6a09e667f3bcc909u64).wrapping_mul(0xef168d52208d9539u64) == a,
{
    lemma_inverse(a, 0xbf58476d1ce4e5b9, 0x96de1b173f119089);
    lemma_inverse(a, 0x94d049bb133111eb, 0x319642b2d24d8ec3);
    lemma_inverse(a, 0x6a09e667f3bcc909, 0xef168d52208d9539);
}

proof fn lemma_inverse(a: u64, c: u64, i: u64)
    requires
        (c * i) % 0x1_0000_0000_0000_0000 == 1,
    ensures
        a.wrapping_mul(c).wrapping_mul(i) == a,
{
    let m = 0x1_0000_0000_0000_0000int;
    vstd::arithmetic::div_mod::lemma_mul_mod_noop_left(a * c, i as int, m);
    vstd::arithmetic::div_mod::lemma_mul_mod_noop_right(a as int, c * i, m);
    assert((a * c) * i == a * (c * i)) by (nonlinear_arith);
    vstd::arithmetic::div_mod::lemma_small_mod(a as nat, m as nat);
}

/// The finalizer is one to one.
pub proof fn lemma_finalized_injective(a: u64, b: u64)
    requires
        finalized(a) == finalized(b),
    ensures
        a == b,
{
    let a0: u64 = a.wrapping_add(0x9e3779b97f4a7c15u64);
    let a1: u64 = (a0 ^ (a0 >> 30)).wrapping_mul(0xbf58476d1ce4e5b9u64);
    let a2: u64 = (a1 ^ (a1 >> 27)).wrapping_mul(0x94d049bb133111ebu64);
    let b0: u64 = b.wrapping_add(0x9e3779b97f4a7c15u64);
    let b1: u64 = (b0 ^ (b0 >> 30)).wrapping_mul(0xbf58476d1ce4e5b9u64);
    let b2: u64 = (b1 ^ (b1 >> 27)).wrapping_mul(0x94d049bb133111ebu64);
    assert(a2 ^ (a2 >> 31) == b2 ^ (b2 >> 31) ==> a2 == b2) by (bit_vector);
    lemma_spread_inverse(a1 ^ (a1 >> 27));
    lemma_spread_inverse(b1 ^ (b1 >> 27));
    assert(a1 ^ (a1 >> 27) == b1 ^ (b1 >> 27) ==> a1 == b1) by (bit_vector);
    lemma_spread_inverse(a0 ^ (a0 >> 30));
    lemma_spread_inverse(b0 ^ (b0 >> 30));
    assert(a0 ^ (a0 >> 30) == b0 ^ (b0 >> 30) ==> a0 == b0) by (bit_vector);
}

/// Changing any one of the four inputs changes the hash: two calls that
/// differ in exactly one of the coordinates, the seed and the domain never
/// agree.
pub proof fn law_hash_separates(
    x: i64,
    y: i64,
    seed: u64,
    domain: u8,
    x2: i64,
    y2: i64,
    seed2: u64,
    domain2: u8,
)
    ensures
        x != x2 ==> coord_hash(x, y, seed, domain) != coord_hash(x2, y, seed, domain),
        y != y2 ==> coord_hash(x, y, seed, domain) != coord_hash(x, y2, seed, domain),
        seed != seed2 ==> coord_hash(x, y, seed, domain) != coord_hash(x, y, seed2, domain),
        domain != domain2 ==> coord_hash(x, y, seed, domain) != coord_hash(x, y, seed, domain2),
{
    let s = seed;
    let d = (domain as u64).wrapping_mul(0x6a09e667f3bcc909u64);
    let a = (x as u64).wrapping_mul(0xbf58476d1ce4e5b9u64);
    let b = (y as u64).wrapping_mul(0x94d049bb133111ebu64);
    let d2 = (domain2 as u64).wrapping_mul(0x6a09e667f3bcc909u64);
    let a2 = (x2 as u64).wrapping_mul(0xbf58476d1ce4e5b9u64);
    let b2 = (y2 as u64).wrapping_mul(0x94d049bb133111ebu64);
    assert(s ^ d ^ a ^ b == s ^ d ^ a2 ^ b ==> a == a2) by (bit_vector);
    assert(s ^ d ^ a ^ b == s ^ d ^ a ^ b2 ==> b == b2) by (bit_vector);
    assert(s ^ d ^ a ^ b == seed2 ^ d ^ a ^ b ==> s == seed2) by (bit_vector);
    assert(s ^ d ^ a ^ b == s ^ d2 ^ a ^ b ==> d == d2) by (bit_vector);
    assert(x as u64 == x2 as u64 ==> x == x2) by (bit_vector);
    assert(y as u64 == y2 as u64 ==> y == y2) by (bit_vector);
    lemma_spread_inverse(x as u64);
    lemma_spread_inverse(x2 as u64);
    lemma_spread_inverse(y as u64);
    lemma_spread_inverse(y2 as u64);
    lemma_spread_inverse(domain as u64);
    lemma_spread_inverse(domain2 as u64);
    if mixed(x, y, seed, domain) != mixed(x2, y, seed, domain) {
        if coord_hash(x, y, seed, domain) == coord_hash(x2, y, seed, domain) {
            lemma_finalized_injective(mixed(x, y, seed, domain), mixed(x2, y, seed, domain));
        }
    }
    if mixed(x, y, seed, domain) != mixed(x, y2, seed, domain) {
        if coord_hash(x, y, seed, domain) == coord_hash(x, y2, seed, domain) {
            lemma_finalized_injective(mixed(x, y, seed, domain), mixed(x, y2, seed, domain));
        }
    }
    if mixed(x, y, seed, domain) != mixed(x, y, seed2, domain) {
        if coord_hash(x, y, seed, domain) == coord_hash(x, y, seed2, domain) {
            lemma_finalized_injective(mixed(x, y, seed, domain), mixed(x, y, seed2, domain));
        }
    }
    if mixed(x, y, seed, domain) != mixed(x, y, seed, domain2) {
        if coord_hash(x, y, seed, domain) == coord_hash(x, y, seed, domain2) {
            lemma_finalized_injective(mixed(x, y, seed, domain), mixed(x, y, seed, domain2));
        }
    }
}

/// A unit draw is at least 0 and below 1.
pub proof fn law_unit_draw_range(x: i64, y: i64, seed: u64, domain: u8)
    ensures
        (F32 { bits: 0 }).at_most(coord_unit(x, y, seed, domain)),
        coord_unit(x, y, seed, domain).below(F32 { bits: 0x3f80_0000 }),
        coord_unit(x, y, seed, domain).bits < 0x3f80_0000,
{
    lemma_draw_bound(x, y, seed, domain);
    crate::single::lemma_fraction_range(coord_draw(x, y, seed, domain));
}

} // verus!
