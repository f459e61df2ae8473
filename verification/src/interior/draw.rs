//! Draws from a hash stream, and searches for the first hit in an order.
use crate::hash::{coord_hash, coord_unit, hash_coords, hash_unit};
use crate::single::F32;
use vstd::prelude::*;

verus! {

/// The hash of one storey: the floor number is folded into the first
/// coordinate, so storeys draw independently.
pub open spec fn storey_hash(x: i64, y: i64, seed: u64, floor: u8, domain: u8) -> u64 {
    coord_hash(x ^ (floor as i64).wrapping_mul(-0x61c8864680b583ebi64), y, seed, domain)
}

/// The hash of one storey.
pub fn floor_hash(x: i64, y: i64, seed: u64, floor: u8, domain: u8) -> (h: u64)
    ensures
        h == storey_hash(x, y, seed, floor, domain),
{
    hash_coords(x ^ (floor as i64).wrapping_mul(-0x61c8864680b583ebi64), y, seed, domain)
}

/// Draw `k` of a stream, from `0..1`.
pub open spec fn stream_unit(base: u64, k: int) -> F32 {
    coord_unit(base as i64, #[verifier::truncate] (k as i64), 0, 0)
}

/// Draw `k` of a stream, from `0..1`.
pub fn unit_draw(base: u64, k: usize) -> (u: F32)
    ensures
        u == stream_unit(base, k as int),
{
    hash_unit(base as i64, #[verifier::truncate] (k as i64), 0, 0)
}

/// Draw `k` of a stream, as an index below `n`.
pub open spec fn stream_index(base: u64, k: int, n: int) -> int {
    if n <= 0 {
        0
    } else {
        coord_hash(base as i64, #[verifier::truncate] (k as i64), 0, 0) as int % n
    }
}

/// Draw `k` of a stream, as an index below `n`; zero where `n` is zero.
pub fn pick(base: u64, k: usize, n: usize) -> (i: usize)
    ensures
        i == stream_index(base, k as int, n as int),
        n > 0 ==> i < n,
        n == 0 ==> i == 0,
{
    if n == 0 {
        0
    } else {
        (hash_coords(base as i64, #[verifier::truncate] (k as i64), 0, 0) % n as u64) as usize
    }
}

/// `j` is the first number below `n` that satisfies `hit`.
pub open spec fn is_first(n: int, hit: spec_fn(int) -> bool, j: int) -> bool {
    0 <= j < n && hit(j) && forall|i: int| 0 <= i < j ==> !#[trigger] hit(i)
}

/// The first number below `n` that satisfies `hit`.
pub open spec fn first(n: int, hit: spec_fn(int) -> bool) -> Option<int> {
    if exists|j: int| is_first(n, hit, j) {
        Some(choose|j: int| is_first(n, hit, j))
    } else {
        None
    }
}

/// A first hit is the only one.
pub proof fn lemma_first(n: int, hit: spec_fn(int) -> bool, j: int)
    requires
        is_first(n, hit, j),
    ensures
        first(n, hit) == Some(j),
{
    let i = choose|i: int| is_first(n, hit, i);
    assert(is_first(n, hit, i));
    if i < j {
        assert(!hit(i));
    } else if j < i {
        assert(!hit(j));
    }
}

/// Where nothing satisfies `hit` there is no first.
pub proof fn lemma_no_first(n: int, hit: spec_fn(int) -> bool)
    requires
        forall|i: int| 0 <= i < n ==> !#[trigger] hit(i),
    ensures
        first(n, hit) is None,
{
}

/// Where something hits, something hits first.
pub proof fn lemma_some_first(n: int, hit: spec_fn(int) -> bool, j: int)
    requires
        0 <= j < n,
        hit(j),
    ensures
        first(n, hit) is Some,
    decreases j,
{
    if exists|i: int| 0 <= i < j && #[trigger] hit(i) {
        let i = choose|i: int| 0 <= i < j && #[trigger] hit(i);
        lemma_some_first(n, hit, i);
    } else {
        assert(is_first(n, hit, j));
    }
}

/// What a found first hit is good for.
pub proof fn lemma_first_hit(n: int, hit: spec_fn(int) -> bool)
    ensures
        first(n, hit) matches Some(j) ==> is_first(n, hit, j),
{
}

} // verus!
