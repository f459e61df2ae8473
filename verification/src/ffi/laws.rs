//! Where the bytes of a building lie.
use crate::ffi::{floor_bytes, floors_bytes, lemma_payload_length, side_byte};
use crate::layout::{DoorSide, Floor, Tile};
use vstd::prelude::*;

verus! {

/// The byte of tile `k` of storey `f` lies behind two bytes for every tile of
/// the storeys below; that of its room kind lies behind those of all the
/// tiles of the storey.
pub proof fn law_places_of_tiles(floors: Seq<Floor>, n: int, cells: int, f: int, k: int)
    requires
        0 <= f < n <= floors.len(),
        0 <= k < cells,
        forall|i: int|
            0 <= i < floors.len() ==> (#[trigger] floors[i]).tiles@.len() == cells
                && floors[i].kinds@.len() == cells,
    ensures
        ({
            let v = floors_bytes(floors, n);
            &&& v.len() == n * (2 * cells)
            &&& 0 <= f * (2 * cells) + k < v.len()
            &&& v[f * (2 * cells) + k] == floors[f].tiles@[k].byte()
            &&& v[f * (2 * cells) + cells + k] == floors[f].kinds@[k]
        }),
    decreases n,
{
    lemma_payload_length(floors, n, cells);
    lemma_payload_length(floors, n - 1, cells);
    assert(floors[n - 1].tiles@.len() == cells && floors[n - 1].kinds@.len() == cells);
    assert((f + 1) * (2 * cells) <= n * (2 * cells)) by (nonlinear_arith)
        requires
            f + 1 <= n,
            cells >= 0,
    ;
    assert((f + 1) * (2 * cells) == f * (2 * cells) + 2 * cells) by (nonlinear_arith);
    assert(f * (2 * cells) >= 0) by (nonlinear_arith)
        requires
            f >= 0,
            cells >= 0,
    ;
    if f < n - 1 {
        law_places_of_tiles(floors, n - 1, cells, f, k);
        assert((f + 1) * (2 * cells) <= (n - 1) * (2 * cells)) by (nonlinear_arith)
            requires
                f + 1 <= n - 1,
                cells >= 0,
        ;
    } else {
        let t = floor_bytes(floors[f]);
        assert(t[k] == floors[f].tiles@[k].byte());
        assert(t[cells + k] == floors[f].kinds@[k]);
    }
}

/// The codes of the tiles, and those of the sides, tell them apart. Sides
/// across from each other have codes that differ in the lowest bit alone.
pub proof fn law_codes(a: Tile, b: Tile, s: DoorSide, t: DoorSide)
    ensures
        a.byte() == b.byte() ==> a == b,
        a.byte() == 0 <==> a == Tile::Void,
        a.byte() == 5 <==> a == Tile::Room,
        a.byte() <= 5,
        side_byte(s) == side_byte(t) ==> s == t,
        side_byte(s) <= 3,
        side_byte(DoorSide::West) == 0,
        side_byte(s) / 2 == 0 <==> s == DoorSide::West || s == DoorSide::East,
        side_byte(s) / 2 == 1 <==> s == DoorSide::North || s == DoorSide::South,
{
}

} // verus!
