//! What is kept in memory, and what is dropped.
use crate::cache::{byte_total, distance, within_reach};
use crate::data::{ChunkBuffer, ChunkId};
use crate::recency::{keeps_newest, Stamped};
use vstd::prelude::*;

verus! {

/// A chunk is within a distance where neither its column nor its row is
/// farther off.
pub proof fn law_distance_by_axis(a: ChunkId, b: ChunkId, r: int)
    ensures
        distance(a, b) <= r <==> {
            &&& a.cx - r <= b.cx <= a.cx + r
            &&& a.cy - r <= b.cy <= a.cy + r
        },
{
}

/// Pruning drops the chunks out of reach, and of the others those that were
/// used longest ago, as far as the limit asks for it. What is kept is kept as
/// it was.
pub proof fn law_pruning(
    before: Map<ChunkId, Stamped<ChunkBuffer>>,
    after: Map<ChunkId, Stamped<ChunkBuffer>>,
    centre: ChunkId,
    reach: u32,
    limit: nat,
    id: ChunkId,
)
    requires
        before.dom().finite(),
        keeps_newest(within_reach(before, centre, reach), after, limit),
    ensures
        after.len() <= limit,
        after.dom().contains(id) ==> {
            &&& before.dom().contains(id)
            &&& after[id] == before[id]
            &&& centre.cx - reach <= id.cx <= centre.cx + reach
            &&& centre.cy - reach <= id.cy <= centre.cy + reach
        },
        before.dom().contains(id) && !after.dom().contains(id) && centre.cx - reach <= id.cx
            <= centre.cx + reach && centre.cy - reach <= id.cy <= centre.cy + reach ==> {
            &&& after.len() == limit
            &&& forall|kept: ChunkId| #[trigger]
                after.dom().contains(kept) ==> before[id].last_used < after[kept].last_used
        },
{
    let near = within_reach(before, centre, reach);
    law_distance_by_axis(id, centre, reach as int);
    assert(near.dom().subset_of(before.dom()));
    vstd::set_lib::lemma_len_subset(near.dom(), before.dom());
    if before.dom().contains(id) && !after.dom().contains(id) && distance(id, centre) <= reach {
        assert(near.dom().contains(id));
        assert(after.dom().subset_of(near.dom().remove(id))) by {
            assert forall|k: ChunkId| #[trigger] after.dom().contains(k) implies near.dom().remove(
                id,
            ).contains(k) by {}
        }
        vstd::set_lib::lemma_len_subset(after.dom(), near.dom().remove(id));
        assert forall|kept: ChunkId| #[trigger]
            after.dom().contains(kept) implies before[id].last_used < after[kept].last_used by {
            assert(near.dom().contains(kept));
        }
    }
}

/// Chunks of one size take as many bytes as there are chunks, times that size.
pub proof fn law_bytes_of_like_chunks(m: Map<ChunkId, Stamped<ChunkBuffer>>, size: nat)
    requires
        m.dom().finite(),
        forall|id: ChunkId| #[trigger] m.dom().contains(id) ==> m[id].value@.len() == size,
    ensures
        byte_total(m) == m.len() * size,
    decreases m.len(),
{
    if m.len() == 0 {
        assert(0 * size == 0);
    } else {
        let id = m.dom().choose();
        let rest = m.remove(id);
        assert(m.dom().contains(id));
        assert forall|k: ChunkId| #[trigger] rest.dom().contains(k) implies rest[k].value@.len()
            == size by {
            assert(m.dom().contains(k));
        }
        law_bytes_of_like_chunks(rest, size);
        let n = rest.len();
        assert((n + 1) * size == n * size + size) by (nonlinear_arith);
    }
}

} // verus!
