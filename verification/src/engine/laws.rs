//! What holds of an engine over any run of calls.
use crate::cache::laws::{law_distance_by_axis, law_pruning};
use crate::cache::{distance, law_reach_bounds_memory, within_reach};
use crate::chunk::laws::{law_one_seed_one_city, measures};
use crate::chunk::{is_chunk, CellField};
use crate::config::WorldConfig;
use crate::data::{ChunkBuffer, ChunkId};
use crate::engine::{lemma_chunk_by_bytes, WorldEngine};
use crate::recency::{keeps_newest, Stamped};
use vstd::prelude::*;

verus! {

/// A call on an engine that leaves its configuration alone.
pub enum Call {
    /// A chunk is asked for, with what is measured at its cells; `b` is handed
    /// out.
    Ask { cx: i32, cy: i32, field: Seq<CellField>, b: ChunkBuffer },
    /// The draw distance is set.
    Reach { dd: u32 },
    /// The centre is set.
    Centre { cx: i32, cy: i32 },
    /// The chunks out of reach are dropped.
    Evict,
}

/// Is this a chunk of the engine's world, as a survey of it finds its cells?
pub open spec fn true_chunk(
    e: WorldEngine,
    survey: spec_fn((int, int)) -> CellField,
    id: ChunkId,
    b: ChunkBuffer,
) -> bool {
    exists|field: Seq<CellField>|
        measures(field, survey, id.cx, id.cy, e.settings().chunk_size) && #[trigger] is_chunk(
            b,
            id.cx,
            id.cy,
            e.settings(),
            e.districts(),
            field,
        )
}

/// Is every chunk in memory a chunk of the engine's world, as a survey of it
/// finds its cells?
pub open spec fn true_to(e: WorldEngine, survey: spec_fn((int, int)) -> CellField) -> bool {
    forall|id: ChunkId| #[trigger]
        e.chunks().entries().dom().contains(id) ==> true_chunk(
            e,
            survey,
            id,
            e.chunks().entries()[id].value,
        )
}

/// Does the call lead from one engine to the other? A chunk that is not in
/// memory is asked for with what the survey finds.
pub open spec fn leads(
    before: WorldEngine,
    call: Call,
    after: WorldEngine,
    survey: spec_fn((int, int)) -> CellField,
) -> bool {
    match call {
        Call::Ask { cx, cy, field, b } => {
            &&& after.served(before, cx, cy, field, b)
            &&& before.remembers(cx, cy) || measures(
                field,
                survey,
                cx,
                cy,
                before.settings().chunk_size,
            )
        },
        Call::Reach { dd } => after.reaching(before, dd),
        Call::Centre { cx, cy } => after.recentred(before, cx, cy),
        Call::Evict => after.pruned(before),
    }
}

/// What every call keeps: the world is the same, every chunk in memory stays
/// true to the survey, and a chunk that is handed out is.
pub proof fn law_calls_keep_the_city(
    before: WorldEngine,
    call: Call,
    after: WorldEngine,
    survey: spec_fn((int, int)) -> CellField,
)
    requires
        true_to(before, survey),
        leads(before, call, after, survey),
    ensures
        true_to(after, survey),
        after.settings() == before.settings(),
        after.districts() == before.districts(),
        call matches Call::Ask { cx, cy, field, b } ==> true_chunk(
            before,
            survey,
            ChunkId { cx, cy },
            b,
        ),
{
    let (c, v) = (before.settings(), before.districts());
    match call {
        Call::Ask { cx, cy, field, b } => {
            let id = ChunkId { cx, cy };
            if before.remembers(cx, cy) {
                let held = before.chunks().entries()[id].value;
                let f = choose|f: Seq<CellField>|
                    measures(f, survey, cx, cy, c.chunk_size) && #[trigger] is_chunk(
                        held,
                        cx,
                        cy,
                        c,
                        v,
                        f,
                    );
                lemma_chunk_by_bytes(held, b, cx, cy, c, v, f);
                assert forall|k: ChunkId| #[trigger]
                    after.chunks().entries().dom().contains(k) implies true_chunk(
                    after,
                    survey,
                    k,
                    after.chunks().entries()[k].value,
                ) by {
                    assert(before.chunks().entries().dom().contains(k));
                    assert(true_chunk(before, survey, k, before.chunks().entries()[k].value));
                }
            } else {
                assert(is_chunk(b, id.cx, id.cy, c, v, field));
                assert forall|k: ChunkId| #[trigger]
                    after.chunks().entries().dom().contains(k) implies true_chunk(
                    after,
                    survey,
                    k,
                    after.chunks().entries()[k].value,
                ) by {
                    if k == id {
                        lemma_chunk_by_bytes(
                            b,
                            after.chunks().entries()[k].value,
                            cx,
                            cy,
                            c,
                            v,
                            field,
                        );
                    } else {
                        assert(before.chunks().entries().dom().contains(k));
                        assert(true_chunk(before, survey, k, before.chunks().entries()[k].value));
                    }
                }
            }
        },
        _ => {
            assert forall|k: ChunkId| #[trigger]
                after.chunks().entries().dom().contains(k) implies true_chunk(
                after,
                survey,
                k,
                after.chunks().entries()[k].value,
            ) by {
                assert(before.chunks().entries().dom().contains(k));
                assert(true_chunk(before, survey, k, before.chunks().entries()[k].value));
            }
        },
    }
}

/// Does a run of calls lead through the engines?
pub open spec fn is_run(
    engines: Seq<WorldEngine>,
    calls: Seq<Call>,
    survey: spec_fn((int, int)) -> CellField,
) -> bool {
    &&& engines.len() == calls.len() + 1
    &&& forall|k: int|
        0 <= k < calls.len() ==> leads(engines[k], #[trigger] calls[k], engines[k + 1], survey)
}

/// The city stays the same over any run of calls.
proof fn lemma_run(
    engines: Seq<WorldEngine>,
    calls: Seq<Call>,
    survey: spec_fn((int, int)) -> CellField,
    k: int,
)
    requires
        is_run(engines, calls, survey),
        true_to(engines[0], survey),
        0 <= k < engines.len(),
    ensures
        true_to(engines[k], survey),
        engines[k].settings() == engines[0].settings(),
        engines[k].districts() == engines[0].districts(),
    decreases k,
{
    if k > 0 {
        lemma_run(engines, calls, survey, k - 1);
        assert(leads(engines[k - 1], calls[k - 1], engines[k], survey));
        law_calls_keep_the_city(engines[k - 1], calls[k - 1], engines[k], survey);
    }
}

/// Memory does not show: over any run of calls, in which chunks are asked for,
/// the centre and the draw distance are set and chunks are dropped, one chunk
/// is handed out with the same bytes whenever it is asked for, whether it is in
/// memory, was dropped or was never seen.
pub proof fn law_memory_does_not_show(
    engines: Seq<WorldEngine>,
    calls: Seq<Call>,
    survey: spec_fn((int, int)) -> CellField,
    i: int,
    j: int,
    cx: i32,
    cy: i32,
)
    requires
        is_run(engines, calls, survey),
        true_to(engines[0], survey),
        0 <= i < calls.len(),
        0 <= j < calls.len(),
        calls[i] matches Call::Ask { cx: ax, cy: ay, .. } && ax == cx && ay == cy,
        calls[j] matches Call::Ask { cx: bx, cy: by, .. } && bx == cx && by == cy,
    ensures
        calls[i]->b@ == calls[j]->b@,
{
    lemma_run(engines, calls, survey, i);
    lemma_run(engines, calls, survey, j);
    assert(leads(engines[i], calls[i], engines[i + 1], survey));
    assert(leads(engines[j], calls[j], engines[j + 1], survey));
    law_calls_keep_the_city(engines[i], calls[i], engines[i + 1], survey);
    law_calls_keep_the_city(engines[j], calls[j], engines[j + 1], survey);
    let (c, v) = (engines[0].settings(), engines[0].districts());
    let (a, b) = (calls[i]->b, calls[j]->b);
    let f = choose|f: Seq<CellField>|
        measures(f, survey, cx, cy, c.chunk_size) && #[trigger] is_chunk(a, cx, cy, c, v, f);
    let g = choose|g: Seq<CellField>|
        measures(g, survey, cx, cy, c.chunk_size) && #[trigger] is_chunk(b, cx, cy, c, v, g);
    law_one_seed_one_city(a, b, cx, cy, c, v, f, g, survey);
}

/// A new engine has nothing in memory, so a run may start from it.
pub proof fn law_new_engines_are_true(e: WorldEngine, survey: spec_fn((int, int)) -> CellField)
    requires
        e.is_fresh(e.settings()),
    ensures
        true_to(e, survey),
{
}

/// Memory is bounded: once a chunk was generated, every chunk in memory is
/// within the draw distance of the centre, so that no more are held than it
/// allows, however far the walk has led. Only a chunk that is not in memory is
/// generated; one that is adds none and drops none.
pub proof fn law_memory_is_bounded(
    before: WorldEngine,
    after: WorldEngine,
    cx: i32,
    cy: i32,
    field: Seq<CellField>,
    b: ChunkBuffer,
)
    requires
        after.served(before, cx, cy, field, b),
    ensures
        !before.remembers(cx, cy) ==> {
            let side = 2 * after.chunks().reach() + 1;
            &&& after.generated() == before.generated() + 1
            &&& forall|id: ChunkId| #[trigger]
                after.chunks().entries().dom().contains(id) ==> distance(
                    id,
                    after.chunks().centre(),
                ) <= after.chunks().reach()
            &&& after.chunks().entries().len() <= side * side
        },
        before.remembers(cx, cy) ==> {
            &&& after.generated() == before.generated()
            &&& after.chunks().entries().dom() == before.chunks().entries().dom()
        },
{
    if before.remembers(cx, cy) {
        assert(after.chunks().entries().dom() =~= before.chunks().entries().dom());
    } else {
        law_reach_bounds_memory(
            after.chunks().entries().dom(),
            after.chunks().centre(),
            after.chunks().reach(),
        );
    }
}

/// A chunk that is within reach and was just asked for is in memory, stays
/// there when chunks are dropped, and is then handed out without being
/// generated again.
pub proof fn law_recent_chunks_stay(
    before: WorldEngine,
    asked: WorldEngine,
    pruned: WorldEngine,
    again: WorldEngine,
    cx: i32,
    cy: i32,
    field: Seq<CellField>,
    b: ChunkBuffer,
    c: ChunkBuffer,
)
    requires
        before.wf(),
        asked.served(before, cx, cy, field, b),
        pruned.pruned(asked),
        again.served(pruned, cx, cy, field, c),
        before.chunks().limit() >= 1,
        before.chunks().centre().cx - before.chunks().reach() <= cx
            <= before.chunks().centre().cx + before.chunks().reach(),
        before.chunks().centre().cy - before.chunks().reach() <= cy
            <= before.chunks().centre().cy + before.chunks().reach(),
    ensures
        asked.remembers(cx, cy),
        pruned.remembers(cx, cy),
        again.generated() == asked.generated(),
        c@ == b@,
{
    let id = ChunkId { cx, cy };
    let (was, now, then) = (before.chunks(), asked.chunks(), pruned.chunks());
    was.lemma_wf();
    now.lemma_wf();
    law_distance_by_axis(id, was.centre(), was.reach() as int);
    if !before.remembers(cx, cy) {
        let kept = choose|kept: ChunkBuffer| #[trigger]
            kept.view() == b.view() && keeps_newest(
                within_reach(
                    was.entries().insert(id, Stamped { value: kept, last_used: now.clock() }),
                    was.centre(),
                    was.reach(),
                ),
                now.entries(),
                was.limit() as nat,
            );
        let all = was.entries().insert(id, Stamped { value: kept, last_used: now.clock() });
        law_pruning(all, now.entries(), was.centre(), was.reach(), was.limit() as nat, id);
        if !now.entries().dom().contains(id) {
            lemma_some_entry(now.entries());
            let other = choose|k: ChunkId| now.entries().dom().contains(k);
            assert(now.entries()[other].last_used <= now.clock());
        }
    }
    assert(now.entries()[id].value@ == b@ && now.entries()[id].last_used == now.clock());
    law_pruning(now.entries(), then.entries(), now.centre(), now.reach(), now.limit() as nat, id);
    if !then.entries().dom().contains(id) {
        lemma_some_entry(then.entries());
        let other = choose|k: ChunkId| then.entries().dom().contains(k);
        law_pruning(
            now.entries(),
            then.entries(),
            now.centre(),
            now.reach(),
            now.limit() as nat,
            other,
        );
        assert(now.entries()[other].last_used <= now.clock());
    }
}

/// A map with entries has one.
proof fn lemma_some_entry(m: Map<ChunkId, Stamped<ChunkBuffer>>)
    requires
        m.len() >= 1,
    ensures
        exists|k: ChunkId| m.dom().contains(k),
{
    if forall|k: ChunkId| !m.dom().contains(k) {
        assert(m.dom() =~= Set::empty());
    }
}

/// A new configuration makes a new world: no chunk of the old one is in
/// memory, and the districts are those of its seed and number of sites. The
/// engine goes on counting the chunks that it generated.
pub proof fn law_new_configuration(before: WorldEngine, after: WorldEngine, c: WorldConfig)
    requires
        after.reconfigured(before, c),
    ensures
        forall|cx: i32, cy: i32| !#[trigger] after.remembers(cx, cy),
        after.settings() == c,
        after.chunks().reach() == c.draw_distance,
        after.generated() == before.generated(),
        WorldEngine::districts_of(after.districts(), c),
{
}

/// Another chunk size keeps the world and forgets the chunks; another reach or
/// centre keeps both, and nothing but the reach or the centre changes.
pub proof fn law_settings_keep_the_world(
    before: WorldEngine,
    after: WorldEngine,
    size: u16,
    dd: u32,
    cx: i32,
    cy: i32,
    id: ChunkId,
)
    ensures
        after.resized(before, size) ==> {
            &&& after.districts() == before.districts()
            &&& after.settings().chunk_size == size
            &&& after.settings().seed == before.settings().seed
            &&& !after.remembers(id.cx, id.cy)
            &&& after.chunks().reach() == before.chunks().reach()
        },
        after.reaching(before, dd) ==> {
            &&& after.districts() == before.districts()
            &&& after.settings() == before.settings()
            &&& after.remembers(id.cx, id.cy) == before.remembers(id.cx, id.cy)
            &&& after.chunks().reach() == dd
            &&& after.chunks().centre() == before.chunks().centre()
        },
        after.recentred(before, cx, cy) ==> {
            &&& after.districts() == before.districts()
            &&& after.settings() == before.settings()
            &&& after.remembers(id.cx, id.cy) == before.remembers(id.cx, id.cy)
            &&& after.chunks().reach() == before.chunks().reach()
            &&& after.chunks().centre() == (ChunkId { cx, cy })
        },
{
}

} // verus!
