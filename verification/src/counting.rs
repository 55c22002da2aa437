//! What a projection pass counts.
use vstd::prelude::*;

use crate::distill::Distiller;
use crate::error::MemoryResult;
use crate::history::wf;
use crate::ledger::{EventModel, LedgerEvent};
use crate::order::lemma_ranked_keeps_rows;
use crate::passes::{
    allowed, events_run, no_report, pass_events, pass_happened, pass_problem, run_result,
    EventReplies, ProjectReport,
};
use crate::stability::{lemma_events_counted, waiting};
use crate::store::{is_pending, ByObserved, StoreModel};

verus! {

/// A pass takes up the events that wait, as many as its limit allows.
pub proof fn lemma_pass_len(store: StoreModel, limit: usize)
    ensures
        pass_events(store, limit).len() == (if waiting(store) <= limit {
            waiting(store)
        } else {
            limit as nat
        }),
{
    lemma_ranked_keeps_rows::<LedgerEvent, ByObserved>(store.ledger.filter(is_pending()));
}

/// A pass that ends well sees no more events than its limit allows, and each event that it sees
/// is projected or skipped. As many events as it projected wait no longer; the skipped ones go on
/// waiting, and the ledger loses and gains none. The memories that it touched are no fewer than
/// those it added, brought up to date or took back, as far as they can be counted. Where it
/// skipped none and had room for more, none is left waiting.
pub proof fn passes_count_their_events<D: Distiller>(
    distiller: D,
    before: StoreModel,
    after: StoreModel,
    limit: usize,
    now: i64,
    r: MemoryResult<ProjectReport>,
)
    requires
        wf(before),
        pass_happened(distiller, before, after, limit, now, r),
        r is Ok,
    ensures
        ({
            let report = r->Ok_0;
            &&& report.events_seen <= limit
            &&& report.events_seen <= waiting(before)
            &&& report.events_seen == report.events_projected + report.events_skipped
            &&& waiting(after) + report.events_projected == waiting(before)
            &&& after.ledger.len() == before.ledger.len()
            &&& report.stored_memories_touched == usize::MAX || report.stored_memories_touched
                >= report.memories_added + report.memories_updated + report.memories_invalidated
            &&& report.events_skipped == 0 && report.events_seen < limit ==> waiting(after) == 0
        }),
{
    assert(pass_problem(limit) is None);
    let events = pass_events(before, limit);
    lemma_pass_len(before, limit);
    let late = distiller.replays_late();
    let replies = choose|replies: Seq<EventReplies>|
        {
            let run = #[trigger] events_run(before, events, replies, late, now);
            &&& after == run.store
            &&& run_result(r, run)
            &&& allowed(distiller, run.asked)
            &&& replies.len() == events.len()
        };
    lemma_events_counted(before, events, replies, late, now, None);
}

/// A pass over tables in which no event waits sees nothing and changes nothing.
pub proof fn passes_rest_when_nothing_waits<D: Distiller>(
    distiller: D,
    before: StoreModel,
    after: StoreModel,
    limit: usize,
    now: i64,
    r: MemoryResult<ProjectReport>,
)
    requires
        waiting(before) == 0,
        pass_problem(limit) is None,
        pass_happened(distiller, before, after, limit, now, r),
    ensures
        r == Ok::<ProjectReport, crate::error::MemoryError>(no_report()),
        after == before,
{
    lemma_pass_len(before, limit);
    let events = pass_events(before, limit);
    assert(events =~= Seq::<EventModel>::empty());
}

/// A second pass, straight after one that skipped nothing and had room for more, sees nothing and
/// changes nothing.
pub proof fn passes_are_idempotent<D: Distiller>(
    distiller: D,
    before: StoreModel,
    middle: StoreModel,
    after: StoreModel,
    limit: usize,
    now: i64,
    later: i64,
    first: MemoryResult<ProjectReport>,
    second: MemoryResult<ProjectReport>,
)
    requires
        wf(before),
        pass_happened(distiller, before, middle, limit, now, first),
        first matches Ok(report) && report.events_skipped == 0 && report.events_seen < limit,
        pass_happened(distiller, middle, after, limit, later, second),
    ensures
        second == Ok::<ProjectReport, crate::error::MemoryError>(no_report()),
        after == middle,
{
    passes_count_their_events(distiller, before, middle, limit, now, first);
    passes_rest_when_nothing_waits(distiller, middle, after, limit, later, second);
}

} // verus!
