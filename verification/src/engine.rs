//! The engine: ledger import, projection, rebuild and answer-shaped reads over one store.
use vstd::prelude::*;

use crate::distill::{Distiller, HeuristicDistiller};
use crate::error::{failure, rejection, MemoryError, MemoryResult};
use crate::inquiry::{start_inquiry, went_on, Inquiry, InquiryStep};
use crate::ledger::LedgerEvent;
use crate::model::MemoryQuery;
use crate::passes::{no_report, pass_happened, run_pass, ProjectReport};
use crate::projection::write_is;
use crate::query::read_time;
use crate::reconstruct::{ActiveReconstructor, DeterministicReconstructor};
use crate::route::route_of;
use crate::store::{empty_store, is_pending, MemoryStore, Pending, StoreModel};
use crate::table::count_rows;
use crate::text::now_unix_ms;
use crate::upkeep::ProjectionResetReport;

verus! {

/// Result of resetting derived projections and replaying the ledger.
#[derive(Clone, Copy, Debug, PartialEq, Eq, Structural)]
pub struct ProjectionRebuildReport {
    pub reset: ProjectionResetReport,
    pub project: ProjectReport,
    pub batch_size: usize,
    pub max_events: Option<usize>,
    pub completed: bool,
}

/// Memory engine facade: ledger import, projection, and answer-shaped reads.
pub struct MemoryEngine<D = HeuristicDistiller, R = DeterministicReconstructor> {
    pub store: MemoryStore,
    pub distiller: D,
    pub reconstructor: R,
}

impl MemoryEngine<HeuristicDistiller, DeterministicReconstructor> {
    /// An engine over an empty store.
    pub fn in_memory() -> (r: Self)
        ensures
            r.store@ == empty_store(),
            r.distiller.max_memory_chars == 900,
    {
        MemoryEngine {
            store: MemoryStore::new(),
            distiller: HeuristicDistiller { max_memory_chars: 900 },
            reconstructor: DeterministicReconstructor,
        }
    }
}

impl<D: Distiller> MemoryEngine<D, DeterministicReconstructor> {
    #[must_use]
    pub fn new(store: MemoryStore, distiller: D) -> (r: Self)
        ensures
            r.store == store,
            r.distiller == distiller,
    {
        MemoryEngine { store, distiller, reconstructor: DeterministicReconstructor }
    }
}

// ---------------------------------------------------------------------------
// Rebuilds
// ---------------------------------------------------------------------------
/// One pass of a rebuild.
pub struct RebuildStep {
    pub before: StoreModel,
    pub after: StoreModel,
    pub limit: usize,
    pub report: ProjectReport,
}

/// How many events a rebuild may still project.
pub open spec fn remaining(max_events: usize, steps: Seq<RebuildStep>) -> usize
    decreases steps.len(),
{
    if steps.len() == 0 {
        max_events
    } else {
        let left = remaining(max_events, steps.drop_last());
        let done = steps.last().report.events_projected;
        if done > left {
            0
        } else {
            (left - done) as usize
        }
    }
}

/// The reports of some passes taken together.
pub open spec fn total_report(steps: Seq<RebuildStep>) -> ProjectReport
    decreases steps.len(),
{
    if steps.len() == 0 {
        no_report()
    } else {
        total_report(steps.drop_last()).plus(steps.last().report)
    }
}

/// The tables that some passes lead to.
pub open spec fn end_store(start: StoreModel, steps: Seq<RebuildStep>) -> StoreModel {
    if steps.len() == 0 {
        start
    } else {
        steps.last().after
    }
}

/// The limit of the next pass of a rebuild.
pub open spec fn next_limit(batch_size: usize, max_events: usize, steps: Seq<RebuildStep>) -> usize {
    let left = remaining(max_events, steps);
    if batch_size < left {
        batch_size
    } else {
        left
    }
}

/// Some passes follow one another from a store on: each takes up what it may, and each but the
/// last projected something.
pub open spec fn passes_chain<D: Distiller>(
    distiller: D,
    start: StoreModel,
    batch_size: usize,
    max_events: usize,
    now: i64,
    steps: Seq<RebuildStep>,
) -> bool
    decreases steps.len(),
{
    if steps.len() == 0 {
        true
    } else {
        let front = steps.drop_last();
        let last = steps.last();
        &&& passes_chain(distiller, start, batch_size, max_events, now, front)
        &&& front.len() > 0 ==> front.last().report.events_projected > 0
        &&& remaining(max_events, front) > 0
        &&& last.before == end_store(start, front)
        &&& last.limit == next_limit(batch_size, max_events, front)
        &&& pass_happened(
            distiller,
            last.before,
            last.after,
            last.limit,
            now,
            Ok::<ProjectReport, MemoryError>(last.report),
        )
    }
}

/// What is wrong with the bounds of a rebuild.
pub open spec fn rebuild_problem(batch_size: usize, max_events: Option<usize>) -> Option<
    Seq<char>,
> {
    if batch_size == 0 {
        Some("batch_size must be greater than 0"@)
    } else if max_events == Some(0usize) {
        Some("max_events must be greater than 0"@)
    } else {
        None
    }
}

pub open spec fn event_bound(max_events: Option<usize>) -> usize {
    match max_events {
        Some(bound) => bound,
        None => usize::MAX,
    }
}

/// A rebuild came out this way: the projection was reset, passes followed until the bound was
/// reached or one projected nothing, and it is complete when no event waits any more. A pass
/// that failed ends it.
pub open spec fn rebuild_happened<D: Distiller>(
    distiller: D,
    before: StoreModel,
    after: StoreModel,
    batch_size: usize,
    max_events: Option<usize>,
    now: i64,
    r: MemoryResult<ProjectionRebuildReport>,
    steps: Seq<RebuildStep>,
) -> bool {
    let start = before.reset();
    let bound = event_bound(max_events);
    &&& passes_chain(distiller, start, batch_size, bound, now, steps)
    &&& match r {
        Ok(report) => {
            &&& after == end_store(start, steps)
            &&& remaining(bound, steps) == 0 || (steps.len() > 0
                && steps.last().report.events_projected == 0)
            &&& report == (ProjectionRebuildReport {
                reset: before.reset_counts(),
                project: total_report(steps),
                batch_size,
                max_events,
                completed: after.ledger.filter(is_pending()).len() == 0,
            })
        },
        Err(_) => {
            &&& steps.len() > 0 ==> steps.last().report.events_projected > 0
            &&& remaining(bound, steps) > 0
            &&& pass_happened(
                distiller,
                end_store(start, steps),
                after,
                next_limit(batch_size, bound, steps),
                now,
                Err::<ProjectReport, MemoryError>(r->Err_0),
            )
        },
    }
}

pub open spec fn some_rebuild<D: Distiller>(
    distiller: D,
    before: StoreModel,
    after: StoreModel,
    batch_size: usize,
    max_events: Option<usize>,
    now: i64,
    r: MemoryResult<ProjectionRebuildReport>,
) -> bool {
    match rebuild_problem(batch_size, max_events) {
        Some(problem) => failure(r) == rejection(Some(problem)) && after == before,
        None => exists|steps: Seq<RebuildStep>|
            #[trigger] rebuild_happened(
                distiller,
                before,
                after,
                batch_size,
                max_events,
                now,
                r,
                steps,
            ),
    }
}

impl<D: Distiller, R: ActiveReconstructor> MemoryEngine<D, R> {
    #[must_use]
    pub fn new_with_reconstructor(store: MemoryStore, distiller: D, reconstructor: R) -> (r: Self)
        ensures
            r.store == store,
            r.distiller == distiller,
            r.reconstructor == reconstructor,
    {
        MemoryEngine { store, distiller, reconstructor }
    }

    #[must_use]
    pub fn store(&self) -> (r: &MemoryStore)
        ensures
            *r == self.store,
    {
        &self.store
    }

    /// Appends a valid event to the ledger, unless it is there.
    pub fn ingest_event(&mut self, event: &LedgerEvent) -> (r: MemoryResult<bool>)
        ensures
            write_is(r, old(self).store@, final(self).store@, old(self).store@.appended(event@)),
            final(self).distiller == old(self).distiller,
            final(self).reconstructor == old(self).reconstructor,
    {
        self.store.append_event(event)
    }

    /// Projects pending events, at a given time.
    pub fn project_pending_at(&mut self, limit: usize, now: i64) -> (r: MemoryResult<ProjectReport>)
        ensures
            pass_happened(
                old(self).distiller,
                old(self).store@,
                final(self).store@,
                limit,
                now,
                r,
            ),
            final(self).distiller == old(self).distiller,
            final(self).reconstructor == old(self).reconstructor,
    {
        run_pass(&mut self.store, &self.distiller, limit, now)
    }

    /// Projects pending events, now.
    pub fn project_pending(&mut self, limit: usize) -> (r: MemoryResult<ProjectReport>)
        ensures
            exists|now: i64|
                #[trigger] pass_happened(
                    old(self).distiller,
                    old(self).store@,
                    final(self).store@,
                    limit,
                    now,
                    r,
                ),
            final(self).distiller == old(self).distiller,
            final(self).reconstructor == old(self).reconstructor,
    {
        let now: i64 = now_unix_ms();
        self.project_pending_at(limit, now)
    }

    /// Projects pending events, now, as part of managing the memory.
    pub fn manage_pending(&mut self, limit: usize) -> (r: MemoryResult<ProjectReport>)
        ensures
            if limit == 0 {
                failure(r) == rejection(Some("manage limit must be greater than 0"@))
                    && final(self).store@ == old(self).store@
            } else {
                exists|now: i64|
                    #[trigger] pass_happened(
                        old(self).distiller,
                        old(self).store@,
                        final(self).store@,
                        limit,
                        now,
                        r,
                    )
            },
            final(self).distiller == old(self).distiller,
            final(self).reconstructor == old(self).reconstructor,
    {
        if limit == 0 {
            return Err(MemoryError::invalid("manage limit must be greater than 0"));
        }
        self.project_pending(limit)
    }

    /// Resets the projection and replays the ledger, at a given time. Bounds that are not valid
    /// are refused before anything is reset.
    pub fn rebuild_projection_at(
        &mut self,
        batch_size: usize,
        max_events: Option<usize>,
        now: i64,
    ) -> (r: MemoryResult<ProjectionRebuildReport>)
        ensures
            some_rebuild(
                old(self).distiller,
                old(self).store@,
                final(self).store@,
                batch_size,
                max_events,
                now,
                r,
            ),
            final(self).distiller == old(self).distiller,
            final(self).reconstructor == old(self).reconstructor,
    {
        if batch_size == 0 {
            return Err(MemoryError::invalid("batch_size must be greater than 0"));
        }
        let bound: usize = match max_events {
            Some(bound) => bound,
            None => usize::MAX,
        };
        if bound == 0 {
            return Err(MemoryError::invalid("max_events must be greater than 0"));
        }
        let ghost before = self.store@;
        let reset = self.store.reset_projection();
        let ghost start = self.store@;
        let mut project = ProjectReport::default();
        let mut left: usize = bound;
        let mut idle = false;
        let ghost mut steps: Seq<RebuildStep> = Seq::empty();
        while left > 0 && !idle
            invariant
                self.distiller == old(self).distiller,
                self.reconstructor == old(self).reconstructor,
                before == old(self).store@,
                start == before.reset(),
                reset == before.reset_counts(),
                batch_size > 0,
                bound == event_bound(max_events),
                rebuild_problem(batch_size, max_events) is None,
                passes_chain(self.distiller, start, batch_size, bound, now, steps),
                self.store@ == end_store(start, steps),
                left == remaining(bound, steps),
                project == total_report(steps),
                idle == (steps.len() > 0 && steps.last().report.events_projected == 0),
            decreases left, (if idle { 0int } else { 1 }),
        {
            let limit: usize = if batch_size < left {
                batch_size
            } else {
                left
            };
            let ghost here = self.store@;
            let batch = match self.project_pending_at(limit, now) {
                Ok(batch) => batch,
                Err(error) => {
                    let result: MemoryResult<ProjectionRebuildReport> = Err(error);
                    proof {
                        assert(rebuild_happened(
                            self.distiller,
                            before,
                            self.store@,
                            batch_size,
                            max_events,
                            now,
                            result,
                            steps,
                        ));
                    }
                    return result;
                },
            };
            project.absorb(batch);
            let done: usize = batch.events_projected;
            idle = done == 0;
            left = if done > left {
                0
            } else {
                left - done
            };
            proof {
                let step = RebuildStep { before: here, after: self.store@, limit, report: batch };
                let longer = steps.push(step);
                assert(longer.drop_last() =~= steps);
                steps = longer;
            }
        }
        let completed = count_rows(&self.store.ledger, &Pending) == 0;
        let result: MemoryResult<ProjectionRebuildReport> = Ok(
            ProjectionRebuildReport { reset, project, batch_size, max_events, completed },
        );
        proof {
            assert(rebuild_happened(
                self.distiller,
                before,
                self.store@,
                batch_size,
                max_events,
                now,
                result,
                steps,
            ));
        }
        result
    }

    /// Resets the projection and replays the ledger, now.
    pub fn rebuild_projection(&mut self, batch_size: usize, max_events: Option<usize>) -> (r:
        MemoryResult<ProjectionRebuildReport>)
        ensures
            exists|now: i64|
                #[trigger] some_rebuild(
                    old(self).distiller,
                    old(self).store@,
                    final(self).store@,
                    batch_size,
                    max_events,
                    now,
                    r,
                ),
            final(self).distiller == old(self).distiller,
            final(self).reconstructor == old(self).reconstructor,
    {
        let now: i64 = now_unix_ms();
        self.rebuild_projection_at(batch_size, max_events, now)
    }

    /// Begins a query, now: what comes back asks for the scores of a plan.
    pub fn start_query(&self, query: &MemoryQuery) -> (r: MemoryResult<Inquiry>)
        ensures
            failure(r) == rejection(query@.problem()),
            r matches Ok(inquiry) ==> exists|now: i64|
                inquiry@.plan == self.store@.known_to(query@).plan(
                    query@,
                    inquiry@.route.routed_modes,
                    #[trigger] read_time(query@, now),
                ),
            r matches Ok(inquiry) ==> {
                &&& inquiry@.query == query@
                &&& inquiry@.route == route_of(
                    query@.question,
                    query@.modes,
                    query@.modes_explicit,
                )
                &&& inquiry@.phase is Routed
            },
    {
        let now: i64 = now_unix_ms();
        start_inquiry(&self.store, query, now)
    }

    /// Goes on with a query, given the scores that it asked for.
    pub fn advance_query(&self, inquiry: Inquiry, scores: &Vec<Option<u32>>) -> (r: MemoryResult<
        InquiryStep,
    >)
        ensures
            went_on(self.reconstructor, self.store@, inquiry@, scores@, r),
    {
        inquiry.advance(&self.store, scores, &self.reconstructor)
    }
}

} // verus!
