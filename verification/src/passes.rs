//! Projection passes: pending events are distilled, checked and applied to the graph.
//!
//! A pass is a function of the tables, of the time and of what the distiller replies. The
//! replies are collected with the requests they answer, so that a contract can say both what
//! was asked and what was made of it.
use vstd::prelude::*;

use crate::distill::{
    add_count, add_ms, add_tokens, distill_reply, plus_count, plus_ms, plus_tokens, DistillMetrics,
    DistillOutcome, Distiller, OutcomeModel,
};
use crate::error::{failure, rejection, ErrorModel, MemoryError, MemoryResult};
use crate::ledger::{EventModel, LedgerEvent};
use crate::model::{
    estimate_tokens, token_cost, BeliefRevisionOp, DistilledMemory, DistilledModel, MemoryEdgeKind,
    MemoryNodeKind,
};
use crate::order::{lemma_views_push, ranked, views};
use crate::revise::{
    checked_outcome, invalidation_targets, is_scaffold, revision_target, target_of_update,
    targets_of_invalidation, validate_distill_outcome, AppliedModel, ApplyOutcome,
};
use crate::rows::{MemoryNode, NodeModel};
use crate::store::{
    event_scope, holding_at, is_pending, limit_problem, open_before, projected_between,
    scope_of_event, with_id, with_number, ByObserved, MemoryStore, StoreModel, WithId,
};
use crate::table::{first_index, has_row, some_row};
use crate::text::{at_most, terms_of};

verus! {

// ---------------------------------------------------------------------------
// Reports
// ---------------------------------------------------------------------------
/// Result of one projection pass. Counters stop at the greatest value of their type.
#[derive(Clone, Copy, Debug, PartialEq, Eq, Structural)]
pub struct ProjectReport {
    pub events_seen: usize,
    pub events_projected: usize,
    pub events_skipped: usize,
    pub source_token_estimate: u32,
    pub projected_memory_token_estimate: u32,
    pub stored_memories_touched: usize,
    pub distillation_outputs: usize,
    pub distillation_provider_calls: usize,
    pub distillation_provider_errors: usize,
    pub distillation_schema_errors: usize,
    pub distillation_repair_attempts: usize,
    pub distillation_repair_successes: usize,
    pub distillation_rejections: usize,
    pub distillation_input_tokens: u32,
    pub distillation_output_tokens: u32,
    pub distillation_elapsed_ms: u64,
    pub memories_added: usize,
    pub memories_updated: usize,
    pub memories_invalidated: usize,
    pub memories_nooped: usize,
    pub edges_added: usize,
}

/// A report of nothing.
pub open spec fn no_report() -> ProjectReport {
    ProjectReport {
        events_seen: 0,
        events_projected: 0,
        events_skipped: 0,
        source_token_estimate: 0,
        projected_memory_token_estimate: 0,
        stored_memories_touched: 0,
        distillation_outputs: 0,
        distillation_provider_calls: 0,
        distillation_provider_errors: 0,
        distillation_schema_errors: 0,
        distillation_repair_attempts: 0,
        distillation_repair_successes: 0,
        distillation_rejections: 0,
        distillation_input_tokens: 0,
        distillation_output_tokens: 0,
        distillation_elapsed_ms: 0,
        memories_added: 0,
        memories_updated: 0,
        memories_invalidated: 0,
        memories_nooped: 0,
        edges_added: 0,
    }
}

impl Default for ProjectReport {
    fn default() -> (r: Self)
        ensures
            r == no_report(),
    {
        ProjectReport {
            events_seen: 0,
            events_projected: 0,
            events_skipped: 0,
            source_token_estimate: 0,
            projected_memory_token_estimate: 0,
            stored_memories_touched: 0,
            distillation_outputs: 0,
            distillation_provider_calls: 0,
            distillation_provider_errors: 0,
            distillation_schema_errors: 0,
            distillation_repair_attempts: 0,
            distillation_repair_successes: 0,
            distillation_rejections: 0,
            distillation_input_tokens: 0,
            distillation_output_tokens: 0,
            distillation_elapsed_ms: 0,
            memories_added: 0,
            memories_updated: 0,
            memories_invalidated: 0,
            memories_nooped: 0,
            edges_added: 0,
        }
    }
}

impl ProjectReport {
    /// Two reports taken together.
    pub open spec fn plus(self, other: ProjectReport) -> ProjectReport {
        ProjectReport {
            events_seen: plus_count(self.events_seen, other.events_seen),
            events_projected: plus_count(self.events_projected, other.events_projected),
            events_skipped: plus_count(self.events_skipped, other.events_skipped),
            source_token_estimate: plus_tokens(
                self.source_token_estimate,
                other.source_token_estimate,
            ),
            projected_memory_token_estimate: plus_tokens(
                self.projected_memory_token_estimate,
                other.projected_memory_token_estimate,
            ),
            stored_memories_touched: plus_count(
                self.stored_memories_touched,
                other.stored_memories_touched,
            ),
            distillation_outputs: plus_count(self.distillation_outputs, other.distillation_outputs),
            distillation_provider_calls: plus_count(
                self.distillation_provider_calls,
                other.distillation_provider_calls,
            ),
            distillation_provider_errors: plus_count(
                self.distillation_provider_errors,
                other.distillation_provider_errors,
            ),
            distillation_schema_errors: plus_count(
                self.distillation_schema_errors,
                other.distillation_schema_errors,
            ),
            distillation_repair_attempts: plus_count(
                self.distillation_repair_attempts,
                other.distillation_repair_attempts,
            ),
            distillation_repair_successes: plus_count(
                self.distillation_repair_successes,
                other.distillation_repair_successes,
            ),
            distillation_rejections: plus_count(
                self.distillation_rejections,
                other.distillation_rejections,
            ),
            distillation_input_tokens: plus_tokens(
                self.distillation_input_tokens,
                other.distillation_input_tokens,
            ),
            distillation_output_tokens: plus_tokens(
                self.distillation_output_tokens,
                other.distillation_output_tokens,
            ),
            distillation_elapsed_ms: plus_ms(
                self.distillation_elapsed_ms,
                other.distillation_elapsed_ms,
            ),
            memories_added: plus_count(self.memories_added, other.memories_added),
            memories_updated: plus_count(self.memories_updated, other.memories_updated),
            memories_invalidated: plus_count(self.memories_invalidated, other.memories_invalidated),
            memories_nooped: plus_count(self.memories_nooped, other.memories_nooped),
            edges_added: plus_count(self.edges_added, other.edges_added),
        }
    }

    /// The report with the counters of a distillation.
    pub open spec fn plus_metrics(self, metrics: DistillMetrics) -> ProjectReport {
        ProjectReport {
            distillation_provider_calls: plus_count(
                self.distillation_provider_calls,
                metrics.provider_calls,
            ),
            distillation_provider_errors: plus_count(
                self.distillation_provider_errors,
                metrics.provider_errors,
            ),
            distillation_schema_errors: plus_count(
                self.distillation_schema_errors,
                metrics.schema_errors,
            ),
            distillation_repair_attempts: plus_count(
                self.distillation_repair_attempts,
                metrics.repair_attempts,
            ),
            distillation_repair_successes: plus_count(
                self.distillation_repair_successes,
                metrics.repair_successes,
            ),
            distillation_rejections: plus_count(
                self.distillation_rejections,
                metrics.rejected_outputs,
            ),
            distillation_input_tokens: plus_tokens(
                self.distillation_input_tokens,
                metrics.input_tokens,
            ),
            distillation_output_tokens: plus_tokens(
                self.distillation_output_tokens,
                metrics.output_tokens,
            ),
            distillation_elapsed_ms: plus_ms(self.distillation_elapsed_ms, metrics.elapsed_ms),
            ..self
        }
    }

    /// The report with the memories that a distillation put out.
    pub open spec fn plus_outputs(self, count: nat) -> ProjectReport {
        ProjectReport {
            distillation_outputs: plus_count(self.distillation_outputs, count as usize),
            ..self
        }
    }

    /// The report with a node that was written.
    pub open spec fn plus_node(self, node: NodeModel) -> ProjectReport {
        ProjectReport {
            projected_memory_token_estimate: plus_tokens(
                self.projected_memory_token_estimate,
                node.token_estimate,
            ),
            stored_memories_touched: plus_count(self.stored_memories_touched, 1),
            ..self
        }
    }

    /// The report with a memory that was applied.
    pub open spec fn plus_applied(self, applied: AppliedModel) -> ProjectReport {
        match applied {
            AppliedModel::Added(node) => (ProjectReport {
                memories_added: plus_count(self.memories_added, 1),
                ..self
            }).plus_node(node),
            AppliedModel::Updated(node) => (ProjectReport {
                memories_updated: plus_count(self.memories_updated, 1),
                ..self
            }).plus_node(node),
            AppliedModel::Invalidated { replacement, count } => {
                let closed = ProjectReport {
                    memories_invalidated: plus_count(self.memories_invalidated, count as usize),
                    stored_memories_touched: plus_count(
                        self.stored_memories_touched,
                        count as usize,
                    ),
                    ..self
                };
                match replacement {
                    Some(node) => closed.plus_node(node),
                    None => closed,
                }
            },
            AppliedModel::Noop => ProjectReport {
                memories_nooped: plus_count(self.memories_nooped, 1),
                ..self
            },
        }
    }

    /// The report with an event that was skipped.
    pub open spec fn skipped(self) -> ProjectReport {
        ProjectReport { events_skipped: 1, ..self }
    }

    /// Adds the counts of another report.
    pub fn absorb(&mut self, other: Self)
        ensures
            *final(self) == old(self).plus(other),
    {
        self.events_seen = add_count(self.events_seen, other.events_seen);
        self.events_projected = add_count(self.events_projected, other.events_projected);
        self.events_skipped = add_count(self.events_skipped, other.events_skipped);
        self.source_token_estimate = add_tokens(
            self.source_token_estimate,
            other.source_token_estimate,
        );
        self.projected_memory_token_estimate = add_tokens(
            self.projected_memory_token_estimate,
            other.projected_memory_token_estimate,
        );
        self.stored_memories_touched = add_count(
            self.stored_memories_touched,
            other.stored_memories_touched,
        );
        self.distillation_outputs = add_count(self.distillation_outputs, other.distillation_outputs);
        self.distillation_provider_calls = add_count(
            self.distillation_provider_calls,
            other.distillation_provider_calls,
        );
        self.distillation_provider_errors = add_count(
            self.distillation_provider_errors,
            other.distillation_provider_errors,
        );
        self.distillation_schema_errors = add_count(
            self.distillation_schema_errors,
            other.distillation_schema_errors,
        );
        self.distillation_repair_attempts = add_count(
            self.distillation_repair_attempts,
            other.distillation_repair_attempts,
        );
        self.distillation_repair_successes = add_count(
            self.distillation_repair_successes,
            other.distillation_repair_successes,
        );
        self.distillation_rejections = add_count(
            self.distillation_rejections,
            other.distillation_rejections,
        );
        self.distillation_input_tokens = add_tokens(
            self.distillation_input_tokens,
            other.distillation_input_tokens,
        );
        self.distillation_output_tokens = add_tokens(
            self.distillation_output_tokens,
            other.distillation_output_tokens,
        );
        self.distillation_elapsed_ms = add_ms(
            self.distillation_elapsed_ms,
            other.distillation_elapsed_ms,
        );
        self.memories_added = add_count(self.memories_added, other.memories_added);
        self.memories_updated = add_count(self.memories_updated, other.memories_updated);
        self.memories_invalidated = add_count(self.memories_invalidated, other.memories_invalidated);
        self.memories_nooped = add_count(self.memories_nooped, other.memories_nooped);
        self.edges_added = add_count(self.edges_added, other.edges_added);
    }

    /// Adds the counters of a distillation.
    pub fn absorb_distill_metrics(&mut self, metrics: DistillMetrics)
        ensures
            *final(self) == old(self).plus_metrics(metrics),
    {
        self.distillation_provider_calls = add_count(
            self.distillation_provider_calls,
            metrics.provider_calls,
        );
        self.distillation_provider_errors = add_count(
            self.distillation_provider_errors,
            metrics.provider_errors,
        );
        self.distillation_schema_errors = add_count(
            self.distillation_schema_errors,
            metrics.schema_errors,
        );
        self.distillation_repair_attempts = add_count(
            self.distillation_repair_attempts,
            metrics.repair_attempts,
        );
        self.distillation_repair_successes = add_count(
            self.distillation_repair_successes,
            metrics.repair_successes,
        );
        self.distillation_rejections = add_count(
            self.distillation_rejections,
            metrics.rejected_outputs,
        );
        self.distillation_input_tokens = add_tokens(
            self.distillation_input_tokens,
            metrics.input_tokens,
        );
        self.distillation_output_tokens = add_tokens(
            self.distillation_output_tokens,
            metrics.output_tokens,
        );
        self.distillation_elapsed_ms = add_ms(self.distillation_elapsed_ms, metrics.elapsed_ms);
    }

    fn record_outputs(&mut self, count: usize)
        ensures
            *final(self) == old(self).plus_outputs(count as nat),
    {
        self.distillation_outputs = add_count(self.distillation_outputs, count);
    }

    fn record_projected_node(&mut self, node: &MemoryNode)
        ensures
            *final(self) == old(self).plus_node(node@),
    {
        self.projected_memory_token_estimate = add_tokens(
            self.projected_memory_token_estimate,
            node.token_estimate,
        );
        self.stored_memories_touched = add_count(self.stored_memories_touched, 1);
    }

    fn record_applied(&mut self, outcome: &ApplyOutcome)
        ensures
            *final(self) == old(self).plus_applied(outcome@),
    {
        match outcome {
            ApplyOutcome::Added(node) => {
                self.memories_added = add_count(self.memories_added, 1);
                self.record_projected_node(node);
            },
            ApplyOutcome::Updated(node) => {
                self.memories_updated = add_count(self.memories_updated, 1);
                self.record_projected_node(node);
            },
            ApplyOutcome::Invalidated { replacement, invalidated_count } => {
                self.memories_invalidated = add_count(
                    self.memories_invalidated,
                    *invalidated_count,
                );
                self.stored_memories_touched = add_count(
                    self.stored_memories_touched,
                    *invalidated_count,
                );
                if let Some(node) = replacement {
                    self.record_projected_node(node);
                }
            },
            ApplyOutcome::Noop => {
                self.memories_nooped = add_count(self.memories_nooped, 1);
            },
        }
    }
}

/// Reports add up in any order.
pub proof fn reports_add_up(a: ProjectReport, b: ProjectReport, c: ProjectReport)
    ensures
        a.plus(b) == b.plus(a),
        a.plus(b).plus(c) == a.plus(b.plus(c)),
        a.plus(no_report()) == a,
{
}

// ---------------------------------------------------------------------------
// Applying the memories of one event
// ---------------------------------------------------------------------------
/// The nodes of a list, with the one that a memory led to.
pub open spec fn with_projected(nodes: Seq<NodeModel>, applied: AppliedModel) -> Seq<NodeModel> {
    match applied {
        AppliedModel::Added(node) => nodes.push(node),
        AppliedModel::Updated(node) => nodes.push(node),
        AppliedModel::Invalidated { replacement: Some(node), .. } => nodes.push(node),
        _ => nodes,
    }
}

/// What applying some memories leaves: the tables, the report and the nodes they led to.
pub struct Applied {
    pub store: StoreModel,
    pub report: ProjectReport,
    pub nodes: Seq<NodeModel>,
}

pub open spec fn applied_all(
    store: StoreModel,
    report: ProjectReport,
    event: EventModel,
    memories: Seq<DistilledModel>,
    neighbors: Seq<NodeModel>,
    now: i64,
) -> Result<Applied, ErrorModel>
    decreases memories.len(),
{
    if memories.len() == 0 {
        Ok(Applied { store, report, nodes: Seq::empty() })
    } else {
        match applied_all(store, report, event, memories.drop_last(), neighbors, now) {
            Err(error) => Err(error),
            Ok(done) => match done.store.applied(event, memories.last(), neighbors, now) {
                Err(error) => Err(error),
                Ok((after, applied)) => Ok(
                    Applied {
                        store: after,
                        report: done.report.plus_applied(applied),
                        nodes: with_projected(done.nodes, applied),
                    },
                ),
            },
        }
    }
}

/// A count, up to the greatest `usize`.
pub open spec fn capped(count: nat) -> usize {
    if count > usize::MAX {
        usize::MAX
    } else {
        count as usize
    }
}

impl StoreModel {
    /// The tables after the second node of a pair is said to derive from the first, and to be
    /// observed in it where it is an episode; and how many edges are new.
    pub open spec fn pair_linked(self, event: EventModel, from: NodeModel, to: NodeModel) -> Result<
        (StoreModel, nat),
        ErrorModel,
    > {
        match self.linked(
            event_scope(event),
            to.id,
            from.id,
            MemoryEdgeKind::DerivedFrom,
            80,
            event.observed_at_unix_ms,
        ) {
            Err(error) => Err(error),
            Ok((store, derived)) => {
                let one: nat = if derived {
                    1
                } else {
                    0
                };
                if from.kind == MemoryNodeKind::Episode {
                    match store.linked(
                        event_scope(event),
                        to.id,
                        from.id,
                        MemoryEdgeKind::ObservedIn,
                        90,
                        event.observed_at_unix_ms,
                    ) {
                        Err(error) => Err(error),
                        Ok((after, observed)) => Ok(
                            (
                                after,
                                if observed {
                                    one + 1
                                } else {
                                    one
                                },
                            ),
                        ),
                    }
                } else {
                    Ok((store, one))
                }
            },
        }
    }

    /// The tables after the nodes of one event are linked in their order, and how many edges
    /// are new.
    pub open spec fn chain_linked(self, event: EventModel, nodes: Seq<NodeModel>) -> Result<
        (StoreModel, nat),
        ErrorModel,
    >
        decreases nodes.len(),
    {
        if nodes.len() < 2 {
            Ok((self, 0))
        } else {
            match self.chain_linked(event, nodes.drop_last()) {
                Err(error) => Err(error),
                Ok((store, count)) => match store.pair_linked(
                    event,
                    nodes[nodes.len() - 2],
                    nodes[nodes.len() - 1],
                ) {
                    Err(error) => Err(error),
                    Ok((after, more)) => Ok((after, count + more)),
                },
            }
        }
    }
}

/// The tables after the memories of an event are applied and the event is marked.
#[verifier::opaque]
pub open spec fn projected(
    store: StoreModel,
    report: ProjectReport,
    event: EventModel,
    event_id: i64,
    memories: Seq<DistilledModel>,
    neighbors: Seq<NodeModel>,
    now: i64,
) -> Result<Applied, ErrorModel> {
    match applied_all(store, report, event, memories, neighbors, now) {
        Err(error) => Err(error),
        Ok(done) => match done.store.chain_linked(event, done.nodes) {
            Err(error) => Err(error),
            Ok((linked, edges)) => Ok(
                Applied {
                    store: linked.marked(event_id, now),
                    report: ProjectReport {
                        edges_added: plus_count(done.report.edges_added, capped(edges)),
                        events_projected: 1,
                        ..done.report
                    },
                    nodes: done.nodes,
                },
            ),
        },
    }
}

proof fn lemma_applied_all_prefix(
    store: StoreModel,
    report: ProjectReport,
    event: EventModel,
    memories: Seq<DistilledModel>,
    neighbors: Seq<NodeModel>,
    now: i64,
    k: int,
)
    requires
        0 <= k <= memories.len(),
        applied_all(store, report, event, memories.take(k), neighbors, now) is Err,
    ensures
        applied_all(store, report, event, memories, neighbors, now) == applied_all(
            store,
            report,
            event,
            memories.take(k),
            neighbors,
            now,
        ),
    decreases memories.len(),
{
    if k < memories.len() {
        assert(memories.drop_last().take(k) =~= memories.take(k));
        lemma_applied_all_prefix(store, report, event, memories.drop_last(), neighbors, now, k);
    } else {
        assert(memories.take(k) =~= memories);
    }
}

proof fn lemma_chain_prefix(store: StoreModel, event: EventModel, nodes: Seq<NodeModel>, k: int)
    requires
        0 <= k <= nodes.len(),
        store.chain_linked(event, nodes.take(k)) is Err,
    ensures
        store.chain_linked(event, nodes) == store.chain_linked(event, nodes.take(k)),
    decreases nodes.len(),
{
    if k < nodes.len() {
        assert(nodes.drop_last().take(k) =~= nodes.take(k));
        lemma_chain_prefix(store, event, nodes.drop_last(), k);
    } else {
        assert(nodes.take(k) =~= nodes);
    }
}

impl MemoryStore {
    fn link_pair(&mut self, event: &LedgerEvent, from: &MemoryNode, to: &MemoryNode) -> (r:
        MemoryResult<usize>)
        ensures
            match (r, old(self)@.pair_linked(event@, from@, to@)) {
                (Ok(count), Ok((store, model))) => final(self)@ == store && count == model && count
                    <= 2,
                (Err(error), Err(words)) => error@ == words,
                _ => false,
            },
    {
        let mut count: usize = 0;
        let derived = self.insert_edge(
            scope_of_event(event),
            to.id.as_str(),
            from.id.as_str(),
            MemoryEdgeKind::DerivedFrom,
            80,
            event.observed_at_unix_ms,
        )?;
        if derived {
            count += 1;
        }
        if from.kind == MemoryNodeKind::Episode {
            let observed = self.insert_edge(
                scope_of_event(event),
                to.id.as_str(),
                from.id.as_str(),
                MemoryEdgeKind::ObservedIn,
                90,
                event.observed_at_unix_ms,
            )?;
            if observed {
                count += 1;
            }
        }
        Ok(count)
    }

    /// Links the nodes of one event in their order; says how many edges are new. An error leaves the
    /// tables as they were.
    pub fn link_projected_nodes(&mut self, event: &LedgerEvent, nodes: &Vec<MemoryNode>) -> (r:
        MemoryResult<usize>)
        ensures
            match (r, old(self)@.chain_linked(event@, views(nodes@))) {
                (Ok(count), Ok((store, model))) => final(self)@ == store && count == capped(model),
                (Err(error), Err(words)) => error@ == words && final(self)@ == old(self)@,
                _ => false,
            },
    {
        let before = self.snapshot();
        let done = self.write_links(event, nodes);
        if done.is_err() {
            *self = before;
        }
        done
    }

    /// Links the nodes of one event in their order. What an error leaves is for the caller to
    /// undo.
    pub(crate) fn write_links(&mut self, event: &LedgerEvent, nodes: &Vec<MemoryNode>) -> (r:
        MemoryResult<usize>)
        ensures
            match (r, old(self)@.chain_linked(event@, views(nodes@))) {
                (Ok(count), Ok((store, model))) => final(self)@ == store && count == capped(model),
                (Err(error), Err(words)) => error@ == words,
                _ => false,
            },
    {
        let ghost start = self@;
        let ghost all = views(nodes@);
        let mut count: usize = 0;
        let mut i: usize = 1;
        if nodes.len() < 2 {
            return Ok(0);
        }
        while i < nodes.len()
            invariant
                1 <= i <= nodes@.len(),
                start == old(self)@,
                all == views(nodes@),
                match start.chain_linked(event@, all.take(i as int)) {
                    Ok((store, total)) => self@ == store && count == capped(total),
                    Err(_) => false,
                },
            decreases nodes.len() - i,
        {
            proof {
                assert(all.take(i as int + 1).drop_last() =~= all.take(i as int));
                assert(all.take(i as int + 1)[i as int] == nodes@[i as int]@);
                assert(all.take(i as int + 1)[i as int - 1] == nodes@[i as int - 1]@);
            }
            match self.link_pair(event, &nodes[i - 1], &nodes[i]) {
                Ok(more) => {
                    count = add_count(count, more);
                },
                Err(error) => {
                    proof {
                        lemma_chain_prefix(start, event@, all, i as int + 1);
                    }
                    return Err(error);
                },
            }
            i += 1;
        }
        proof {
            assert(all.take(i as int) =~= all);
        }
        Ok(count)
    }
}

fn keep_projected(nodes: &mut Vec<MemoryNode>, outcome: ApplyOutcome)
    ensures
        views(final(nodes)@) == with_projected(views(old(nodes)@), outcome@),
{
    let ghost before = nodes@;
    match outcome {
        ApplyOutcome::Added(node) => {
            nodes.push(node);
            proof {
                lemma_views_push(before, node);
            }
        },
        ApplyOutcome::Updated(node) => {
            nodes.push(node);
            proof {
                lemma_views_push(before, node);
            }
        },
        ApplyOutcome::Invalidated { replacement, invalidated_count } => {
            if let Some(node) = replacement {
                nodes.push(node);
                proof {
                    lemma_views_push(before, node);
                }
            }
        },
        ApplyOutcome::Noop => {},
    }
}

/// Applies the memories of an event and marks it. An error leaves the tables as they were.
pub fn project_memories(
    store: &mut MemoryStore,
    report: ProjectReport,
    event: &LedgerEvent,
    event_id: i64,
    memories: &Vec<DistilledMemory>,
    neighbors: &Vec<MemoryNode>,
    now: i64,
) -> (r: MemoryResult<(ProjectReport, Vec<MemoryNode>)>)
    ensures
        match (
            r,
            projected(
                old(store)@,
                report,
                event@,
                event_id,
                views(memories@),
                views(neighbors@),
                now,
            ),
        ) {
            (Ok((counted, nodes)), Ok(done)) => final(store)@ == done.store && counted
                == done.report && views(nodes@) == done.nodes,
            (Err(error), Err(words)) => error@ == words && final(store)@ == old(store)@,
            _ => false,
        },
{
    proof {
        reveal(projected);
    }
    let ghost start = store@;
    let ghost all = views(memories@);
    let ghost around = views(neighbors@);
    let mut work = store.snapshot();
    let mut counted = report;
    let mut nodes: Vec<MemoryNode> = Vec::new();
    let mut i: usize = 0;
    proof {
        assert(all.take(0) =~= Seq::empty());
        assert(views(nodes@) =~= Seq::empty());
    }
    while i < memories.len()
        invariant
            i <= memories@.len(),
            start == old(store)@,
            store@ == start,
            all == views(memories@),
            around == views(neighbors@),
            applied_all(start, report, event@, all.take(i as int), around, now) == Ok::<
                Applied,
                ErrorModel,
            >(Applied { store: work@, report: counted, nodes: views(nodes@) }),
        decreases memories.len() - i,
    {
        proof {
            assert(all.take(i as int + 1).drop_last() =~= all.take(i as int));
            assert(all.take(i as int + 1).last() == memories@[i as int]@);
        }
        match work.write_distilled(event, &memories[i], neighbors, now) {
            Ok(outcome) => {
                counted.record_applied(&outcome);
                keep_projected(&mut nodes, outcome);
            },
            Err(error) => {
                proof {
                    lemma_applied_all_prefix(
                        start,
                        report,
                        event@,
                        all,
                        around,
                        now,
                        i as int + 1,
                    );
                    reveal(projected);
                }
                return Err(error);
            },
        }
        i += 1;
    }
    proof {
        assert(all.take(i as int) =~= all);
    }
    let edges = work.write_links(event, &nodes)?;
    counted.edges_added = add_count(counted.edges_added, edges);
    work.mark_projected(event_id, now);
    counted.events_projected = 1;
    *store = work;
    Ok((counted, nodes))
}

// ---------------------------------------------------------------------------
// Late arrivals
// ---------------------------------------------------------------------------
/// A reply of the distiller.
pub type Reply = Result<OutcomeModel, ErrorModel>;

/// A request to the distiller and its reply.
pub struct Call {
    pub event: EventModel,
    pub neighbors: Seq<NodeModel>,
    pub reply: Reply,
}

/// Every reply is one that the distiller may give.
pub open spec fn allowed<D: Distiller>(distiller: D, calls: Seq<Call>) -> bool {
    forall|k: int|
        0 <= k < calls.len() ==> distiller.may_give(
            (#[trigger] calls[k]).event,
            calls[k].neighbors,
            calls[k].reply,
        )
}

/// How far the replay of later events against a late memory has come.
pub struct LateRun {
    pub store: StoreModel,
    pub report: ProjectReport,
    pub error: Option<ErrorModel>,
    pub done: bool,
    pub asked: Seq<Call>,
}

impl LateRun {
    pub open spec fn over(self) -> bool {
        self.done || self.error is Some
    }

    pub open spec fn failed(self, error: ErrorModel) -> LateRun {
        LateRun { error: Some(error), ..self }
    }

    /// The replay once a later event has closed the late memory, or has not.
    pub open spec fn closing(self, store: StoreModel, closed: bool, update: bool) -> LateRun {
        if !closed {
            LateRun { store, ..self }
        } else {
            LateRun {
                store,
                done: true,
                report: ProjectReport {
                    memories_invalidated: if update {
                        self.report.memories_invalidated
                    } else {
                        plus_count(self.report.memories_invalidated, 1)
                    },
                    memories_updated: if update {
                        plus_count(self.report.memories_updated, 1)
                    } else {
                        self.report.memories_updated
                    },
                    stored_memories_touched: plus_count(self.report.stored_memories_touched, 1),
                    ..self.report
                },
                ..self
            }
        }
    }

    /// The replay after one memory of a later event.
    pub open spec fn after_memory(
        self,
        event: EventModel,
        node: NodeModel,
        neighbors: Seq<NodeModel>,
        memory: DistilledModel,
        now: i64,
    ) -> LateRun {
        if self.over() {
            self
        } else {
            match memory.op {
                BeliefRevisionOp::Invalidate => if some_row(
                    targets_of_invalidation(memory, neighbors, None),
                    with_id(node.id),
                ) {
                    match self.store.late_invalidated(event, memory, node.id, now) {
                        Err(error) => self.failed(error),
                        Ok((store, closed)) => self.closing(store, closed, false),
                    }
                } else {
                    self
                },
                BeliefRevisionOp::Update => match target_of_update(memory, neighbors) {
                    Some(target) => if target.id == node.id {
                        match self.store.late_updated(event, memory, node, now) {
                            Err(error) => self.failed(error),
                            Ok((store, closed)) => self.closing(store, closed, true),
                        }
                    } else {
                        self
                    },
                    None => self,
                },
                _ => self,
            }
        }
    }

    /// The replay after some memories of a later event.
    pub open spec fn after_memories(
        self,
        event: EventModel,
        node: NodeModel,
        neighbors: Seq<NodeModel>,
        memories: Seq<DistilledModel>,
        now: i64,
    ) -> LateRun
        decreases memories.len(),
    {
        if memories.len() == 0 {
            self
        } else {
            self.after_memories(event, node, neighbors, memories.drop_last(), now).after_memory(
                event,
                node,
                neighbors,
                memories.last(),
                now,
            )
        }
    }

    /// The replay after the reply to a later event.
    pub open spec fn after_reply(
        self,
        event: EventModel,
        node: NodeModel,
        neighbors: Seq<NodeModel>,
        reply: Reply,
        now: i64,
    ) -> LateRun {
        let heard = LateRun {
            asked: self.asked.push(Call { event, neighbors, reply }),
            ..self
        };
        match reply {
            Err(error) => heard.failed(error),
            Ok(outcome) => match checked_outcome(
                "late distilled memory"@,
                event,
                neighbors,
                outcome,
            ) {
                Err(error) => heard.failed(error),
                Ok(checked) => {
                    let counted = LateRun {
                        report: heard.report.plus_metrics(checked.metrics),
                        ..heard
                    };
                    if checked.rejected {
                        counted
                    } else {
                        (LateRun {
                            report: counted.report.plus_outputs(checked.memories.len()),
                            ..counted
                        }).after_memories(event, node, neighbors, checked.memories, now)
                    }
                },
            },
        }
    }

    /// The replay after a later event. The event is distilled again only where the late memory
    /// is among the nodes that it could revise.
    #[verifier::opaque]
    pub open spec fn after_event(
        self,
        event: EventModel,
        node: NodeModel,
        reply: Reply,
        now: i64,
    ) -> LateRun {
        let neighbors = self.store.recall(
            event_scope(event),
            terms_of(event.text),
            open_before(self.store, event),
            24,
        );
        if self.over() || !some_row(neighbors, with_id(node.id)) {
            self
        } else {
            self.after_reply(event, node, neighbors, reply, now)
        }
    }

    /// The replay after some later events, with a reply for each that was distilled.
    pub open spec fn after_events(
        self,
        events: Seq<EventModel>,
        node: NodeModel,
        replies: Seq<Reply>,
        now: i64,
    ) -> LateRun
        decreases events.len(),
    {
        if events.len() == 0 {
            self
        } else {
            self.after_events(events.drop_last(), node, replies.drop_last(), now).after_event(
                events.last(),
                node,
                replies.last(),
                now,
            )
        }
    }
}

/// A replay that has not begun.
pub open spec fn late_start(store: StoreModel) -> LateRun {
    LateRun { store, report: no_report(), error: None, done: false, asked: Seq::empty() }
}

/// The later events that may revise a memory that arrived late.
pub open spec fn later_events(store: StoreModel, event: EventModel, node: NodeModel) -> Seq<
    EventModel,
> {
    ranked::<LedgerEvent, ByObserved>(
        store.ledger.filter(
            projected_between(
                event_scope(event),
                event,
                node.valid_to_unix_ms,
                node.valid_to_event_id,
            ),
        ),
    )
}

/// The replay of later events against one node of an event.
#[verifier::opaque]
pub open spec fn late_node(
    store: StoreModel,
    event: EventModel,
    node: NodeModel,
    replies: Seq<Reply>,
    now: i64,
) -> LateRun {
    if is_scaffold(node.kind) {
        late_start(store)
    } else {
        late_start(store).after_events(later_events(store, event, node), node, replies, now)
    }
}

/// The replay of later events against the nodes of an event, one after the other.
pub open spec fn late_nodes(
    store: StoreModel,
    event: EventModel,
    nodes: Seq<NodeModel>,
    replies: Seq<Seq<Reply>>,
    now: i64,
) -> LateRun
    decreases nodes.len(),
{
    if nodes.len() == 0 {
        late_start(store)
    } else {
        let front = late_nodes(store, event, nodes.drop_last(), replies.drop_last(), now);
        if front.error is Some {
            front
        } else {
            let last = late_node(front.store, event, nodes.last(), replies.last(), now);
            LateRun {
                store: last.store,
                report: front.report.plus(last.report),
                error: last.error,
                done: false,
                asked: front.asked + last.asked,
            }
        }
    }
}

/// What a replay comes to: an error, or the report.
pub open spec fn late_result(r: MemoryResult<ProjectReport>, run: LateRun) -> bool {
    match (r, run.error) {
        (Ok(report), None) => report == run.report,
        (Err(error), Some(words)) => error@ == words,
        _ => false,
    }
}

struct LateWork {
    report: ProjectReport,
    error: Option<MemoryError>,
    done: bool,
}

spec fn late_is(work: LateWork, store: StoreModel, run: LateRun) -> bool {
    &&& store == run.store
    &&& work.report == run.report
    &&& work.done == run.done
    &&& match (work.error, run.error) {
        (Some(error), Some(words)) => error@ == words,
        (None, None) => true,
        _ => false,
    }
}

fn replay_memory(
    store: &mut MemoryStore,
    work: LateWork,
    event: &LedgerEvent,
    node: &MemoryNode,
    neighbors: &Vec<MemoryNode>,
    memory: &DistilledMemory,
    now: i64,
    Ghost(run): Ghost<LateRun>,
) -> (r: LateWork)
    requires
        late_is(work, old(store)@, run),
    ensures
        late_is(
            r,
            final(store)@,
            run.after_memory(event@, node@, views(neighbors@), memory@, now),
        ),
{
    let mut out = work;
    if out.done || out.error.is_some() {
        return out;
    }
    match memory.op {
        BeliefRevisionOp::Invalidate => {
            let targets = invalidation_targets(memory, neighbors, None);
            if has_row(&targets, &WithId { id: node.id.as_str() }) {
                let saved = store.snapshot();
                match store.write_late_invalidation(event, memory, node, now) {
                    Ok(closed) => {
                        if closed {
                            out.report.memories_invalidated = add_count(
                                out.report.memories_invalidated,
                                1,
                            );
                            out.report.stored_memories_touched = add_count(
                                out.report.stored_memories_touched,
                                1,
                            );
                            out.done = true;
                        }
                    },
                    Err(error) => {
                        *store = saved;
                        out.error = Some(error);
                    },
                }
            }
        },
        BeliefRevisionOp::Update => {
            if let Some(target) = revision_target(memory, neighbors) {
                if crate::chars::same_text(target.id.as_str(), node.id.as_str()) {
                    let saved = store.snapshot();
                    match store.write_late_update(event, memory, node, now) {
                        Ok(closed) => {
                            if closed {
                                out.report.memories_updated = add_count(
                                    out.report.memories_updated,
                                    1,
                                );
                                out.report.stored_memories_touched = add_count(
                                    out.report.stored_memories_touched,
                                    1,
                                );
                                out.done = true;
                            }
                        },
                        Err(error) => {
                            *store = saved;
                            out.error = Some(error);
                        },
                    }
                }
            }
        },
        _ => {},
    }
    out
}

fn replay_memories(
    store: &mut MemoryStore,
    work: LateWork,
    event: &LedgerEvent,
    node: &MemoryNode,
    neighbors: &Vec<MemoryNode>,
    memories: &Vec<DistilledMemory>,
    now: i64,
    Ghost(run): Ghost<LateRun>,
) -> (r: LateWork)
    requires
        late_is(work, old(store)@, run),
    ensures
        late_is(
            r,
            final(store)@,
            run.after_memories(event@, node@, views(neighbors@), views(memories@), now),
        ),
{
    let ghost all = views(memories@);
    let ghost around = views(neighbors@);
    let mut out = work;
    let mut i: usize = 0;
    proof {
        assert(all.take(0) =~= Seq::empty());
    }
    while i < memories.len()
        invariant
            i <= memories@.len(),
            all == views(memories@),
            around == views(neighbors@),
            late_is(
                out,
                store@,
                run.after_memories(event@, node@, around, all.take(i as int), now),
            ),
        decreases memories.len() - i,
    {
        proof {
            assert(all.take(i as int + 1).drop_last() =~= all.take(i as int));
            assert(all.take(i as int + 1).last() == memories@[i as int]@);
        }
        let ghost so_far = run.after_memories(event@, node@, around, all.take(i as int), now);
        out = replay_memory(
            store,
            out,
            event,
            node,
            neighbors,
            &memories[i],
            now,
            Ghost(so_far),
        );
        i += 1;
    }
    proof {
        assert(all.take(i as int) =~= all);
    }
    out
}

fn replay_reply(
    store: &mut MemoryStore,
    work: LateWork,
    event: &LedgerEvent,
    node: &MemoryNode,
    neighbors: &Vec<MemoryNode>,
    reply: MemoryResult<DistillOutcome>,
    now: i64,
    Ghost(run): Ghost<LateRun>,
) -> (r: LateWork)
    requires
        late_is(work, old(store)@, run),
    ensures
        late_is(
            r,
            final(store)@,
            run.after_reply(event@, node@, views(neighbors@), distill_reply(reply), now),
        ),
{
    let ghost model = distill_reply(reply);
    let ghost heard = LateRun {
        asked: run.asked.push(Call { event: event@, neighbors: views(neighbors@), reply: model }),
        ..run
    };
    let mut out = work;
    let outcome = match reply {
        Ok(outcome) => outcome,
        Err(error) => {
            out.error = Some(error);
            return out;
        },
    };
    match validate_distill_outcome(event, neighbors, "late distilled memory", outcome) {
        Err(error) => {
            out.error = Some(error);
            out
        },
        Ok(checked) => {
            out.report.absorb_distill_metrics(checked.metrics);
            if checked.rejected {
                return out;
            }
            out.report.record_outputs(checked.memories.len());
            let ghost counted = LateRun {
                report: heard.report.plus_metrics(checked@.metrics).plus_outputs(
                    checked@.memories.len(),
                ),
                ..heard
            };
            replay_memories(
                store,
                out,
                event,
                node,
                neighbors,
                &checked.memories,
                now,
                Ghost(counted),
            )
        },
    }
}

fn replay_event<D: Distiller>(
    store: &mut MemoryStore,
    distiller: &D,
    work: LateWork,
    event: &LedgerEvent,
    node: &MemoryNode,
    now: i64,
    Ghost(run): Ghost<LateRun>,
) -> (r: (LateWork, Ghost<Reply>))
    requires
        late_is(work, old(store)@, run),
        allowed(*distiller, run.asked),
    ensures
        late_is(r.0, final(store)@, run.after_event(event@, node@, r.1@, now)),
        allowed(*distiller, run.after_event(event@, node@, r.1@, now).asked),
{
    proof {
        reveal(LateRun::after_event);
    }
    let ghost none: Reply = Err(ErrorModel::InvalidInput(Seq::empty()));
    if work.done || work.error.is_some() {
        return (work, Ghost(none));
    }
    let neighbors = match store.projection_neighbors_for_event(event, event.text.as_str(), 24) {
        Ok(neighbors) => neighbors,
        Err(error) => {
            proof {
                assert(limit_problem("projection_neighbors_for_event limit"@, 24) is None);
                assert(false);
            }
            return (work, Ghost(none));
        },
    };
    if !has_row(&neighbors, &WithId { id: node.id.as_str() }) {
        return (work, Ghost(none));
    }
    let reply = distiller.distill(event, neighbors.as_slice());
    let ghost model = distill_reply(reply);
    let out = replay_reply(store, work, event, node, &neighbors, reply, now, Ghost(run));
    proof {
        lemma_after_reply_asked(run, event@, node@, views(neighbors@), model, now);
        let call = Call { event: event@, neighbors: views(neighbors@), reply: model };
        let asked = run.asked.push(call);
        assert forall|k: int| 0 <= k < asked.len() implies distiller.may_give(
            (#[trigger] asked[k]).event,
            asked[k].neighbors,
            asked[k].reply,
        ) by {
            if k < run.asked.len() {
                assert(asked[k] == run.asked[k]);
            }
        }
    }
    (out, Ghost(model))
}

proof fn lemma_after_memories_asked(
    run: LateRun,
    event: EventModel,
    node: NodeModel,
    neighbors: Seq<NodeModel>,
    memories: Seq<DistilledModel>,
    now: i64,
)
    ensures
        run.after_memories(event, node, neighbors, memories, now).asked == run.asked,
    decreases memories.len(),
{
    if memories.len() > 0 {
        lemma_after_memories_asked(run, event, node, neighbors, memories.drop_last(), now);
    }
}

proof fn lemma_after_reply_asked(
    run: LateRun,
    event: EventModel,
    node: NodeModel,
    neighbors: Seq<NodeModel>,
    reply: Reply,
    now: i64,
)
    ensures
        run.after_reply(event, node, neighbors, reply, now).asked == run.asked.push(
            Call { event, neighbors, reply },
        ),
{
    let heard = LateRun { asked: run.asked.push(Call { event, neighbors, reply }), ..run };
    if let Ok(outcome) = reply {
        if let Ok(checked) = checked_outcome("late distilled memory"@, event, neighbors, outcome) {
            let counted = LateRun {
                report: heard.report.plus_metrics(checked.metrics).plus_outputs(
                    checked.memories.len(),
                ),
                ..heard
            };
            lemma_after_memories_asked(counted, event, node, neighbors, checked.memories, now);
        }
    }
}

/// The replay against one node is what some replies of the distiller come to.
pub open spec fn late_node_happened<D: Distiller>(
    distiller: D,
    before: StoreModel,
    after: StoreModel,
    event: EventModel,
    node: NodeModel,
    now: i64,
    r: MemoryResult<ProjectReport>,
    replies: Seq<Reply>,
) -> bool {
    let run = late_node(before, event, node, replies, now);
    &&& after == run.store
    &&& late_result(r, run)
    &&& allowed(distiller, run.asked)
}

fn replay_node<D: Distiller>(
    store: &mut MemoryStore,
    distiller: &D,
    event: &LedgerEvent,
    node: &MemoryNode,
    now: i64,
) -> (r: (MemoryResult<ProjectReport>, Ghost<Seq<Reply>>))
    ensures
        late_node_happened(
            *distiller,
            old(store)@,
            final(store)@,
            event@,
            node@,
            now,
            r.0,
            r.1@,
        ),
{
    proof {
        reveal(late_node);
    }
    let ghost start = store@;
    let mut work = LateWork { report: ProjectReport::default(), error: None, done: false };
    let ghost mut replies: Seq<Reply> = Seq::empty();
    if node.kind == MemoryNodeKind::Episode || node.kind == MemoryNodeKind::EntityCue {
        return (Ok(work.report), Ghost(replies));
    }
    let events = store.projected_events_after(
        scope_of_event(event),
        event,
        node.valid_to_unix_ms,
        node.valid_to_event_id,
    );
    let ghost all = views(events@);
    let ghost first = late_start(start);
    let mut i: usize = 0;
    proof {
        assert(all.take(0) =~= Seq::empty());
    }
    while i < events.len()
        invariant
            i <= events@.len(),
            all == views(events@),
            replies.len() == i,
            late_is(work, store@, first.after_events(all.take(i as int), node@, replies, now)),
            allowed(
                *distiller,
                first.after_events(all.take(i as int), node@, replies, now).asked,
            ),
        decreases events.len() - i,
    {
        let ghost run = first.after_events(all.take(i as int), node@, replies, now);
        let (next, Ghost(reply)) = replay_event(
            store,
            distiller,
            work,
            &events[i],
            node,
            now,
            Ghost(run),
        );
        work = next;
        proof {
            let longer = replies.push(reply);
            assert(longer.drop_last() =~= replies);
            assert(all.take(i as int + 1).drop_last() =~= all.take(i as int));
            assert(all.take(i as int + 1).last() == events@[i as int]@);
            replies = longer;
        }
        i += 1;
    }
    proof {
        assert(all.take(i as int) =~= all);
    }
    match work.error {
        Some(error) => (Err(error), Ghost(replies)),
        None => (Ok(work.report), Ghost(replies)),
    }
}

/// Replays later events against the nodes of an event that arrived late.
fn replay_nodes<D: Distiller>(
    store: &mut MemoryStore,
    distiller: &D,
    event: &LedgerEvent,
    nodes: &Vec<MemoryNode>,
    now: i64,
) -> (r: (MemoryResult<ProjectReport>, Ghost<Seq<Seq<Reply>>>))
    ensures
        ({
            let run = late_nodes(old(store)@, event@, views(nodes@), r.1@, now);
            &&& final(store)@ == run.store
            &&& late_result(r.0, run)
            &&& allowed(*distiller, run.asked)
            &&& r.1@.len() == nodes@.len()
        }),
{
    let ghost start = store@;
    let ghost all = views(nodes@);
    let ghost mut replies: Seq<Seq<Reply>> = Seq::empty();
    let mut report = ProjectReport::default();
    let mut error: Option<MemoryError> = None;
    let mut i: usize = 0;
    proof {
        assert(all.take(0) =~= Seq::empty());
    }
    while i < nodes.len()
        invariant
            i <= nodes@.len(),
            start == old(store)@,
            all == views(nodes@),
            replies.len() == i,
            ({
                let run = late_nodes(start, event@, all.take(i as int), replies, now);
                &&& store@ == run.store
                &&& allowed(*distiller, run.asked)
                &&& match (error, run.error) {
                    (Some(found), Some(words)) => found@ == words,
                    (None, None) => report == run.report,
                    _ => false,
                }
            }),
        decreases nodes.len() - i,
    {
        let ghost front = late_nodes(start, event@, all.take(i as int), replies, now);
        proof {
            assert(all.take(i as int + 1).drop_last() =~= all.take(i as int));
            assert(all.take(i as int + 1).last() == nodes@[i as int]@);
        }
        if error.is_some() {
            proof {
                let longer = replies.push(Seq::empty());
                assert(longer.drop_last() =~= replies);
                replies = longer;
            }
        } else {
            let (result, Ghost(heard)) = replay_node(store, distiller, event, &nodes[i], now);
            proof {
                let longer = replies.push(heard);
                assert(longer.drop_last() =~= replies);
                let last = late_node(front.store, event@, nodes@[i as int]@, heard, now);
                let asked = front.asked + last.asked;
                assert forall|k: int| 0 <= k < asked.len() implies distiller.may_give(
                    (#[trigger] asked[k]).event,
                    asked[k].neighbors,
                    asked[k].reply,
                ) by {
                    if k < front.asked.len() {
                        assert(asked[k] == front.asked[k]);
                    } else {
                        assert(asked[k] == last.asked[k - front.asked.len()]);
                    }
                }
                replies = longer;
            }
            match result {
                Ok(more) => {
                    report.absorb(more);
                },
                Err(found) => {
                    error = Some(found);
                },
            }
        }
        i += 1;
    }
    proof {
        assert(all.take(i as int) =~= all);
    }
    match error {
        Some(found) => (Err(found), Ghost(replies)),
        None => (Ok(report), Ghost(replies)),
    }
}

// ---------------------------------------------------------------------------
// Events
// ---------------------------------------------------------------------------
/// What the distiller replies while one event is projected: to the event, and to later events
/// that are replayed against its nodes.
pub struct EventReplies {
    pub first: Reply,
    pub late: Seq<Seq<Reply>>,
}

/// What projecting an event, or several, comes to.
pub struct EventRun {
    pub store: StoreModel,
    pub report: ProjectReport,
    pub error: Option<ErrorModel>,
    pub asked: Seq<Call>,
}

/// The report of an event before anything is done with it.
pub open spec fn event_seen(event: EventModel) -> ProjectReport {
    ProjectReport {
        events_seen: 1,
        source_token_estimate: token_cost(event.text),
        ..no_report()
    }
}

/// The nodes that an event is distilled with.
pub open spec fn event_neighbors(store: StoreModel, event: EventModel) -> Seq<NodeModel> {
    store.recall(
        event_scope(event),
        terms_of(event.text),
        holding_at(event.observed_at_unix_ms),
        24,
    )
}

/// The event with an identifier waits for projection.
pub open spec fn waits(store: StoreModel, event_id: i64) -> bool {
    match first_index(store.ledger, with_number(event_id)) {
        Some(i) => store.ledger[i].projected_at_unix_ms is None,
        None => false,
    }
}

/// What is made of the distiller's reply to an event.
pub open spec fn after_first_reply(
    store: StoreModel,
    event: EventModel,
    event_id: i64,
    neighbors: Seq<NodeModel>,
    replies: EventReplies,
    late: bool,
    now: i64,
) -> EventRun {
    let asked = seq![Call { event, neighbors, reply: replies.first }];
    let seen = event_seen(event);
    match replies.first {
        Err(error) => EventRun { store, report: seen, error: Some(error), asked },
        Ok(outcome) => match checked_outcome("distilled memory"@, event, neighbors, outcome) {
            Err(error) => EventRun { store, report: seen, error: Some(error), asked },
            Ok(checked) => {
                let counted = seen.plus_metrics(checked.metrics);
                if checked.rejected {
                    EventRun { store, report: counted.skipped(), error: None, asked }
                } else {
                    match projected(
                        store,
                        counted.plus_outputs(checked.memories.len()),
                        event,
                        event_id,
                        checked.memories,
                        neighbors,
                        now,
                    ) {
                        Err(error) => EventRun { store, report: seen, error: Some(error), asked },
                        Ok(done) => if late {
                            let run = late_nodes(done.store, event, done.nodes, replies.late, now);
                            EventRun {
                                store: run.store,
                                report: done.report.plus(run.report),
                                error: run.error,
                                asked: asked + run.asked,
                            }
                        } else {
                            EventRun {
                                store: done.store,
                                report: done.report.plus(no_report()),
                                error: None,
                                asked,
                            }
                        },
                    }
                }
            },
        },
    }
}

/// Projecting one event. An event that does not wait is skipped, and so is one whose
/// distillation is rejected.
#[verifier::opaque]
pub open spec fn event_run(
    store: StoreModel,
    event: EventModel,
    replies: EventReplies,
    late: bool,
    now: i64,
) -> EventRun {
    if event.id is None || !waits(store, event.id->0) {
        EventRun { store, report: event_seen(event).skipped(), error: None, asked: Seq::empty() }
    } else {
        after_first_reply(
            store,
            event,
            event.id->0,
            event_neighbors(store, event),
            replies,
            late,
            now,
        )
    }
}

/// Projecting some events, one after the other, up to the first error.
pub open spec fn events_run(
    store: StoreModel,
    events: Seq<EventModel>,
    replies: Seq<EventReplies>,
    late: bool,
    now: i64,
) -> EventRun
    decreases events.len(),
{
    if events.len() == 0 {
        EventRun { store, report: no_report(), error: None, asked: Seq::empty() }
    } else {
        let front = events_run(store, events.drop_last(), replies.drop_last(), late, now);
        if front.error is Some {
            front
        } else {
            let last = event_run(front.store, events.last(), replies.last(), late, now);
            EventRun {
                store: last.store,
                report: front.report.plus(last.report),
                error: last.error,
                asked: front.asked + last.asked,
            }
        }
    }
}

/// What a pass comes to: an error, or the report.
pub open spec fn run_result(r: MemoryResult<ProjectReport>, run: EventRun) -> bool {
    match (r, run.error) {
        (Ok(report), None) => report == run.report,
        (Err(error), Some(words)) => error@ == words,
        _ => false,
    }
}

fn project_event<D: Distiller>(
    store: &mut MemoryStore,
    distiller: &D,
    late: bool,
    event: &LedgerEvent,
    now: i64,
) -> (r: (MemoryResult<ProjectReport>, Ghost<EventReplies>))
    ensures
        ({
            let run = event_run(old(store)@, event@, r.1@, late, now);
            &&& final(store)@ == run.store
            &&& run_result(r.0, run)
            &&& allowed(*distiller, run.asked)
        }),
{
    proof {
        reveal(event_run);
    }
    let ghost nothing = EventReplies {
        first: Err(ErrorModel::InvalidInput(Seq::empty())),
        late: Seq::empty(),
    };
    let mut report = ProjectReport::default();
    report.events_seen = 1;
    report.source_token_estimate = estimate_tokens(event.text.as_str());
    let event_id: i64 = match event.id {
        Some(id) => id,
        None => {
            report.events_skipped = 1;
            return (Ok(report), Ghost(nothing));
        },
    };
    if !store.event_is_pending(event_id) {
        report.events_skipped = 1;
        return (Ok(report), Ghost(nothing));
    }
    let environment_id = match &event.environment_id {
        Some(text) => Some(text.as_str()),
        None => None,
    };
    let neighbors = match store.active_neighbors(
        event.tenant_id.as_str(),
        event.project_id.as_str(),
        environment_id,
        event.text.as_str(),
        24,
        event.observed_at_unix_ms,
    ) {
        Ok(neighbors) => neighbors,
        Err(error) => {
            proof {
                assert(limit_problem("active_neighbors limit"@, 24) is None);
                assert(false);
            }
            return (Err(error), Ghost(nothing));
        },
    };
    let reply = distiller.distill(event, neighbors.as_slice());
    let ghost model = distill_reply(reply);
    let ghost call = Call { event: event@, neighbors: views(neighbors@), reply: model };
    let ghost mut replies = EventReplies { first: model, late: Seq::empty() };
    let outcome = match reply {
        Ok(outcome) => outcome,
        Err(error) => {
            return (Err(error), Ghost(replies));
        },
    };
    let checked = match validate_distill_outcome(event, &neighbors, "distilled memory", outcome) {
        Ok(checked) => checked,
        Err(error) => {
            return (Err(error), Ghost(replies));
        },
    };
    report.absorb_distill_metrics(checked.metrics);
    if checked.rejected {
        report.events_skipped = 1;
        return (Ok(report), Ghost(replies));
    }
    report.record_outputs(checked.memories.len());
    let (mut report, nodes) = match project_memories(
        store,
        report,
        event,
        event_id,
        &checked.memories,
        &neighbors,
        now,
    ) {
        Ok(done) => done,
        Err(error) => {
            return (Err(error), Ghost(replies));
        },
    };
    if !late {
        proof {
            reports_add_up(report, no_report(), no_report());
        }
        return (Ok(report), Ghost(replies));
    }
    let ghost middle = store@;
    let (later, Ghost(heard)) = replay_nodes(store, distiller, event, &nodes, now);
    proof {
        replies = EventReplies { first: model, late: heard };
        let run = late_nodes(middle, event@, views(nodes@), heard, now);
        let asked = seq![call] + run.asked;
        assert forall|k: int| 0 <= k < asked.len() implies distiller.may_give(
            (#[trigger] asked[k]).event,
            asked[k].neighbors,
            asked[k].reply,
        ) by {
            if k > 0 {
                assert(asked[k] == run.asked[k - 1]);
            }
        }
    }
    match later {
        Ok(more) => {
            report.absorb(more);
            (Ok(report), Ghost(replies))
        },
        Err(error) => (Err(error), Ghost(replies)),
    }
}

/// Some replies of the distiller make a pass over some events come out this way. Events that
/// arrive late are held against later ones just where the distiller replays.
pub open spec fn events_happened<D: Distiller>(
    distiller: D,
    before: StoreModel,
    after: StoreModel,
    events: Seq<EventModel>,
    now: i64,
    r: MemoryResult<ProjectReport>,
) -> bool {
    exists|replies: Seq<EventReplies>|
        {
            let run = #[trigger] events_run(
                before,
                events,
                replies,
                distiller.replays_late(),
                now,
            );
            &&& after == run.store
            &&& run_result(r, run)
            &&& allowed(distiller, run.asked)
            &&& replies.len() == events.len()
        }
}

/// Projects some events, one after the other, up to the first error.
pub fn project_events<D: Distiller>(
    store: &mut MemoryStore,
    distiller: &D,
    events: &Vec<LedgerEvent>,
    now: i64,
) -> (r: MemoryResult<ProjectReport>)
    ensures
        events_happened(*distiller, old(store)@, final(store)@, views(events@), now, r),
{
    let late = distiller.supports_late_replay();
    let ghost start = store@;
    let ghost all = views(events@);
    let ghost mut replies: Seq<EventReplies> = Seq::empty();
    let mut report = ProjectReport::default();
    let mut error: Option<MemoryError> = None;
    let mut i: usize = 0;
    proof {
        assert(all.take(0) =~= Seq::empty());
    }
    while i < events.len()
        invariant
            i <= events@.len(),
            start == old(store)@,
            late == distiller.replays_late(),
            all == views(events@),
            replies.len() == i,
            ({
                let run = events_run(start, all.take(i as int), replies, late, now);
                &&& store@ == run.store
                &&& allowed(*distiller, run.asked)
                &&& match (error, run.error) {
                    (Some(found), Some(words)) => found@ == words,
                    (None, None) => report == run.report,
                    _ => false,
                }
            }),
        decreases events.len() - i,
    {
        let ghost front = events_run(start, all.take(i as int), replies, late, now);
        proof {
            assert(all.take(i as int + 1).drop_last() =~= all.take(i as int));
            assert(all.take(i as int + 1).last() == events@[i as int]@);
        }
        if error.is_some() {
            proof {
                let longer = replies.push(
                    EventReplies {
                        first: Err(ErrorModel::InvalidInput(Seq::empty())),
                        late: Seq::empty(),
                    },
                );
                assert(longer.drop_last() =~= replies);
                replies = longer;
            }
        } else {
            let (result, Ghost(heard)) = project_event(store, distiller, late, &events[i], now);
            proof {
                let longer = replies.push(heard);
                assert(longer.drop_last() =~= replies);
                let last = event_run(front.store, events@[i as int]@, heard, late, now);
                let asked = front.asked + last.asked;
                assert forall|k: int| 0 <= k < asked.len() implies distiller.may_give(
                    (#[trigger] asked[k]).event,
                    asked[k].neighbors,
                    asked[k].reply,
                ) by {
                    if k < front.asked.len() {
                        assert(asked[k] == front.asked[k]);
                    } else {
                        assert(asked[k] == last.asked[k - front.asked.len()]);
                    }
                }
                replies = longer;
            }
            match result {
                Ok(more) => {
                    report.absorb(more);
                },
                Err(found) => {
                    error = Some(found);
                },
            }
        }
        i += 1;
    }
    let result = match error {
        Some(found) => Err(found),
        None => Ok(report),
    };
    proof {
        assert(all.take(i as int) =~= all);
        let run = events_run(start, all, replies, late, now);
        assert(store@ == run.store && run_result(result, run) && allowed(*distiller, run.asked));
    }
    result
}

/// The events that a pass takes up: those that wait, in ledger order, at most `limit` of them.
pub open spec fn pass_events(store: StoreModel, limit: usize) -> Seq<EventModel> {
    at_most(
        ranked::<LedgerEvent, ByObserved>(store.ledger.filter(is_pending())),
        limit as int,
    )
}

/// What is wrong with the limit of a pass.
pub open spec fn pass_problem(limit: usize) -> Option<Seq<char>> {
    if limit == 0 {
        Some("project limit must be greater than 0"@)
    } else {
        limit_problem("pending_events limit"@, limit)
    }
}

/// A pass came out this way: refused for its limit with the tables left alone, or run over the
/// events that wait.
pub open spec fn pass_happened<D: Distiller>(
    distiller: D,
    before: StoreModel,
    after: StoreModel,
    limit: usize,
    now: i64,
    r: MemoryResult<ProjectReport>,
) -> bool {
    match pass_problem(limit) {
        Some(problem) => failure(r) == rejection(Some(problem)) && after == before,
        None => events_happened(distiller, before, after, pass_events(before, limit), now, r),
    }
}

/// Runs a projection pass at a given time.
pub fn run_pass<D: Distiller>(
    store: &mut MemoryStore,
    distiller: &D,
    limit: usize,
    now: i64,
) -> (r: MemoryResult<ProjectReport>)
    ensures
        pass_happened(*distiller, old(store)@, final(store)@, limit, now, r),
{
    if limit == 0 {
        return Err(MemoryError::invalid("project limit must be greater than 0"));
    }
    let events = store.pending_events(limit)?;
    project_events(store, distiller, &events, now)
}

} // verus!
