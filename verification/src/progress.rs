//! Laws of projection: which distilled memories are applied, how they are joined to one another,
//! and what the report of a pass counts.
use vstd::prelude::*;

use crate::chars::{blank, text_or_empty};
use crate::digits::in_24_digits;
use crate::distill::DistillMetrics;
use crate::error::ErrorModel;
use crate::ledger::{EventModel, LedgerEvent};
use crate::model::{
    token_cost, BeliefRevisionOp, DistilledModel, MemoryEdgeKind, MemoryNodeKind, SpanModel,
};
use crate::order::{lemma_ranked_contains, lemma_ranked_in_order, Ranking};
use crate::passes::{
    applied_all, event_neighbors, event_seen, late_node, later_events, no_report, Applied, LateRun,
    ProjectReport, Reply,
};
use crate::bookkeeping::{lemma_there, there};
use crate::projection::{base_key, beginning_at, in_family, is_edge, saying_at, ByVersion, Upsert};
use crate::renewal::edges_are_drawn_once;
use crate::retrieval::recalled_memories_have_a_cue;
use crate::revise::{
    memory_problem, settled, settled_all, target_of_update, targets_of_invalidation, untargeted_add,
    AppliedModel,
};
use crate::rows::{family_key, EdgeModel, MemoryNode, NodeModel, ScopeKey};
use crate::store::{
    event_scope, holding_at, open_before, projected_between, with_id, ByObserved, StoreModel,
};
use crate::table::{first_index, lemma_filter_contains, lemma_first_index, some_row};
use crate::text::{canonical_key_of, overlap_share, terms_of};

verus! {

// ---------------------------------------------------------------------------
// Checking what was distilled
// ---------------------------------------------------------------------------
/// A memory is applied only if it is valid, cites the event that it was distilled from, and any
/// target that it names is one of the memories it was distilled with: of its own kind, neither an
/// episode nor a cue, and sharing at least twelve hundredths of its terms where it says anything.
/// A target is never revised in silence: an update that names one says something.
pub proof fn applied_memories_cite_their_event_and_know_their_target(
    event: EventModel,
    memory: DistilledModel,
    neighbors: Seq<NodeModel>,
)
    requires
        memory_problem(event, memory, neighbors) is None,
    ensures
        memory.cited_spans.contains(event.span()),
        memory.problem() is None,
        memory.target_node_id matches Some(id) ==> exists|n: int|
            #![trigger neighbors[n]]
            0 <= n < neighbors.len() && neighbors[n].id == id && neighbors[n].kind
                == memory.node_kind && neighbors[n].kind != MemoryNodeKind::Episode
                && neighbors[n].kind != MemoryNodeKind::EntityCue && (blank(memory.text)
                || overlap_share(memory.text, neighbors[n].text) >= in_24_digits(12, 100)),
        memory.op == BeliefRevisionOp::Update && memory.target_node_id is Some ==> !blank(
            memory.text,
        ),
{
    if let Some(id) = memory.target_node_id {
        lemma_first_index(neighbors, with_id(id));
        let n = first_index(neighbors, with_id(id))->0;
        assert(neighbors[n].id == id);
    }
}

/// A valid memory that cites its event and names no target is applied, and so is one that names
/// the first of its neighbors with that identifier where it is of its kind and shares enough.
pub proof fn sound_memories_are_not_refused(
    event: EventModel,
    memory: DistilledModel,
    neighbors: Seq<NodeModel>,
    n: int,
)
    requires
        memory.problem() is None,
        memory.cited_spans.contains(event.span()),
        memory.target_node_id matches Some(id) ==> {
            &&& 0 <= n < neighbors.len()
            &&& neighbors[n].id == id
            &&& forall|m: int| 0 <= m < n ==> (#[trigger] neighbors[m]).id != id
            &&& neighbors[n].kind == memory.node_kind
            &&& neighbors[n].kind != MemoryNodeKind::Episode
            &&& neighbors[n].kind != MemoryNodeKind::EntityCue
            &&& !blank(memory.text) ==> overlap_share(memory.text, neighbors[n].text)
                >= in_24_digits(12, 100)
            &&& memory.op == BeliefRevisionOp::Update ==> !blank(memory.text)
        },
    ensures
        memory_problem(event, memory, neighbors) is None,
{
    if let Some(id) = memory.target_node_id {
        lemma_first_index(neighbors, with_id(id));
        assert((with_id(id))(neighbors[n]));
        assert(some_row(neighbors, with_id(id)));
        let f = first_index(neighbors, with_id(id))->0;
        assert(neighbors[f].id == id);
        if n < f {
            assert(!(with_id(id))(neighbors[n]));
        }
    }
}

/// Settling a memory keeps its words, its kind and its citations. An addition loses the target
/// that it names, a revision that finds nothing to revise becomes an addition, and no other
/// memory changes.
pub proof fn settling_keeps_what_is_said(memory: DistilledModel, neighbors: Seq<NodeModel>)
    ensures
        ({
            let (r, turned) = settled(memory, neighbors);
            &&& r.text == memory.text
            &&& r.node_kind == memory.node_kind
            &&& r.cited_spans == memory.cited_spans
            &&& memory.op == BeliefRevisionOp::Add ==> r.op == BeliefRevisionOp::Add
                && r.target_node_id is None && !turned
            &&& memory.op == BeliefRevisionOp::Noop ==> r == memory && !turned
            &&& !turned && memory.op != BeliefRevisionOp::Add ==> r == memory
            &&& turned ==> r.op == BeliefRevisionOp::Add && (memory.op == BeliefRevisionOp::Update
                || memory.op == BeliefRevisionOp::Invalidate)
        }),
{
}

/// Of the memories of an event either all are applied, each as it settles and in their order, or
/// none is: the first that something is wrong with refuses them all.
pub proof fn memories_are_applied_together(
    context: Seq<char>,
    event: EventModel,
    neighbors: Seq<NodeModel>,
    memories: Seq<DistilledModel>,
    metrics: DistillMetrics,
    i: int,
)
    requires
        0 <= i < memories.len(),
    ensures
        match settled_all(context, event, neighbors, memories, metrics) {
            Ok((done, _)) => {
                &&& done.len() == memories.len()
                &&& done[i] == settled(memories[i], neighbors).0
                &&& memory_problem(event, untargeted_add(memories[i]), neighbors) is None
            },
            Err(_) => exists|k: int|
                0 <= k < memories.len() && memory_problem(
                    event,
                    untargeted_add(#[trigger] memories[k]),
                    neighbors,
                ) is Some,
        },
    decreases memories.len(),
{
    let front = memories.drop_last();
    let last = memories.len() - 1;
    assert(memories[last] == memories.last());
    if front.len() > 0 {
        let j = if i < front.len() {
            i
        } else {
            0
        };
        memories_are_applied_together(context, event, neighbors, front, metrics, j);
        assert(front[j] == memories[j]);
        if settled_all(context, event, neighbors, front, metrics) is Err {
            let k = choose|k: int|
                0 <= k < front.len() && memory_problem(
                    event,
                    untargeted_add(#[trigger] front[k]),
                    neighbors,
                ) is Some;
            assert(front[k] == memories[k]);
        }
    } else {
        assert(settled_all(context, event, neighbors, front, metrics) is Ok);
    }
}

// ---------------------------------------------------------------------------
// Neighbors and later events
// ---------------------------------------------------------------------------
/// An event is distilled with memories of its own scope that held when it was observed and that
/// have a cue under one of its terms.
pub proof fn events_are_distilled_with_what_held(store: StoreModel, event: EventModel, i: int) -> (r:
    (int, int))
    requires
        0 <= i < event_neighbors(store, event).len(),
    ensures
        ({
            let node = event_neighbors(store, event)[i];
            let (t, c) = r;
            &&& node.valid_from_unix_ms <= event.observed_at_unix_ms
            &&& node.valid_to_unix_ms matches Some(end) ==> event.observed_at_unix_ms < end
            &&& 0 <= t < terms_of(event.text).len()
            &&& 0 <= c < store.cues.len()
            &&& store.cues[c].term == terms_of(event.text)[t]
            &&& store.cues[c].node_id == node.id
            &&& store.cues[c].tenant_id == event.tenant_id
            &&& store.cues[c].project_id == event.project_id
        }),
{
    recalled_memories_have_a_cue(
        store,
        event_scope(event),
        terms_of(event.text),
        holding_at(event.observed_at_unix_ms),
        24,
        i,
    )
}

/// A memory that arrived late is held against the events of its scope that were projected, were
/// observed after it and before it ended, in the order in which they were observed; and against
/// no others.
pub proof fn late_memories_meet_later_events(
    store: StoreModel,
    event: EventModel,
    node: NodeModel,
    other: EventModel,
    i: int,
    j: int,
)
    ensures
        ({
            let r = later_events(store, event, node);
            &&& r.contains(other) ==> {
                &&& store.ledger.contains(other)
                &&& other.projected_at_unix_ms is Some
                &&& other.tenant_id == event.tenant_id
                &&& other.project_id == event.project_id
                &&& text_or_empty(other.environment_id) == text_or_empty(event.environment_id)
                &&& other.observed_at_unix_ms >= event.observed_at_unix_ms
                &&& node.valid_to_unix_ms matches Some(end) ==> other.observed_at_unix_ms <= end
            }
            &&& store.ledger.contains(other) && other.projected_at_unix_ms is Some
                && other.tenant_id == event.tenant_id && other.project_id == event.project_id
                && text_or_empty(other.environment_id) == text_or_empty(event.environment_id)
                && other.observed_at_unix_ms > event.observed_at_unix_ms && (
            node.valid_to_unix_ms matches Some(end) ==> other.observed_at_unix_ms < end)
                ==> r.contains(other)
            &&& 0 <= i < j < r.len() ==> r[i].observed_at_unix_ms <= r[j].observed_at_unix_ms
        }),
{
    let test = projected_between(
        event_scope(event),
        event,
        node.valid_to_unix_ms,
        node.valid_to_event_id,
    );
    let found = store.ledger.filter(test);
    let r = later_events(store, event, node);
    lemma_filter_contains(store.ledger, test, other);
    lemma_ranked_contains::<LedgerEvent, ByObserved>(found, other);
    lemma_ranked_in_order::<LedgerEvent, ByObserved>(found);
    if 0 <= i < j < r.len() {
        assert(!ByObserved::before(r[j], r[i]));
    }
}

/// A later event can revise a memory that held when it was observed and whose first event was
/// observed before it, and none that had not begun or had ended before then.
pub proof fn events_revise_what_held_before_them(
    store: StoreModel,
    event: EventModel,
    node: NodeModel,
)
    ensures
        node.active_at(event.observed_at_unix_ms) && (store.first_event(node.id) matches Some(first)
            ==> first.observed_at_unix_ms < event.observed_at_unix_ms) ==> (open_before(
            store,
            event,
        ))(node),
        node.valid_from_unix_ms > event.observed_at_unix_ms ==> !(open_before(store, event))(node),
        node.valid_to_unix_ms matches Some(end) ==> (end < event.observed_at_unix_ms ==> !(
        open_before(store, event))(node)),
        store.first_event(node.id) matches Some(first) ==> (first == event && event.id is Some
            ==> !(open_before(store, event))(node)),
{
}

// ---------------------------------------------------------------------------
// Edges
// ---------------------------------------------------------------------------
proof fn lemma_edges_stay(before: Seq<EdgeModel>, after: Seq<EdgeModel>, test: spec_fn(EdgeModel) -> bool)
    requires
        before.len() <= after.len(),
        after.take(before.len() as int) == before,
        some_row(before, test),
    ensures
        some_row(after, test),
{
    let k = choose|k: int| 0 <= k < before.len() && test(#[trigger] before[k]);
    assert(after.take(before.len() as int)[k] == after[k]);
    assert(test(after[k]));
}

proof fn lemma_linked_grows(
    store: StoreModel,
    event: EventModel,
    from: Seq<char>,
    to: Seq<char>,
    kind: MemoryEdgeKind,
    weight: u32,
)
    ensures
        store.linked(
            event_scope(event),
            from,
            to,
            kind,
            weight,
            event.observed_at_unix_ms,
        ) matches Ok((after, added)) ==> {
            &&& store.edges.len() <= after.edges.len()
            &&& after.edges.take(store.edges.len() as int) == store.edges
            &&& after.nodes == store.nodes
            &&& from != to ==> some_row(after.edges, is_edge(from, to, kind))
            &&& after.edges.len() == store.edges.len() + (if added {
                1int
            } else {
                0
            })
        },
{
    let at = event.observed_at_unix_ms;
    edges_are_drawn_once(store, event_scope(event), from, to, kind, weight, at, at);
    if let Ok((after, added)) = store.linked(event_scope(event), from, to, kind, weight, at) {
        if added {
            assert(after.edges.take(store.edges.len() as int) =~= after.edges.drop_last());
        } else {
            assert(after.edges.take(store.edges.len() as int) =~= store.edges);
        }
    }
}

/// A memory that replaces another is said both to supersede and to contradict it, in this
/// direction.
pub proof fn replacements_supersede_and_contradict(
    store: StoreModel,
    event: EventModel,
    newer: Seq<char>,
    older: Seq<char>,
)
    requires
        newer != older,
    ensures
        store.with_revision_edges(event, newer, older) matches Ok(after) ==> {
            &&& some_row(after.edges, is_edge(newer, older, MemoryEdgeKind::Supersedes))
            &&& some_row(after.edges, is_edge(newer, older, MemoryEdgeKind::Contradicts))
            &&& after.nodes == store.nodes
            &&& store.edges.len() <= after.edges.len() <= store.edges.len() + 2
        },
{
    lemma_linked_grows(store, event, newer, older, MemoryEdgeKind::Supersedes, 100);
    if let Ok((one, _)) = store.linked(
        event_scope(event),
        newer,
        older,
        MemoryEdgeKind::Supersedes,
        100,
        event.observed_at_unix_ms,
    ) {
        lemma_linked_grows(one, event, newer, older, MemoryEdgeKind::Contradicts, 80);
        if let Ok((two, _)) = one.linked(
            event_scope(event),
            newer,
            older,
            MemoryEdgeKind::Contradicts,
            80,
            event.observed_at_unix_ms,
        ) {
            lemma_edges_stay(
                one.edges,
                two.edges,
                is_edge(newer, older, MemoryEdgeKind::Supersedes),
            );
        }
    }
}

proof fn lemma_pair(store: StoreModel, event: EventModel, from: NodeModel, to: NodeModel)
    ensures
        store.pair_linked(event, from, to) matches Ok((after, count)) ==> {
            &&& store.edges.len() <= after.edges.len()
            &&& after.edges.take(store.edges.len() as int) == store.edges
            &&& after.edges.len() == store.edges.len() + count
            &&& from.id != to.id ==> some_row(
                after.edges,
                is_edge(to.id, from.id, MemoryEdgeKind::DerivedFrom),
            )
            &&& from.id != to.id && from.kind == MemoryNodeKind::Episode ==> some_row(
                after.edges,
                is_edge(to.id, from.id, MemoryEdgeKind::ObservedIn),
            )
        },
{
    lemma_linked_grows(store, event, to.id, from.id, MemoryEdgeKind::DerivedFrom, 80);
    if let Ok((one, _)) = store.linked(
        event_scope(event),
        to.id,
        from.id,
        MemoryEdgeKind::DerivedFrom,
        80,
        event.observed_at_unix_ms,
    ) {
        if from.kind == MemoryNodeKind::Episode {
            lemma_linked_grows(one, event, to.id, from.id, MemoryEdgeKind::ObservedIn, 90);
            if let Ok((two, _)) = one.linked(
                event_scope(event),
                to.id,
                from.id,
                MemoryEdgeKind::ObservedIn,
                90,
                event.observed_at_unix_ms,
            ) {
                assert(two.edges.take(store.edges.len() as int) =~= two.edges.take(
                    one.edges.len() as int,
                ).take(store.edges.len() as int));
                if from.id != to.id {
                    lemma_edges_stay(
                        one.edges,
                        two.edges,
                        is_edge(to.id, from.id, MemoryEdgeKind::DerivedFrom),
                    );
                }
            }
        }
    }
}

/// The memories of one event are joined in their order: each is said to derive from the one
/// before it, and to have been observed in it where that is an episode. As many edges are
/// counted as are new, and none goes.
pub proof fn memories_of_one_event_are_joined(
    store: StoreModel,
    event: EventModel,
    nodes: Seq<NodeModel>,
    i: int,
)
    requires
        0 <= i,
    ensures
        store.chain_linked(event, nodes) matches Ok((after, count)) ==> {
            &&& store.edges.len() <= after.edges.len()
            &&& after.edges.take(store.edges.len() as int) == store.edges
            &&& after.edges.len() == store.edges.len() + count
            &&& i + 1 < nodes.len() && nodes[i].id != nodes[i + 1].id ==> some_row(
                after.edges,
                is_edge(nodes[i + 1].id, nodes[i].id, MemoryEdgeKind::DerivedFrom),
            )
            &&& i + 1 < nodes.len() && nodes[i].id != nodes[i + 1].id && nodes[i].kind
                == MemoryNodeKind::Episode ==> some_row(
                after.edges,
                is_edge(nodes[i + 1].id, nodes[i].id, MemoryEdgeKind::ObservedIn),
            )
        },
    decreases nodes.len(),
{
    if nodes.len() < 2 {
        assert(store.edges.take(store.edges.len() as int) =~= store.edges);
    } else {
        let front = nodes.drop_last();
        let n = nodes.len() as int;
        memories_of_one_event_are_joined(store, event, front, i);
        if let Ok((mid, _)) = store.chain_linked(event, front) {
            lemma_pair(mid, event, nodes[n - 2], nodes[n - 1]);
            if let Ok((after, _)) = mid.pair_linked(event, nodes[n - 2], nodes[n - 1]) {
                assert(after.edges.take(store.edges.len() as int) =~= after.edges.take(
                    mid.edges.len() as int,
                ).take(store.edges.len() as int));
                if i + 1 < front.len() && nodes[i].id != nodes[i + 1].id {
                    assert(front[i] == nodes[i] && front[i + 1] == nodes[i + 1]);
                    lemma_edges_stay(
                        mid.edges,
                        after.edges,
                        is_edge(nodes[i + 1].id, nodes[i].id, MemoryEdgeKind::DerivedFrom),
                    );
                    if nodes[i].kind == MemoryNodeKind::Episode {
                        lemma_edges_stay(
                            mid.edges,
                            after.edges,
                            is_edge(nodes[i + 1].id, nodes[i].id, MemoryEdgeKind::ObservedIn),
                        );
                    }
                }
            }
        }
    }
}

/// No more memories are taken back than were to be, and where none was to be nothing changes.
pub proof fn no_more_is_taken_back_than_named(
    store: StoreModel,
    event: EventModel,
    targets: Seq<NodeModel>,
    replacement: Option<NodeModel>,
)
    ensures
        store.all_taken_back(event, targets, replacement) matches Ok((after, count)) ==> {
            &&& count <= targets.len()
            &&& targets.len() == 0 ==> after == store
            &&& after.nodes.len() == store.nodes.len()
        },
    decreases targets.len(),
{
    if targets.len() > 0 {
        no_more_is_taken_back_than_named(store, event, targets.drop_last(), replacement);
        if let Ok((mid, _)) = store.all_taken_back(event, targets.drop_last(), replacement) {
            lemma_first_index(mid.nodes, with_id(targets.last().id));
        }
        reveal(StoreModel::invalidated);
        reveal(StoreModel::linked);
    }
}

// ---------------------------------------------------------------------------
// Reports
// ---------------------------------------------------------------------------
/// Two reports taken together count what both count, each thing under its own name.
pub proof fn reports_count_both(a: ProjectReport, b: ProjectReport)
    ensures
        ({
            let r = a.plus(b);
            &&& a.events_seen + b.events_seen <= usize::MAX ==> r.events_seen == a.events_seen
                + b.events_seen
            &&& a.events_projected + b.events_projected <= usize::MAX ==> r.events_projected
                == a.events_projected + b.events_projected
            &&& a.events_skipped + b.events_skipped <= usize::MAX ==> r.events_skipped
                == a.events_skipped + b.events_skipped
            &&& a.source_token_estimate + b.source_token_estimate <= u32::MAX
                ==> r.source_token_estimate == a.source_token_estimate + b.source_token_estimate
            &&& a.projected_memory_token_estimate + b.projected_memory_token_estimate <= u32::MAX
                ==> r.projected_memory_token_estimate == a.projected_memory_token_estimate
                + b.projected_memory_token_estimate
            &&& a.stored_memories_touched + b.stored_memories_touched <= usize::MAX
                ==> r.stored_memories_touched == a.stored_memories_touched
                + b.stored_memories_touched
            &&& a.distillation_outputs + b.distillation_outputs <= usize::MAX
                ==> r.distillation_outputs == a.distillation_outputs + b.distillation_outputs
            &&& a.distillation_provider_calls + b.distillation_provider_calls <= usize::MAX
                ==> r.distillation_provider_calls == a.distillation_provider_calls
                + b.distillation_provider_calls
            &&& a.distillation_provider_errors + b.distillation_provider_errors <= usize::MAX
                ==> r.distillation_provider_errors == a.distillation_provider_errors
                + b.distillation_provider_errors
            &&& a.distillation_schema_errors + b.distillation_schema_errors <= usize::MAX
                ==> r.distillation_schema_errors == a.distillation_schema_errors
                + b.distillation_schema_errors
            &&& a.distillation_repair_attempts + b.distillation_repair_attempts <= usize::MAX
                ==> r.distillation_repair_attempts == a.distillation_repair_attempts
                + b.distillation_repair_attempts
            &&& a.distillation_repair_successes + b.distillation_repair_successes <= usize::MAX
                ==> r.distillation_repair_successes == a.distillation_repair_successes
                + b.distillation_repair_successes
            &&& a.distillation_rejections + b.distillation_rejections <= usize::MAX
                ==> r.distillation_rejections == a.distillation_rejections
                + b.distillation_rejections
            &&& a.distillation_input_tokens + b.distillation_input_tokens <= u32::MAX
                ==> r.distillation_input_tokens == a.distillation_input_tokens
                + b.distillation_input_tokens
            &&& a.distillation_output_tokens + b.distillation_output_tokens <= u32::MAX
                ==> r.distillation_output_tokens == a.distillation_output_tokens
                + b.distillation_output_tokens
            &&& a.distillation_elapsed_ms + b.distillation_elapsed_ms <= u64::MAX
                ==> r.distillation_elapsed_ms == a.distillation_elapsed_ms
                + b.distillation_elapsed_ms
            &&& a.memories_added + b.memories_added <= usize::MAX ==> r.memories_added
                == a.memories_added + b.memories_added
            &&& a.memories_updated + b.memories_updated <= usize::MAX ==> r.memories_updated
                == a.memories_updated + b.memories_updated
            &&& a.memories_invalidated + b.memories_invalidated <= usize::MAX
                ==> r.memories_invalidated == a.memories_invalidated + b.memories_invalidated
            &&& a.memories_nooped + b.memories_nooped <= usize::MAX ==> r.memories_nooped
                == a.memories_nooped + b.memories_nooped
            &&& a.edges_added + b.edges_added <= usize::MAX ==> r.edges_added == a.edges_added
                + b.edges_added
        }),
{
}

/// The counters of a distillation go into a report under their own names, and nothing else of
/// the report changes.
pub proof fn distillations_are_counted(a: ProjectReport, m: DistillMetrics)
    requires
        a.distillation_provider_calls + m.provider_calls <= usize::MAX,
        a.distillation_provider_errors + m.provider_errors <= usize::MAX,
        a.distillation_schema_errors + m.schema_errors <= usize::MAX,
        a.distillation_repair_attempts + m.repair_attempts <= usize::MAX,
        a.distillation_repair_successes + m.repair_successes <= usize::MAX,
        a.distillation_rejections + m.rejected_outputs <= usize::MAX,
        a.distillation_input_tokens + m.input_tokens <= u32::MAX,
        a.distillation_output_tokens + m.output_tokens <= u32::MAX,
        a.distillation_elapsed_ms + m.elapsed_ms <= u64::MAX,
    ensures
        a.plus_metrics(m) == (ProjectReport {
            distillation_provider_calls: (a.distillation_provider_calls
                + m.provider_calls) as usize,
            distillation_provider_errors: (a.distillation_provider_errors
                + m.provider_errors) as usize,
            distillation_schema_errors: (a.distillation_schema_errors + m.schema_errors) as usize,
            distillation_repair_attempts: (a.distillation_repair_attempts
                + m.repair_attempts) as usize,
            distillation_repair_successes: (a.distillation_repair_successes
                + m.repair_successes) as usize,
            distillation_rejections: (a.distillation_rejections + m.rejected_outputs) as usize,
            distillation_input_tokens: (a.distillation_input_tokens + m.input_tokens) as u32,
            distillation_output_tokens: (a.distillation_output_tokens + m.output_tokens) as u32,
            distillation_elapsed_ms: (a.distillation_elapsed_ms + m.elapsed_ms) as u64,
            ..a
        }),
{
}

/// A memory that was applied is counted once, under what it came to: an addition and an update
/// with the memory that they wrote and its tokens, an invalidation with each memory that it
/// closed and the one that it wrote, and nothing touched where nothing was done.
pub proof fn applied_memories_are_counted(report: ProjectReport, applied: AppliedModel)
    requires
        report.memories_added < usize::MAX,
        report.memories_updated < usize::MAX,
        report.memories_nooped < usize::MAX,
        applied matches AppliedModel::Invalidated { count, .. } ==> report.memories_invalidated
            + count <= usize::MAX && report.stored_memories_touched + count < usize::MAX,
        report.stored_memories_touched < usize::MAX,
    ensures
        ({
            let r = report.plus_applied(applied);
            let added: int = if applied is Added {
                1
            } else {
                0
            };
            let updated: int = if applied is Updated {
                1
            } else {
                0
            };
            let nooped: int = if applied is Noop {
                1
            } else {
                0
            };
            let closed: int = match applied {
                AppliedModel::Invalidated { count, .. } => count as int,
                _ => 0,
            };
            let written: Option<NodeModel> = match applied {
                AppliedModel::Added(node) => Some(node),
                AppliedModel::Updated(node) => Some(node),
                AppliedModel::Invalidated { replacement, .. } => replacement,
                AppliedModel::Noop => None,
            };
            &&& r.memories_added == report.memories_added + added
            &&& r.memories_updated == report.memories_updated + updated
            &&& r.memories_nooped == report.memories_nooped + nooped
            &&& r.memories_invalidated == report.memories_invalidated + closed
            &&& r.stored_memories_touched == report.stored_memories_touched + closed + (
            if written is Some {
                1int
            } else {
                0
            })
            &&& written matches Some(node) ==> (report.projected_memory_token_estimate
                + node.token_estimate <= u32::MAX ==> r.projected_memory_token_estimate
                == report.projected_memory_token_estimate + node.token_estimate)
            &&& written is None ==> r.projected_memory_token_estimate
                == report.projected_memory_token_estimate
            &&& r.events_seen == report.events_seen
            &&& r.edges_added == report.edges_added
            &&& r.distillation_outputs == report.distillation_outputs
        }),
{
}

/// An event is seen once and costs the tokens of its text, whatever becomes of it; one that is
/// skipped counts as skipped and as nothing else.
pub proof fn events_are_counted_once(event: EventModel)
    ensures
        event_seen(event).events_seen == 1,
        event_seen(event).source_token_estimate == token_cost(event.text),
        event_seen(event).events_projected == 0,
        event_seen(event).events_skipped == 0,
        event_seen(event).memories_added == 0,
        event_seen(event).edges_added == 0,
        event_seen(event).skipped() == (ProjectReport { events_skipped: 1, ..event_seen(event) }),
{
}

// ---------------------------------------------------------------------------
// Cues and replacements
// ---------------------------------------------------------------------------
proof fn lemma_version(
    store: StoreModel,
    scope: ScopeKey,
    kind: MemoryNodeKind,
    family: Seq<char>,
    test: spec_fn(NodeModel) -> bool,
)
    ensures
        first_index(store.family(scope, kind, family), test) matches Some(i) ==> {
            let node = store.family(scope, kind, family)[i];
            test(node) && node.kind == kind && node.in_scope(scope) && store.nodes.contains(node)
        },
{
    let versions = store.family(scope, kind, family);
    let member = in_family(scope, kind, family);
    lemma_first_index(versions, test);
    if let Some(i) = first_index(versions, test) {
        assert(versions.contains(versions[i]));
        lemma_ranked_contains::<MemoryNode, ByVersion>(store.nodes.filter(member), versions[i]);
        lemma_filter_contains(store.nodes, member, versions[i]);
    }
}

/// A memory that is stated is of its kind and scope and begins when it is stated, whether it is
/// new or stated again; stating draws no edge and touches no event.
pub proof fn stated_memories_begin_when_stated(
    store: StoreModel,
    scope: ScopeKey,
    kind: MemoryNodeKind,
    text: Seq<char>,
    at: i64,
    spans: Seq<SpanModel>,
    now: i64,
)
    ensures
        store.upserted(scope, kind, text, at, spans, now) matches Ok(done) ==> {
            &&& done.node.kind == kind
            &&& done.node.in_scope(scope)
            &&& done.node.valid_from_unix_ms == at
            &&& done.created ==> done.node.text == text
            &&& done.store.edges == store.edges
            &&& done.store.ledger == store.ledger
            &&& done.store.audit == store.audit
        },
{
    reveal(StoreModel::upserted);
    lemma_version(store, scope, kind, base_key(kind, text, spans), beginning_at(at));
}

/// The same holds of a memory that is stated as a version of a given family.
pub proof fn versions_begin_when_stated(
    store: StoreModel,
    scope: ScopeKey,
    kind: MemoryNodeKind,
    family: Seq<char>,
    text: Seq<char>,
    at: i64,
    spans: Seq<SpanModel>,
    now: i64,
)
    ensures
        store.upserted_in_family(scope, kind, family, text, at, spans, now) matches Ok(done) ==> {
            &&& done.node.kind == kind
            &&& done.node.in_scope(scope)
            &&& done.node.valid_from_unix_ms == at
            &&& done.created ==> done.node.text == text
            &&& done.store.edges == store.edges
            &&& done.store.ledger == store.ledger
        },
{
    reveal(StoreModel::upserted_in_family);
    lemma_version(store, scope, kind, family, saying_at(at, text));
}

/// A version that is found by what it says begins at the time asked for and is of the kind and
/// the scope asked for.
pub proof fn versions_are_found_where_they_begin(
    store: StoreModel,
    scope: ScopeKey,
    kind: MemoryNodeKind,
    text: Seq<char>,
    at: i64,
)
    ensures
        store.version_by_text(scope, kind, text, at) matches Some(node) ==> node.kind == kind
            && node.in_scope(scope) && node.valid_from_unix_ms == at && store.nodes.contains(node),
{
    reveal(StoreModel::version_by_text);
    lemma_version(store, scope, kind, canonical_key_of(kind.name(), text), beginning_at(at));
}

/// A memory is joined to a cue for each of the terms it is cued by, none left out: an edge says
/// that it mentions a cue that was stated for the term.
pub proof fn memories_mention_their_cues(
    store: StoreModel,
    event: EventModel,
    node_id: Seq<char>,
    cue_terms: Seq<Seq<char>>,
    now: i64,
    k: int,
) -> (r: (StoreModel, Upsert))
    requires
        0 <= k < cue_terms.len(),
        store.cued(event, node_id, cue_terms, now) is Ok,
    ensures
        ({
            let after = store.cued(event, node_id, cue_terms, now)->Ok_0;
            let (at, done) = r;
            &&& at.upserted(
                event_scope(event),
                MemoryNodeKind::EntityCue,
                cue_terms[k],
                event.observed_at_unix_ms,
                seq![event.span()],
                now,
            ) == Ok::<Upsert, ErrorModel>(done)
            &&& done.node.kind == MemoryNodeKind::EntityCue
            &&& node_id != done.node.id ==> some_row(
                after.edges,
                is_edge(node_id, done.node.id, MemoryEdgeKind::Mentions),
            )
        }),
    decreases cue_terms.len(),
{
    let front = cue_terms.drop_last();
    let mid = store.cued(event, node_id, front, now)->Ok_0;
    let after = store.cued(event, node_id, cue_terms, now)->Ok_0;
    let scope = event_scope(event);
    let at = event.observed_at_unix_ms;
    let last = mid.upserted(
        scope,
        MemoryNodeKind::EntityCue,
        cue_terms.last(),
        at,
        seq![event.span()],
        now,
    )->Ok_0;
    stated_memories_begin_when_stated(
        mid,
        scope,
        MemoryNodeKind::EntityCue,
        cue_terms.last(),
        at,
        seq![event.span()],
        now,
    );
    lemma_linked_grows(last.store, event, node_id, last.node.id, MemoryEdgeKind::Mentions, 55);
    if k < front.len() {
        assert(front[k] == cue_terms[k]);
        let r = memories_mention_their_cues(store, event, node_id, front, now, k);
        if node_id != r.1.node.id {
            lemma_edges_stay(
                mid.edges,
                after.edges,
                is_edge(node_id, r.1.node.id, MemoryEdgeKind::Mentions),
            );
        }
        r
    } else {
        (mid, last)
    }
}

/// What takes memories back begins when its event was observed, and is of its own kind; where it
/// says nothing, nothing is written.
pub proof fn replacements_begin_with_their_event(
    store: StoreModel,
    event: EventModel,
    memory: DistilledModel,
    now: i64,
)
    ensures
        store.with_replacement(event, memory, now) matches Ok((after, replacement)) ==> {
            &&& blank(memory.text) ==> replacement is None && after == store
            &&& !blank(memory.text) ==> replacement is Some
            &&& replacement matches Some(node) ==> node.valid_from_unix_ms
                == event.observed_at_unix_ms && node.kind == memory.node_kind && node.in_scope(
                event_scope(event),
            )
        },
{
    let scope = event_scope(event);
    let at = event.observed_at_unix_ms;
    versions_are_found_where_they_begin(store, scope, memory.node_kind, memory.text, at);
    stated_memories_begin_when_stated(
        store,
        scope,
        memory.node_kind,
        memory.text,
        at,
        memory.cited_spans,
        now,
    );
}

// ---------------------------------------------------------------------------
// Late memories
// ---------------------------------------------------------------------------
/// A memory that arrived late ends when a later event that updates it was observed, if it held
/// until then, in favour of the version that this event states; and an edge says so.
pub proof fn later_updates_end_late_memories(
    store: StoreModel,
    event: EventModel,
    memory: DistilledModel,
    target: NodeModel,
    now: i64,
)
    ensures
        store.late_updated(event, memory, target, now) matches Ok((after, closed)) ==> {
            let (ended, changed) = store.invalidated(
                target.id,
                event.observed_at_unix_ms,
                event.id,
            );
            let (_, successor, _) = ended.late_successor(event, memory, target, now)->Ok_0;
            &&& closed == changed
            &&& successor.valid_from_unix_ms == event.observed_at_unix_ms
            &&& successor.kind == memory.node_kind
            &&& successor.in_scope(event_scope(event))
            &&& closed && successor.id != target.id ==> some_row(
                after.edges,
                is_edge(successor.id, target.id, MemoryEdgeKind::Supersedes),
            )
        },
{
    let scope = event_scope(event);
    let at = event.observed_at_unix_ms;
    let family = family_key(target.canonical_key);
    let (ended, changed) = store.invalidated(target.id, at, event.id);
    versions_are_found_where_they_begin(ended, scope, memory.node_kind, memory.text, at);
    versions_begin_when_stated(
        ended,
        scope,
        memory.node_kind,
        family,
        memory.text,
        at,
        memory.cited_spans,
        now,
    );
    if let Ok((mid, successor, duplicate)) = ended.late_successor(event, memory, target, now) {
        let single = match duplicate {
            Some(id) => mid.invalidated(id, at, event.id).0,
            None => mid,
        };
        lemma_linked_grows(
            single,
            event,
            successor.id,
            target.id,
            MemoryEdgeKind::Supersedes,
            100,
        );
    }
}

/// Nothing closes a late memory but a later memory that revises it: one that adds or does
/// nothing, that updates another, or that takes others back, leaves the replay as it was. Once
/// the late memory is closed, or something failed, the replay is over.
pub proof fn late_memories_are_closed_by_revisions_alone(
    run: LateRun,
    event: EventModel,
    node: NodeModel,
    neighbors: Seq<NodeModel>,
    memory: DistilledModel,
    now: i64,
)
    ensures
        ({
            let after = run.after_memory(event, node, neighbors, memory, now);
            &&& run.done || run.error is Some ==> after == run
            &&& memory.op == BeliefRevisionOp::Add || memory.op == BeliefRevisionOp::Noop ==> after
                == run
            &&& memory.op == BeliefRevisionOp::Update && (target_of_update(
                memory,
                neighbors,
            ) matches Some(target) ==> target.id != node.id) ==> after == run
            &&& memory.op == BeliefRevisionOp::Invalidate && !there(
                targets_of_invalidation(memory, neighbors, None),
                node.id,
            ) ==> after == run
            &&& after.done && !run.done && run.report.memories_updated < usize::MAX
                && run.report.memories_invalidated < usize::MAX ==> {
                &&& after.report.memories_updated + after.report.memories_invalidated
                    == run.report.memories_updated + run.report.memories_invalidated + 1
                &&& memory.op == BeliefRevisionOp::Update <==> after.report.memories_updated
                    == run.report.memories_updated + 1
            }
            &&& after.asked == run.asked
        }),
{
    lemma_there(targets_of_invalidation(memory, neighbors, None), node.id);
}

/// Episodes and cues are never held against later events.
pub proof fn scaffolds_are_not_replayed(
    store: StoreModel,
    event: EventModel,
    node: NodeModel,
    replies: Seq<Reply>,
    now: i64,
)
    ensures
        node.kind == MemoryNodeKind::Episode || node.kind == MemoryNodeKind::EntityCue ==> {
            let run = late_node(store, event, node, replies, now);
            run.store == store && run.asked.len() == 0 && run.error is None && run.report
                == no_report()
        },
{
    reveal(late_node);
}

/// A memory of an event that leads to a node puts that node at the end of what the event led to,
/// in the order of the memories.
pub proof fn memories_are_applied_in_order(
    store: StoreModel,
    report: ProjectReport,
    event: EventModel,
    memories: Seq<DistilledModel>,
    memory: DistilledModel,
    neighbors: Seq<NodeModel>,
    now: i64,
)
    ensures
        applied_all(store, report, event, memories.push(memory), neighbors, now) matches Ok(
            after,
        ) ==> {
            &&& applied_all(store, report, event, memories, neighbors, now) is Ok
            &&& {
                let before = applied_all(store, report, event, memories, neighbors, now)->Ok_0;
                &&& before.store.applied(event, memory, neighbors, now) matches Ok((
                    then,
                    applied,
                )) && after.store == then && after.report == before.report.plus_applied(applied)
                &&& before.nodes.is_prefix_of(after.nodes)
                &&& after.nodes.len() <= before.nodes.len() + 1
            }
        },
        applied_all(store, report, event, Seq::empty(), neighbors, now) == Ok::<
            Applied,
            ErrorModel,
        >(Applied { store, report, nodes: Seq::empty() }),
{
    assert(memories.push(memory).drop_last() =~= memories);
    if let Ok(after) = applied_all(store, report, event, memories.push(memory), neighbors, now) {
        let before = applied_all(store, report, event, memories, neighbors, now)->Ok_0;
        assert(before.nodes =~= after.nodes.subrange(0, before.nodes.len() as int));
    }
}

} // verus!
