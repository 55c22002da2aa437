//! Belief revision: what a distilled memory does to the projected graph.
use vstd::prelude::*;

use crate::chars::{blank, decimal, decimal_text, is_blank, opt_text, same_text, texts};
use crate::distill::{add_count, plus_count, DistillMetrics, DistillOutcome, OutcomeModel};
use crate::error::{failure, ErrorModel, MemoryError, MemoryResult};
use crate::ledger::{EventModel, LedgerEvent};
use crate::model::{
    quoted, quoted_form, BeliefRevisionOp, CitedSpan, DistilledMemory, DistilledModel,
    MemoryEdgeKind, MemoryNodeKind,
};
use crate::order::{lemma_views_push, views};
use crate::projection::Upsert;
use crate::rows::{family_key, MemoryNode, NodeModel};
use crate::store::{event_scope, scope_of_event, with_id, MemoryStore, StoreModel, WithId};
use crate::table::{find_row, first_index, Rule};
use crate::digits::in_24_digits;
use crate::text::{
    at_most, overlap_of, overlap_score, overlap_share, top_terms, top_terms_of, Overlap,
};

verus! {

// ---------------------------------------------------------------------------
// Targets
// ---------------------------------------------------------------------------
/// Two texts share at least so many hundredths of their terms.
pub open spec fn shares(left: Seq<char>, right: Seq<char>, percent: nat) -> bool {
    overlap_share(left, right) >= in_24_digits(percent, 100)
}

/// A scaffold of the graph rather than a memory of its own.
pub open spec fn is_scaffold(kind: MemoryNodeKind) -> bool {
    kind == MemoryNodeKind::Episode || kind == MemoryNodeKind::EntityCue
}

/// The neighbor with an identifier.
pub open spec fn neighbor(neighbors: Seq<NodeModel>, id: Seq<char>) -> Option<NodeModel> {
    match first_index(neighbors, with_id(id)) {
        Some(i) => Some(neighbors[i]),
        None => None,
    }
}

/// Of the neighbors of the memory's kind that share over a third of its terms, the one that
/// shares most; among equals the first.
pub open spec fn closest(
    kind: MemoryNodeKind,
    text: Seq<char>,
    neighbors: Seq<NodeModel>,
) -> Option<NodeModel>
    decreases neighbors.len(),
{
    if neighbors.len() == 0 {
        None
    } else {
        let best = closest(kind, text, neighbors.drop_last());
        let last = neighbors.last();
        if last.kind != kind || is_scaffold(last.kind) || !shares(text, last.text, 35) {
            best
        } else {
            match best {
                Some(node) => if overlap_share(text, last.text) > overlap_share(text, node.text) {
                    Some(last)
                } else {
                    best
                },
                None => Some(last),
            }
        }
    }
}

/// The memory that an update revises: the one it names, or the closest neighbor.
pub open spec fn target_of_update(memory: DistilledModel, neighbors: Seq<NodeModel>) -> Option<
    NodeModel,
> {
    match memory.target_node_id {
        Some(id) => neighbor(neighbors, id),
        None => closest(memory.node_kind, memory.text, neighbors),
    }
}

/// Neighbors that an invalidation without a target closes: those of its kind that share terms
/// with it, but for its replacement.
pub open spec fn taken_back(memory: DistilledModel, replacement: Option<Seq<char>>) -> spec_fn(
    NodeModel,
) -> bool {
    |node: NodeModel|
        node.kind == memory.node_kind && replacement != Some(node.id) && shares(
            memory.text,
            node.text,
            12,
        )
}

/// The memories that an invalidation closes: the one it names, or up to three neighbors.
pub open spec fn targets_of_invalidation(
    memory: DistilledModel,
    neighbors: Seq<NodeModel>,
    replacement: Option<Seq<char>>,
) -> Seq<NodeModel> {
    match memory.target_node_id {
        Some(id) => neighbors.filter(with_id(id)),
        None => at_most(neighbors.filter(taken_back(memory, replacement)), 3),
    }
}

fn neighbor_index(neighbors: &Vec<MemoryNode>, id: &str) -> (r: Option<usize>)
    ensures
        match r {
            Some(i) => i < neighbors@.len() && neighbor(views(neighbors@), id@) == Some(
                neighbors@[i as int]@,
            ),
            None => neighbor(views(neighbors@), id@) is None,
        },
{
    find_row(neighbors, &WithId { id })
}

/// The memory that an update revises.
pub fn revision_target(memory: &DistilledMemory, neighbors: &Vec<MemoryNode>) -> (r: Option<
    MemoryNode,
>)
    ensures
        match (r, target_of_update(memory@, views(neighbors@))) {
            (Some(node), Some(model)) => node@ == model,
            (None, None) => true,
            _ => false,
        },
{
    if let Some(id) = &memory.target_node_id {
        return match neighbor_index(neighbors, id.as_str()) {
            Some(i) => Some(neighbors[i].clone()),
            None => None,
        };
    }
    let ghost all = views(neighbors@);
    let mut best: Option<usize> = None;
    let mut best_overlap = Overlap { shared: 0, total: 0 };
    let mut i: usize = 0;
    proof {
        assert(all.take(0) =~= Seq::empty());
    }
    while i < neighbors.len()
        invariant
            i <= neighbors@.len(),
            all == views(neighbors@),
            match (best, closest(memory@.node_kind, memory@.text, all.take(i as int))) {
                (Some(k), Some(node)) => {
                    &&& k < neighbors@.len()
                    &&& neighbors@[k as int]@ == node
                    &&& (best_overlap.shared as nat, best_overlap.total as nat) == overlap_of(
                        memory@.text,
                        node.text,
                    )
                },
                (None, None) => true,
                _ => false,
            },
        decreases neighbors.len() - i,
    {
        proof {
            assert(all.take(i as int + 1).drop_last() =~= all.take(i as int));
            assert(all.take(i as int + 1).last() == neighbors@[i as int]@);
        }
        let node = &neighbors[i];
        if node.kind == memory.node_kind && node.kind != MemoryNodeKind::Episode && node.kind
            != MemoryNodeKind::EntityCue {
            let overlap = overlap_score(memory.text.as_str(), node.text.as_str());
            if overlap.at_least(35) && (best.is_none() || overlap.above(best_overlap)) {
                best = Some(i);
                best_overlap = overlap;
            }
        }
        i += 1;
    }
    proof {
        assert(all.take(i as int) =~= all);
    }
    match best {
        Some(k) => Some(neighbors[k].clone()),
        None => None,
    }
}

struct TakenBack<'a> {
    memory: &'a DistilledMemory,
    replacement: Option<&'a str>,
}

impl<'a> Rule<MemoryNode> for TakenBack<'a> {
    closed spec fn test(&self) -> spec_fn(NodeModel) -> bool {
        taken_back(self.memory@, crate::rows::opt_str(self.replacement))
    }

    fn admits(&self, row: &MemoryNode) -> (r: bool) {
        if row.kind != self.memory.node_kind {
            return false;
        }
        if let Some(id) = self.replacement {
            if same_text(id, row.id.as_str()) {
                return false;
            }
        }
        overlap_score(self.memory.text.as_str(), row.text.as_str()).at_least(12)
    }
}

/// The memories that an invalidation closes.
pub fn invalidation_targets(
    memory: &DistilledMemory,
    neighbors: &Vec<MemoryNode>,
    replacement: Option<&str>,
) -> (r: Vec<MemoryNode>)
    ensures
        views(r@) == targets_of_invalidation(
            memory@,
            views(neighbors@),
            crate::rows::opt_str(replacement),
        ),
{
    match &memory.target_node_id {
        Some(id) => crate::table::select(neighbors, &WithId { id: id.as_str() }),
        None => {
            let mut found = crate::table::select(neighbors, &TakenBack { memory, replacement });
            let ghost all = views(found@);
            if found.len() > 3 {
                found.truncate(3);
                proof {
                    assert(views(found@) =~= all.take(3));
                }
            }
            found
        },
    }
}

// ---------------------------------------------------------------------------
// Checking distilled memories
// ---------------------------------------------------------------------------
/// How a rejection of a memory begins.
pub open spec fn rejection_prefix(context: Seq<char>, event: EventModel) -> Seq<char> {
    "invalid "@ + context + " for event trace_id="@ + event.trace_id + " span_id="@ + event.span_id
        + " seq="@ + decimal(event.seq as nat) + ": "@
}

/// What is wrong with the target of a memory.
pub open spec fn target_problem(
    memory: DistilledModel,
    id: Seq<char>,
    neighbors: Seq<NodeModel>,
) -> Option<Seq<char>> {
    if memory.op == BeliefRevisionOp::Update && blank(memory.text) {
        Some("targeted belief revision must include text for semantic validation"@)
    } else {
        match neighbor(neighbors, id) {
            None => Some("target_node_id "@ + quoted_form(id) + " is not in scoped neighbors"@),
            Some(target) => if is_scaffold(target.kind) || target.kind != memory.node_kind {
                Some(
                    "target_node_id "@ + quoted_form(id)
                        + " must reference a matching typed memory node"@,
                )
            } else if !blank(memory.text) && !shares(memory.text, target.text, 12) {
                Some(
                    "target_node_id "@ + quoted_form(id)
                        + " does not overlap the distilled memory text"@,
                )
            } else {
                None
            },
        }
    }
}

/// The first thing wrong with a memory distilled from an event: its shape, that it does not
/// cite the event, or its target.
pub open spec fn memory_problem(
    event: EventModel,
    memory: DistilledModel,
    neighbors: Seq<NodeModel>,
) -> Option<Seq<char>> {
    match memory.problem() {
        Some(problem) => Some(ErrorModel::InvalidInput(problem).line()),
        None => if !memory.cited_spans.contains(event.span()) {
            Some("cited_spans must include the projected event"@)
        } else {
            match memory.target_node_id {
                Some(id) => target_problem(memory, id, neighbors),
                None => None,
            }
        },
    }
}

fn rejection_start(context: &str, event: &LedgerEvent) -> (r: String)
    ensures
        r@ == rejection_prefix(context@, event@),
{
    let mut out = "invalid ".to_owned();
    out.append(context);
    out.append(" for event trace_id=");
    out.append(event.trace_id.as_str());
    out.append(" span_id=");
    out.append(event.span_id.as_str());
    out.append(" seq=");
    let seq = decimal_text(event.seq);
    out.append(seq.as_str());
    out.append(": ");
    out
}

fn quoted_target(id: &str, rest: &str) -> (r: String)
    ensures
        r@ == "target_node_id "@ + quoted_form(id@) + rest@,
{
    let mut out = "target_node_id ".to_owned();
    let name = quoted(id);
    out.append(name.as_str());
    out.append(rest);
    out
}

fn cites(spans: &Vec<CitedSpan>, span: &CitedSpan) -> (r: bool)
    ensures
        r == views(spans@).contains(span@),
{
    let mut i: usize = 0;
    while i < spans.len()
        invariant
            i <= spans@.len(),
            forall|k: int| 0 <= k < i ==> views(spans@)[k] != span@,
        decreases spans.len() - i,
    {
        if spans[i].same(span) {
            proof {
                assert(views(spans@)[i as int] == span@);
            }
            return true;
        }
        i += 1;
    }
    false
}

fn target_fault(memory: &DistilledMemory, id: &str, neighbors: &Vec<MemoryNode>) -> (r: Option<
    String,
>)
    ensures
        opt_text(r) == target_problem(memory@, id@, views(neighbors@)),
{
    if memory.op == BeliefRevisionOp::Update && is_blank(memory.text.as_str()) {
        return Some(
            "targeted belief revision must include text for semantic validation".to_owned(),
        );
    }
    match neighbor_index(neighbors, id) {
        None => Some(quoted_target(id, " is not in scoped neighbors")),
        Some(i) => {
            let target = &neighbors[i];
            if target.kind == MemoryNodeKind::Episode || target.kind == MemoryNodeKind::EntityCue
                || target.kind != memory.node_kind {
                Some(quoted_target(id, " must reference a matching typed memory node"))
            } else if !is_blank(memory.text.as_str()) && !overlap_score(
                memory.text.as_str(),
                target.text.as_str(),
            ).at_least(12) {
                Some(quoted_target(id, " does not overlap the distilled memory text"))
            } else {
                None
            }
        },
    }
}

fn memory_fault(event: &LedgerEvent, memory: &DistilledMemory, neighbors: &Vec<MemoryNode>) -> (r:
    Option<String>)
    ensures
        opt_text(r) == memory_problem(event@, memory@, views(neighbors@)),
{
    if let Err(error) = memory.validate() {
        return Some(error.message());
    }
    let span = event.cited_span();
    if !cites(&memory.cited_spans, &span) {
        return Some("cited_spans must include the projected event".to_owned());
    }
    match &memory.target_node_id {
        Some(id) => target_fault(memory, id.as_str(), neighbors),
        None => None,
    }
}

/// Checks a memory distilled from an event.
pub fn validate_distilled_memory(
    event: &LedgerEvent,
    memory: &DistilledMemory,
    neighbors: &Vec<MemoryNode>,
    context: &str,
) -> (r: MemoryResult<()>)
    ensures
        failure(r) == (match memory_problem(event@, memory@, views(neighbors@)) {
            Some(problem) => Some(
                ErrorModel::InvalidInput(rejection_prefix(context@, event@) + problem),
            ),
            None => None,
        }),
{
    match memory_fault(event, memory, neighbors) {
        Some(words) => {
            let mut message = rejection_start(context, event);
            message.append(words.as_str());
            Err(MemoryError::InvalidInput(message))
        },
        None => Ok(()),
    }
}

/// A memory as it is applied: the target of an addition is dropped, and a revision that no
/// neighbor answers to becomes an addition. Says also whether it had to be turned into one.
pub open spec fn settled(memory: DistilledModel, neighbors: Seq<NodeModel>) -> (
    DistilledModel,
    bool,
) {
    let own = untargeted_add(memory);
    let lost = match own.op {
        BeliefRevisionOp::Invalidate => targets_of_invalidation(own, neighbors, None).len() == 0,
        BeliefRevisionOp::Update => target_of_update(own, neighbors) is None,
        _ => false,
    };
    if lost {
        (DistilledModel { op: BeliefRevisionOp::Add, ..own }, true)
    } else {
        (own, false)
    }
}

/// The target that an addition may name is advice, and dropped.
pub open spec fn untargeted_add(memory: DistilledModel) -> DistilledModel {
    if memory.op == BeliefRevisionOp::Add {
        DistilledModel { target_node_id: None, ..memory }
    } else {
        memory
    }
}

/// The counters after a memory is settled.
pub open spec fn settled_metrics(metrics: DistillMetrics, repaired: bool) -> DistillMetrics {
    if repaired {
        DistillMetrics {
            repair_attempts: plus_count(metrics.repair_attempts, 1),
            repair_successes: plus_count(metrics.repair_successes, 1),
            ..metrics
        }
    } else {
        metrics
    }
}

/// The memories of an event as they are applied, or the first reason to reject one.
pub open spec fn settled_all(
    context: Seq<char>,
    event: EventModel,
    neighbors: Seq<NodeModel>,
    memories: Seq<DistilledModel>,
    metrics: DistillMetrics,
) -> Result<(Seq<DistilledModel>, DistillMetrics), ErrorModel>
    decreases memories.len(),
{
    if memories.len() == 0 {
        Ok((Seq::empty(), metrics))
    } else {
        match settled_all(context, event, neighbors, memories.drop_last(), metrics) {
            Err(error) => Err(error),
            Ok((done, counters)) => match memory_problem(
                event,
                untargeted_add(memories.last()),
                neighbors,
            ) {
                Some(problem) => Err(
                    ErrorModel::InvalidInput(rejection_prefix(context, event) + problem),
                ),
                None => {
                    let (memory, repaired) = settled(memories.last(), neighbors);
                    Ok((done.push(memory), settled_metrics(counters, repaired)))
                },
            },
        }
    }
}

/// An outcome as it is applied. A rejected one is left as it is.
pub open spec fn checked_outcome(
    context: Seq<char>,
    event: EventModel,
    neighbors: Seq<NodeModel>,
    outcome: OutcomeModel,
) -> Result<OutcomeModel, ErrorModel> {
    if outcome.rejected {
        Ok(outcome)
    } else {
        match settled_all(context, event, neighbors, outcome.memories, outcome.metrics) {
            Err(error) => Err(error),
            Ok((memories, metrics)) => Ok(OutcomeModel { memories, metrics, rejected: false }),
        }
    }
}

fn settle(memory: &DistilledMemory, neighbors: &Vec<MemoryNode>) -> (r: (DistilledMemory, bool))
    requires
        memory@ == untargeted_add(memory@),
    ensures
        (r.0@, r.1) == settled(memory@, views(neighbors@)),
{
    let mut out = memory.clone();
    let lost = match memory.op {
        BeliefRevisionOp::Invalidate => {
            let targets = invalidation_targets(memory, neighbors, None);
            targets.len() == 0
        },
        BeliefRevisionOp::Update => revision_target(memory, neighbors).is_none(),
        _ => false,
    };
    if lost {
        out.op = BeliefRevisionOp::Add;
    }
    (out, lost)
}

proof fn lemma_settled_all_prefix(
    context: Seq<char>,
    event: EventModel,
    neighbors: Seq<NodeModel>,
    memories: Seq<DistilledModel>,
    metrics: DistillMetrics,
    k: int,
)
    requires
        0 <= k <= memories.len(),
        settled_all(context, event, neighbors, memories.take(k), metrics) is Err,
    ensures
        settled_all(context, event, neighbors, memories, metrics) == settled_all(
            context,
            event,
            neighbors,
            memories.take(k),
            metrics,
        ),
    decreases memories.len(),
{
    if k < memories.len() {
        assert(memories.drop_last().take(k) =~= memories.take(k));
        lemma_settled_all_prefix(context, event, neighbors, memories.drop_last(), metrics, k);
    } else {
        assert(memories.take(k) =~= memories);
    }
}

/// Checks the memories of an outcome and settles how they are applied.
pub fn validate_distill_outcome(
    event: &LedgerEvent,
    neighbors: &Vec<MemoryNode>,
    context: &str,
    outcome: DistillOutcome,
) -> (r: MemoryResult<DistillOutcome>)
    ensures
        match (r, checked_outcome(context@, event@, views(neighbors@), outcome@)) {
            (Ok(checked), Ok(model)) => checked@ == model,
            (Err(error), Err(words)) => error@ == words,
            _ => false,
        },
{
    if outcome.rejected {
        return Ok(outcome);
    }
    let ghost all = views(outcome.memories@);
    let ghost around = views(neighbors@);
    let mut metrics = outcome.metrics;
    let mut done: Vec<DistilledMemory> = Vec::new();
    let mut i: usize = 0;
    proof {
        assert(all.take(0) =~= Seq::empty());
        assert(views(done@) =~= Seq::empty());
    }
    while i < outcome.memories.len()
        invariant
            i <= outcome.memories@.len(),
            !outcome.rejected,
            all == views(outcome.memories@),
            around == views(neighbors@),
            settled_all(context@, event@, around, all.take(i as int), outcome.metrics) == Ok::<
                (Seq<DistilledModel>, DistillMetrics),
                ErrorModel,
            >((views(done@), metrics)),
        decreases outcome.memories.len() - i,
    {
        proof {
            assert(all.take(i as int + 1).drop_last() =~= all.take(i as int));
            assert(all.take(i as int + 1).last() == outcome.memories@[i as int]@);
        }
        let mut own = outcome.memories[i].clone();
        if own.op == BeliefRevisionOp::Add {
            own.target_node_id = None;
        }
        proof {
            assert(own@ == untargeted_add(all[i as int]));
        }
        if let Err(error) = validate_distilled_memory(event, &own, neighbors, context) {
            proof {
                lemma_settled_all_prefix(
                    context@,
                    event@,
                    around,
                    all,
                    outcome.metrics,
                    i as int + 1,
                );
            }
            return Err(error);
        }
        let (memory, repaired) = settle(&own, neighbors);
        proof {
            assert((memory@, repaired) == settled(all[i as int], around));
        }
        if repaired {
            metrics.repair_attempts = add_count(metrics.repair_attempts, 1);
            metrics.repair_successes = add_count(metrics.repair_successes, 1);
        }
        let ghost before = done@;
        done.push(memory);
        proof {
            lemma_views_push(before, memory);
        }
        i += 1;
    }
    proof {
        assert(all.take(i as int) =~= all);
    }
    Ok(DistillOutcome { memories: done, metrics, rejected: false })
}

// ---------------------------------------------------------------------------
// Applying memories
// ---------------------------------------------------------------------------
impl StoreModel {
    /// The tables after a node is linked to the cues for some terms.
    pub open spec fn cued(
        self,
        event: EventModel,
        node_id: Seq<char>,
        cue_terms: Seq<Seq<char>>,
        now: i64,
    ) -> Result<StoreModel, ErrorModel>
        decreases cue_terms.len(),
    {
        if cue_terms.len() == 0 {
            Ok(self)
        } else {
            match self.cued(event, node_id, cue_terms.drop_last(), now) {
                Err(error) => Err(error),
                Ok(store) => match store.upserted(
                    event_scope(event),
                    MemoryNodeKind::EntityCue,
                    cue_terms.last(),
                    event.observed_at_unix_ms,
                    seq![event.span()],
                    now,
                ) {
                    Err(error) => Err(error),
                    Ok(upsert) => match upsert.store.linked(
                        event_scope(event),
                        node_id,
                        upsert.node.id,
                        MemoryEdgeKind::Mentions,
                        55,
                        event.observed_at_unix_ms,
                    ) {
                        Err(error) => Err(error),
                        Ok((after, _)) => Ok(after),
                    },
                },
            }
        }
    }

    /// The tables after a node is linked to the cues for its most telling terms.
    pub open spec fn with_entity_cues(self, event: EventModel, node: NodeModel, now: i64) -> Result<
        StoreModel,
        ErrorModel,
    > {
        self.cued(event, node.id, top_terms_of(node.text, 8), now)
    }

    /// An upsert, and the cues of its node where it is new.
    pub open spec fn upsert_with_cues(
        upsert: Result<Upsert, ErrorModel>,
        event: EventModel,
        now: i64,
    ) -> Result<Upsert, ErrorModel> {
        match upsert {
            Err(error) => Err(error),
            Ok(done) => if done.created {
                match done.store.with_entity_cues(event, done.node, now) {
                    Err(error) => Err(error),
                    Ok(store) => Ok(Upsert { store, ..done }),
                }
            } else {
                Ok(done)
            },
        }
    }

    /// The tables after the memory that takes others back is stated, and its node: none where
    /// it says nothing, the version that begins there where there is one.
    pub open spec fn with_replacement(
        self,
        event: EventModel,
        memory: DistilledModel,
        now: i64,
    ) -> Result<(StoreModel, Option<NodeModel>), ErrorModel> {
        if blank(memory.text) {
            Ok((self, None))
        } else {
            match self.version_by_text(
                event_scope(event),
                memory.node_kind,
                memory.text,
                event.observed_at_unix_ms,
            ) {
                Some(node) => Ok((self, Some(node))),
                None => match Self::upsert_with_cues(
                    self.upserted(
                        event_scope(event),
                        memory.node_kind,
                        memory.text,
                        event.observed_at_unix_ms,
                        memory.cited_spans,
                        now,
                    ),
                    event,
                    now,
                ) {
                    Err(error) => Err(error),
                    Ok(done) => Ok((done.store, Some(done.node))),
                },
            }
        }
    }

    /// The tables after the newer node of a pair is said to replace and contradict the older.
    pub open spec fn with_revision_edges(
        self,
        event: EventModel,
        newer: Seq<char>,
        older: Seq<char>,
    ) -> Result<StoreModel, ErrorModel> {
        match self.linked(
            event_scope(event),
            newer,
            older,
            MemoryEdgeKind::Supersedes,
            100,
            event.observed_at_unix_ms,
        ) {
            Err(error) => Err(error),
            Ok((store, _)) => match store.linked(
                event_scope(event),
                newer,
                older,
                MemoryEdgeKind::Contradicts,
                80,
                event.observed_at_unix_ms,
            ) {
                Err(error) => Err(error),
                Ok((after, _)) => Ok(after),
            },
        }
    }

    /// The tables after one memory is taken back by an event, and whether that closed it.
    pub open spec fn taken_back(
        self,
        event: EventModel,
        older: Seq<char>,
        replacement: Option<NodeModel>,
    ) -> Result<(StoreModel, bool), ErrorModel> {
        let (store, closed) = self.invalidated(older, event.observed_at_unix_ms, event.id);
        if closed && replacement is Some {
            match store.with_revision_edges(event, replacement->0.id, older) {
                Err(error) => Err(error),
                Ok(after) => Ok((after, true)),
            }
        } else {
            Ok((store, closed))
        }
    }

    /// The tables after some memories are taken back, and how many that closed.
    pub open spec fn all_taken_back(
        self,
        event: EventModel,
        targets: Seq<NodeModel>,
        replacement: Option<NodeModel>,
    ) -> Result<(StoreModel, nat), ErrorModel>
        decreases targets.len(),
    {
        if targets.len() == 0 {
            Ok((self, 0))
        } else {
            match self.all_taken_back(event, targets.drop_last(), replacement) {
                Err(error) => Err(error),
                Ok((store, count)) => match store.taken_back(
                    event,
                    targets.last().id,
                    replacement,
                ) {
                    Err(error) => Err(error),
                    Ok((after, closed)) => Ok(
                        (
                            after,
                            if closed {
                                count + 1
                            } else {
                                count
                            },
                        ),
                    ),
                },
            }
        }
    }
}

/// What applying a memory came to.
pub enum AppliedModel {
    Added(NodeModel),
    Updated(NodeModel),
    Invalidated { replacement: Option<NodeModel>, count: nat },
    Noop,
}

impl AppliedModel {
    /// The node that a memory was added as or brought up to date.
    pub open spec fn written(self) -> NodeModel
        recommends
            self is Added || self is Updated,
    {
        match self {
            AppliedModel::Added(node) => node,
            AppliedModel::Updated(node) => node,
            _ => arbitrary(),
        }
    }
}

impl StoreModel {
    /// The tables after a memory is added.
    pub open spec fn added(self, event: EventModel, memory: DistilledModel, now: i64) -> Result<
        (StoreModel, AppliedModel),
        ErrorModel,
    > {
        match self.upserted(
            event_scope(event),
            memory.node_kind,
            memory.text,
            event.observed_at_unix_ms,
            memory.cited_spans,
            now,
        ) {
            Err(error) => Err(error),
            Ok(upsert) => match upsert.store.with_entity_cues(event, upsert.node, now) {
                Err(error) => Err(error),
                Ok(store) => Ok(
                    (
                        store,
                        if upsert.created {
                            AppliedModel::Added(upsert.node)
                        } else {
                            AppliedModel::Updated(upsert.node)
                        },
                    ),
                ),
            },
        }
    }

    /// The tables after a memory is brought up to date: a version in the family of its target,
    /// which it replaces.
    pub open spec fn updated(
        self,
        event: EventModel,
        memory: DistilledModel,
        target: NodeModel,
        now: i64,
    ) -> Result<(StoreModel, NodeModel), ErrorModel> {
        match Self::upsert_with_cues(
            self.upserted_in_family(
                event_scope(event),
                memory.node_kind,
                family_key(target.canonical_key),
                memory.text,
                event.observed_at_unix_ms,
                memory.cited_spans,
                now,
            ),
            event,
            now,
        ) {
            Err(error) => Err(error),
            Ok(done) => match done.store.linked(
                event_scope(event),
                done.node.id,
                target.id,
                MemoryEdgeKind::Supersedes,
                100,
                event.observed_at_unix_ms,
            ) {
                Err(error) => Err(error),
                Ok((store, _)) => Ok((store, done.node)),
            },
        }
    }

    /// The tables after a memory of an event is applied, and what that came to.
    pub open spec fn applied(
        self,
        event: EventModel,
        memory: DistilledModel,
        neighbors: Seq<NodeModel>,
        now: i64,
    ) -> Result<(StoreModel, AppliedModel), ErrorModel> {
        match memory.op {
            BeliefRevisionOp::Noop => Ok((self, AppliedModel::Noop)),
            BeliefRevisionOp::Add => self.added(event, memory, now),
            BeliefRevisionOp::Update => match target_of_update(memory, neighbors) {
                None => Ok((self, AppliedModel::Noop)),
                Some(target) => match self.updated(event, memory, target, now) {
                    Err(error) => Err(error),
                    Ok((store, node)) => Ok((store, AppliedModel::Updated(node))),
                },
            },
            BeliefRevisionOp::Invalidate => match self.with_replacement(event, memory, now) {
                Err(error) => Err(error),
                Ok((store, replacement)) => match store.all_taken_back(
                    event,
                    targets_of_invalidation(
                        memory,
                        neighbors,
                        match replacement {
                            Some(node) => Some(node.id),
                            None => None,
                        },
                    ),
                    replacement,
                ) {
                    Err(error) => Err(error),
                    Ok((after, count)) => Ok(
                        (after, AppliedModel::Invalidated { replacement, count }),
                    ),
                },
            },
        }
    }

    /// The tables after a memory that arrived late is taken back by a later event.
    pub open spec fn late_invalidated(
        self,
        event: EventModel,
        memory: DistilledModel,
        target: Seq<char>,
        now: i64,
    ) -> Result<(StoreModel, bool), ErrorModel> {
        match self.with_replacement(event, memory, now) {
            Err(error) => Err(error),
            Ok((store, replacement)) => store.taken_back(event, target, replacement),
        }
    }

    /// The version that a late update leads to, and the version of another family that says
    /// the same and gives way to it.
    pub open spec fn late_successor(
        self,
        event: EventModel,
        memory: DistilledModel,
        target: NodeModel,
        now: i64,
    ) -> Result<(StoreModel, NodeModel, Option<Seq<char>>), ErrorModel> {
        let family = family_key(target.canonical_key);
        let existing = self.version_by_text(
            event_scope(event),
            memory.node_kind,
            memory.text,
            event.observed_at_unix_ms,
        );
        if existing is Some && family_key(existing->0.canonical_key) == family {
            Ok((self, existing->0, None))
        } else {
            match Self::upsert_with_cues(
                self.upserted_in_family(
                    event_scope(event),
                    memory.node_kind,
                    family,
                    memory.text,
                    event.observed_at_unix_ms,
                    memory.cited_spans,
                    now,
                ),
                event,
                now,
            ) {
                Err(error) => Err(error),
                Ok(done) => Ok(
                    (
                        done.store,
                        done.node,
                        match existing {
                            Some(node) => Some(node.id),
                            None => None,
                        },
                    ),
                ),
            }
        }
    }

    /// The tables after a memory that arrived late is brought up to date by a later event, and
    /// whether that closed it.
    pub open spec fn late_updated(
        self,
        event: EventModel,
        memory: DistilledModel,
        target: NodeModel,
        now: i64,
    ) -> Result<(StoreModel, bool), ErrorModel> {
        let (closed_store, closed) = self.invalidated(
            target.id,
            event.observed_at_unix_ms,
            event.id,
        );
        match closed_store.late_successor(event, memory, target, now) {
            Err(error) => Err(error),
            Ok((store, successor, duplicate)) => if !closed {
                Ok((store, false))
            } else {
                let single = match duplicate {
                    Some(id) => store.invalidated(id, event.observed_at_unix_ms, event.id).0,
                    None => store,
                };
                match single.linked(
                    event_scope(event),
                    successor.id,
                    target.id,
                    MemoryEdgeKind::Supersedes,
                    100,
                    event.observed_at_unix_ms,
                ) {
                    Err(error) => Err(error),
                    Ok((after, _)) => Ok((after, true)),
                }
            },
        }
    }
}

/// What applying a memory came to.
pub enum ApplyOutcome {
    Added(MemoryNode),
    Updated(MemoryNode),
    Invalidated { replacement: Option<MemoryNode>, invalidated_count: usize },
    Noop,
}

pub open spec fn opt_node(node: Option<MemoryNode>) -> Option<NodeModel> {
    match node {
        Some(node) => Some(node@),
        None => None,
    }
}

impl View for ApplyOutcome {
    type V = AppliedModel;

    open spec fn view(&self) -> AppliedModel {
        match self {
            ApplyOutcome::Added(node) => AppliedModel::Added(node@),
            ApplyOutcome::Updated(node) => AppliedModel::Updated(node@),
            ApplyOutcome::Invalidated { replacement, invalidated_count } =>
                AppliedModel::Invalidated {
                replacement: opt_node(*replacement),
                count: *invalidated_count as nat,
            },
            ApplyOutcome::Noop => AppliedModel::Noop,
        }
    }
}

fn span_of(event: &LedgerEvent) -> (r: Vec<CitedSpan>)
    ensures
        views(r@) == seq![event@.span()],
{
    let mut spans: Vec<CitedSpan> = Vec::new();
    let span = event.cited_span();
    spans.push(span);
    proof {
        assert(views(spans@) =~= seq![event@.span()]);
    }
    spans
}

impl MemoryStore {
    /// Links a node to the cues for its most telling terms. An error leaves the tables as they were.
    pub fn ensure_entity_cues(&mut self, event: &LedgerEvent, node: &MemoryNode, now: i64) -> (r:
        MemoryResult<()>)
        ensures
            match (r, old(self)@.with_entity_cues(event@, node@, now)) {
                (Ok(_), Ok(store)) => final(self)@ == store,
                (Err(error), Err(words)) => error@ == words && final(self)@ == old(self)@,
                _ => false,
            },
    {
        let before = self.snapshot();
        let done = self.write_entity_cues(event, node, now);
        if done.is_err() {
            *self = before;
        }
        done
    }

    /// Links a node to the cues for its most telling terms. What an error leaves is for the caller to undo.
    pub(crate) fn write_entity_cues(&mut self, event: &LedgerEvent, node: &MemoryNode, now: i64) -> (r:
        MemoryResult<()>)
        ensures
            match (r, old(self)@.with_entity_cues(event@, node@, now)) {
                (Ok(_), Ok(store)) => final(self)@ == store,
                (Err(error), Err(words)) => error@ == words,
                _ => false,
            },
    {
        let cited = span_of(event);
        let cue_terms = top_terms(node.text.as_str(), 8);
        let ghost start = self@;
        let ghost all = texts(cue_terms@);
        let mut i: usize = 0;
        proof {
            assert(all.take(0) =~= Seq::empty());
        }
        while i < cue_terms.len()
            invariant
                i <= cue_terms@.len(),
                start == old(self)@,
                all == texts(cue_terms@),
                all == top_terms_of(node@.text, 8),
                views(cited@) == seq![event@.span()],
                start.cued(event@, node@.id, all.take(i as int), now) == Ok::<
                    StoreModel,
                    ErrorModel,
                >(self@),
            decreases cue_terms.len() - i,
        {
            proof {
                assert(all.take(i as int + 1).drop_last() =~= all.take(i as int));
                assert(all.take(i as int + 1).last() == cue_terms@[i as int]@);
            }
            let upserted = self.upsert_node(
                scope_of_event(event),
                MemoryNodeKind::EntityCue,
                cue_terms[i].as_str(),
                event.observed_at_unix_ms,
                cited.as_slice(),
                now,
            );
            let cue = match upserted {
                Ok((cue, _)) => cue,
                Err(error) => {
                    proof {
                        lemma_cued_prefix(start, event@, node@.id, all, now, i as int + 1);
                    }
                    return Err(error);
                },
            };
            let linked = self.insert_edge(
                scope_of_event(event),
                node.id.as_str(),
                cue.id.as_str(),
                MemoryEdgeKind::Mentions,
                55,
                event.observed_at_unix_ms,
            );
            if let Err(error) = linked {
                proof {
                    lemma_cued_prefix(start, event@, node@.id, all, now, i as int + 1);
                }
                return Err(error);
            }
            i += 1;
        }
        proof {
            assert(all.take(i as int) =~= all);
        }
        Ok(())
    }

    /// States the memory that takes others back.
    fn replacement_for_invalidation(
        &mut self,
        event: &LedgerEvent,
        memory: &DistilledMemory,
        now: i64,
    ) -> (r: MemoryResult<Option<MemoryNode>>)
        ensures
            match (r, old(self)@.with_replacement(event@, memory@, now)) {
                (Ok(node), Ok((store, model))) => final(self)@ == store && opt_node(node) == model,
                (Err(error), Err(words)) => error@ == words,
                _ => false,
            },
    {
        if is_blank(memory.text.as_str()) {
            return Ok(None);
        }
        let existing = self.node_version_by_text(
            scope_of_event(event),
            memory.node_kind,
            memory.text.as_str(),
            event.observed_at_unix_ms,
        );
        if existing.is_some() {
            return Ok(existing);
        }
        let (node, created) = self.upsert_node(
            scope_of_event(event),
            memory.node_kind,
            memory.text.as_str(),
            event.observed_at_unix_ms,
            memory.cited_spans.as_slice(),
            now,
        )?;
        if created {
            self.write_entity_cues(event, &node, now)?;
        }
        Ok(Some(node))
    }

    fn add_revision_edges(&mut self, event: &LedgerEvent, newer: &str, older: &str) -> (r:
        MemoryResult<()>)
        ensures
            match (r, old(self)@.with_revision_edges(event@, newer@, older@)) {
                (Ok(_), Ok(store)) => final(self)@ == store,
                (Err(error), Err(words)) => error@ == words,
                _ => false,
            },
    {
        self.insert_edge(
            scope_of_event(event),
            newer,
            older,
            MemoryEdgeKind::Supersedes,
            100,
            event.observed_at_unix_ms,
        )?;
        self.insert_edge(
            scope_of_event(event),
            newer,
            older,
            MemoryEdgeKind::Contradicts,
            80,
            event.observed_at_unix_ms,
        )?;
        Ok(())
    }

    fn take_back(
        &mut self,
        event: &LedgerEvent,
        older: &str,
        replacement: &Option<MemoryNode>,
    ) -> (r: MemoryResult<bool>)
        ensures
            match (r, old(self)@.taken_back(event@, older@, opt_node(*replacement))) {
                (Ok(closed), Ok((store, model))) => final(self)@ == store && closed == model,
                (Err(error), Err(words)) => error@ == words,
                _ => false,
            },
    {
        let closed = self.invalidate_node(older, event.observed_at_unix_ms, event.id);
        if closed {
            if let Some(newer) = replacement {
                self.add_revision_edges(event, newer.id.as_str(), older)?;
            }
        }
        Ok(closed)
    }

    fn take_all_back(
        &mut self,
        event: &LedgerEvent,
        targets: &Vec<MemoryNode>,
        replacement: &Option<MemoryNode>,
    ) -> (r: MemoryResult<usize>)
        ensures
            match (
                r,
                old(self)@.all_taken_back(event@, views(targets@), opt_node(*replacement)),
            ) {
                (Ok(count), Ok((store, model))) => final(self)@ == store && count == model,
                (Err(error), Err(words)) => error@ == words,
                _ => false,
            },
    {
        let ghost start = self@;
        let ghost all = views(targets@);
        let ghost newer = opt_node(*replacement);
        let mut count: usize = 0;
        let mut i: usize = 0;
        proof {
            assert(all.take(0) =~= Seq::empty());
        }
        while i < targets.len()
            invariant
                i <= targets@.len(),
                count <= i,
                start == old(self)@,
                all == views(targets@),
                newer == opt_node(*replacement),
                start.all_taken_back(event@, all.take(i as int), newer) == Ok::<
                    (StoreModel, nat),
                    ErrorModel,
                >((self@, count as nat)),
            decreases targets.len() - i,
        {
            proof {
                assert(all.take(i as int + 1).drop_last() =~= all.take(i as int));
                assert(all.take(i as int + 1).last() == targets@[i as int]@);
            }
            match self.take_back(event, targets[i].id.as_str(), replacement) {
                Ok(closed) => {
                    if closed {
                        count += 1;
                    }
                },
                Err(error) => {
                    proof {
                        lemma_all_taken_back_prefix(start, event@, all, newer, i as int + 1);
                    }
                    return Err(error);
                },
            }
            i += 1;
        }
        proof {
            assert(all.take(i as int) =~= all);
        }
        Ok(count)
    }

    /// States a memory as a version of its target's family, with its cues where it is new.
    fn upsert_successor(
        &mut self,
        event: &LedgerEvent,
        memory: &DistilledMemory,
        target: &MemoryNode,
        now: i64,
    ) -> (r: MemoryResult<MemoryNode>)
        ensures
            match (
                r,
                StoreModel::upsert_with_cues(
                    old(self)@.upserted_in_family(
                        event_scope(event@),
                        memory@.node_kind,
                        family_key(target@.canonical_key),
                        memory@.text,
                        event@.observed_at_unix_ms,
                        memory@.cited_spans,
                        now,
                    ),
                    event@,
                    now,
                ),
            ) {
                (Ok(node), Ok(done)) => final(self)@ == done.store && node@ == done.node,
                (Err(error), Err(words)) => error@ == words,
                _ => false,
            },
    {
        let family = target.family_canonical_key();
        let (node, created) = self.upsert_node_in_family(
            scope_of_event(event),
            memory.node_kind,
            family.as_str(),
            memory.text.as_str(),
            event.observed_at_unix_ms,
            memory.cited_spans.as_slice(),
            now,
        )?;
        if created {
            self.write_entity_cues(event, &node, now)?;
        }
        Ok(node)
    }

    /// Applies one memory of an event. An error leaves the tables as they were.
    pub fn apply_distilled(
        &mut self,
        event: &LedgerEvent,
        memory: &DistilledMemory,
        neighbors: &Vec<MemoryNode>,
        now: i64,
    ) -> (r: MemoryResult<ApplyOutcome>)
        ensures
            match (r, old(self)@.applied(event@, memory@, views(neighbors@), now)) {
                (Ok(outcome), Ok((store, model))) => final(self)@ == store && outcome@ == model,
                (Err(error), Err(words)) => error@ == words && final(self)@ == old(self)@,
                _ => false,
            },
    {
        let before = self.snapshot();
        let done = self.write_distilled(event, memory, neighbors, now);
        if done.is_err() {
            *self = before;
        }
        done
    }

    /// Applies one memory of an event. What an error leaves is for the caller to undo.
    pub(crate) fn write_distilled(
        &mut self,
        event: &LedgerEvent,
        memory: &DistilledMemory,
        neighbors: &Vec<MemoryNode>,
        now: i64,
    ) -> (r: MemoryResult<ApplyOutcome>)
        ensures
            match (r, old(self)@.applied(event@, memory@, views(neighbors@), now)) {
                (Ok(outcome), Ok((store, model))) => final(self)@ == store && outcome@ == model,
                (Err(error), Err(words)) => error@ == words,
                _ => false,
            },
    {
        match memory.op {
            BeliefRevisionOp::Noop => Ok(ApplyOutcome::Noop),
            BeliefRevisionOp::Add => {
                let (node, created) = self.upsert_node(
                    scope_of_event(event),
                    memory.node_kind,
                    memory.text.as_str(),
                    event.observed_at_unix_ms,
                    memory.cited_spans.as_slice(),
                    now,
                )?;
                self.write_entity_cues(event, &node, now)?;
                if created {
                    Ok(ApplyOutcome::Added(node))
                } else {
                    Ok(ApplyOutcome::Updated(node))
                }
            },
            BeliefRevisionOp::Update => {
                let target = match revision_target(memory, neighbors) {
                    Some(target) => target,
                    None => {
                        return Ok(ApplyOutcome::Noop);
                    },
                };
                let node = self.upsert_successor(event, memory, &target, now)?;
                self.insert_edge(
                    scope_of_event(event),
                    node.id.as_str(),
                    target.id.as_str(),
                    MemoryEdgeKind::Supersedes,
                    100,
                    event.observed_at_unix_ms,
                )?;
                Ok(ApplyOutcome::Updated(node))
            },
            BeliefRevisionOp::Invalidate => {
                let replacement = self.replacement_for_invalidation(event, memory, now)?;
                let replacement_id = match &replacement {
                    Some(node) => Some(node.id.as_str()),
                    None => None,
                };
                let targets = invalidation_targets(memory, neighbors, replacement_id);
                let invalidated_count = self.take_all_back(event, &targets, &replacement)?;
                Ok(ApplyOutcome::Invalidated { replacement, invalidated_count })
            },
        }
    }

    /// Takes back a memory that arrived late, by a later event. An error leaves the tables as they were.
    pub fn apply_late_invalidation(
        &mut self,
        event: &LedgerEvent,
        memory: &DistilledMemory,
        target: &MemoryNode,
        now: i64,
    ) -> (r: MemoryResult<bool>)
        ensures
            match (r, old(self)@.late_invalidated(event@, memory@, target@.id, now)) {
                (Ok(closed), Ok((store, model))) => final(self)@ == store && closed == model,
                (Err(error), Err(words)) => error@ == words && final(self)@ == old(self)@,
                _ => false,
            },
    {
        let before = self.snapshot();
        let done = self.write_late_invalidation(event, memory, target, now);
        if done.is_err() {
            *self = before;
        }
        done
    }

    /// Takes back a memory that arrived late, by a later event. What an error leaves is for the caller to undo.
    pub(crate) fn write_late_invalidation(
        &mut self,
        event: &LedgerEvent,
        memory: &DistilledMemory,
        target: &MemoryNode,
        now: i64,
    ) -> (r: MemoryResult<bool>)
        ensures
            match (r, old(self)@.late_invalidated(event@, memory@, target@.id, now)) {
                (Ok(closed), Ok((store, model))) => final(self)@ == store && closed == model,
                (Err(error), Err(words)) => error@ == words,
                _ => false,
            },
    {
        let replacement = self.replacement_for_invalidation(event, memory, now)?;
        self.take_back(event, target.id.as_str(), &replacement)
    }

    /// Brings a memory that arrived late up to date, by a later event. An error leaves the tables as they were.
    pub fn apply_late_update(
        &mut self,
        event: &LedgerEvent,
        memory: &DistilledMemory,
        target: &MemoryNode,
        now: i64,
    ) -> (r: MemoryResult<bool>)
        ensures
            match (r, old(self)@.late_updated(event@, memory@, target@, now)) {
                (Ok(closed), Ok((store, model))) => final(self)@ == store && closed == model,
                (Err(error), Err(words)) => error@ == words && final(self)@ == old(self)@,
                _ => false,
            },
    {
        let before = self.snapshot();
        let done = self.write_late_update(event, memory, target, now);
        if done.is_err() {
            *self = before;
        }
        done
    }

    /// Brings a memory that arrived late up to date, by a later event. What an error leaves is for the caller to undo.
    pub(crate) fn write_late_update(
        &mut self,
        event: &LedgerEvent,
        memory: &DistilledMemory,
        target: &MemoryNode,
        now: i64,
    ) -> (r: MemoryResult<bool>)
        ensures
            match (r, old(self)@.late_updated(event@, memory@, target@, now)) {
                (Ok(closed), Ok((store, model))) => final(self)@ == store && closed == model,
                (Err(error), Err(words)) => error@ == words,
                _ => false,
            },
    {
        let closed = self.invalidate_node(
            target.id.as_str(),
            event.observed_at_unix_ms,
            event.id,
        );
        let existing = self.node_version_by_text(
            scope_of_event(event),
            memory.node_kind,
            memory.text.as_str(),
            event.observed_at_unix_ms,
        );
        let same_family = match &existing {
            Some(node) => {
                let here = node.family_canonical_key();
                let there = target.family_canonical_key();
                same_text(here.as_str(), there.as_str())
            },
            None => false,
        };
        let mut duplicate: Option<String> = None;
        let successor = match existing {
            Some(node) => if same_family {
                node
            } else {
                duplicate = Some(node.id);
                self.upsert_successor(event, memory, target, now)?
            },
            None => self.upsert_successor(event, memory, target, now)?,
        };
        if closed {
            if let Some(id) = &duplicate {
                let _closed_duplicate = self.invalidate_node(
                    id.as_str(),
                    event.observed_at_unix_ms,
                    event.id,
                );
            }
            self.insert_edge(
                scope_of_event(event),
                successor.id.as_str(),
                target.id.as_str(),
                MemoryEdgeKind::Supersedes,
                100,
                event.observed_at_unix_ms,
            )?;
        }
        Ok(closed)
    }
}

proof fn lemma_cued_prefix(
    store: StoreModel,
    event: EventModel,
    node_id: Seq<char>,
    cue_terms: Seq<Seq<char>>,
    now: i64,
    k: int,
)
    requires
        0 <= k <= cue_terms.len(),
        store.cued(event, node_id, cue_terms.take(k), now) is Err,
    ensures
        store.cued(event, node_id, cue_terms, now) == store.cued(
            event,
            node_id,
            cue_terms.take(k),
            now,
        ),
    decreases cue_terms.len(),
{
    if k < cue_terms.len() {
        assert(cue_terms.drop_last().take(k) =~= cue_terms.take(k));
        lemma_cued_prefix(store, event, node_id, cue_terms.drop_last(), now, k);
    } else {
        assert(cue_terms.take(k) =~= cue_terms);
    }
}

proof fn lemma_all_taken_back_prefix(
    store: StoreModel,
    event: EventModel,
    targets: Seq<NodeModel>,
    replacement: Option<NodeModel>,
    k: int,
)
    requires
        0 <= k <= targets.len(),
        store.all_taken_back(event, targets.take(k), replacement) is Err,
    ensures
        store.all_taken_back(event, targets, replacement) == store.all_taken_back(
            event,
            targets.take(k),
            replacement,
        ),
    decreases targets.len(),
{
    if k < targets.len() {
        assert(targets.drop_last().take(k) =~= targets.take(k));
        lemma_all_taken_back_prefix(store, event, targets.drop_last(), replacement, k);
    } else {
        assert(targets.take(k) =~= targets);
    }
}

// ---------------------------------------------------------------------------
// Laws
// ---------------------------------------------------------------------------
/// A revision that is applied has something to revise, and an addition that was one from the
/// start names no target.
pub proof fn settled_revisions_have_targets(memory: DistilledModel, neighbors: Seq<NodeModel>)
    ensures
        ({
            let (own, repaired) = settled(memory, neighbors);
            &&& own.op == BeliefRevisionOp::Update ==> target_of_update(own, neighbors) is Some
            &&& own.op == BeliefRevisionOp::Invalidate ==> targets_of_invalidation(
                own,
                neighbors,
                None,
            ).len() > 0
            &&& memory.op == BeliefRevisionOp::Add ==> own.target_node_id is None && !repaired
            &&& own.op != memory.op <==> repaired
            &&& repaired ==> own.op == BeliefRevisionOp::Add
            &&& own.text == memory.text && own.node_kind == memory.node_kind && own.cited_spans
                == memory.cited_spans
        }),
{
}

/// No memory is dropped in silence: once settled, only a memory that says to do nothing comes
/// to nothing.
pub proof fn settled_memories_are_not_dropped(
    store: StoreModel,
    event: EventModel,
    memory: DistilledModel,
    neighbors: Seq<NodeModel>,
    now: i64,
)
    requires
        memory.op != BeliefRevisionOp::Noop,
    ensures
        match store.applied(event, settled(memory, neighbors).0, neighbors, now) {
            Ok((_, applied)) => !(applied is Noop),
            Err(_) => true,
        },
{
    settled_revisions_have_targets(memory, neighbors);
}

} // verus!
