//! What a replay of the ledger depends on.
//!
//! With a distiller that always replies the same to the same event and neighbors, replaying a
//! ledger comes to the same nodes, edges, citations and cues, whatever was projected before. Only
//! the numbers of the edges go on from those given out before.
use vstd::prelude::*;

use crate::distill::{Distiller, HeuristicDistiller};
use crate::engine::{
    end_store, event_bound, passes_chain, rebuild_happened, remaining, ProjectionRebuildReport,
    RebuildStep,
};
use crate::error::{ErrorModel, MemoryError, MemoryResult};
use crate::history::{ledger_kept, resetting_forgets_the_projection};
use crate::ledger::EventModel;
use crate::model::{DistilledModel, MemoryEdgeKind, MemoryNodeKind, SpanModel};
use crate::passes::{
    allowed, applied_all, event_neighbors, event_run, event_seen, events_run, late_node, late_nodes,
    late_start, later_events, pass_events, pass_happened, pass_problem, projected, run_result,
    waits, Call, EventReplies, LateRun, ProjectReport, Reply,
};
use crate::projection::{is_edge, Upsert};
use crate::revise::{checked_outcome, target_of_update, targets_of_invalidation};
use crate::rows::{family_key, CueModel, EdgeModel, NodeModel, ScopeKey};
use crate::store::{event_scope, holding_at, open_before, with_id, StoreModel};
use crate::table::some_row;
use crate::text::{terms_of, top_terms_of};

verus! {

// ---------------------------------------------------------------------------
// Likeness
// ---------------------------------------------------------------------------
/// Edges without their numbers.
pub open spec fn unnumbered(edges: Seq<EdgeModel>) -> Seq<EdgeModel> {
    Seq::new(edges.len(), |i: int| EdgeModel { id: 0, ..edges[i] })
}

/// Two stores have the same ledger and the same projection, but for the numbers of the edges.
pub open spec fn alike(a: StoreModel, b: StoreModel) -> bool {
    &&& b.ledger == a.ledger
    &&& b.nodes == a.nodes
    &&& b.spans == a.spans
    &&& b.cues == a.cues
    &&& unnumbered(b.edges) == unnumbered(a.edges)
}

/// A distiller that always replies the same to the same event and neighbors.
pub open spec fn replies_the_same<D: Distiller>(distiller: D) -> bool {
    forall|event: EventModel, neighbors: Seq<NodeModel>, one: Reply, other: Reply|
        #[trigger] distiller.may_give(event, neighbors, one) && #[trigger] distiller.may_give(
            event,
            neighbors,
            other,
        ) ==> one == other
}

/// The heuristic distiller always replies the same.
pub proof fn heuristics_reply_the_same(distiller: HeuristicDistiller)
    ensures
        replies_the_same(distiller),
        distiller.replays_late(),
{
}

proof fn lemma_edge_there(
    a: StoreModel,
    b: StoreModel,
    from: Seq<char>,
    to: Seq<char>,
    kind: MemoryEdgeKind,
)
    requires
        alike(a, b),
    ensures
        some_row(a.edges, is_edge(from, to, kind)) == some_row(b.edges, is_edge(from, to, kind)),
{
    let test = is_edge(from, to, kind);
    let x = unnumbered(a.edges);
    let y = unnumbered(b.edges);
    assert(x.len() == a.edges.len() && y.len() == b.edges.len());
    assert forall|i: int| 0 <= i < a.edges.len() implies test(#[trigger] a.edges[i]) == test(
        b.edges[i],
    ) by {
        assert(x[i] == (EdgeModel { id: 0, ..a.edges[i] }));
        assert(y[i] == (EdgeModel { id: 0, ..b.edges[i] }));
    }
    if some_row(a.edges, test) {
        let i = choose|i: int| 0 <= i < a.edges.len() && test(#[trigger] a.edges[i]);
        assert(test(b.edges[i]));
    }
    if some_row(b.edges, test) {
        let i = choose|i: int| 0 <= i < b.edges.len() && test(#[trigger] b.edges[i]);
        assert(test(a.edges[i]) == test(b.edges[i]));
    }
}

proof fn lemma_alike_linked(
    a: StoreModel,
    b: StoreModel,
    scope: ScopeKey,
    from: Seq<char>,
    to: Seq<char>,
    kind: MemoryEdgeKind,
    weight: u32,
    time: i64,
)
    requires
        alike(a, b),
    ensures
        match (
            a.linked(scope, from, to, kind, weight, time),
            b.linked(scope, from, to, kind, weight, time),
        ) {
            (Ok((x, one)), Ok((y, other))) => alike(x, y) && one == other,
            _ => true,
        },
{
    reveal(StoreModel::linked);
    lemma_edge_there(a, b, from, to, kind);
    if let (Ok((x, one)), Ok((y, other))) = (
        a.linked(scope, from, to, kind, weight, time),
        b.linked(scope, from, to, kind, weight, time),
    ) {
        assert(unnumbered(a.edges).len() == a.edges.len());
        assert(unnumbered(b.edges).len() == b.edges.len());
        if one {
            let k = a.edges.len() as int;
            assert(unnumbered(x.edges) =~= unnumbered(a.edges).push(unnumbered(x.edges)[k]));
            assert(unnumbered(y.edges) =~= unnumbered(b.edges).push(unnumbered(y.edges)[k]));
            assert(unnumbered(x.edges)[k] == unnumbered(y.edges)[k]);
        }
    }
}

proof fn lemma_alike_first_event(a: StoreModel, b: StoreModel, id: Seq<char>)
    requires
        alike(a, b),
    ensures
        a.first_event(id) == b.first_event(id),
        a.first_event_id(id) == b.first_event_id(id),
{
}

proof fn lemma_alike_event_of(a: StoreModel, b: StoreModel, spans: Seq<SpanModel>)
    requires
        alike(a, b),
    ensures
        a.event_of(spans) == b.event_of(spans),
    decreases spans.len(),
{
    if spans.len() > 0 {
        lemma_alike_event_of(a, b, spans.drop_last());
    }
}

/// Two upserts came to the same node, and to tables that are alike.
spec fn alike_upserts(x: Result<Upsert, ErrorModel>, y: Result<Upsert, ErrorModel>) -> bool {
    match (x, y) {
        (Ok(p), Ok(q)) => alike(p.store, q.store) && p.node == q.node && p.created == q.created,
        _ => true,
    }
}

proof fn lemma_alike_upserted(
    a: StoreModel,
    b: StoreModel,
    scope: ScopeKey,
    kind: MemoryNodeKind,
    text: Seq<char>,
    valid_from: i64,
    spans: Seq<SpanModel>,
    now: i64,
)
    requires
        alike(a, b),
    ensures
        alike_upserts(
            a.upserted(scope, kind, text, valid_from, spans, now),
            b.upserted(scope, kind, text, valid_from, spans, now),
        ),
{
    reveal(StoreModel::upserted);
    lemma_alike_event_of(a, b, spans);
    let family = crate::projection::base_key(kind, text, spans);
    assert(a.family(scope, kind, family) == b.family(scope, kind, family));
}

proof fn lemma_alike_upserted_in_family(
    a: StoreModel,
    b: StoreModel,
    scope: ScopeKey,
    kind: MemoryNodeKind,
    family: Seq<char>,
    text: Seq<char>,
    valid_from: i64,
    spans: Seq<SpanModel>,
    now: i64,
)
    requires
        alike(a, b),
    ensures
        alike_upserts(
            a.upserted_in_family(scope, kind, family, text, valid_from, spans, now),
            b.upserted_in_family(scope, kind, family, text, valid_from, spans, now),
        ),
{
    reveal(StoreModel::upserted_in_family);
    lemma_alike_event_of(a, b, spans);
    assert(a.family(scope, kind, family) == b.family(scope, kind, family));
}

proof fn lemma_alike_invalidated(
    a: StoreModel,
    b: StoreModel,
    node_id: Seq<char>,
    time: i64,
    event: Option<i64>,
)
    requires
        alike(a, b),
    ensures
        alike(a.invalidated(node_id, time, event).0, b.invalidated(node_id, time, event).0),
        a.invalidated(node_id, time, event).1 == b.invalidated(node_id, time, event).1,
{
    reveal(StoreModel::invalidated);
}

proof fn lemma_alike_version(
    a: StoreModel,
    b: StoreModel,
    scope: ScopeKey,
    kind: MemoryNodeKind,
    text: Seq<char>,
    valid_from: i64,
)
    requires
        alike(a, b),
    ensures
        a.version_by_text(scope, kind, text, valid_from) == b.version_by_text(
            scope,
            kind,
            text,
            valid_from,
        ),
{
    reveal(StoreModel::version_by_text);
}

// ---------------------------------------------------------------------------
// Revisions
// ---------------------------------------------------------------------------
proof fn lemma_alike_cued(
    a: StoreModel,
    b: StoreModel,
    event: EventModel,
    node_id: Seq<char>,
    cue_terms: Seq<Seq<char>>,
    now: i64,
)
    requires
        alike(a, b),
    ensures
        match (a.cued(event, node_id, cue_terms, now), b.cued(event, node_id, cue_terms, now)) {
            (Ok(x), Ok(y)) => alike(x, y),
            _ => true,
        },
    decreases cue_terms.len(),
{
    if cue_terms.len() > 0 {
        let front = cue_terms.drop_last();
        lemma_alike_cued(a, b, event, node_id, front, now);
        if let (Ok(x), Ok(y)) = (
            a.cued(event, node_id, front, now),
            b.cued(event, node_id, front, now),
        ) {
            let scope = event_scope(event);
            let at = event.observed_at_unix_ms;
            let kind = MemoryNodeKind::EntityCue;
            let spans = seq![event.span()];
            lemma_alike_upserted(x, y, scope, kind, cue_terms.last(), at, spans, now);
            if let (Ok(p), Ok(q)) = (
                x.upserted(scope, kind, cue_terms.last(), at, spans, now),
                y.upserted(scope, kind, cue_terms.last(), at, spans, now),
            ) {
                lemma_alike_linked(
                    p.store,
                    q.store,
                    scope,
                    node_id,
                    p.node.id,
                    MemoryEdgeKind::Mentions,
                    55,
                    at,
                );
            }
        }
    }
}

proof fn lemma_alike_with_cues(
    x: Result<Upsert, ErrorModel>,
    y: Result<Upsert, ErrorModel>,
    event: EventModel,
    now: i64,
)
    requires
        alike_upserts(x, y),
    ensures
        alike_upserts(
            StoreModel::upsert_with_cues(x, event, now),
            StoreModel::upsert_with_cues(y, event, now),
        ),
{
    if let (Ok(p), Ok(q)) = (x, y) {
        lemma_alike_cued(p.store, q.store, event, p.node.id, top_terms_of(p.node.text, 8), now);
    }
}

proof fn lemma_alike_with_replacement(
    a: StoreModel,
    b: StoreModel,
    event: EventModel,
    memory: DistilledModel,
    now: i64,
)
    requires
        alike(a, b),
    ensures
        match (a.with_replacement(event, memory, now), b.with_replacement(event, memory, now)) {
            (Ok((x, one)), Ok((y, other))) => alike(x, y) && one == other,
            _ => true,
        },
{
    let scope = event_scope(event);
    let at = event.observed_at_unix_ms;
    let kind = memory.node_kind;
    lemma_alike_version(a, b, scope, kind, memory.text, at);
    lemma_alike_upserted(a, b, scope, kind, memory.text, at, memory.cited_spans, now);
    lemma_alike_with_cues(
        a.upserted(scope, kind, memory.text, at, memory.cited_spans, now),
        b.upserted(scope, kind, memory.text, at, memory.cited_spans, now),
        event,
        now,
    );
}

proof fn lemma_alike_taken_back(
    a: StoreModel,
    b: StoreModel,
    event: EventModel,
    older: Seq<char>,
    replacement: Option<NodeModel>,
)
    requires
        alike(a, b),
    ensures
        match (
            a.taken_back(event, older, replacement),
            b.taken_back(event, older, replacement),
        ) {
            (Ok((x, one)), Ok((y, other))) => alike(x, y) && one == other,
            _ => true,
        },
{
    let at = event.observed_at_unix_ms;
    let scope = event_scope(event);
    lemma_alike_invalidated(a, b, older, at, event.id);
    let x = a.invalidated(older, at, event.id).0;
    let y = b.invalidated(older, at, event.id).0;
    if replacement is Some {
        let newer = replacement->0.id;
        let replaces = MemoryEdgeKind::Supersedes;
        lemma_alike_linked(x, y, scope, newer, older, replaces, 100, at);
        if let (Ok((p, _)), Ok((q, _))) = (
            x.linked(scope, newer, older, replaces, 100, at),
            y.linked(scope, newer, older, replaces, 100, at),
        ) {
            lemma_alike_linked(p, q, scope, newer, older, MemoryEdgeKind::Contradicts, 80, at);
        }
    }
}

proof fn lemma_alike_all_taken_back(
    a: StoreModel,
    b: StoreModel,
    event: EventModel,
    targets: Seq<NodeModel>,
    replacement: Option<NodeModel>,
)
    requires
        alike(a, b),
    ensures
        match (
            a.all_taken_back(event, targets, replacement),
            b.all_taken_back(event, targets, replacement),
        ) {
            (Ok((x, one)), Ok((y, other))) => alike(x, y) && one == other,
            _ => true,
        },
    decreases targets.len(),
{
    if targets.len() > 0 {
        let front = targets.drop_last();
        lemma_alike_all_taken_back(a, b, event, front, replacement);
        if let (Ok((x, _)), Ok((y, _))) = (
            a.all_taken_back(event, front, replacement),
            b.all_taken_back(event, front, replacement),
        ) {
            lemma_alike_taken_back(x, y, event, targets.last().id, replacement);
        }
    }
}

proof fn lemma_alike_updated(
    a: StoreModel,
    b: StoreModel,
    event: EventModel,
    memory: DistilledModel,
    target: NodeModel,
    now: i64,
)
    requires
        alike(a, b),
    ensures
        match (
            a.updated(event, memory, target, now),
            b.updated(event, memory, target, now),
        ) {
            (Ok((x, one)), Ok((y, other))) => alike(x, y) && one == other,
            _ => true,
        },
{
    let scope = event_scope(event);
    let at = event.observed_at_unix_ms;
    let family = family_key(target.canonical_key);
    let kind = memory.node_kind;
    let spans = memory.cited_spans;
    lemma_alike_upserted_in_family(a, b, scope, kind, family, memory.text, at, spans, now);
    let x = a.upserted_in_family(scope, kind, family, memory.text, at, spans, now);
    let y = b.upserted_in_family(scope, kind, family, memory.text, at, spans, now);
    lemma_alike_with_cues(x, y, event, now);
    if let (Ok(p), Ok(q)) = (
        StoreModel::upsert_with_cues(x, event, now),
        StoreModel::upsert_with_cues(y, event, now),
    ) {
        let replaces = MemoryEdgeKind::Supersedes;
        lemma_alike_linked(p.store, q.store, scope, p.node.id, target.id, replaces, 100, at);
    }
}

proof fn lemma_alike_applied(
    a: StoreModel,
    b: StoreModel,
    event: EventModel,
    memory: DistilledModel,
    neighbors: Seq<NodeModel>,
    now: i64,
)
    requires
        alike(a, b),
    ensures
        match (
            a.applied(event, memory, neighbors, now),
            b.applied(event, memory, neighbors, now),
        ) {
            (Ok((x, one)), Ok((y, other))) => alike(x, y) && one == other,
            _ => true,
        },
{
    let scope = event_scope(event);
    let at = event.observed_at_unix_ms;
    let kind = memory.node_kind;
    let spans = memory.cited_spans;
    lemma_alike_upserted(a, b, scope, kind, memory.text, at, spans, now);
    if let (Ok(p), Ok(q)) = (
        a.upserted(scope, kind, memory.text, at, spans, now),
        b.upserted(scope, kind, memory.text, at, spans, now),
    ) {
        lemma_alike_cued(p.store, q.store, event, p.node.id, top_terms_of(p.node.text, 8), now);
    }
    if let Some(target) = target_of_update(memory, neighbors) {
        lemma_alike_updated(a, b, event, memory, target, now);
    }
    lemma_alike_with_replacement(a, b, event, memory, now);
    if let (Ok((x, replacement)), Ok((y, _))) = (
        a.with_replacement(event, memory, now),
        b.with_replacement(event, memory, now),
    ) {
        let id = match replacement {
            Some(node) => Some(node.id),
            None => None,
        };
        let targets = targets_of_invalidation(memory, neighbors, id);
        lemma_alike_all_taken_back(x, y, event, targets, replacement);
    }
}

proof fn lemma_alike_late_invalidated(
    a: StoreModel,
    b: StoreModel,
    event: EventModel,
    memory: DistilledModel,
    target: Seq<char>,
    now: i64,
)
    requires
        alike(a, b),
    ensures
        match (
            a.late_invalidated(event, memory, target, now),
            b.late_invalidated(event, memory, target, now),
        ) {
            (Ok((x, one)), Ok((y, other))) => alike(x, y) && one == other,
            _ => true,
        },
{
    lemma_alike_with_replacement(a, b, event, memory, now);
    if let (Ok((x, replacement)), Ok((y, _))) = (
        a.with_replacement(event, memory, now),
        b.with_replacement(event, memory, now),
    ) {
        lemma_alike_taken_back(x, y, event, target, replacement);
    }
}

proof fn lemma_alike_late_updated(
    a: StoreModel,
    b: StoreModel,
    event: EventModel,
    memory: DistilledModel,
    target: NodeModel,
    now: i64,
)
    requires
        alike(a, b),
    ensures
        match (
            a.late_updated(event, memory, target, now),
            b.late_updated(event, memory, target, now),
        ) {
            (Ok((x, one)), Ok((y, other))) => alike(x, y) && one == other,
            _ => true,
        },
{
    let scope = event_scope(event);
    let at = event.observed_at_unix_ms;
    lemma_alike_invalidated(a, b, target.id, at, event.id);
    let x = a.invalidated(target.id, at, event.id).0;
    let y = b.invalidated(target.id, at, event.id).0;
    let family = family_key(target.canonical_key);
    let kind = memory.node_kind;
    let spans = memory.cited_spans;
    lemma_alike_version(x, y, scope, kind, memory.text, at);
    lemma_alike_upserted_in_family(x, y, scope, kind, family, memory.text, at, spans, now);
    lemma_alike_with_cues(
        x.upserted_in_family(scope, kind, family, memory.text, at, spans, now),
        y.upserted_in_family(scope, kind, family, memory.text, at, spans, now),
        event,
        now,
    );
    if let (Ok((p, successor, duplicate)), Ok((q, _, _))) = (
        x.late_successor(event, memory, target, now),
        y.late_successor(event, memory, target, now),
    ) {
        let replaces = MemoryEdgeKind::Supersedes;
        match duplicate {
            Some(id) => {
                lemma_alike_invalidated(p, q, id, at, event.id);
                lemma_alike_linked(
                    p.invalidated(id, at, event.id).0,
                    q.invalidated(id, at, event.id).0,
                    scope,
                    successor.id,
                    target.id,
                    replaces,
                    100,
                    at,
                );
            },
            None => {
                lemma_alike_linked(p, q, scope, successor.id, target.id, replaces, 100, at);
            },
        }
    }
}

// ---------------------------------------------------------------------------
// Neighbors
// ---------------------------------------------------------------------------
proof fn lemma_alike_cue_hits(
    a: StoreModel,
    b: StoreModel,
    cues: Seq<CueModel>,
    scope: ScopeKey,
    term: Seq<char>,
    p: spec_fn(NodeModel) -> bool,
    q: spec_fn(NodeModel) -> bool,
)
    requires
        alike(a, b),
        forall|node: NodeModel| #[trigger] p(node) == q(node),
    ensures
        a.cue_hits(cues, scope, term, p) == b.cue_hits(cues, scope, term, q),
    decreases cues.len(),
{
    if cues.len() > 0 {
        lemma_alike_cue_hits(a, b, cues.drop_last(), scope, term, p, q);
        if let Some(node) = a.node(cues.last().node_id) {
            lemma_alike_first_event(a, b, node.id);
            assert(p(node) == q(node));
        }
    }
}

proof fn lemma_alike_terms_recall(
    a: StoreModel,
    b: StoreModel,
    scope: ScopeKey,
    query_terms: Seq<Seq<char>>,
    p: spec_fn(NodeModel) -> bool,
    q: spec_fn(NodeModel) -> bool,
    limit: int,
)
    requires
        alike(a, b),
        forall|node: NodeModel| #[trigger] p(node) == q(node),
    ensures
        a.terms_recall(scope, query_terms, p, limit) == b.terms_recall(
            scope,
            query_terms,
            q,
            limit,
        ),
    decreases query_terms.len(),
{
    if query_terms.len() > 0 {
        lemma_alike_terms_recall(a, b, scope, query_terms.drop_last(), p, q, limit);
        lemma_alike_cue_hits(a, b, a.cues, scope, query_terms.last(), p, q);
    }
}

proof fn lemma_alike_neighbors(a: StoreModel, b: StoreModel, event: EventModel)
    requires
        alike(a, b),
    ensures
        event_neighbors(a, event) == event_neighbors(b, event),
        a.recall(event_scope(event), terms_of(event.text), open_before(a, event), 24) == b.recall(
            event_scope(event),
            terms_of(event.text),
            open_before(b, event),
            24,
        ),
{
    let scope = event_scope(event);
    let found = terms_of(event.text);
    let held = holding_at(event.observed_at_unix_ms);
    lemma_alike_terms_recall(a, b, scope, found, held, held, 24);
    let p = open_before(a, event);
    let q = open_before(b, event);
    assert forall|node: NodeModel| #[trigger] p(node) == q(node) by {
        lemma_alike_first_event(a, b, node.id);
    }
    lemma_alike_terms_recall(a, b, scope, found, p, q, 24);
}

// ---------------------------------------------------------------------------
// Events
// ---------------------------------------------------------------------------
proof fn lemma_alike_applied_all(
    a: StoreModel,
    b: StoreModel,
    report: ProjectReport,
    event: EventModel,
    memories: Seq<DistilledModel>,
    neighbors: Seq<NodeModel>,
    now: i64,
)
    requires
        alike(a, b),
    ensures
        match (
            applied_all(a, report, event, memories, neighbors, now),
            applied_all(b, report, event, memories, neighbors, now),
        ) {
            (Ok(x), Ok(y)) => alike(x.store, y.store) && x.report == y.report && x.nodes == y.nodes,
            _ => true,
        },
    decreases memories.len(),
{
    if memories.len() > 0 {
        let front = memories.drop_last();
        lemma_alike_applied_all(a, b, report, event, front, neighbors, now);
        if let (Ok(x), Ok(y)) = (
            applied_all(a, report, event, front, neighbors, now),
            applied_all(b, report, event, front, neighbors, now),
        ) {
            lemma_alike_applied(x.store, y.store, event, memories.last(), neighbors, now);
        }
    }
}

proof fn lemma_alike_chain(a: StoreModel, b: StoreModel, event: EventModel, nodes: Seq<NodeModel>)
    requires
        alike(a, b),
    ensures
        match (a.chain_linked(event, nodes), b.chain_linked(event, nodes)) {
            (Ok((x, one)), Ok((y, other))) => alike(x, y) && one == other,
            _ => true,
        },
    decreases nodes.len(),
{
    if nodes.len() >= 2 {
        let front = nodes.drop_last();
        lemma_alike_chain(a, b, event, front);
        if let (Ok((x, _)), Ok((y, _))) = (
            a.chain_linked(event, front),
            b.chain_linked(event, front),
        ) {
            let scope = event_scope(event);
            let at = event.observed_at_unix_ms;
            let from = nodes[nodes.len() - 2].id;
            let to = nodes[nodes.len() - 1].id;
            let derived = MemoryEdgeKind::DerivedFrom;
            lemma_alike_linked(x, y, scope, to, from, derived, 80, at);
            if let (Ok((p, _)), Ok((q, _))) = (
                x.linked(scope, to, from, derived, 80, at),
                y.linked(scope, to, from, derived, 80, at),
            ) {
                lemma_alike_linked(p, q, scope, to, from, MemoryEdgeKind::ObservedIn, 90, at);
            }
        }
    }
}

proof fn lemma_alike_projected(
    a: StoreModel,
    b: StoreModel,
    report: ProjectReport,
    event: EventModel,
    event_id: i64,
    memories: Seq<DistilledModel>,
    neighbors: Seq<NodeModel>,
    now: i64,
)
    requires
        alike(a, b),
    ensures
        match (
            projected(a, report, event, event_id, memories, neighbors, now),
            projected(b, report, event, event_id, memories, neighbors, now),
        ) {
            (Ok(x), Ok(y)) => alike(x.store, y.store) && x.report == y.report && x.nodes == y.nodes,
            _ => true,
        },
{
    reveal(projected);
    lemma_alike_applied_all(a, b, report, event, memories, neighbors, now);
    if let (Ok(x), Ok(y)) = (
        applied_all(a, report, event, memories, neighbors, now),
        applied_all(b, report, event, memories, neighbors, now),
    ) {
        lemma_alike_chain(x.store, y.store, event, x.nodes);
    }
}

/// Two replays came to the same, over tables that are alike.
spec fn alike_runs(x: LateRun, y: LateRun) -> bool {
    &&& alike(x.store, y.store)
    &&& x.report == y.report
    &&& x.done == y.done
    &&& x.error is None
    &&& y.error is None
}

proof fn lemma_alike_memories(
    x: LateRun,
    y: LateRun,
    event: EventModel,
    node: NodeModel,
    neighbors: Seq<NodeModel>,
    memories: Seq<DistilledModel>,
    now: i64,
)
    requires
        alike_runs(x, y),
    ensures
        ({
            let p = x.after_memories(event, node, neighbors, memories, now);
            let q = y.after_memories(event, node, neighbors, memories, now);
            &&& p.error is None && q.error is None ==> alike_runs(p, q)
            &&& p.asked == x.asked
            &&& q.asked == y.asked
        }),
    decreases memories.len(),
{
    if memories.len() > 0 {
        let front = memories.drop_last();
        lemma_alike_memories(x, y, event, node, neighbors, front, now);
        let p = x.after_memories(event, node, neighbors, front, now);
        let q = y.after_memories(event, node, neighbors, front, now);
        if p.error is None && q.error is None {
            let memory = memories.last();
            lemma_alike_late_invalidated(p.store, q.store, event, memory, node.id, now);
            lemma_alike_late_updated(p.store, q.store, event, memory, node, now);
        }
    }
}

/// What a replay asks once an event is taken up: what it asked before, and at most the event.
proof fn lemma_event_asks(x: LateRun, event: EventModel, node: NodeModel, reply: Reply, now: i64)
    ensures
        ({
            let neighbors = x.store.recall(
                event_scope(event),
                terms_of(event.text),
                open_before(x.store, event),
                24,
            );
            x.after_event(event, node, reply, now).asked == (if x.over() || !some_row(
                neighbors,
                with_id(node.id),
            ) {
                x.asked
            } else {
                x.asked.push(Call { event, neighbors, reply })
            })
        }),
{
    reveal(LateRun::after_event);
    let neighbors = x.store.recall(
        event_scope(event),
        terms_of(event.text),
        open_before(x.store, event),
        24,
    );
    if let Ok(outcome) = reply {
        if let Ok(checked) = checked_outcome("late distilled memory"@, event, neighbors, outcome) {
            let counted = LateRun {
                report: x.report.plus_metrics(checked.metrics).plus_outputs(checked.memories.len()),
                asked: x.asked.push(Call { event, neighbors, reply }),
                ..x
            };
            lemma_memories_ask_nothing(counted, event, node, neighbors, checked.memories, now);
        }
    }
}

proof fn lemma_memories_ask_nothing(
    x: LateRun,
    event: EventModel,
    node: NodeModel,
    neighbors: Seq<NodeModel>,
    memories: Seq<DistilledModel>,
    now: i64,
)
    ensures
        x.after_memories(event, node, neighbors, memories, now).asked == x.asked,
    decreases memories.len(),
{
    if memories.len() > 0 {
        lemma_memories_ask_nothing(x, event, node, neighbors, memories.drop_last(), now);
    }
}

/// What may be replied to some calls may be replied to those before the last.
proof fn lemma_allowed_front<D: Distiller>(distiller: D, calls: Seq<Call>, more: Seq<Call>)
    requires
        allowed(distiller, calls + more),
    ensures
        allowed(distiller, calls),
        allowed(distiller, more),
{
    let all = calls + more;
    assert forall|k: int| 0 <= k < calls.len() implies distiller.may_give(
        (#[trigger] calls[k]).event,
        calls[k].neighbors,
        calls[k].reply,
    ) by {
        assert(all[k] == calls[k]);
    }
    assert forall|k: int| 0 <= k < more.len() implies distiller.may_give(
        (#[trigger] more[k]).event,
        more[k].neighbors,
        more[k].reply,
    ) by {
        assert(all[calls.len() + k] == more[k]);
    }
}

proof fn lemma_alike_event<D: Distiller>(
    distiller: D,
    x: LateRun,
    y: LateRun,
    event: EventModel,
    node: NodeModel,
    one: Reply,
    other: Reply,
    now: i64,
)
    requires
        replies_the_same(distiller),
        alike_runs(x, y),
        allowed(distiller, x.after_event(event, node, one, now).asked),
        allowed(distiller, y.after_event(event, node, other, now).asked),
        x.after_event(event, node, one, now).error is None,
        y.after_event(event, node, other, now).error is None,
    ensures
        alike_runs(
            x.after_event(event, node, one, now),
            y.after_event(event, node, other, now),
        ),
{
    lemma_alike_neighbors(x.store, y.store, event);
    lemma_event_asks(x, event, node, one, now);
    lemma_event_asks(y, event, node, other, now);
    let neighbors = x.store.recall(
        event_scope(event),
        terms_of(event.text),
        open_before(x.store, event),
        24,
    );
    reveal(LateRun::after_event);
    if !x.over() && some_row(neighbors, with_id(node.id)) {
        let mine = x.asked.push(Call { event, neighbors, reply: one });
        let theirs = y.asked.push(Call { event, neighbors, reply: other });
        assert(mine[x.asked.len() as int].reply == one);
        assert(theirs[y.asked.len() as int].reply == other);
        assert(distiller.may_give(event, neighbors, one));
        assert(distiller.may_give(event, neighbors, other));
        assert(one == other);
        if let Ok(outcome) = one {
            if let Ok(checked) = checked_outcome(
                "late distilled memory"@,
                event,
                neighbors,
                outcome,
            ) {
                let report = x.report.plus_metrics(checked.metrics).plus_outputs(
                    checked.memories.len(),
                );
                lemma_alike_memories(
                    LateRun { report, asked: mine, ..x },
                    LateRun { report, asked: theirs, ..y },
                    event,
                    node,
                    neighbors,
                    checked.memories,
                    now,
                );
            }
        }
    }
}

/// An error stays.
proof fn lemma_errors_stay(x: LateRun, event: EventModel, node: NodeModel, reply: Reply, now: i64)
    requires
        x.error is Some,
    ensures
        x.after_event(event, node, reply, now) == x,
{
    reveal(LateRun::after_event);
}

proof fn lemma_alike_events<D: Distiller>(
    distiller: D,
    x: LateRun,
    y: LateRun,
    events: Seq<EventModel>,
    node: NodeModel,
    ones: Seq<Reply>,
    others: Seq<Reply>,
    now: i64,
)
    requires
        replies_the_same(distiller),
        alike_runs(x, y),
        allowed(distiller, x.after_events(events, node, ones, now).asked),
        allowed(distiller, y.after_events(events, node, others, now).asked),
        x.after_events(events, node, ones, now).error is None,
        y.after_events(events, node, others, now).error is None,
    ensures
        alike_runs(
            x.after_events(events, node, ones, now),
            y.after_events(events, node, others, now),
        ),
    decreases events.len(),
{
    if events.len() > 0 {
        let front = events.drop_last();
        let p = x.after_events(front, node, ones.drop_last(), now);
        let q = y.after_events(front, node, others.drop_last(), now);
        if p.error is Some {
            lemma_errors_stay(p, events.last(), node, ones.last(), now);
        }
        if q.error is Some {
            lemma_errors_stay(q, events.last(), node, others.last(), now);
        }
        lemma_event_asks(p, events.last(), node, ones.last(), now);
        lemma_event_asks(q, events.last(), node, others.last(), now);
        lemma_asked_before(distiller, p, events.last(), node, ones.last(), now);
        lemma_asked_before(distiller, q, events.last(), node, others.last(), now);
        lemma_alike_events(
            distiller,
            x,
            y,
            front,
            node,
            ones.drop_last(),
            others.drop_last(),
            now,
        );
        lemma_alike_event(distiller, p, q, events.last(), node, ones.last(), others.last(), now);
    }
}

proof fn lemma_asked_before<D: Distiller>(
    distiller: D,
    x: LateRun,
    event: EventModel,
    node: NodeModel,
    reply: Reply,
    now: i64,
)
    requires
        allowed(distiller, x.after_event(event, node, reply, now).asked),
    ensures
        allowed(distiller, x.asked),
{
    lemma_event_asks(x, event, node, reply, now);
    let after = x.after_event(event, node, reply, now).asked;
    if after.len() > x.asked.len() {
        let more = after.skip(x.asked.len() as int);
        assert(after =~= x.asked + more);
        lemma_allowed_front(distiller, x.asked, more);
    }
}

proof fn lemma_alike_late_nodes<D: Distiller>(
    distiller: D,
    a: StoreModel,
    b: StoreModel,
    event: EventModel,
    nodes: Seq<NodeModel>,
    ones: Seq<Seq<Reply>>,
    others: Seq<Seq<Reply>>,
    now: i64,
)
    requires
        replies_the_same(distiller),
        alike(a, b),
        allowed(distiller, late_nodes(a, event, nodes, ones, now).asked),
        allowed(distiller, late_nodes(b, event, nodes, others, now).asked),
        late_nodes(a, event, nodes, ones, now).error is None,
        late_nodes(b, event, nodes, others, now).error is None,
    ensures
        alike_runs(
            late_nodes(a, event, nodes, ones, now),
            late_nodes(b, event, nodes, others, now),
        ),
    decreases nodes.len(),
{
    if nodes.len() > 0 {
        let front = nodes.drop_last();
        let x = late_nodes(a, event, front, ones.drop_last(), now);
        let y = late_nodes(b, event, front, others.drop_last(), now);
        let p = late_node(x.store, event, nodes.last(), ones.last(), now);
        let q = late_node(y.store, event, nodes.last(), others.last(), now);
        lemma_allowed_front(distiller, x.asked, p.asked);
        lemma_allowed_front(distiller, y.asked, q.asked);
        lemma_alike_late_nodes(
            distiller,
            a,
            b,
            event,
            front,
            ones.drop_last(),
            others.drop_last(),
            now,
        );
        reveal(late_node);
        let later = later_events(x.store, event, nodes.last());
        assert(later_events(y.store, event, nodes.last()) == later);
        if !crate::revise::is_scaffold(nodes.last().kind) {
            lemma_alike_events(
                distiller,
                late_start(x.store),
                late_start(y.store),
                later,
                nodes.last(),
                ones.last(),
                others.last(),
                now,
            );
        }
    }
}

proof fn lemma_alike_event_run<D: Distiller>(
    distiller: D,
    a: StoreModel,
    b: StoreModel,
    event: EventModel,
    one: EventReplies,
    other: EventReplies,
    late: bool,
    now: i64,
)
    requires
        replies_the_same(distiller),
        alike(a, b),
        allowed(distiller, event_run(a, event, one, late, now).asked),
        allowed(distiller, event_run(b, event, other, late, now).asked),
        event_run(a, event, one, late, now).error is None,
        event_run(b, event, other, late, now).error is None,
    ensures
        alike(
            event_run(a, event, one, late, now).store,
            event_run(b, event, other, late, now).store,
        ),
        event_run(a, event, one, late, now).report == event_run(b, event, other, late, now).report,
{
    reveal(event_run);
    let x = event_run(a, event, one, late, now);
    let y = event_run(b, event, other, late, now);
    if event.id is Some && waits(a, event.id->0) {
        assert(waits(b, event.id->0));
        lemma_alike_neighbors(a, b, event);
        let neighbors = event_neighbors(a, event);
        let mine = seq![Call { event, neighbors, reply: one.first }];
        let theirs = seq![Call { event, neighbors, reply: other.first }];
        assert(x.asked[0] == mine[0]);
        assert(y.asked[0] == theirs[0]);
        assert(distiller.may_give(event, neighbors, one.first));
        assert(distiller.may_give(event, neighbors, other.first));
        assert(one.first == other.first);
        if let Ok(outcome) = one.first {
            if let Ok(checked) = checked_outcome("distilled memory"@, event, neighbors, outcome) {
                let report = event_seen(event).plus_metrics(checked.metrics).plus_outputs(
                    checked.memories.len(),
                );
                let id = event.id->0;
                if !checked.rejected {
                    lemma_alike_projected(
                        a,
                        b,
                        report,
                        event,
                        id,
                        checked.memories,
                        neighbors,
                        now,
                    );
                    if let (Ok(p), Ok(q)) = (
                        projected(a, report, event, id, checked.memories, neighbors, now),
                        projected(b, report, event, id, checked.memories, neighbors, now),
                    ) {
                        if late {
                            let u = late_nodes(p.store, event, p.nodes, one.late, now);
                            let v = late_nodes(q.store, event, q.nodes, other.late, now);
                            lemma_allowed_front(distiller, mine, u.asked);
                            lemma_allowed_front(distiller, theirs, v.asked);
                            lemma_alike_late_nodes(
                                distiller,
                                p.store,
                                q.store,
                                event,
                                p.nodes,
                                one.late,
                                other.late,
                                now,
                            );
                        }
                    }
                }
            }
        }
    }
}

proof fn lemma_alike_events_run<D: Distiller>(
    distiller: D,
    a: StoreModel,
    b: StoreModel,
    events: Seq<EventModel>,
    ones: Seq<EventReplies>,
    others: Seq<EventReplies>,
    late: bool,
    now: i64,
)
    requires
        replies_the_same(distiller),
        alike(a, b),
        allowed(distiller, events_run(a, events, ones, late, now).asked),
        allowed(distiller, events_run(b, events, others, late, now).asked),
        events_run(a, events, ones, late, now).error is None,
        events_run(b, events, others, late, now).error is None,
    ensures
        alike(
            events_run(a, events, ones, late, now).store,
            events_run(b, events, others, late, now).store,
        ),
        events_run(a, events, ones, late, now).report == events_run(
            b,
            events,
            others,
            late,
            now,
        ).report,
    decreases events.len(),
{
    if events.len() > 0 {
        let front = events.drop_last();
        let x = events_run(a, front, ones.drop_last(), late, now);
        let y = events_run(b, front, others.drop_last(), late, now);
        let p = event_run(x.store, events.last(), ones.last(), late, now);
        let q = event_run(y.store, events.last(), others.last(), late, now);
        lemma_allowed_front(distiller, x.asked, p.asked);
        lemma_allowed_front(distiller, y.asked, q.asked);
        lemma_alike_events_run(
            distiller,
            a,
            b,
            front,
            ones.drop_last(),
            others.drop_last(),
            late,
            now,
        );
        lemma_alike_event_run(
            distiller,
            x.store,
            y.store,
            events.last(),
            ones.last(),
            others.last(),
            late,
            now,
        );
    }
}

// ---------------------------------------------------------------------------
// Laws
// ---------------------------------------------------------------------------
/// A pass of a distiller that always replies the same does the same to stores that have the same
/// ledger and projection, where it ends well in both.
pub proof fn passes_repeat<D: Distiller>(
    distiller: D,
    a: StoreModel,
    b: StoreModel,
    after: StoreModel,
    other: StoreModel,
    limit: usize,
    now: i64,
    r: MemoryResult<ProjectReport>,
    s: MemoryResult<ProjectReport>,
)
    requires
        replies_the_same(distiller),
        alike(a, b),
        pass_happened(distiller, a, after, limit, now, r),
        pass_happened(distiller, b, other, limit, now, s),
        r is Ok,
        s is Ok,
    ensures
        alike(after, other),
        r->Ok_0 == s->Ok_0,
{
    assert(pass_problem(limit) is None);
    let events = pass_events(a, limit);
    assert(pass_events(b, limit) == events);
    let late = distiller.replays_late();
    let ones = choose|ones: Seq<EventReplies>|
        {
            let run = #[trigger] events_run(a, events, ones, late, now);
            &&& after == run.store
            &&& run_result(r, run)
            &&& allowed(distiller, run.asked)
            &&& ones.len() == events.len()
        };
    let others = choose|others: Seq<EventReplies>|
        {
            let run = #[trigger] events_run(b, events, others, late, now);
            &&& other == run.store
            &&& run_result(s, run)
            &&& allowed(distiller, run.asked)
            &&& others.len() == events.len()
        };
    lemma_alike_events_run(distiller, a, b, events, ones, others, late, now);
}

/// Passes that follow one another from alike stores come to alike stores, as many of them.
proof fn lemma_alike_chains<D: Distiller>(
    distiller: D,
    a: StoreModel,
    b: StoreModel,
    batch_size: usize,
    bound: usize,
    now: i64,
    steps: Seq<RebuildStep>,
    others: Seq<RebuildStep>,
)
    requires
        replies_the_same(distiller),
        alike(a, b),
        steps.len() == others.len(),
        passes_chain(distiller, a, batch_size, bound, now, steps),
        passes_chain(distiller, b, batch_size, bound, now, others),
    ensures
        alike(end_store(a, steps), end_store(b, others)),
        remaining(bound, steps) == remaining(bound, others),
        steps.len() > 0 ==> steps.last().report == others.last().report,
        crate::engine::total_report(steps) == crate::engine::total_report(others),
    decreases steps.len(),
{
    if steps.len() > 0 {
        let x = steps.last();
        let y = others.last();
        lemma_alike_chains(
            distiller,
            a,
            b,
            batch_size,
            bound,
            now,
            steps.drop_last(),
            others.drop_last(),
        );
        passes_repeat(
            distiller,
            x.before,
            y.before,
            x.after,
            y.after,
            x.limit,
            now,
            Ok::<ProjectReport, MemoryError>(x.report),
            Ok::<ProjectReport, MemoryError>(y.report),
        );
    }
}

/// The first of some passes that follow one another follow one another, and go on.
proof fn lemma_chain_goes_on<D: Distiller>(
    distiller: D,
    start: StoreModel,
    batch_size: usize,
    bound: usize,
    now: i64,
    steps: Seq<RebuildStep>,
    k: int,
)
    requires
        0 <= k < steps.len(),
        passes_chain(distiller, start, batch_size, bound, now, steps),
    ensures
        passes_chain(distiller, start, batch_size, bound, now, steps.take(k)),
        remaining(bound, steps.take(k)) > 0,
        k > 0 ==> steps.take(k).last().report.events_projected > 0,
    decreases steps.len(),
{
    let front = steps.drop_last();
    if k < front.len() {
        lemma_chain_goes_on(distiller, start, batch_size, bound, now, front, k);
        assert(front.take(k) =~= steps.take(k));
    } else {
        assert(steps.take(k) =~= front);
    }
}

/// Passes that follow one another as far as they can are not fewer from one store than from one
/// that is alike.
proof fn lemma_chains_end_together<D: Distiller>(
    distiller: D,
    a: StoreModel,
    b: StoreModel,
    batch_size: usize,
    bound: usize,
    now: i64,
    steps: Seq<RebuildStep>,
    others: Seq<RebuildStep>,
)
    requires
        replies_the_same(distiller),
        alike(a, b),
        passes_chain(distiller, a, batch_size, bound, now, steps),
        passes_chain(distiller, b, batch_size, bound, now, others),
        remaining(bound, steps) == 0 || (steps.len() > 0 && steps.last().report.events_projected
            == 0),
    ensures
        others.len() <= steps.len(),
{
    if steps.len() < others.len() {
        let k = steps.len() as int;
        lemma_chain_goes_on(distiller, b, batch_size, bound, now, others, k);
        lemma_alike_chains(distiller, a, b, batch_size, bound, now, steps, others.take(k));
    }
}

/// A rebuild depends on the ledger alone. Where a distiller always replies the same, two rebuilds
/// that come to their end, from stores whose ledgers differ at most in their marks, lead to the
/// same ledger, nodes, citations and cues, and but for their numbers to the same edges in the same
/// order, whatever the stores had projected.
pub proof fn rebuilds_depend_on_the_ledger<D: Distiller>(
    distiller: D,
    a: StoreModel,
    b: StoreModel,
    after: StoreModel,
    other: StoreModel,
    batch_size: usize,
    max_events: Option<usize>,
    now: i64,
    r: MemoryResult<ProjectionRebuildReport>,
    s: MemoryResult<ProjectionRebuildReport>,
    steps: Seq<RebuildStep>,
    others: Seq<RebuildStep>,
)
    requires
        replies_the_same(distiller),
        ledger_kept(a.ledger, b.ledger),
        rebuild_happened(distiller, a, after, batch_size, max_events, now, r, steps),
        rebuild_happened(distiller, b, other, batch_size, max_events, now, s, others),
        r is Ok,
        s is Ok,
    ensures
        alike(after, other),
        r->Ok_0.project == s->Ok_0.project,
        r->Ok_0.completed == s->Ok_0.completed,
{
    resetting_forgets_the_projection(a, b);
    let x = a.reset();
    let y = b.reset();
    let bound = event_bound(max_events);
    lemma_chains_end_together(distiller, x, y, batch_size, bound, now, steps, others);
    lemma_chains_end_together(distiller, y, x, batch_size, bound, now, others, steps);
    lemma_alike_chains(distiller, x, y, batch_size, bound, now, steps, others);
}

} // verus!
