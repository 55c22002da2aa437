//! What every write keeps.
//!
//! The ledger is append-only: a projection pass marks events and changes nothing else of them.
//! Memory is never deleted: a pass adds nodes, edges and citations, restates texts, and closes
//! validity windows; a window is never reopened or moved. Identities stay unique.
use vstd::prelude::*;

use crate::distill::Distiller;
use crate::engine::{
    end_store, passes_chain, rebuild_happened, ProjectionRebuildReport, RebuildStep,
};
use crate::error::{ErrorModel, MemoryError, MemoryResult};
use crate::ledger::EventModel;
use crate::model::{DistilledModel, MemoryEdgeKind, MemoryNodeKind, SpanModel};
use crate::order::lemma_ranked_contains;
use crate::passes::{
    allowed, applied_all, event_neighbors, event_run, events_run, late_node, late_nodes, late_start,
    pass_events, pass_happened, projected, EventReplies, LateRun, ProjectReport, Reply,
};
use crate::projection::{
    attached, cue_of_other, in_family, is_edge, next_version, node_cues, reindexed, ByVersion,
    Upsert,
};
use crate::rows::{CueModel, EdgeModel, MemoryNode, NodeModel, NodeSpanModel, ScopeKey};
use crate::store::{at_span, event_scope, is_citation, open_before, with_id, StoreModel};
use crate::table::{first_index, lemma_filter_contains, lemma_first_index, some_row};
use crate::text::terms_of;

verus! {

// ---------------------------------------------------------------------------
// Well-formed tables
// ---------------------------------------------------------------------------
/// Events stand in the order of their identifiers, up to the last one given out, and no two
/// of them were observed at one place in a trace.
pub open spec fn ledger_wf(store: StoreModel) -> bool {
    &&& forall|i: int|
        0 <= i < store.ledger.len() ==> (#[trigger] store.ledger[i]).id is Some
            && store.ledger[i].id->0 <= store.last_event_id
    &&& forall|i: int, j: int|
        0 <= i < j < store.ledger.len() ==> {
            &&& (#[trigger] store.ledger[i]).id->0 < (#[trigger] store.ledger[j]).id->0
            &&& store.ledger[i].span() != store.ledger[j].span()
        }
}

/// No two nodes share an identifier.
pub open spec fn nodes_wf(nodes: Seq<NodeModel>) -> bool {
    forall|i: int, j: int|
        0 <= i < j < nodes.len() ==> (#[trigger] nodes[i]).id != (#[trigger] nodes[j]).id
}

/// No edge joins a node to itself, and no two edges join the same nodes by one kind.
pub open spec fn edges_wf(edges: Seq<EdgeModel>) -> bool {
    &&& forall|i: int|
        0 <= i < edges.len() ==> (#[trigger] edges[i]).from_node_id != edges[i].to_node_id
    &&& forall|i: int, j: int|
        0 <= i < j < edges.len() ==> !((#[trigger] edges[i]).from_node_id == (
        #[trigger] edges[j]).from_node_id && edges[i].to_node_id == edges[j].to_node_id
            && edges[i].kind == edges[j].kind)
}

/// No node cites a place twice.
pub open spec fn spans_wf(spans: Seq<NodeSpanModel>) -> bool {
    forall|i: int, j: int| 0 <= i < j < spans.len() ==> #[trigger] spans[i] != #[trigger] spans[j]
}

/// A cue stands in the scope of the node that it leads to.
pub open spec fn cues_wf(nodes: Seq<NodeModel>, cues: Seq<CueModel>) -> bool {
    forall|c: int, n: int|
        0 <= c < cues.len() && 0 <= n < nodes.len() && (#[trigger] cues[c]).node_id == (
        #[trigger] nodes[n]).id ==> {
            &&& cues[c].tenant_id == nodes[n].tenant_id
            &&& cues[c].project_id == nodes[n].project_id
            &&& cues[c].environment_id == nodes[n].environment_id
        }
}

/// The tables of a store are well formed.
pub open spec fn wf(store: StoreModel) -> bool {
    &&& ledger_wf(store)
    &&& nodes_wf(store.nodes)
    &&& edges_wf(store.edges)
    &&& spans_wf(store.spans)
    &&& cues_wf(store.nodes, store.cues)
}

// ---------------------------------------------------------------------------
// What stays
// ---------------------------------------------------------------------------
/// An event that is at most marked differently.
pub open spec fn event_kept(a: EventModel, b: EventModel) -> bool {
    b == (EventModel { projected_at_unix_ms: b.projected_at_unix_ms, ..a })
}

pub open spec fn ledger_kept(a: Seq<EventModel>, b: Seq<EventModel>) -> bool {
    a.len() == b.len() && forall|i: int|
        0 <= i < a.len() ==> event_kept(#[trigger] a[i], #[trigger] b[i])
}

/// A node that keeps its identity, its key and its beginning, and whose window at most ended
/// earlier.
pub open spec fn node_kept(a: NodeModel, b: NodeModel) -> bool {
    &&& b.id == a.id
    &&& b.tenant_id == a.tenant_id
    &&& b.project_id == a.project_id
    &&& b.environment_id == a.environment_id
    &&& b.kind == a.kind
    &&& b.canonical_key == a.canonical_key
    &&& b.created_at_unix_ms == a.created_at_unix_ms
    &&& b.valid_from_unix_ms == a.valid_from_unix_ms
    &&& b.observation_count >= a.observation_count
    &&& match a.valid_to_unix_ms {
        None => true,
        Some(end) => b.valid_to_unix_ms is Some && b.valid_to_unix_ms->0 <= end,
    }
}

pub open spec fn nodes_kept(a: Seq<NodeModel>, b: Seq<NodeModel>) -> bool {
    a.len() <= b.len() && forall|i: int|
        0 <= i < a.len() ==> node_kept(#[trigger] a[i], #[trigger] b[i])
}

/// A list that at most grew at its end.
pub open spec fn extended<A>(a: Seq<A>, b: Seq<A>) -> bool {
    a.len() <= b.len() && b.take(a.len() as int) == a
}

/// What a projection write leaves of the tables before it.
pub open spec fn evolves(a: StoreModel, b: StoreModel) -> bool {
    &&& ledger_kept(a.ledger, b.ledger)
    &&& nodes_kept(a.nodes, b.nodes)
    &&& extended(a.edges, b.edges)
    &&& extended(a.spans, b.spans)
    &&& b.audit == a.audit
    &&& b.last_event_id == a.last_event_id
    &&& b.last_audit_id == a.last_audit_id
}

/// A write that keeps tables well formed and what they hold.
pub open spec fn sound(a: StoreModel, b: StoreModel) -> bool {
    wf(a) ==> wf(b) && evolves(a, b)
}

pub proof fn lemma_sound_refl(a: StoreModel)
    ensures
        sound(a, a),
{
    assert(a.edges.take(a.edges.len() as int) =~= a.edges);
    assert(a.spans.take(a.spans.len() as int) =~= a.spans);
}

pub proof fn lemma_sound_trans(a: StoreModel, b: StoreModel, c: StoreModel)
    requires
        sound(a, b),
        sound(b, c),
    ensures
        sound(a, c),
{
    if wf(a) {
        assert forall|i: int| 0 <= i < a.ledger.len() implies event_kept(
            #[trigger] a.ledger[i],
            #[trigger] c.ledger[i],
        ) by {
            assert(event_kept(a.ledger[i], b.ledger[i]));
            assert(event_kept(b.ledger[i], c.ledger[i]));
        }
        assert forall|i: int| 0 <= i < a.nodes.len() implies node_kept(
            #[trigger] a.nodes[i],
            #[trigger] c.nodes[i],
        ) by {
            assert(node_kept(a.nodes[i], b.nodes[i]));
            assert(node_kept(b.nodes[i], c.nodes[i]));
        }
        assert(c.edges.take(a.edges.len() as int) =~= a.edges) by {
            assert(c.edges.take(b.edges.len() as int).take(a.edges.len() as int) =~= c.edges.take(
                a.edges.len() as int,
            ));
        }
        assert(c.spans.take(a.spans.len() as int) =~= a.spans) by {
            assert(c.spans.take(b.spans.len() as int).take(a.spans.len() as int) =~= c.spans.take(
                a.spans.len() as int,
            ));
        }
    }
}

// ---------------------------------------------------------------------------
// Appending events
// ---------------------------------------------------------------------------
/// Appending keeps every event as it is, adds at most the new one at the end, touches nothing
/// else, and keeps the tables well formed.
pub proof fn appending_only_adds(store: StoreModel, event: EventModel)
    requires
        wf(store),
    ensures
        match store.appended(event) {
            Ok((after, added)) => {
                &&& wf(after)
                &&& after.nodes == store.nodes
                &&& after.edges == store.edges
                &&& after.spans == store.spans
                &&& after.cues == store.cues
                &&& after.audit == store.audit
                &&& extended(store.ledger, after.ledger)
                &&& after.ledger.len() == store.ledger.len() + (if added {
                    1int
                } else {
                    0
                })
            },
            Err(_) => true,
        },
{
    if let Ok((after, added)) = store.appended(event) {
        if added {
            assert(after.ledger.take(store.ledger.len() as int) =~= store.ledger);
            let last = store.ledger.len() as int;
            assert forall|i: int| 0 <= i < after.ledger.len() implies (#[trigger] after.ledger[i]).id
                is Some && after.ledger[i].id->0 <= after.last_event_id by {
                if i < last {
                    assert(after.ledger[i] == store.ledger[i]);
                }
            }
            assert forall|i: int, j: int| 0 <= i < j < after.ledger.len() implies {
                &&& (#[trigger] after.ledger[i]).id->0 < (#[trigger] after.ledger[j]).id->0
                &&& after.ledger[i].span() != after.ledger[j].span()
            } by {
                assert(after.ledger[i] == store.ledger[i]);
                if j < last {
                    assert(after.ledger[j] == store.ledger[j]);
                } else {
                    assert(!(at_span(event.span()))(store.ledger[i]));
                }
            }
        } else {
            assert(store.ledger.take(store.ledger.len() as int) =~= store.ledger);
        }
    }
}

/// An event that was appended once is not appended again: a second append with its place in
/// the trace reports a duplicate and changes nothing.
pub proof fn appending_is_idempotent(store: StoreModel, first: EventModel, second: EventModel)
    requires
        store.appended(first) is Ok,
        second.problem() is None,
        second.span() == first.span(),
    ensures
        store.appended(first)->Ok_0.0.appended(second) == Ok::<(StoreModel, bool), ErrorModel>(
            (store.appended(first)->Ok_0.0, false),
        ),
{
    let after = store.appended(first)->Ok_0.0;
    if store.appended(first)->Ok_0.1 {
        let last = store.ledger.len() as int;
        assert((at_span(second.span()))(after.ledger[last]));
    }
}

// ---------------------------------------------------------------------------
// Single writes
// ---------------------------------------------------------------------------
proof fn lemma_attached(rows: Seq<NodeSpanModel>, node_id: Seq<char>, spans: Seq<SpanModel>)
    ensures
        extended(rows, attached(rows, node_id, spans)),
        spans_wf(rows) ==> spans_wf(attached(rows, node_id, spans)),
    decreases spans.len(),
{
    if spans.len() == 0 {
        assert(rows.take(rows.len() as int) =~= rows);
    } else {
        lemma_attached(rows, node_id, spans.drop_last());
        let front = attached(rows, node_id, spans.drop_last());
        let out = attached(rows, node_id, spans);
        if !some_row(front, is_citation(node_id, spans.last())) {
            assert(out.take(rows.len() as int) =~= front.take(rows.len() as int));
            if spans_wf(rows) {
                assert forall|i: int, j: int| 0 <= i < j < out.len() implies #[trigger] out[i]
                    != #[trigger] out[j] by {
                    assert(out[i] == front[i]);
                    if j < front.len() {
                        assert(out[j] == front[j]);
                    } else {
                        assert(!(is_citation(node_id, spans.last()))(front[i]));
                    }
                }
            }
        }
    }
}

/// The cues of a node stand in its scope once they are renewed.
proof fn lemma_reindexed(
    before: Seq<NodeModel>,
    after: Seq<NodeModel>,
    cues: Seq<CueModel>,
    node: NodeModel,
    at: int,
)
    requires
        cues_wf(before, cues),
        0 <= at < after.len(),
        after[at] == node,
        forall|n: int|
            0 <= n < after.len() && n != at ==> n < before.len() && node_kept(
                before[n],
                #[trigger] after[n],
            ) && after[n].id != node.id,
    ensures
        cues_wf(after, reindexed(cues, node)),
{
    let renewed = reindexed(cues, node);
    let others = cues.filter(cue_of_other(node.id));
    assert forall|c: int, n: int|
        0 <= c < renewed.len() && 0 <= n < after.len() && (#[trigger] renewed[c]).node_id == (
        #[trigger] after[n]).id implies renewed[c].tenant_id == after[n].tenant_id
        && renewed[c].project_id == after[n].project_id && renewed[c].environment_id
        == after[n].environment_id by {
        if c < others.len() {
            assert(others.contains(others[c]));
            lemma_filter_contains(cues, cue_of_other(node.id), others[c]);
            let k = choose|k: int| 0 <= k < cues.len() && cues[k] == others[c];
            assert(n != at);
            assert(node_kept(before[n], after[n]));
            assert(cues[k].node_id == before[n].id);
        } else {
            assert(renewed[c] == node_cues(node)[c - others.len()]);
        }
    }
}

/// A version that is stated again keeps the tables.
pub proof fn lemma_restated(
    store: StoreModel,
    node: NodeModel,
    text: Seq<char>,
    spans: Seq<SpanModel>,
    now: i64,
)
    requires
        store.nodes.contains(node),
    ensures
        sound(store, store.restated(node, text, spans, now).store),
{
    lemma_attached(store.spans, node.id, spans);
    lemma_first_index(store.nodes, with_id(node.id));
    let after = store.restated(node, text, spans, now).store;
    assert(store.edges.take(store.edges.len() as int) =~= store.edges);
    if wf(store) {
        let k = choose|k: int| 0 <= k < store.nodes.len() && store.nodes[k] == node;
        assert((with_id(node.id))(store.nodes[k]));
        let i = first_index(store.nodes, with_id(node.id))->0;
        assert(i == k) by {
            if i < k {
                assert(store.nodes[i].id != store.nodes[k].id);
            }
        }
        assert forall|a: int| 0 <= a < store.nodes.len() implies node_kept(
            #[trigger] store.nodes[a],
            #[trigger] after.nodes[a],
        ) by {}
        assert forall|a: int, b: int| 0 <= a < b < after.nodes.len() implies (
        #[trigger] after.nodes[a]).id != (#[trigger] after.nodes[b]).id by {
            assert(store.nodes[a].id != store.nodes[b].id);
        }
        if after.cues != store.cues {
            lemma_reindexed(store.nodes, after.nodes, store.cues, after.nodes[k], k);
        }
    }
}

pub proof fn lemma_begun(
    store: StoreModel,
    scope: ScopeKey,
    kind: MemoryNodeKind,
    family: Seq<char>,
    key: Seq<char>,
    text: Seq<char>,
    valid_from: i64,
    spans: Seq<SpanModel>,
    now: i64,
)
    ensures
        match store.begun(scope, kind, family, key, text, valid_from, spans, now) {
            Ok(upsert) => sound(store, upsert.store) && upsert.store.nodes.contains(upsert.node),
            Err(_) => true,
        },
{
    if let Ok(upsert) = store.begun(scope, kind, family, key, text, valid_from, spans, now) {
        lemma_attached(store.spans, upsert.node.id, spans);
        let after = upsert.store;
        let last = store.nodes.len() as int;
        assert(store.edges.take(store.edges.len() as int) =~= store.edges);
        assert(after.nodes[last] == upsert.node);
        if wf(store) {
            assert forall|a: int| 0 <= a < store.nodes.len() implies node_kept(
                #[trigger] store.nodes[a],
                #[trigger] after.nodes[a],
            ) by {}
            assert forall|a: int, b: int| 0 <= a < b < after.nodes.len() implies (
            #[trigger] after.nodes[a]).id != (#[trigger] after.nodes[b]).id by {
                assert(after.nodes[a].id == store.nodes[a].id);
                if b < last {
                    assert(after.nodes[b].id == store.nodes[b].id);
                } else {
                    assert(!(with_id(upsert.node.id))(store.nodes[a]));
                }
            }
            lemma_reindexed(store.nodes, after.nodes, store.cues, upsert.node, last);
        }
    }
}

pub proof fn lemma_family_member(
    store: StoreModel,
    scope: ScopeKey,
    kind: MemoryNodeKind,
    family: Seq<char>,
    i: int,
)
    requires
        0 <= i < store.family(scope, kind, family).len(),
    ensures
        store.nodes.contains(store.family(scope, kind, family)[i]),
{
    let members = store.nodes.filter(in_family(scope, kind, family));
    let node = store.family(scope, kind, family)[i];
    lemma_ranked_contains::<MemoryNode, ByVersion>(members, node);
    assert(store.family(scope, kind, family).contains(node));
    lemma_filter_contains(store.nodes, in_family(scope, kind, family), node);
}

pub proof fn lemma_upserted(
    store: StoreModel,
    scope: ScopeKey,
    kind: MemoryNodeKind,
    text: Seq<char>,
    valid_from: i64,
    spans: Seq<SpanModel>,
    now: i64,
)
    ensures
        match store.upserted(scope, kind, text, valid_from, spans, now) {
            Ok(upsert) => sound(store, upsert.store),
            Err(_) => true,
        },
{
    reveal(StoreModel::upserted);
    let family = crate::projection::base_key(kind, text, spans);
    let versions = store.family(scope, kind, family);
    let test = crate::projection::beginning_at(valid_from);
    lemma_first_index(versions, test);
    match first_index(versions, test) {
        Some(i) => {
            lemma_family_member(store, scope, kind, family, i);
            lemma_restated(store, versions[i], text, spans, now);
        },
        None => {
            let key = if kind == MemoryNodeKind::Episode {
                family
            } else {
                crate::projection::revision(family, valid_from)
            };
            lemma_begun(store, scope, kind, family, key, text, valid_from, spans, now);
        },
    }
}

pub proof fn lemma_upserted_in_family(
    store: StoreModel,
    scope: ScopeKey,
    kind: MemoryNodeKind,
    family: Seq<char>,
    text: Seq<char>,
    valid_from: i64,
    spans: Seq<SpanModel>,
    now: i64,
)
    ensures
        match store.upserted_in_family(scope, kind, family, text, valid_from, spans, now) {
            Ok(upsert) => sound(store, upsert.store),
            Err(_) => true,
        },
{
    reveal(StoreModel::upserted_in_family);
    let versions = store.family(scope, kind, family);
    let test = crate::projection::saying_at(valid_from, text);
    lemma_first_index(versions, test);
    match first_index(versions, test) {
        Some(i) => {
            lemma_family_member(store, scope, kind, family, i);
            lemma_restated(store, versions[i], text, spans, now);
        },
        None => {
            let key = store.family_revision(scope, kind, family, valid_from);
            lemma_begun(store, scope, kind, family, key, text, valid_from, spans, now);
        },
    }
}

/// Closing a node deletes nothing: its window ends, and every other row stays.
pub proof fn closing_deletes_nothing(
    store: StoreModel,
    node_id: Seq<char>,
    at: i64,
    event: Option<i64>,
)
    ensures
        sound(store, store.invalidated(node_id, at, event).0),
        store.invalidated(node_id, at, event).0.nodes.len() == store.nodes.len(),
{
    reveal(StoreModel::invalidated);
    lemma_first_index(store.nodes, with_id(node_id));
    let after = store.invalidated(node_id, at, event).0;
    lemma_sound_refl(store);
    if wf(store) {
        assert forall|a: int, b: int| 0 <= a < b < after.nodes.len() implies (
        #[trigger] after.nodes[a]).id != (#[trigger] after.nodes[b]).id by {
            assert(after.nodes[a].id == store.nodes[a].id);
            assert(after.nodes[b].id == store.nodes[b].id);
        }
    }
}

/// A node that was closed does not hold at its end or later, and held before as it did.
pub proof fn closed_nodes_stay_visible_before(node: NodeModel, at: i64, event: Option<i64>, t: i64)
    requires
        node.closes(at, event),
    ensures
        t >= at ==> !node.closed_at(at, event).active_at(t),
        t < at ==> node.closed_at(at, event).active_at(t) == (node.valid_from_unix_ms <= t),
        t < at && node.active_at(t) ==> node.closed_at(at, event).active_at(t),
{
}

/// Closing a node again at the same time by the same event, or at a later time, changes
/// nothing.
pub proof fn closing_is_idempotent(
    store: StoreModel,
    node_id: Seq<char>,
    at: i64,
    event: Option<i64>,
    later: i64,
)
    requires
        later >= at,
        store.invalidated(node_id, at, event).1,
    ensures
        ({
            let after = store.invalidated(node_id, at, event).0;
            after.invalidated(node_id, later, event) == (after, false)
        }),
{
    reveal(StoreModel::invalidated);
    let after = store.invalidated(node_id, at, event).0;
    lemma_first_index(store.nodes, with_id(node_id));
    lemma_first_index(after.nodes, with_id(node_id));
    let i = first_index(store.nodes, with_id(node_id))->0;
    assert((with_id(node_id))(after.nodes[i]));
    let k = first_index(after.nodes, with_id(node_id))->0;
    if k < i {
        assert(after.nodes[k] == store.nodes[k]);
        assert(!(with_id(node_id))(store.nodes[k]));
    }
}

pub proof fn lemma_linked(
    store: StoreModel,
    scope: ScopeKey,
    from: Seq<char>,
    to: Seq<char>,
    kind: MemoryEdgeKind,
    weight: u32,
    at: i64,
)
    ensures
        match store.linked(scope, from, to, kind, weight, at) {
            Ok((after, _)) => sound(store, after),
            Err(_) => true,
        },
{
    reveal(StoreModel::linked);
    lemma_sound_refl(store);
    if let Ok((after, true)) = store.linked(scope, from, to, kind, weight, at) {
        assert(after.edges.take(store.edges.len() as int) =~= store.edges);
        if wf(store) {
            let last = store.edges.len() as int;
            assert forall|i: int| 0 <= i < after.edges.len() implies (
            #[trigger] after.edges[i]).from_node_id != after.edges[i].to_node_id by {
                if i < last {
                    assert(after.edges[i] == store.edges[i]);
                }
            }
            assert forall|i: int, j: int| 0 <= i < j < after.edges.len() implies !((
            #[trigger] after.edges[i]).from_node_id == (#[trigger] after.edges[j]).from_node_id
                && after.edges[i].to_node_id == after.edges[j].to_node_id && after.edges[i].kind
                == after.edges[j].kind) by {
                assert(after.edges[i] == store.edges[i]);
                if j < last {
                    assert(after.edges[j] == store.edges[j]);
                } else {
                    assert(!(is_edge(from, to, kind))(store.edges[i]));
                }
            }
        }
    }
}

// ---------------------------------------------------------------------------
// Revisions
// ---------------------------------------------------------------------------
pub proof fn lemma_cued(
    store: StoreModel,
    event: EventModel,
    node_id: Seq<char>,
    cue_terms: Seq<Seq<char>>,
    now: i64,
)
    ensures
        match store.cued(event, node_id, cue_terms, now) {
            Ok(after) => sound(store, after),
            Err(_) => true,
        },
    decreases cue_terms.len(),
{
    if cue_terms.len() == 0 {
        lemma_sound_refl(store);
    } else {
        lemma_cued(store, event, node_id, cue_terms.drop_last(), now);
        if let Ok(front) = store.cued(event, node_id, cue_terms.drop_last(), now) {
            let scope = event_scope(event);
            let at = event.observed_at_unix_ms;
            lemma_upserted(
                front,
                scope,
                MemoryNodeKind::EntityCue,
                cue_terms.last(),
                at,
                seq![event.span()],
                now,
            );
            if let Ok(upsert) = front.upserted(
                scope,
                MemoryNodeKind::EntityCue,
                cue_terms.last(),
                at,
                seq![event.span()],
                now,
            ) {
                lemma_sound_trans(store, front, upsert.store);
                lemma_linked(
                    upsert.store,
                    scope,
                    node_id,
                    upsert.node.id,
                    MemoryEdgeKind::Mentions,
                    55,
                    at,
                );
                if let Ok((after, _)) = upsert.store.linked(
                    scope,
                    node_id,
                    upsert.node.id,
                    MemoryEdgeKind::Mentions,
                    55,
                    at,
                ) {
                    lemma_sound_trans(store, upsert.store, after);
                }
            }
        }
    }
}

proof fn lemma_with_cues(
    store: StoreModel,
    upsert: Result<Upsert, ErrorModel>,
    event: EventModel,
    now: i64,
)
    requires
        upsert matches Ok(done) ==> sound(store, done.store),
    ensures
        match StoreModel::upsert_with_cues(upsert, event, now) {
            Ok(done) => sound(store, done.store),
            Err(_) => true,
        },
{
    if let Ok(done) = upsert {
        lemma_cued(
            done.store,
            event,
            done.node.id,
            crate::text::top_terms_of(done.node.text, 8),
            now,
        );
        if let Ok(after) = done.store.with_entity_cues(event, done.node, now) {
            lemma_sound_trans(store, done.store, after);
        }
    }
}

proof fn lemma_with_replacement(
    store: StoreModel,
    event: EventModel,
    memory: DistilledModel,
    now: i64,
)
    ensures
        match store.with_replacement(event, memory, now) {
            Ok((after, _)) => sound(store, after),
            Err(_) => true,
        },
{
    lemma_sound_refl(store);
    let scope = event_scope(event);
    let at = event.observed_at_unix_ms;
    lemma_upserted(store, scope, memory.node_kind, memory.text, at, memory.cited_spans, now);
    lemma_with_cues(
        store,
        store.upserted(scope, memory.node_kind, memory.text, at, memory.cited_spans, now),
        event,
        now,
    );
}

pub proof fn lemma_taken_back(
    store: StoreModel,
    event: EventModel,
    older: Seq<char>,
    replacement: Option<NodeModel>,
)
    ensures
        match store.taken_back(event, older, replacement) {
            Ok((after, _)) => sound(store, after),
            Err(_) => true,
        },
{
    let at = event.observed_at_unix_ms;
    let scope = event_scope(event);
    closing_deletes_nothing(store, older, at, event.id);
    let (closed, changed) = store.invalidated(older, at, event.id);
    if changed && replacement is Some {
        let newer = replacement->0.id;
        lemma_linked(closed, scope, newer, older, MemoryEdgeKind::Supersedes, 100, at);
        if let Ok((middle, _)) = closed.linked(
            scope,
            newer,
            older,
            MemoryEdgeKind::Supersedes,
            100,
            at,
        ) {
            lemma_sound_trans(store, closed, middle);
            lemma_linked(middle, scope, newer, older, MemoryEdgeKind::Contradicts, 80, at);
            if let Ok((after, _)) = middle.linked(
                scope,
                newer,
                older,
                MemoryEdgeKind::Contradicts,
                80,
                at,
            ) {
                lemma_sound_trans(store, middle, after);
            }
        }
    }
}

pub proof fn lemma_all_taken_back(
    store: StoreModel,
    event: EventModel,
    targets: Seq<NodeModel>,
    replacement: Option<NodeModel>,
)
    ensures
        match store.all_taken_back(event, targets, replacement) {
            Ok((after, _)) => sound(store, after),
            Err(_) => true,
        },
    decreases targets.len(),
{
    if targets.len() == 0 {
        lemma_sound_refl(store);
    } else {
        lemma_all_taken_back(store, event, targets.drop_last(), replacement);
        if let Ok((front, _)) = store.all_taken_back(event, targets.drop_last(), replacement) {
            lemma_taken_back(front, event, targets.last().id, replacement);
            if let Ok((after, _)) = front.taken_back(event, targets.last().id, replacement) {
                lemma_sound_trans(store, front, after);
            }
        }
    }
}

proof fn lemma_updated(
    store: StoreModel,
    event: EventModel,
    memory: DistilledModel,
    target: NodeModel,
    now: i64,
)
    ensures
        match store.updated(event, memory, target, now) {
            Ok((after, _)) => sound(store, after),
            Err(_) => true,
        },
{
    let scope = event_scope(event);
    let at = event.observed_at_unix_ms;
    let family = crate::rows::family_key(target.canonical_key);
    lemma_upserted_in_family(
        store,
        scope,
        memory.node_kind,
        family,
        memory.text,
        at,
        memory.cited_spans,
        now,
    );
    let upsert = store.upserted_in_family(
        scope,
        memory.node_kind,
        family,
        memory.text,
        at,
        memory.cited_spans,
        now,
    );
    lemma_with_cues(store, upsert, event, now);
    if let Ok(done) = StoreModel::upsert_with_cues(upsert, event, now) {
        lemma_linked(
            done.store,
            scope,
            done.node.id,
            target.id,
            MemoryEdgeKind::Supersedes,
            100,
            at,
        );
        if let Ok((after, _)) = done.store.linked(
            scope,
            done.node.id,
            target.id,
            MemoryEdgeKind::Supersedes,
            100,
            at,
        ) {
            lemma_sound_trans(store, done.store, after);
        }
    }
}

proof fn lemma_added(store: StoreModel, event: EventModel, memory: DistilledModel, now: i64)
    ensures
        match store.added(event, memory, now) {
            Ok((after, _)) => sound(store, after),
            Err(_) => true,
        },
{
    let scope = event_scope(event);
    let at = event.observed_at_unix_ms;
    lemma_upserted(store, scope, memory.node_kind, memory.text, at, memory.cited_spans, now);
    if let Ok(upsert) = store.upserted(
        scope,
        memory.node_kind,
        memory.text,
        at,
        memory.cited_spans,
        now,
    ) {
        lemma_cued(
            upsert.store,
            event,
            upsert.node.id,
            crate::text::top_terms_of(upsert.node.text, 8),
            now,
        );
        if let Ok(after) = upsert.store.with_entity_cues(event, upsert.node, now) {
            lemma_sound_trans(store, upsert.store, after);
        }
    }
}

/// Applying a memory keeps the tables well formed, deletes nothing and reopens nothing.
pub proof fn applying_keeps_history(
    store: StoreModel,
    event: EventModel,
    memory: DistilledModel,
    neighbors: Seq<NodeModel>,
    now: i64,
)
    ensures
        match store.applied(event, memory, neighbors, now) {
            Ok((after, _)) => sound(store, after),
            Err(_) => true,
        },
{
    lemma_sound_refl(store);
    lemma_added(store, event, memory, now);
    if let Some(target) = crate::revise::target_of_update(memory, neighbors) {
        lemma_updated(store, event, memory, target, now);
    }
    lemma_with_replacement(store, event, memory, now);
    if let Ok((middle, replacement)) = store.with_replacement(event, memory, now) {
        let id = match replacement {
            Some(node) => Some(node.id),
            None => None,
        };
        let targets = crate::revise::targets_of_invalidation(memory, neighbors, id);
        lemma_all_taken_back(middle, event, targets, replacement);
        if let Ok((after, _)) = middle.all_taken_back(event, targets, replacement) {
            lemma_sound_trans(store, middle, after);
        }
    }
}

proof fn lemma_late_invalidated(
    store: StoreModel,
    event: EventModel,
    memory: DistilledModel,
    target: Seq<char>,
    now: i64,
)
    ensures
        match store.late_invalidated(event, memory, target, now) {
            Ok((after, _)) => sound(store, after),
            Err(_) => true,
        },
{
    lemma_with_replacement(store, event, memory, now);
    if let Ok((middle, replacement)) = store.with_replacement(event, memory, now) {
        lemma_taken_back(middle, event, target, replacement);
        if let Ok((after, _)) = middle.taken_back(event, target, replacement) {
            lemma_sound_trans(store, middle, after);
        }
    }
}

proof fn lemma_late_updated(
    store: StoreModel,
    event: EventModel,
    memory: DistilledModel,
    target: NodeModel,
    now: i64,
)
    ensures
        match store.late_updated(event, memory, target, now) {
            Ok((after, _)) => sound(store, after),
            Err(_) => true,
        },
{
    let scope = event_scope(event);
    let at = event.observed_at_unix_ms;
    closing_deletes_nothing(store, target.id, at, event.id);
    let closed = store.invalidated(target.id, at, event.id).0;
    lemma_sound_refl(closed);
    let family = crate::rows::family_key(target.canonical_key);
    lemma_upserted_in_family(
        closed,
        scope,
        memory.node_kind,
        family,
        memory.text,
        at,
        memory.cited_spans,
        now,
    );
    let upsert = closed.upserted_in_family(
        scope,
        memory.node_kind,
        family,
        memory.text,
        at,
        memory.cited_spans,
        now,
    );
    lemma_with_cues(closed, upsert, event, now);
    if let Ok((middle, successor, duplicate)) = closed.late_successor(event, memory, target, now) {
        lemma_sound_trans(store, closed, middle);
        let single = match duplicate {
            Some(id) => middle.invalidated(id, at, event.id).0,
            None => middle,
        };
        if let Some(id) = duplicate {
            closing_deletes_nothing(middle, id, at, event.id);
            lemma_sound_trans(store, middle, single);
        }
        lemma_linked(single, scope, successor.id, target.id, MemoryEdgeKind::Supersedes, 100, at);
        if let Ok((after, _)) = single.linked(
            scope,
            successor.id,
            target.id,
            MemoryEdgeKind::Supersedes,
            100,
            at,
        ) {
            lemma_sound_trans(store, single, after);
        }
    }
}

// ---------------------------------------------------------------------------
// Passes
// ---------------------------------------------------------------------------
pub proof fn lemma_applied_all(
    store: StoreModel,
    report: ProjectReport,
    event: EventModel,
    memories: Seq<DistilledModel>,
    neighbors: Seq<NodeModel>,
    now: i64,
)
    ensures
        match applied_all(store, report, event, memories, neighbors, now) {
            Ok(done) => sound(store, done.store),
            Err(_) => true,
        },
    decreases memories.len(),
{
    if memories.len() == 0 {
        lemma_sound_refl(store);
    } else {
        lemma_applied_all(store, report, event, memories.drop_last(), neighbors, now);
        if let Ok(front) = applied_all(
            store,
            report,
            event,
            memories.drop_last(),
            neighbors,
            now,
        ) {
            applying_keeps_history(front.store, event, memories.last(), neighbors, now);
            if let Ok((after, _)) = front.store.applied(event, memories.last(), neighbors, now) {
                lemma_sound_trans(store, front.store, after);
            }
        }
    }
}

proof fn lemma_chain_linked(store: StoreModel, event: EventModel, nodes: Seq<NodeModel>)
    ensures
        match store.chain_linked(event, nodes) {
            Ok((after, _)) => sound(store, after),
            Err(_) => true,
        },
    decreases nodes.len(),
{
    if nodes.len() < 2 {
        lemma_sound_refl(store);
    } else {
        lemma_chain_linked(store, event, nodes.drop_last());
        if let Ok((front, _)) = store.chain_linked(event, nodes.drop_last()) {
            let scope = event_scope(event);
            let at = event.observed_at_unix_ms;
            let from = nodes[nodes.len() - 2];
            let to = nodes[nodes.len() - 1];
            lemma_linked(front, scope, to.id, from.id, MemoryEdgeKind::DerivedFrom, 80, at);
            if let Ok((middle, _)) = front.linked(
                scope,
                to.id,
                from.id,
                MemoryEdgeKind::DerivedFrom,
                80,
                at,
            ) {
                lemma_sound_trans(store, front, middle);
                lemma_linked(middle, scope, to.id, from.id, MemoryEdgeKind::ObservedIn, 90, at);
                if let Ok((after, _)) = middle.linked(
                    scope,
                    to.id,
                    from.id,
                    MemoryEdgeKind::ObservedIn,
                    90,
                    at,
                ) {
                    lemma_sound_trans(store, middle, after);
                }
            }
        }
    }
}

pub proof fn lemma_marked(store: StoreModel, event_id: i64, at: i64)
    ensures
        sound(store, store.marked(event_id, at)),
{
    let after = store.marked(event_id, at);
    lemma_sound_refl(store);
    if wf(store) {
        assert forall|i: int| 0 <= i < store.ledger.len() implies event_kept(
            #[trigger] store.ledger[i],
            #[trigger] after.ledger[i],
        ) by {}
        assert forall|i: int| 0 <= i < after.ledger.len() implies (#[trigger] after.ledger[i]).id
            is Some && after.ledger[i].id->0 <= after.last_event_id by {
            assert(store.ledger[i].id is Some);
        }
        assert forall|i: int, j: int| 0 <= i < j < after.ledger.len() implies {
            &&& (#[trigger] after.ledger[i]).id->0 < (#[trigger] after.ledger[j]).id->0
            &&& after.ledger[i].span() != after.ledger[j].span()
        } by {
            assert(store.ledger[i].id->0 < store.ledger[j].id->0);
            assert(store.ledger[i].span() != store.ledger[j].span());
        }
    }
}

proof fn lemma_projected(
    store: StoreModel,
    report: ProjectReport,
    event: EventModel,
    event_id: i64,
    memories: Seq<DistilledModel>,
    neighbors: Seq<NodeModel>,
    now: i64,
)
    ensures
        match projected(store, report, event, event_id, memories, neighbors, now) {
            Ok(done) => sound(store, done.store),
            Err(_) => true,
        },
{
    reveal(projected);
    lemma_applied_all(store, report, event, memories, neighbors, now);
    if let Ok(done) = applied_all(store, report, event, memories, neighbors, now) {
        lemma_chain_linked(done.store, event, done.nodes);
        if let Ok((linked, _)) = done.store.chain_linked(event, done.nodes) {
            lemma_sound_trans(store, done.store, linked);
            lemma_marked(linked, event_id, now);
            lemma_sound_trans(store, linked, linked.marked(event_id, now));
        }
    }
}

proof fn lemma_after_memories(
    run: LateRun,
    event: EventModel,
    node: NodeModel,
    neighbors: Seq<NodeModel>,
    memories: Seq<DistilledModel>,
    now: i64,
)
    ensures
        sound(run.store, run.after_memories(event, node, neighbors, memories, now).store),
    decreases memories.len(),
{
    if memories.len() == 0 {
        lemma_sound_refl(run.store);
    } else {
        lemma_after_memories(run, event, node, neighbors, memories.drop_last(), now);
        let front = run.after_memories(event, node, neighbors, memories.drop_last(), now);
        let memory = memories.last();
        lemma_sound_refl(front.store);
        lemma_late_invalidated(front.store, event, memory, node.id, now);
        lemma_late_updated(front.store, event, memory, node, now);
        let after = front.after_memory(event, node, neighbors, memory, now);
        assert(sound(front.store, after.store));
        lemma_sound_trans(run.store, front.store, after.store);
    }
}

proof fn lemma_after_event(
    run: LateRun,
    event: EventModel,
    node: NodeModel,
    reply: Reply,
    now: i64,
)
    ensures
        sound(run.store, run.after_event(event, node, reply, now).store),
{
    reveal(LateRun::after_event);
    lemma_sound_refl(run.store);
    let neighbors = run.store.recall(
        event_scope(event),
        terms_of(event.text),
        open_before(run.store, event),
        24,
    );
    if !run.over() && some_row(neighbors, with_id(node.id)) {
        if let Ok(outcome) = reply {
            if let Ok(checked) = crate::revise::checked_outcome(
                "late distilled memory"@,
                event,
                neighbors,
                outcome,
            ) {
                let heard = LateRun {
                    asked: run.asked.push(crate::passes::Call { event, neighbors, reply }),
                    ..run
                };
                let counted = LateRun {
                    report: heard.report.plus_metrics(checked.metrics).plus_outputs(
                        checked.memories.len(),
                    ),
                    ..heard
                };
                lemma_after_memories(counted, event, node, neighbors, checked.memories, now);
            }
        }
    }
}

proof fn lemma_after_events(
    run: LateRun,
    events: Seq<EventModel>,
    node: NodeModel,
    replies: Seq<Reply>,
    now: i64,
)
    ensures
        sound(run.store, run.after_events(events, node, replies, now).store),
    decreases events.len(),
{
    if events.len() == 0 {
        lemma_sound_refl(run.store);
    } else {
        lemma_after_events(run, events.drop_last(), node, replies.drop_last(), now);
        let front = run.after_events(events.drop_last(), node, replies.drop_last(), now);
        lemma_after_event(front, events.last(), node, replies.last(), now);
        lemma_sound_trans(
            run.store,
            front.store,
            front.after_event(events.last(), node, replies.last(), now).store,
        );
    }
}

proof fn lemma_late_nodes(
    store: StoreModel,
    event: EventModel,
    nodes: Seq<NodeModel>,
    replies: Seq<Seq<Reply>>,
    now: i64,
)
    ensures
        sound(store, late_nodes(store, event, nodes, replies, now).store),
    decreases nodes.len(),
{
    if nodes.len() == 0 {
        lemma_sound_refl(store);
    } else {
        lemma_late_nodes(store, event, nodes.drop_last(), replies.drop_last(), now);
        let front = late_nodes(store, event, nodes.drop_last(), replies.drop_last(), now);
        if front.error is None {
            reveal(late_node);
            lemma_sound_refl(front.store);
            lemma_after_events(
                late_start(front.store),
                crate::passes::later_events(front.store, event, nodes.last()),
                nodes.last(),
                replies.last(),
                now,
            );
            let last = late_node(front.store, event, nodes.last(), replies.last(), now);
            lemma_sound_trans(store, front.store, last.store);
        }
    }
}

proof fn lemma_event_run(
    store: StoreModel,
    event: EventModel,
    replies: EventReplies,
    late: bool,
    now: i64,
)
    ensures
        sound(store, event_run(store, event, replies, late, now).store),
{
    reveal(event_run);
    lemma_sound_refl(store);
    if event.id is Some && crate::passes::waits(store, event.id->0) {
        let neighbors = event_neighbors(store, event);
        let seen = crate::passes::event_seen(event);
        if let Ok(outcome) = replies.first {
            if let Ok(checked) = crate::revise::checked_outcome(
                "distilled memory"@,
                event,
                neighbors,
                outcome,
            ) {
                let report = seen.plus_metrics(checked.metrics).plus_outputs(
                    checked.memories.len(),
                );
                lemma_projected(
                    store,
                    report,
                    event,
                    event.id->0,
                    checked.memories,
                    neighbors,
                    now,
                );
                if let Ok(done) = projected(
                    store,
                    report,
                    event,
                    event.id->0,
                    checked.memories,
                    neighbors,
                    now,
                ) {
                    lemma_late_nodes(done.store, event, done.nodes, replies.late, now);
                    lemma_sound_trans(
                        store,
                        done.store,
                        late_nodes(done.store, event, done.nodes, replies.late, now).store,
                    );
                }
            }
        }
    }
}

/// Projecting events keeps the tables well formed, the ledger and the audit log as they are
/// but for the marks, every node with its identity and beginning, every edge and every
/// citation; windows only ever end earlier. This holds whatever the distiller replies, and
/// where an error ends the pass.
pub proof fn projecting_keeps_history(
    store: StoreModel,
    events: Seq<EventModel>,
    replies: Seq<EventReplies>,
    late: bool,
    now: i64,
)
    requires
        wf(store),
    ensures
        wf(events_run(store, events, replies, late, now).store),
        evolves(store, events_run(store, events, replies, late, now).store),
{
    lemma_events_run(store, events, replies, late, now);
}

proof fn lemma_events_run(
    store: StoreModel,
    events: Seq<EventModel>,
    replies: Seq<EventReplies>,
    late: bool,
    now: i64,
)
    ensures
        sound(store, events_run(store, events, replies, late, now).store),
    decreases events.len(),
{
    if events.len() == 0 {
        lemma_sound_refl(store);
    } else {
        lemma_events_run(store, events.drop_last(), replies.drop_last(), late, now);
        let front = events_run(store, events.drop_last(), replies.drop_last(), late, now);
        if front.error is None {
            lemma_event_run(front.store, events.last(), replies.last(), late, now);
            lemma_sound_trans(
                store,
                front.store,
                event_run(front.store, events.last(), replies.last(), late, now).store,
            );
        }
    }
}

/// A projection pass keeps history, however it comes out.
pub proof fn passes_keep_history<D: Distiller>(
    distiller: D,
    before: StoreModel,
    after: StoreModel,
    limit: usize,
    now: i64,
    r: MemoryResult<ProjectReport>,
)
    requires
        wf(before),
        pass_happened(distiller, before, after, limit, now, r),
    ensures
        wf(after),
        evolves(before, after),
{
    if crate::passes::pass_problem(limit) is Some {
        lemma_sound_refl(before);
    } else {
        let events = pass_events(before, limit);
        let late = distiller.replays_late();
        let replies = choose|replies: Seq<EventReplies>|
            {
                let run = #[trigger] events_run(before, events, replies, late, now);
                &&& after == run.store
                &&& crate::passes::run_result(r, run)
                &&& allowed(distiller, run.asked)
                &&& replies.len() == events.len()
            };
        lemma_events_run(before, events, replies, late, now);
    }
}

/// Resetting the projection keeps the ledger but for its marks, and the audit log, and keeps
/// the tables well formed.
pub proof fn resetting_keeps_ledger_and_audit(store: StoreModel)
    requires
        wf(store),
    ensures
        wf(store.reset()),
        ledger_kept(store.ledger, store.reset().ledger),
        store.reset().audit == store.audit,
        store.reset().last_event_id == store.last_event_id,
{
    let after = store.reset();
    assert forall|i: int, j: int| 0 <= i < j < after.ledger.len() implies {
        &&& (#[trigger] after.ledger[i]).id->0 < (#[trigger] after.ledger[j]).id->0
        &&& after.ledger[i].span() != after.ledger[j].span()
    } by {
        assert(store.ledger[i].id->0 < store.ledger[j].id->0);
        assert(store.ledger[i].span() != store.ledger[j].span());
    }
    assert forall|i: int| 0 <= i < after.ledger.len() implies (#[trigger] after.ledger[i]).id
        is Some && after.ledger[i].id->0 <= after.last_event_id by {
        assert(store.ledger[i].id is Some);
    }
}

/// What a reset leaves depends on the ledger alone: two stores whose ledgers differ at most in
/// their marks come to the same ledger, and to no projection at all.
pub proof fn resetting_forgets_the_projection(a: StoreModel, b: StoreModel)
    requires
        ledger_kept(a.ledger, b.ledger),
    ensures
        a.reset().ledger == b.reset().ledger,
        a.reset().nodes == b.reset().nodes,
        a.reset().edges == b.reset().edges,
        a.reset().spans == b.reset().spans,
        a.reset().cues == b.reset().cues,
        a.reset().nodes.len() == 0,
{
    assert forall|i: int| 0 <= i < a.ledger.len() implies #[trigger] a.reset().ledger[i]
        == b.reset().ledger[i] by {
        assert(event_kept(a.ledger[i], b.ledger[i]));
    }
    assert(a.reset().ledger =~= b.reset().ledger);
}

proof fn lemma_passes_chain<D: Distiller>(
    distiller: D,
    start: StoreModel,
    batch_size: usize,
    max_events: usize,
    now: i64,
    steps: Seq<RebuildStep>,
)
    requires
        wf(start),
        passes_chain(distiller, start, batch_size, max_events, now, steps),
    ensures
        wf(end_store(start, steps)),
        evolves(start, end_store(start, steps)),
    decreases steps.len(),
{
    if steps.len() == 0 {
        lemma_sound_refl(start);
    } else {
        let front = steps.drop_last();
        let last = steps.last();
        lemma_passes_chain(distiller, start, batch_size, max_events, now, front);
        passes_keep_history(
            distiller,
            last.before,
            last.after,
            last.limit,
            now,
            Ok::<ProjectReport, MemoryError>(last.report),
        );
        lemma_sound_trans(start, last.before, last.after);
    }
}

/// A rebuild replays the ledger and loses nothing of it: every event stays but for its mark,
/// and the audit log is untouched, whether the rebuild comes to its end or fails on the way.
pub proof fn rebuilding_keeps_ledger_and_audit<D: Distiller>(
    distiller: D,
    before: StoreModel,
    after: StoreModel,
    batch_size: usize,
    max_events: Option<usize>,
    now: i64,
    r: MemoryResult<ProjectionRebuildReport>,
    steps: Seq<RebuildStep>,
)
    requires
        wf(before),
        rebuild_happened(distiller, before, after, batch_size, max_events, now, r, steps),
    ensures
        wf(after),
        ledger_kept(before.ledger, after.ledger),
        after.audit == before.audit,
{
    let start = before.reset();
    let bound = crate::engine::event_bound(max_events);
    resetting_keeps_ledger_and_audit(before);
    lemma_passes_chain(distiller, start, batch_size, bound, now, steps);
    let end = end_store(start, steps);
    if let Err(error) = r {
        passes_keep_history(
            distiller,
            end,
            after,
            crate::engine::next_limit(batch_size, bound, steps),
            now,
            Err::<ProjectReport, MemoryError>(error),
        );
        lemma_sound_trans(start, end, after);
    }
    assert forall|i: int| 0 <= i < before.ledger.len() implies event_kept(
        #[trigger] before.ledger[i],
        #[trigger] after.ledger[i],
    ) by {
        assert(event_kept(before.ledger[i], start.ledger[i]));
        assert(event_kept(start.ledger[i], after.ledger[i]));
    }
}

// ---------------------------------------------------------------------------
// Versions of one memory
// ---------------------------------------------------------------------------
/// At most one of the nodes that meet a condition holds at any time.
pub open spec fn one_at_a_time(nodes: Seq<NodeModel>, member: spec_fn(NodeModel) -> bool) -> bool {
    forall|i: int, j: int, t: i64|
        0 <= i < nodes.len() && 0 <= j < nodes.len() && i != j && member(nodes[i]) && member(
            nodes[j],
        ) ==> !(#[trigger] nodes[i].active_at(t) && #[trigger] nodes[j].active_at(t))
}

pub proof fn lemma_next_version(versions: Seq<NodeModel>, at: i64)
    ensures
        match next_version(versions, at) {
            Some(next) => next.valid_from_unix_ms > at && forall|i: int|
                0 <= i < versions.len() && (#[trigger] versions[i]).valid_from_unix_ms > at
                    ==> next.valid_from_unix_ms <= versions[i].valid_from_unix_ms,
            None => forall|i: int|
                0 <= i < versions.len() ==> (#[trigger] versions[i]).valid_from_unix_ms <= at,
        },
    decreases versions.len(),
{
    if versions.len() > 0 {
        let front = versions.drop_last();
        lemma_next_version(front, at);
        assert forall|i: int| 0 <= i < versions.len() - 1 implies #[trigger] versions[i]
            == front[i] by {}
    }
}

/// A version that begins leaves at most one version of its memory holding at any time: it ends
/// those before it and itself ends where the next begins.
pub proof fn beginning_keeps_versions_apart(
    store: StoreModel,
    scope: ScopeKey,
    kind: MemoryNodeKind,
    family: Seq<char>,
    key: Seq<char>,
    text: Seq<char>,
    valid_from: i64,
    spans: Seq<SpanModel>,
    now: i64,
)
    requires
        one_at_a_time(store.nodes, in_family(scope, kind, family)),
    ensures
        match store.begun(scope, kind, family, key, text, valid_from, spans, now) {
            Ok(upsert) => one_at_a_time(upsert.store.nodes, in_family(scope, kind, family)),
            Err(_) => true,
        },
{
    let member = in_family(scope, kind, family);
    if let Ok(upsert) = store.begun(scope, kind, family, key, text, valid_from, spans, now) {
        let versions = store.family(scope, kind, family);
        lemma_next_version(versions, valid_from);
        let after = upsert.store.nodes;
        let last = store.nodes.len() as int;
        assert(after[last] == upsert.node);
        assert forall|i: int| 0 <= i < last && member(after[i]) implies member(store.nodes[i]) by {}
        assert forall|i: int, t: i64| 0 <= i < last && member(after[i]) implies !(
        #[trigger] after[i].active_at(t) && upsert.node.active_at(t)) by {
            let old = store.nodes[i];
            assert(member(old));
            if old.valid_from_unix_ms > valid_from {
                lemma_filter_contains(store.nodes, member, old);
                assert(store.nodes.contains(old));
                lemma_ranked_contains::<MemoryNode, ByVersion>(store.nodes.filter(member), old);
                let k = choose|k: int| 0 <= k < versions.len() && versions[k] == old;
                assert(versions[k].valid_from_unix_ms > valid_from);
            }
        }
        assert forall|i: int, j: int, t: i64|
            0 <= i < after.len() && 0 <= j < after.len() && i != j && member(after[i]) && member(
                after[j],
            ) implies !(#[trigger] after[i].active_at(t) && #[trigger] after[j].active_at(t)) by {
            if i < last && j < last {
                assert(member(store.nodes[i]) && member(store.nodes[j]));
                assert(!(store.nodes[i].active_at(t) && store.nodes[j].active_at(t)));
                if after[i].active_at(t) {
                    assert(store.nodes[i].active_at(t));
                }
                if after[j].active_at(t) {
                    assert(store.nodes[j].active_at(t));
                }
            } else if i == last {
                assert(!(after[j].active_at(t) && upsert.node.active_at(t)));
            } else {
                assert(!(after[i].active_at(t) && upsert.node.active_at(t)));
            }
        }
    }
}

proof fn lemma_restating_keeps_apart(
    store: StoreModel,
    node: NodeModel,
    text: Seq<char>,
    spans: Seq<SpanModel>,
    now: i64,
    scope: ScopeKey,
    kind: MemoryNodeKind,
    family: Seq<char>,
)
    requires
        wf(store),
        store.nodes.contains(node),
        one_at_a_time(store.nodes, in_family(scope, kind, family)),
    ensures
        one_at_a_time(
            store.restated(node, text, spans, now).store.nodes,
            in_family(scope, kind, family),
        ),
{
    lemma_first_index(store.nodes, with_id(node.id));
    let member = in_family(scope, kind, family);
    let after = store.restated(node, text, spans, now).store.nodes;
    let k = choose|k: int| 0 <= k < store.nodes.len() && store.nodes[k] == node;
    assert((with_id(node.id))(store.nodes[k]));
    let i = first_index(store.nodes, with_id(node.id))->0;
    assert(i == k) by {
        if i < k {
            assert(store.nodes[i].id != store.nodes[k].id);
        }
    }
    assert forall|a: int, b: int, t: i64|
        0 <= a < after.len() && 0 <= b < after.len() && a != b && member(after[a]) && member(
            after[b],
        ) implies !(#[trigger] after[a].active_at(t) && #[trigger] after[b].active_at(t)) by {
        assert(member(store.nodes[a]) && member(store.nodes[b]));
        assert(after[a].active_at(t) == store.nodes[a].active_at(t));
        assert(after[b].active_at(t) == store.nodes[b].active_at(t));
        assert(!(store.nodes[a].active_at(t) && store.nodes[b].active_at(t)));
    }
}

/// Stating a memory never leaves two versions of it that hold at one time.
pub proof fn versions_never_overlap(
    store: StoreModel,
    scope: ScopeKey,
    kind: MemoryNodeKind,
    text: Seq<char>,
    valid_from: i64,
    spans: Seq<SpanModel>,
    now: i64,
)
    requires
        wf(store),
        one_at_a_time(
            store.nodes,
            in_family(scope, kind, crate::projection::base_key(kind, text, spans)),
        ),
    ensures
        match store.upserted(scope, kind, text, valid_from, spans, now) {
            Ok(upsert) => one_at_a_time(
                upsert.store.nodes,
                in_family(scope, kind, crate::projection::base_key(kind, text, spans)),
            ),
            Err(_) => true,
        },
{
    reveal(StoreModel::upserted);
    let family = crate::projection::base_key(kind, text, spans);
    let versions = store.family(scope, kind, family);
    let test = crate::projection::beginning_at(valid_from);
    lemma_first_index(versions, test);
    match first_index(versions, test) {
        Some(i) => {
            lemma_family_member(store, scope, kind, family, i);
            lemma_restating_keeps_apart(
                store,
                versions[i],
                text,
                spans,
                now,
                scope,
                kind,
                family,
            );
        },
        None => {
            let key = if kind == MemoryNodeKind::Episode {
                family
            } else {
                crate::projection::revision(family, valid_from)
            };
            beginning_keeps_versions_apart(
                store,
                scope,
                kind,
                family,
                key,
                text,
                valid_from,
                spans,
                now,
            );
        },
    }
}

/// Bringing a memory up to date never leaves two versions of its family that hold at one time.
pub proof fn updated_versions_never_overlap(
    store: StoreModel,
    scope: ScopeKey,
    kind: MemoryNodeKind,
    family: Seq<char>,
    text: Seq<char>,
    valid_from: i64,
    spans: Seq<SpanModel>,
    now: i64,
)
    requires
        wf(store),
        one_at_a_time(store.nodes, in_family(scope, kind, family)),
    ensures
        match store.upserted_in_family(scope, kind, family, text, valid_from, spans, now) {
            Ok(upsert) => one_at_a_time(upsert.store.nodes, in_family(scope, kind, family)),
            Err(_) => true,
        },
{
    reveal(StoreModel::upserted_in_family);
    let versions = store.family(scope, kind, family);
    let test = crate::projection::saying_at(valid_from, text);
    lemma_first_index(versions, test);
    match first_index(versions, test) {
        Some(i) => {
            lemma_family_member(store, scope, kind, family, i);
            lemma_restating_keeps_apart(
                store,
                versions[i],
                text,
                spans,
                now,
                scope,
                kind,
                family,
            );
        },
        None => {
            beginning_keeps_versions_apart(
                store,
                scope,
                kind,
                family,
                store.family_revision(scope, kind, family, valid_from),
                text,
                valid_from,
                spans,
                now,
            );
        },
    }
}

// ---------------------------------------------------------------------------
// Pending events
// ---------------------------------------------------------------------------
/// An event that is not waiting is skipped, and the distiller is not asked.
pub proof fn projected_events_are_skipped(
    store: StoreModel,
    event: EventModel,
    replies: EventReplies,
    late: bool,
    now: i64,
)
    requires
        event.id is None || !crate::passes::waits(store, event.id->0),
    ensures
        ({
            let run = event_run(store, event, replies, late, now);
            &&& run.store == store
            &&& run.error is None
            &&& run.asked.len() == 0
            &&& run.report.events_skipped == 1
            &&& run.report.events_projected == 0
        }),
{
    reveal(event_run);
}

/// A rejected distillation leaves the tables alone: the event goes on waiting.
pub proof fn rejected_events_stay_pending(
    store: StoreModel,
    event: EventModel,
    replies: EventReplies,
    late: bool,
    now: i64,
)
    requires
        event.id is Some,
        crate::passes::waits(store, event.id->0),
        replies.first matches Ok(outcome) && outcome.rejected,
    ensures
        ({
            let run = event_run(store, event, replies, late, now);
            &&& run.store == store
            &&& run.error is None
            &&& run.report.events_skipped == 1
            &&& run.report.events_projected == 0
        }),
{
    reveal(event_run);
}

/// An error of the distiller, or a memory that is not valid, leaves the tables alone: nothing
/// of the event is projected, and it goes on waiting.
pub proof fn failed_events_leave_no_trace(
    store: StoreModel,
    event: EventModel,
    replies: EventReplies,
    late: bool,
    now: i64,
)
    requires
        event.id is Some,
        crate::passes::waits(store, event.id->0),
        match replies.first {
            Err(_) => true,
            Ok(outcome) => crate::revise::checked_outcome(
                "distilled memory"@,
                event,
                event_neighbors(store, event),
                outcome,
            ) is Err,
        },
    ensures
        event_run(store, event, replies, late, now).store == store,
        event_run(store, event, replies, late, now).error is Some,
{
    reveal(event_run);
}

/// A marked event waits no longer.
pub proof fn marked_events_do_not_wait(store: StoreModel, event_id: i64, at: i64)
    ensures
        !crate::passes::waits(store.marked(event_id, at), event_id),
{
    let after = store.marked(event_id, at);
    lemma_first_index(after.ledger, crate::store::with_number(event_id));
}

} // verus!
