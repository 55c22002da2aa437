//! What a read sees of what was written.
//!
//! A read stays in its scope, sees nothing that had not begun at its time, and sees everything
//! that holds there then. A memory that was written is among it, with what it was observed in.
use vstd::prelude::*;

use crate::graph::{query_scope, with_seeds};
use crate::history::{
    closing_deletes_nothing, cues_wf, lemma_all_taken_back, lemma_applied_all, lemma_cued,
    lemma_taken_back, lemma_upserted, node_kept, nodes_wf, wf,
};
use crate::ledger::EventModel;
use crate::model::{
    BeliefRevisionOp, DistilledModel, MemoryEdgeKind, MemoryMode, MemoryNodeKind, QueryModel,
    SpanModel,
};
use crate::order::{lemma_ranked_contains, lemma_ranked_keeps_rows, ranked};
use crate::passes::{applied_all, projected, ProjectReport};
use crate::projection::{attached, base_key, beginning_at, in_family, is_edge, ByVersion};
use crate::route::support_kinds;
use crate::rows::{CueModel, MemoryNode, NodeModel, NodeSpan, NodeSpanModel, ScopeKey};
use crate::store::{
    at_span, citation_by, distinct_nodes, empty_store, event_scope, hit_nodes, holding_at,
    is_citation, seen_by, seen_in_scope, with_id, ByRecall, BySeq, Hit, HitModel, StoreModel,
};
use crate::table::{
    first_index, lemma_filter_contains, lemma_first_index, lemma_push_contains, some_row,
};
use crate::text::{at_most, terms_of, top_terms_of};

verus! {

/// A store without rows is well formed.
pub proof fn empty_stores_are_well_formed()
    ensures
        wf(empty_store()),
{
}

// ---------------------------------------------------------------------------
// What recall finds
// ---------------------------------------------------------------------------
/// A node that a read may see: it stands in the store and in the scope, and meets the condition.
pub open spec fn may_be_seen(
    store: StoreModel,
    scope: ScopeKey,
    keep: spec_fn(NodeModel) -> bool,
    node: NodeModel,
) -> bool {
    store.nodes.contains(node) && node.in_scope(scope) && keep(node)
}

proof fn lemma_cue_hits(
    store: StoreModel,
    cues: Seq<CueModel>,
    scope: ScopeKey,
    term: Seq<char>,
    keep: spec_fn(NodeModel) -> bool,
    hit: HitModel,
)
    requires
        cues_wf(store.nodes, cues),
        store.cue_hits(cues, scope, term, keep).contains(hit),
    ensures
        may_be_seen(store, scope, keep, hit.node),
    decreases cues.len(),
{
    if cues.len() > 0 {
        let front = cues.drop_last();
        let cue = cues.last();
        let found = store.cue_hits(front, scope, term, keep);
        assert(cues_wf(store.nodes, front)) by {
            assert forall|c: int, n: int|
                0 <= c < front.len() && 0 <= n < store.nodes.len() && (
                #[trigger] front[c]).node_id == (#[trigger] store.nodes[n]).id implies
                front[c].tenant_id == store.nodes[n].tenant_id && front[c].project_id
                == store.nodes[n].project_id && front[c].environment_id
                == store.nodes[n].environment_id by {
                assert(front[c] == cues[c]);
            }
        }
        lemma_first_index(store.nodes, with_id(cue.node_id));
        if found.contains(hit) {
            lemma_cue_hits(store, front, scope, term, keep, hit);
        } else {
            let node = store.node(cue.node_id)->0;
            lemma_push_contains(found, store.hit(node, cue.rank), hit);
            assert(cues[cues.len() - 1].node_id == node.id);
        }
    }
}

proof fn lemma_term_recall(
    store: StoreModel,
    scope: ScopeKey,
    term: Seq<char>,
    keep: spec_fn(NodeModel) -> bool,
    limit: int,
    node: NodeModel,
)
    requires
        wf(store),
        0 <= limit,
        store.term_recall(scope, term, keep, limit).contains(node),
    ensures
        may_be_seen(store, scope, keep, node),
{
    let hits = store.cue_hits(store.cues, scope, term, keep);
    let sorted = ranked::<Hit, ByRecall>(hits);
    let first = at_most(sorted, limit);
    let k = choose|k: int| 0 <= k < first.len() && hit_nodes(first)[k] == node;
    assert(first[k] == sorted[k]);
    assert(sorted.contains(sorted[k]));
    lemma_ranked_contains::<Hit, ByRecall>(hits, sorted[k]);
    lemma_cue_hits(store, store.cues, scope, term, keep, sorted[k]);
}

proof fn lemma_terms_recall(
    store: StoreModel,
    scope: ScopeKey,
    query_terms: Seq<Seq<char>>,
    keep: spec_fn(NodeModel) -> bool,
    limit: int,
    node: NodeModel,
)
    requires
        wf(store),
        0 <= limit,
        store.terms_recall(scope, query_terms, keep, limit).contains(node),
    ensures
        may_be_seen(store, scope, keep, node),
    decreases query_terms.len(),
{
    if query_terms.len() > 0 {
        let front = store.terms_recall(scope, query_terms.drop_last(), keep, limit);
        let last = store.term_recall(scope, query_terms.last(), keep, limit);
        let k = choose|k: int| 0 <= k < (front + last).len() && (front + last)[k] == node;
        if k < front.len() {
            assert(front[k] == node);
            lemma_terms_recall(store, scope, query_terms.drop_last(), keep, limit, node);
        } else {
            assert(last[k - front.len()] == node);
            lemma_term_recall(store, scope, query_terms.last(), keep, limit, node);
        }
    }
}

proof fn lemma_distinct(nodes: Seq<NodeModel>)
    ensures
        forall|node: NodeModel| #[trigger]
            distinct_nodes(nodes).contains(node) ==> nodes.contains(node),
        forall|i: int, j: int|
            0 <= i < j < distinct_nodes(nodes).len() ==> (#[trigger] distinct_nodes(nodes)[i]).id
                != (#[trigger] distinct_nodes(nodes)[j]).id,
        distinct_nodes(nodes).len() <= nodes.len(),
    decreases nodes.len(),
{
    if nodes.len() > 0 {
        let front = distinct_nodes(nodes.drop_last());
        lemma_distinct(nodes.drop_last());
        let all = distinct_nodes(nodes);
        assert forall|node: NodeModel| #[trigger] all.contains(node) implies nodes.contains(
            node,
        ) by {
            if front.contains(node) {
                let k = choose|k: int|
                    0 <= k < nodes.drop_last().len() && nodes.drop_last()[k] == node;
                assert(nodes[k] == node);
            } else {
                lemma_push_contains(front, nodes.last(), node);
                assert(nodes[nodes.len() - 1] == node);
            }
        }
        assert forall|i: int, j: int| 0 <= i < j < all.len() implies (#[trigger] all[i]).id != (
        #[trigger] all[j]).id by {
            if j == front.len() {
                assert(!(with_id(nodes.last().id))(front[i]));
            }
        }
    }
}

/// What is found under the terms of a query stands in its scope and meets its condition; no
/// node is found twice, and no more are found than asked for.
pub proof fn recall_is_scoped_and_bounded(
    store: StoreModel,
    scope: ScopeKey,
    query_terms: Seq<Seq<char>>,
    keep: spec_fn(NodeModel) -> bool,
    limit: int,
)
    requires
        wf(store),
        0 <= limit,
    ensures
        store.recall(scope, query_terms, keep, limit).len() <= limit,
        forall|i: int|
            0 <= i < store.recall(scope, query_terms, keep, limit).len() ==> may_be_seen(
                store,
                scope,
                keep,
                #[trigger] store.recall(scope, query_terms, keep, limit)[i],
            ),
        forall|i: int, j: int|
            0 <= i < j < store.recall(scope, query_terms, keep, limit).len() ==> (
            #[trigger] store.recall(scope, query_terms, keep, limit)[i]).id != (
            #[trigger] store.recall(scope, query_terms, keep, limit)[j]).id,
{
    let found = store.terms_recall(scope, query_terms, keep, limit);
    let single = distinct_nodes(found);
    let out = store.recall(scope, query_terms, keep, limit);
    lemma_distinct(found);
    assert forall|i: int| 0 <= i < out.len() implies may_be_seen(
        store,
        scope,
        keep,
        #[trigger] out[i],
    ) by {
        assert(single.contains(single[i]));
        lemma_terms_recall(store, scope, query_terms, keep, limit, out[i]);
    }
}

// ---------------------------------------------------------------------------
// What a plan sees
// ---------------------------------------------------------------------------
proof fn lemma_recent(
    store: StoreModel,
    scope: ScopeKey,
    as_of: Option<i64>,
    kinds: Seq<MemoryNodeKind>,
    limit: int,
    node: NodeModel,
)
    requires
        0 <= limit,
    ensures
        store.recent(scope, as_of, kinds, limit).contains(node) ==> may_be_seen(
            store,
            scope,
            seen_by(as_of, kinds),
            node,
        ),
        store.nodes.len() <= limit && may_be_seen(store, scope, seen_by(as_of, kinds), node)
            ==> store.recent(scope, as_of, kinds, limit).contains(node),
{
    let test = seen_in_scope(scope, as_of, kinds);
    let seen = store.nodes.filter(test);
    let hits = store.plain_hits(seen);
    let sorted = ranked::<Hit, ByRecall>(hits);
    let first = at_most(sorted, limit);
    let out = store.recent(scope, as_of, kinds, limit);
    lemma_filter_contains(store.nodes, test, node);
    if out.contains(node) {
        let k = choose|k: int| 0 <= k < out.len() && out[k] == node;
        assert(first[k] == sorted[k]);
        assert(sorted.contains(sorted[k]));
        lemma_ranked_contains::<Hit, ByRecall>(hits, sorted[k]);
        let j = choose|j: int| 0 <= j < hits.len() && hits[j] == sorted[k];
        assert(seen[j] == node);
        assert(seen.contains(node));
    }
    if store.nodes.len() <= limit && may_be_seen(store, scope, seen_by(as_of, kinds), node) {
        crate::upkeep::lemma_filter_len(store.nodes, test);
        lemma_ranked_keeps_rows::<Hit, ByRecall>(hits);
        assert(seen.contains(node));
        let j = choose|j: int| 0 <= j < seen.len() && seen[j] == node;
        assert(hits.contains(hits[j]));
        lemma_ranked_contains::<Hit, ByRecall>(hits, hits[j]);
        let k = choose|k: int| 0 <= k < sorted.len() && sorted[k] == hits[j];
        assert(first =~= sorted);
        assert(out[k] == node);
    }
}

proof fn lemma_with_seeds(nodes: Seq<NodeModel>, seeds: Seq<NodeModel>, node: NodeModel)
    ensures
        with_seeds(nodes, seeds).contains(node) ==> nodes.contains(node) || seeds.contains(node),
        nodes.contains(node) ==> with_seeds(nodes, seeds).contains(node),
    decreases seeds.len(),
{
    if seeds.len() > 0 {
        let front = with_seeds(nodes, seeds.drop_last());
        lemma_with_seeds(nodes, seeds.drop_last(), node);
        lemma_push_contains(front, seeds.last(), node);
        if seeds.drop_last().contains(node) {
            let k = choose|k: int| 0 <= k < seeds.drop_last().len() && seeds.drop_last()[k] == node;
            assert(seeds[k] == node);
        }
        if seeds.last() == node {
            assert(seeds[seeds.len() - 1] == node);
        }
    }
}

/// A read sees only nodes of its scope that had begun at its time and are of a kind that its
/// modes load.
pub proof fn reads_stay_in_their_scope(
    store: StoreModel,
    query: QueryModel,
    modes: Seq<MemoryMode>,
    at: i64,
    node: NodeModel,
)
    requires
        wf(store),
        store.plan(query, modes, at).history.contains(node),
    ensures
        store.nodes.contains(node),
        node.in_scope(query_scope(query)),
        node.valid_from_unix_ms <= at,
        support_kinds(modes).len() == 0 || support_kinds(modes).contains(node.kind),
{
    let scope = query_scope(query);
    let kinds = support_kinds(modes);
    let keep = seen_by(Some(at), kinds);
    let seeds = store.seeds_for(query, kinds, at);
    lemma_with_seeds(store.recent(scope, Some(at), kinds, 10_000), seeds, node);
    lemma_recent(store, scope, Some(at), kinds, 10_000, node);
    lemma_recent(store, scope, Some(at), kinds, 64, node);
    if seeds.contains(node) && terms_of(query.question).len() > 0 {
        recall_is_scoped_and_bounded(store, scope, terms_of(query.question), keep, 64);
        let k = choose|k: int| 0 <= k < seeds.len() && seeds[k] == node;
        assert(seeds[k] == store.recall(scope, terms_of(query.question), keep, 64)[k]);
    }
}

/// A read misses nothing: every node of its scope that holds at its time and is of a kind that
/// its modes load is among what it ranks, as long as the store keeps within ten thousand nodes.
pub proof fn reads_see_what_holds(
    store: StoreModel,
    query: QueryModel,
    modes: Seq<MemoryMode>,
    at: i64,
    node: NodeModel,
)
    requires
        store.nodes.len() <= 10_000,
        store.nodes.contains(node),
        node.in_scope(query_scope(query)),
        node.active_at(at),
        support_kinds(modes).len() == 0 || support_kinds(modes).contains(node.kind),
    ensures
        store.plan(query, modes, at).active.contains(node),
{
    let scope = query_scope(query);
    let kinds = support_kinds(modes);
    lemma_recent(store, scope, Some(at), kinds, 10_000, node);
    lemma_with_seeds(
        store.recent(scope, Some(at), kinds, 10_000),
        store.seeds_for(query, kinds, at),
        node,
    );
    lemma_filter_contains(store.history_for(query, modes, at), holding_at(at), node);
}

// ---------------------------------------------------------------------------
// What was written
// ---------------------------------------------------------------------------
proof fn lemma_member(
    store: StoreModel,
    scope: ScopeKey,
    kind: MemoryNodeKind,
    family: Seq<char>,
    i: int,
)
    requires
        0 <= i < store.family(scope, kind, family).len(),
    ensures
        store.nodes.contains(store.family(scope, kind, family)[i]),
        store.family(scope, kind, family)[i].in_scope(scope),
        store.family(scope, kind, family)[i].kind == kind,
{
    let members = store.nodes.filter(in_family(scope, kind, family));
    let node = store.family(scope, kind, family)[i];
    lemma_ranked_contains::<MemoryNode, ByVersion>(members, node);
    assert(store.family(scope, kind, family).contains(node));
    lemma_filter_contains(store.nodes, in_family(scope, kind, family), node);
}

/// Every place that is attached to a node is cited by it, and no citation is lost.
proof fn lemma_attached_places(
    rows: Seq<NodeSpanModel>,
    node_id: Seq<char>,
    spans: Seq<SpanModel>,
)
    ensures
        forall|row: NodeSpanModel| #[trigger]
            rows.contains(row) ==> attached(rows, node_id, spans).contains(row),
        forall|k: int|
            0 <= k < spans.len() ==> attached(rows, node_id, spans).contains(
                NodeSpanModel { node_id, span: #[trigger] spans[k] },
            ),
    decreases spans.len(),
{
    if spans.len() > 0 {
        lemma_attached_places(rows, node_id, spans.drop_last());
        let front = attached(rows, node_id, spans.drop_last());
        let out = attached(rows, node_id, spans);
        let last = NodeSpanModel { node_id, span: spans.last() };
        assert forall|row: NodeSpanModel| front.contains(row) implies #[trigger] out.contains(
            row,
        ) by {
            lemma_push_contains(front, last, row);
        }
        assert(out.contains(last)) by {
            if some_row(front, is_citation(node_id, spans.last())) {
                let k = choose|k: int|
                    0 <= k < front.len() && (is_citation(node_id, spans.last()))(
                        #[trigger] front[k],
                    );
                assert(front[k] == last);
            } else {
                lemma_push_contains(front, last, last);
            }
        }
        assert forall|k: int| 0 <= k < spans.len() implies out.contains(
            NodeSpanModel { node_id, span: #[trigger] spans[k] },
        ) by {
            if k < spans.len() - 1 {
                assert(spans.drop_last()[k] == spans[k]);
                assert(front.contains(NodeSpanModel { node_id, span: spans.drop_last()[k] }));
            }
        }
    }
}

/// A place that a row says a node cites is among the node's citations.
proof fn lemma_cited(store: StoreModel, row: NodeSpanModel)
    requires
        store.spans.contains(row),
    ensures
        store.citations(row.node_id, None).contains(row.span),
{
    let test = citation_by(store.ledger, row.node_id, None);
    let rows = store.spans.filter(test);
    lemma_filter_contains(store.spans, test, row);
    lemma_ranked_contains::<NodeSpan, BySeq>(rows, row);
    let sorted = ranked::<NodeSpan, BySeq>(rows);
    let k = choose|k: int| 0 <= k < sorted.len() && sorted[k] == row;
    assert(store.citations(row.node_id, None)[k] == row.span);
}

proof fn lemma_restated_is_kept(
    store: StoreModel,
    node: NodeModel,
    text: Seq<char>,
    spans: Seq<SpanModel>,
    now: i64,
)
    requires
        store.nodes.contains(node),
    ensures
        ({
            let done = store.restated(node, text, spans, now);
            &&& done.store.nodes.contains(done.node)
            &&& done.node.id == node.id
            &&& done.node.tenant_id == node.tenant_id
            &&& done.node.project_id == node.project_id
            &&& done.node.environment_id == node.environment_id
            &&& done.node.kind == node.kind
            &&& done.store.spans == attached(store.spans, node.id, spans)
        }),
{
    lemma_first_index(store.nodes, with_id(node.id));
    let done = store.restated(node, text, spans, now);
    let k = choose|k: int| 0 <= k < store.nodes.len() && store.nodes[k] == node;
    assert((with_id(node.id))(store.nodes[k]));
    let i = first_index(store.nodes, with_id(node.id))->0;
    assert(done.store.nodes[i] == done.node || (done.store.nodes == store.nodes && done.node
        == node));
}

/// A memory that was stated stands in the store, in its scope and under its kind, and cites
/// every place that it was stated with. A new one says what it was stated to say.
pub proof fn stated_memories_are_kept(
    store: StoreModel,
    scope: ScopeKey,
    kind: MemoryNodeKind,
    text: Seq<char>,
    valid_from: i64,
    spans: Seq<SpanModel>,
    now: i64,
)
    ensures
        match store.upserted(scope, kind, text, valid_from, spans, now) {
            Ok(done) => {
                &&& done.store.nodes.contains(done.node)
                &&& done.node.in_scope(scope)
                &&& done.node.kind == kind
                &&& done.created ==> done.node.text == text
                &&& forall|k: int|
                    0 <= k < spans.len() ==> done.store.citations(done.node.id, None).contains(
                        #[trigger] spans[k],
                    )
            },
            Err(_) => true,
        },
{
    reveal(StoreModel::upserted);
    let family = base_key(kind, text, spans);
    let versions = store.family(scope, kind, family);
    lemma_first_index(versions, beginning_at(valid_from));
    if let Ok(done) = store.upserted(scope, kind, text, valid_from, spans, now) {
        match first_index(versions, beginning_at(valid_from)) {
            Some(i) => {
                lemma_member(store, scope, kind, family, i);
                lemma_restated_is_kept(store, versions[i], text, spans, now);
            },
            None => {
                assert(done.store.nodes[store.nodes.len() as int] == done.node);
            },
        }
        lemma_attached_places(store.spans, done.node.id, spans);
        assert forall|k: int| 0 <= k < spans.len() implies done.store.citations(
            done.node.id,
            None,
        ).contains(#[trigger] spans[k]) by {
            lemma_cited(done.store, NodeSpanModel { node_id: done.node.id, span: spans[k] });
        }
    }
}

/// Stating an entity cue leaves every other node exactly as it is.
proof fn lemma_cue_upserted(
    store: StoreModel,
    scope: ScopeKey,
    text: Seq<char>,
    valid_from: i64,
    spans: Seq<SpanModel>,
    now: i64,
    node: NodeModel,
)
    requires
        nodes_wf(store.nodes),
        store.nodes.contains(node),
        node.kind != MemoryNodeKind::EntityCue,
    ensures
        match store.upserted(scope, MemoryNodeKind::EntityCue, text, valid_from, spans, now) {
            Ok(done) => done.store.nodes.contains(node) && forall|row: NodeSpanModel| #[trigger]
                store.spans.contains(row) ==> done.store.spans.contains(row),
            Err(_) => true,
        },
{
    reveal(StoreModel::upserted);
    let kind = MemoryNodeKind::EntityCue;
    let family = base_key(kind, text, spans);
    let versions = store.family(scope, kind, family);
    lemma_first_index(versions, beginning_at(valid_from));
    if let Ok(done) = store.upserted(scope, kind, text, valid_from, spans, now) {
        let k = choose|k: int| 0 <= k < store.nodes.len() && store.nodes[k] == node;
        lemma_attached_places(store.spans, done.node.id, spans);
        match first_index(versions, beginning_at(valid_from)) {
            Some(i) => {
                lemma_member(store, scope, kind, family, i);
                lemma_first_index(store.nodes, with_id(versions[i].id));
                let m = choose|m: int| 0 <= m < store.nodes.len() && store.nodes[m] == versions[i];
                assert((with_id(versions[i].id))(store.nodes[m]));
                assert(m != k);
                assert(store.nodes[m].id != store.nodes[k].id);
                assert(done.store.nodes[k] == node);
            },
            None => {
                assert(done.store.nodes[k] == node);
            },
        }
    }
}

pub proof fn lemma_cued_keeps(
    store: StoreModel,
    event: EventModel,
    node_id: Seq<char>,
    cue_terms: Seq<Seq<char>>,
    now: i64,
    node: NodeModel,
)
    requires
        wf(store),
        store.nodes.contains(node),
        node.kind != MemoryNodeKind::EntityCue,
    ensures
        match store.cued(event, node_id, cue_terms, now) {
            Ok(after) => wf(after) && after.nodes.contains(node) && forall|row: NodeSpanModel|
             #[trigger]
                store.spans.contains(row) ==> after.spans.contains(row),
            Err(_) => true,
        },
    decreases cue_terms.len(),
{
    lemma_cued(store, event, node_id, cue_terms, now);
    if cue_terms.len() > 0 {
        lemma_cued_keeps(store, event, node_id, cue_terms.drop_last(), now, node);
        if let Ok(front) = store.cued(event, node_id, cue_terms.drop_last(), now) {
            lemma_cue_upserted(
                front,
                event_scope(event),
                cue_terms.last(),
                event.observed_at_unix_ms,
                seq![event.span()],
                now,
                node,
            );
            reveal(StoreModel::linked);
        }
    }
}

proof fn lemma_attached_rows(
    store: StoreModel,
    event: EventModel,
    memory: DistilledModel,
    now: i64,
)
    ensures
        match store.upserted(
            event_scope(event),
            memory.node_kind,
            memory.text,
            event.observed_at_unix_ms,
            memory.cited_spans,
            now,
        ) {
            Ok(done) => forall|k: int|
                0 <= k < memory.cited_spans.len() ==> done.store.spans.contains(
                    NodeSpanModel { node_id: done.node.id, span: #[trigger] memory.cited_spans[k] },
                ),
            Err(_) => true,
        },
{
    reveal(StoreModel::upserted);
    let scope = event_scope(event);
    let kind = memory.node_kind;
    let family = base_key(kind, memory.text, memory.cited_spans);
    let versions = store.family(scope, kind, family);
    let from = event.observed_at_unix_ms;
    lemma_first_index(versions, beginning_at(from));
    if let Ok(done) = store.upserted(scope, kind, memory.text, from, memory.cited_spans, now) {
        if let Some(i) = first_index(versions, beginning_at(from)) {
            lemma_member(store, scope, kind, family, i);
            lemma_restated_is_kept(store, versions[i], memory.text, memory.cited_spans, now);
        }
        lemma_attached_places(store.spans, done.node.id, memory.cited_spans);
    }
}

/// A memory that was added stands in the store, and so does every citation of it.
proof fn lemma_added_is_kept(
    store: StoreModel,
    event: EventModel,
    memory: DistilledModel,
    now: i64,
)
    requires
        wf(store),
        memory.node_kind != MemoryNodeKind::EntityCue,
    ensures
        match store.added(event, memory, now) {
            Ok((after, applied)) => {
                let node = applied.written();
                &&& applied is Added || applied is Updated
                &&& after.nodes.contains(node)
                &&& node.in_scope(event_scope(event))
                &&& node.kind == memory.node_kind
                &&& applied is Added ==> node.text == memory.text
                &&& forall|k: int|
                    0 <= k < memory.cited_spans.len() ==> after.spans.contains(
                        NodeSpanModel { node_id: node.id, span: #[trigger] memory.cited_spans[k] },
                    )
            },
            Err(_) => true,
        },
{
    let scope = event_scope(event);
    let kind = memory.node_kind;
    let from = event.observed_at_unix_ms;
    let spans = memory.cited_spans;
    stated_memories_are_kept(store, scope, kind, memory.text, from, spans, now);
    lemma_upserted(store, scope, kind, memory.text, from, spans, now);
    if let Ok(done) = store.upserted(scope, kind, memory.text, from, spans, now) {
        let node = done.node;
        lemma_cued_keeps(done.store, event, node.id, top_terms_of(node.text, 8), now, node);
        lemma_attached_rows(store, event, memory, now);
        if let Ok((after, applied)) = store.added(event, memory, now) {
            assert(applied.written() == node);
            assert forall|k: int| 0 <= k < spans.len() implies after.spans.contains(
                NodeSpanModel { node_id: node.id, span: #[trigger] spans[k] },
            ) by {
                assert(done.store.spans.contains(
                    NodeSpanModel { node_id: node.id, span: spans[k] },
                ));
            }
        }
    }
}

/// A memory that was added is read back: it stands in the store in the scope of its event and
/// under its kind, cites every place that it was distilled from, and a read of its scope and
/// kind at a time at which it holds ranks it, as long as the store keeps within ten thousand
/// nodes. A new memory says what was distilled.
pub proof fn added_memories_are_read_back(
    store: StoreModel,
    event: EventModel,
    memory: DistilledModel,
    now: i64,
    query: QueryModel,
    modes: Seq<MemoryMode>,
    at: i64,
)
    requires
        wf(store),
        memory.node_kind != MemoryNodeKind::EntityCue,
        query_scope(query) == event_scope(event),
        support_kinds(modes).contains(memory.node_kind),
    ensures
        match store.added(event, memory, now) {
            Ok((after, applied)) => {
                let node = applied.written();
                &&& after.nodes.contains(node)
                &&& node.kind == memory.node_kind
                &&& applied is Added ==> node.text == memory.text
                &&& forall|k: int|
                    0 <= k < memory.cited_spans.len() ==> after.citations(
                        node.id,
                        None,
                    ).contains(#[trigger] memory.cited_spans[k])
                &&& after.nodes.len() <= 10_000 && node.active_at(at) ==> after.plan(
                    query,
                    modes,
                    at,
                ).active.contains(node)
            },
            Err(_) => true,
        },
{
    lemma_added_is_kept(store, event, memory, now);
    if let Ok((after, applied)) = store.added(event, memory, now) {
        let node = applied.written();
        assert forall|k: int| 0 <= k < memory.cited_spans.len() implies after.citations(
            node.id,
            None,
        ).contains(#[trigger] memory.cited_spans[k]) by {
            lemma_cited(after, NodeSpanModel { node_id: node.id, span: memory.cited_spans[k] });
        }
        if after.nodes.len() <= 10_000 && node.active_at(at) {
            reads_see_what_holds(after, query, modes, at, node);
        }
    }
}

proof fn lemma_chain_keeps(store: StoreModel, event: EventModel, nodes: Seq<NodeModel>)
    ensures
        match store.chain_linked(event, nodes) {
            Ok((after, _)) => after.nodes == store.nodes && after.spans == store.spans,
            Err(_) => true,
        },
    decreases nodes.len(),
{
    reveal(StoreModel::linked);
    if nodes.len() >= 2 {
        lemma_chain_keeps(store, event, nodes.drop_last());
    }
}

/// An event whose last memory is an addition is read back once it is projected: the memory
/// stands in the store in the scope of the event and under its kind, cites every place that it
/// was distilled from, and a read of its scope and kind at a time at which it holds ranks it,
/// as long as the store keeps within ten thousand nodes.
pub proof fn projected_memories_are_read_back(
    store: StoreModel,
    report: ProjectReport,
    event: EventModel,
    event_id: i64,
    memories: Seq<DistilledModel>,
    neighbors: Seq<NodeModel>,
    now: i64,
    query: QueryModel,
    modes: Seq<MemoryMode>,
    at: i64,
)
    requires
        wf(store),
        memories.len() > 0,
        memories.last().op == BeliefRevisionOp::Add,
        memories.last().node_kind != MemoryNodeKind::EntityCue,
        query_scope(query) == event_scope(event),
        support_kinds(modes).contains(memories.last().node_kind),
    ensures
        match projected(store, report, event, event_id, memories, neighbors, now) {
            Ok(done) => {
                let node = done.nodes.last();
                let memory = memories.last();
                &&& done.nodes.len() > 0
                &&& done.store.nodes.contains(node)
                &&& node.kind == memory.node_kind
                &&& forall|k: int|
                    0 <= k < memory.cited_spans.len() ==> done.store.citations(
                        node.id,
                        None,
                    ).contains(#[trigger] memory.cited_spans[k])
                &&& done.store.nodes.len() <= 10_000 && node.active_at(at) ==> done.store.plan(
                    query,
                    modes,
                    at,
                ).active.contains(node)
            },
            Err(_) => true,
        },
{
    reveal(projected);
    let memory = memories.last();
    let front_memories = memories.drop_last();
    lemma_applied_all(store, report, event, front_memories, neighbors, now);
    if let Ok(done) = projected(store, report, event, event_id, memories, neighbors, now) {
        let front = applied_all(store, report, event, front_memories, neighbors, now)->Ok_0;
        let (after, applied) = front.store.applied(event, memory, neighbors, now)->Ok_0;
        lemma_added_is_kept(front.store, event, memory, now);
        let node = applied.written();
        assert(done.nodes == front.nodes.push(node));
        lemma_chain_keeps(after, event, done.nodes);
        assert(done.store.nodes == after.nodes && done.store.spans == after.spans);
        assert forall|k: int| 0 <= k < memory.cited_spans.len() implies done.store.citations(
            node.id,
            None,
        ).contains(#[trigger] memory.cited_spans[k]) by {
            lemma_cited(
                done.store,
                NodeSpanModel { node_id: node.id, span: memory.cited_spans[k] },
            );
        }
        if done.store.nodes.len() <= 10_000 && node.active_at(at) {
            reads_see_what_holds(done.store, query, modes, at, node);
        }
    }
}

// ---------------------------------------------------------------------------
// What was taken back
// ---------------------------------------------------------------------------
/// A node whose window ended by a time.
pub open spec fn over_by(node: NodeModel, at: i64) -> bool {
    node.valid_to_unix_ms matches Some(end) && end <= at
}

/// A memory that had begun and is taken back does not hold from then on, and where that closed
/// it in favour of another, edges say that the other replaces and contradicts it.
pub proof fn taken_back_memories_stop_holding(
    store: StoreModel,
    event: EventModel,
    older: Seq<char>,
    replacement: Option<NodeModel>,
)
    requires
        nodes_wf(store.nodes),
    ensures
        match store.taken_back(event, older, replacement) {
            Ok((after, closed)) => {
                &&& forall|i: int|
                    0 <= i < after.nodes.len() && (#[trigger] after.nodes[i]).id == older
                        && after.nodes[i].valid_from_unix_ms <= event.observed_at_unix_ms
                        ==> over_by(after.nodes[i], event.observed_at_unix_ms)
                &&& closed && replacement is Some && replacement->0.id != older ==> some_row(
                    after.edges,
                    is_edge(replacement->0.id, older, MemoryEdgeKind::Supersedes),
                ) && some_row(
                    after.edges,
                    is_edge(replacement->0.id, older, MemoryEdgeKind::Contradicts),
                )
            },
            Err(_) => true,
        },
{
    reveal(StoreModel::invalidated);
    let at = event.observed_at_unix_ms;
    lemma_first_index(store.nodes, with_id(older));
    if let Ok((after, closed)) = store.taken_back(event, older, replacement) {
        let (ended, _) = store.invalidated(older, at, event.id);
        if closed && replacement is Some {
            let newer = replacement->0.id;
            let scope = event_scope(event);
            lemma_linked_edge(ended, scope, newer, older, MemoryEdgeKind::Supersedes, 100, at);
            let middle = ended.linked(
                scope,
                newer,
                older,
                MemoryEdgeKind::Supersedes,
                100,
                at,
            )->Ok_0.0;
            lemma_linked_edge(middle, scope, newer, older, MemoryEdgeKind::Contradicts, 80, at);
            if newer != older {
                let k = choose|k: int|
                    0 <= k < middle.edges.len() && (is_edge(
                        newer,
                        older,
                        MemoryEdgeKind::Supersedes,
                    ))(#[trigger] middle.edges[k]);
                assert(after.edges[k] == middle.edges[k]);
            }
        }
        assert(after.nodes == ended.nodes);
        assert forall|i: int|
            0 <= i < after.nodes.len() && (#[trigger] after.nodes[i]).id == older
                && after.nodes[i].valid_from_unix_ms <= at implies over_by(after.nodes[i], at) by {
            assert((with_id(older))(store.nodes[i]));
            let f = first_index(store.nodes, with_id(older))->0;
            if f < i {
                assert(store.nodes[f].id != store.nodes[i].id);
            }
        }
    }
}

pub proof fn lemma_linked_edge(
    store: StoreModel,
    scope: ScopeKey,
    from: Seq<char>,
    to: Seq<char>,
    kind: MemoryEdgeKind,
    weight: u32,
    at: i64,
)
    ensures
        match store.linked(scope, from, to, kind, weight, at) {
            Ok((after, _)) => {
                &&& after.nodes == store.nodes
                &&& from != to ==> some_row(after.edges, is_edge(from, to, kind))
                &&& store.edges.len() <= after.edges.len()
                &&& forall|k: int|
                    0 <= k < store.edges.len() ==> #[trigger] after.edges[k] == store.edges[k]
            },
            Err(_) => true,
        },
{
    reveal(StoreModel::linked);
    if let Ok((after, true)) = store.linked(scope, from, to, kind, weight, at) {
        assert((is_edge(from, to, kind))(after.edges[store.edges.len() as int]));
    }
}

/// Every memory that an invalidation takes back and that had begun does not hold from then on.
pub proof fn invalidated_memories_stop_holding(
    store: StoreModel,
    event: EventModel,
    targets: Seq<NodeModel>,
    replacement: Option<NodeModel>,
    k: int,
)
    requires
        wf(store),
        0 <= k < targets.len(),
    ensures
        match store.all_taken_back(event, targets, replacement) {
            Ok((after, _)) => forall|i: int|
                0 <= i < after.nodes.len() && (#[trigger] after.nodes[i]).id == targets[k].id
                    && after.nodes[i].valid_from_unix_ms <= event.observed_at_unix_ms ==> over_by(
                    after.nodes[i],
                    event.observed_at_unix_ms,
                ),
            Err(_) => true,
        },
    decreases targets.len(),
{
    let at = event.observed_at_unix_ms;
    let front_targets = targets.drop_last();
    lemma_all_taken_back(store, event, front_targets, replacement);
    if let Ok((front, _)) = store.all_taken_back(event, front_targets, replacement) {
        let last = targets.last().id;
        taken_back_memories_stop_holding(front, event, last, replacement);
        lemma_taken_back(front, event, last, replacement);
        closing_deletes_nothing(front, last, at, event.id);
        if k < targets.len() - 1 {
            invalidated_memories_stop_holding(store, event, front_targets, replacement, k);
            assert(front_targets[k] == targets[k]);
            if let Ok((after, _)) = front.taken_back(event, last, replacement) {
                lemma_taken_back_nodes(front, event, last, replacement);
                assert forall|i: int|
                    0 <= i < after.nodes.len() && (#[trigger] after.nodes[i]).id == targets[k].id
                        && after.nodes[i].valid_from_unix_ms <= at implies over_by(
                    after.nodes[i],
                    at,
                ) by {
                    assert(node_kept(front.nodes[i], after.nodes[i]));
                }
            }
        }
    }
}

proof fn lemma_taken_back_nodes(
    store: StoreModel,
    event: EventModel,
    older: Seq<char>,
    replacement: Option<NodeModel>,
)
    ensures
        match store.taken_back(event, older, replacement) {
            Ok((after, _)) => after.nodes.len() == store.nodes.len(),
            Err(_) => true,
        },
{
    reveal(StoreModel::invalidated);
    reveal(StoreModel::linked);
    lemma_first_index(store.nodes, with_id(older));
}

// ---------------------------------------------------------------------------
// What was so before
// ---------------------------------------------------------------------------
/// What is stated for a later time leaves earlier reads alone: what held before then still does
/// and says the same, and nothing else does.
pub proof fn later_statements_leave_earlier_reads(
    store: StoreModel,
    scope: ScopeKey,
    kind: MemoryNodeKind,
    text: Seq<char>,
    valid_from: i64,
    spans: Seq<SpanModel>,
    now: i64,
    at: i64,
)
    requires
        nodes_wf(store.nodes),
        at < valid_from,
    ensures
        match store.upserted(scope, kind, text, valid_from, spans, now) {
            Ok(done) => {
                &&& forall|i: int|
                    0 <= i < store.nodes.len() ==> {
                        let after = #[trigger] done.store.nodes[i];
                        &&& after.active_at(at) == store.nodes[i].active_at(at)
                        &&& after.active_at(at) ==> after.id == store.nodes[i].id && after.text
                            == store.nodes[i].text && after.kind == store.nodes[i].kind
                    }
                &&& forall|i: int|
                    store.nodes.len() <= i < done.store.nodes.len() ==> !(
                    #[trigger] done.store.nodes[i]).active_at(at)
            },
            Err(_) => true,
        },
{
    reveal(StoreModel::upserted);
    let family = base_key(kind, text, spans);
    let versions = store.family(scope, kind, family);
    lemma_first_index(versions, beginning_at(valid_from));
    if let Some(v) = first_index(versions, beginning_at(valid_from)) {
        lemma_member(store, scope, kind, family, v);
        lemma_first_index(store.nodes, with_id(versions[v].id));
        let k = choose|k: int| 0 <= k < store.nodes.len() && store.nodes[k] == versions[v];
        assert((with_id(versions[v].id))(store.nodes[k]));
        let i = first_index(store.nodes, with_id(versions[v].id))->0;
        assert(i == k) by {
            if i < k {
                assert(store.nodes[i].id != store.nodes[k].id);
            }
        }
    }
}

/// A read as of a time cites nothing that was observed after it.
pub proof fn citations_were_observed_by_then(
    store: StoreModel,
    node_id: Seq<char>,
    at: i64,
    span: SpanModel,
)
    requires
        store.citations(node_id, Some(at)).contains(span),
    ensures
        match first_index(store.ledger, at_span(span)) {
            Some(i) => store.ledger[i].observed_at_unix_ms <= at,
            None => true,
        },
{
    let test = citation_by(store.ledger, node_id, Some(at));
    let rows = store.spans.filter(test);
    let sorted = ranked::<NodeSpan, BySeq>(rows);
    let cited = store.citations(node_id, Some(at));
    let k = choose|k: int| 0 <= k < cited.len() && cited[k] == span;
    assert(sorted.contains(sorted[k]));
    lemma_ranked_contains::<NodeSpan, BySeq>(rows, sorted[k]);
    lemma_filter_contains(store.spans, test, sorted[k]);
}

} // verus!
