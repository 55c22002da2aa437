//! Laws of retrieval: what a read of the tables finds, in which order, and what it may leave out.
use vstd::prelude::*;

use crate::graph::{query_scope, with_seeds};
use crate::route::support_kinds;
use crate::history::wf;
use crate::ledger::EventModel;
use crate::ledger::LedgerEvent;
use crate::model::{MemoryMode, MemoryNodeKind, QueryModel, SpanModel};
use crate::order::{
    in_order, lemma_ranked_contains, lemma_ranked_in_order, lemma_ranked_keeps_rows, ranked,
    Ranking,
};
use crate::passes::pass_events;
use crate::rows::{CueModel, EdgeModel, NodeModel, NodeSpan, ScopeKey};
use crate::store::{
    citation_by, cited_by, distinct_nodes, earliest, edge_in_scope, event_no, is_citation,
    is_pending, seen_by, seen_in_scope, with_id, ByObserved, ByRecall, BySeq, Hit, StoreModel,
};
use crate::table::{first_index, lemma_filter_contains, lemma_first_index, some_row};
use crate::text::{at_most, terms_of};

verus! {

// ---------------------------------------------------------------------------
// The first of a ranked list
// ---------------------------------------------------------------------------
proof fn lemma_first_of_ranked<T: View, R: Ranking<T>>(rows: Seq<T::V>, limit: int)
    requires
        0 <= limit,
    ensures
        ({
            let first = at_most(ranked::<T, R>(rows), limit);
            &&& first.len() <= limit
            &&& first.len() <= rows.len()
            &&& in_order::<T, R>(first)
            &&& forall|i: int| 0 <= i < first.len() ==> rows.contains(#[trigger] first[i])
            &&& rows.len() <= limit ==> first.len() == rows.len()
        }),
{
    let sorted = ranked::<T, R>(rows);
    let first = at_most(sorted, limit);
    lemma_ranked_keeps_rows::<T, R>(rows);
    lemma_ranked_in_order::<T, R>(rows);
    assert forall|i: int| 0 <= i < first.len() implies rows.contains(#[trigger] first[i]) by {
        assert(sorted.contains(sorted[i]));
        lemma_ranked_contains::<T, R>(rows, sorted[i]);
    }
    assert forall|i: int, j: int| 0 <= i < j < first.len() implies !R::before(
        #[trigger] first[j],
        #[trigger] first[i],
    ) by {
        assert(first[j] == sorted[j] && first[i] == sorted[i]);
    }
}

proof fn lemma_left_out<T: View, R: Ranking<T>>(rows: Seq<T::V>, limit: int, row: T::V)
    requires
        0 <= limit,
        rows.contains(row),
        !at_most(ranked::<T, R>(rows), limit).contains(row),
    ensures
        ({
            let first = at_most(ranked::<T, R>(rows), limit);
            &&& first.len() == limit
            &&& forall|i: int| 0 <= i < first.len() ==> !R::before(row, #[trigger] first[i])
        }),
{
    let sorted = ranked::<T, R>(rows);
    let first = at_most(sorted, limit);
    lemma_ranked_contains::<T, R>(rows, row);
    lemma_ranked_in_order::<T, R>(rows);
    let k = choose|k: int| 0 <= k < sorted.len() && sorted[k] == row;
    if k < first.len() {
        assert(first[k] == row);
    }
    assert forall|i: int| 0 <= i < first.len() implies !R::before(row, #[trigger] first[i]) by {
        assert(first[i] == sorted[i]);
    }
}

// ---------------------------------------------------------------------------
// The latest memories
// ---------------------------------------------------------------------------
/// The latest memories of a scope are memories of its tenant, project and environment, of the
/// kinds that are asked for, and had begun by the time that is asked about. Later ones come
/// before earlier ones, and one that is left out for want of room is no later than any that is
/// listed.
pub proof fn the_latest_memories_come_first(
    store: StoreModel,
    scope: ScopeKey,
    as_of: Option<i64>,
    kinds: Seq<MemoryNodeKind>,
    limit: int,
    node: NodeModel,
)
    requires
        0 <= limit,
    ensures
        ({
            let r = store.recent(scope, as_of, kinds, limit);
            &&& r.len() <= limit
            &&& forall|i: int, j: int|
                0 <= i < j < r.len() ==> (#[trigger] r[i]).valid_from_unix_ms >= (
                #[trigger] r[j]).valid_from_unix_ms
            &&& r.contains(node) ==> {
                &&& store.nodes.contains(node)
                &&& node.tenant_id == scope.tenant_id
                &&& node.project_id == scope.project_id
                &&& as_of matches Some(at) ==> node.valid_from_unix_ms <= at
                &&& kinds.len() == 0 || kinds.contains(node.kind)
            }
            &&& store.nodes.contains(node) && node.in_scope(scope) && (as_of matches Some(at)
                ==> node.valid_from_unix_ms <= at) && (kinds.len() == 0 || kinds.contains(
                node.kind,
            )) && !r.contains(node) ==> r.len() == limit && forall|i: int|
                0 <= i < r.len() ==> (#[trigger] r[i]).valid_from_unix_ms
                    >= node.valid_from_unix_ms
        }),
{
    let test = seen_in_scope(scope, as_of, kinds);
    let seen = store.nodes.filter(test);
    let hits = store.plain_hits(seen);
    let first = at_most(ranked::<Hit, ByRecall>(hits), limit);
    let r = store.recent(scope, as_of, kinds, limit);
    lemma_first_of_ranked::<Hit, ByRecall>(hits, limit);
    lemma_filter_contains(store.nodes, test, node);
    assert forall|i: int| 0 <= i < first.len() implies (#[trigger] first[i]).rank == 0
        && seen.contains(first[i].node) by {
        assert(hits.contains(first[i]));
        let j = choose|j: int| 0 <= j < hits.len() && hits[j] == first[i];
        assert(seen[j] == first[i].node);
    }
    assert forall|i: int, j: int| 0 <= i < j < r.len() implies (#[trigger] r[i]).valid_from_unix_ms
        >= (#[trigger] r[j]).valid_from_unix_ms by {
        assert(r[i] == first[i].node && r[j] == first[j].node);
        assert(first[i].rank == 0 && first[j].rank == 0);
        assert(!ByRecall::before(first[j], first[i]));
    }
    if r.contains(node) {
        let k = choose|k: int| 0 <= k < r.len() && r[k] == node;
        assert(first[k].node == node);
        assert(seen.contains(node));
    }
    if seen.contains(node) && !r.contains(node) {
        let j = choose|j: int| 0 <= j < seen.len() && seen[j] == node;
        assert(hits[j] == store.hit(node, 0));
        assert(hits.contains(hits[j]));
        if first.contains(hits[j]) {
            let k = choose|k: int| 0 <= k < first.len() && first[k] == hits[j];
            assert(r[k] == node);
        }
        lemma_left_out::<Hit, ByRecall>(hits, limit, hits[j]);
        assert forall|i: int| 0 <= i < r.len() implies (#[trigger] r[i]).valid_from_unix_ms
            >= node.valid_from_unix_ms by {
            assert(r[i] == first[i].node && first[i].rank == 0);
            assert(!ByRecall::before(hits[j], first[i]));
        }
    }
}

// ---------------------------------------------------------------------------
// Recall by terms
// ---------------------------------------------------------------------------
proof fn lemma_hit_has_cue(
    store: StoreModel,
    cues: Seq<CueModel>,
    scope: ScopeKey,
    term: Seq<char>,
    keep: spec_fn(NodeModel) -> bool,
    k: int,
) -> (c: int)
    requires
        0 <= k < store.cue_hits(cues, scope, term, keep).len(),
    ensures
        ({
            let hit = store.cue_hits(cues, scope, term, keep)[k];
            &&& 0 <= c < cues.len()
            &&& cues[c].in_scope(scope)
            &&& cues[c].term == term
            &&& cues[c].node_id == hit.node.id
            &&& cues[c].rank == hit.rank
            &&& keep(hit.node)
            &&& store.node(cues[c].node_id) == Some(hit.node)
        }),
    decreases cues.len(),
{
    let front = cues.drop_last();
    let found = store.cue_hits(front, scope, term, keep);
    if k < found.len() {
        let c = lemma_hit_has_cue(store, front, scope, term, keep, k);
        assert(front[c] == cues[c]);
        c
    } else {
        lemma_first_index(store.nodes, with_id(cues.last().node_id));
        cues.len() - 1
    }
}

proof fn lemma_cue_has_hit(
    store: StoreModel,
    cues: Seq<CueModel>,
    scope: ScopeKey,
    term: Seq<char>,
    keep: spec_fn(NodeModel) -> bool,
    c: int,
) -> (k: int)
    requires
        0 <= c < cues.len(),
        cues[c].in_scope(scope),
        cues[c].term == term,
        store.node(cues[c].node_id) is Some,
        keep(store.node(cues[c].node_id)->0),
    ensures
        0 <= k < store.cue_hits(cues, scope, term, keep).len(),
        store.cue_hits(cues, scope, term, keep)[k].node == store.node(cues[c].node_id)->0,
        store.cue_hits(cues, scope, term, keep)[k].rank == cues[c].rank,
    decreases cues.len(),
{
    let front = cues.drop_last();
    if c < front.len() {
        assert(front[c] == cues[c]);
        lemma_cue_has_hit(store, front, scope, term, keep, c)
    } else {
        store.cue_hits(cues, scope, term, keep).len() - 1
    }
}

proof fn lemma_hits_bound(
    store: StoreModel,
    cues: Seq<CueModel>,
    scope: ScopeKey,
    term: Seq<char>,
    keep: spec_fn(NodeModel) -> bool,
)
    ensures
        store.cue_hits(cues, scope, term, keep).len() <= cues.len(),
    decreases cues.len(),
{
    if cues.len() > 0 {
        lemma_hits_bound(store, cues.drop_last(), scope, term, keep);
    }
}

/// Under one term the stronger cue comes first, and of equally strong ones the later memory; a
/// memory that is left out for want of room has no stronger cue than any that is listed.
pub proof fn stronger_cues_come_first(
    store: StoreModel,
    scope: ScopeKey,
    term: Seq<char>,
    keep: spec_fn(NodeModel) -> bool,
    limit: int,
    i: int,
    j: int,
    c: int,
) -> (r: (int, int))
    requires
        0 <= limit,
        0 <= i < j < store.term_recall(scope, term, keep, limit).len(),
    ensures
        ({
            let nodes = store.term_recall(scope, term, keep, limit);
            let (a, b) = r;
            &&& 0 <= a < store.cues.len()
            &&& 0 <= b < store.cues.len()
            &&& store.cues[a].term == term
            &&& store.cues[b].term == term
            &&& store.cues[a].in_scope(scope)
            &&& store.cues[b].in_scope(scope)
            &&& store.cues[a].node_id == nodes[i].id
            &&& store.cues[b].node_id == nodes[j].id
            &&& store.cues[a].rank <= store.cues[b].rank
            &&& store.cues[a].rank == store.cues[b].rank ==> nodes[i].valid_from_unix_ms
                >= nodes[j].valid_from_unix_ms
            &&& nodes.len() <= limit
            &&& 0 <= c < store.cues.len() && store.cues[c].term == term && store.cues[c].in_scope(
                scope,
            ) && store.node(store.cues[c].node_id) is Some && keep(
                store.node(store.cues[c].node_id)->0,
            ) && !nodes.contains(store.node(store.cues[c].node_id)->0) ==> store.cues[b].rank
                <= store.cues[c].rank && nodes.len() == limit
        }),
{
    let hits = store.cue_hits(store.cues, scope, term, keep);
    let first = at_most(ranked::<Hit, ByRecall>(hits), limit);
    let nodes = store.term_recall(scope, term, keep, limit);
    lemma_first_of_ranked::<Hit, ByRecall>(hits, limit);
    assert(hits.contains(first[i]) && hits.contains(first[j]));
    let ki = choose|k: int| 0 <= k < hits.len() && hits[k] == first[i];
    let kj = choose|k: int| 0 <= k < hits.len() && hits[k] == first[j];
    let a = lemma_hit_has_cue(store, store.cues, scope, term, keep, ki);
    let b = lemma_hit_has_cue(store, store.cues, scope, term, keep, kj);
    assert(!ByRecall::before(first[j], first[i]));
    if 0 <= c < store.cues.len() && store.cues[c].term == term && store.cues[c].in_scope(scope)
        && store.node(store.cues[c].node_id) is Some && keep(store.node(store.cues[c].node_id)->0)
        && !nodes.contains(store.node(store.cues[c].node_id)->0) {
        let k = lemma_cue_has_hit(store, store.cues, scope, term, keep, c);
        if first.contains(hits[k]) {
            let m = choose|m: int| 0 <= m < first.len() && first[m] == hits[k];
            assert(nodes[m] == hits[k].node);
        }
        assert(hits.contains(hits[k]));
        lemma_left_out::<Hit, ByRecall>(hits, limit, hits[k]);
        assert(!ByRecall::before(hits[k], first[j]));
    }
    (a, b)
}

proof fn lemma_term_node_has_cue(
    store: StoreModel,
    scope: ScopeKey,
    term: Seq<char>,
    keep: spec_fn(NodeModel) -> bool,
    limit: int,
    i: int,
) -> (c: int)
    requires
        0 <= limit,
        0 <= i < store.term_recall(scope, term, keep, limit).len(),
    ensures
        ({
            let node = store.term_recall(scope, term, keep, limit)[i];
            &&& 0 <= c < store.cues.len()
            &&& store.cues[c].in_scope(scope)
            &&& store.cues[c].term == term
            &&& store.cues[c].node_id == node.id
            &&& keep(node)
        }),
{
    let hits = store.cue_hits(store.cues, scope, term, keep);
    let first = at_most(ranked::<Hit, ByRecall>(hits), limit);
    lemma_first_of_ranked::<Hit, ByRecall>(hits, limit);
    assert(hits.contains(first[i]));
    let k = choose|k: int| 0 <= k < hits.len() && hits[k] == first[i];
    lemma_hit_has_cue(store, store.cues, scope, term, keep, k)
}

proof fn lemma_terms_node_has_cue(
    store: StoreModel,
    scope: ScopeKey,
    query_terms: Seq<Seq<char>>,
    keep: spec_fn(NodeModel) -> bool,
    limit: int,
    i: int,
) -> (r: (int, int))
    requires
        0 <= limit,
        0 <= i < store.terms_recall(scope, query_terms, keep, limit).len(),
    ensures
        ({
            let node = store.terms_recall(scope, query_terms, keep, limit)[i];
            let (t, c) = r;
            &&& 0 <= t < query_terms.len()
            &&& 0 <= c < store.cues.len()
            &&& store.cues[c].in_scope(scope)
            &&& store.cues[c].term == query_terms[t]
            &&& store.cues[c].node_id == node.id
            &&& keep(node)
        }),
    decreases query_terms.len(),
{
    let front = query_terms.drop_last();
    let found = store.terms_recall(scope, front, keep, limit);
    if i < found.len() {
        let (t, c) = lemma_terms_node_has_cue(store, scope, front, keep, limit, i);
        assert(front[t] == query_terms[t]);
        (t, c)
    } else {
        let c = lemma_term_node_has_cue(
            store,
            scope,
            query_terms.last(),
            keep,
            limit,
            i - found.len(),
        );
        (query_terms.len() - 1, c)
    }
}

proof fn lemma_distinct_from(nodes: Seq<NodeModel>, i: int) -> (k: int)
    requires
        0 <= i < distinct_nodes(nodes).len(),
    ensures
        0 <= k < nodes.len(),
        distinct_nodes(nodes)[i] == nodes[k],
    decreases nodes.len(),
{
    let front = distinct_nodes(nodes.drop_last());
    if i < front.len() {
        let k = lemma_distinct_from(nodes.drop_last(), i);
        assert(nodes.drop_last()[k] == nodes[k]);
        k
    } else {
        nodes.len() - 1
    }
}

proof fn lemma_distinct_keeps(nodes: Seq<NodeModel>, k: int) -> (i: int)
    requires
        0 <= k < nodes.len(),
    ensures
        0 <= i < distinct_nodes(nodes).len(),
        distinct_nodes(nodes)[i].id == nodes[k].id,
    decreases nodes.len(),
{
    let front = distinct_nodes(nodes.drop_last());
    if k < nodes.len() - 1 {
        assert(nodes.drop_last()[k] == nodes[k]);
        lemma_distinct_keeps(nodes.drop_last(), k)
    } else if some_row(front, with_id(nodes.last().id)) {
        choose|i: int| 0 <= i < front.len() && (with_id(nodes.last().id))(#[trigger] front[i])
    } else {
        front.len() as int
    }
}

proof fn lemma_distinct_bound(nodes: Seq<NodeModel>)
    ensures
        distinct_nodes(nodes).len() <= nodes.len(),
    decreases nodes.len(),
{
    if nodes.len() > 0 {
        lemma_distinct_bound(nodes.drop_last());
    }
}

/// Nothing is recalled that is not about what was asked: every memory that is found has a cue in
/// the scope under one of the terms.
pub proof fn recalled_memories_have_a_cue(
    store: StoreModel,
    scope: ScopeKey,
    query_terms: Seq<Seq<char>>,
    keep: spec_fn(NodeModel) -> bool,
    limit: int,
    i: int,
) -> (r: (int, int))
    requires
        0 <= limit,
        0 <= i < store.recall(scope, query_terms, keep, limit).len(),
    ensures
        ({
            let node = store.recall(scope, query_terms, keep, limit)[i];
            let (t, c) = r;
            &&& 0 <= t < query_terms.len()
            &&& 0 <= c < store.cues.len()
            &&& store.cues[c].in_scope(scope)
            &&& store.cues[c].term == query_terms[t]
            &&& store.cues[c].node_id == node.id
            &&& keep(node)
        }),
{
    let all = store.terms_recall(scope, query_terms, keep, limit);
    let k = lemma_distinct_from(all, i);
    lemma_terms_node_has_cue(store, scope, query_terms, keep, limit, k)
}

proof fn lemma_terms_recall_holds(
    store: StoreModel,
    scope: ScopeKey,
    query_terms: Seq<Seq<char>>,
    keep: spec_fn(NodeModel) -> bool,
    limit: int,
    t: int,
    c: int,
) -> (i: int)
    requires
        store.cues.len() <= limit,
        0 <= t < query_terms.len(),
        0 <= c < store.cues.len(),
        store.cues[c].in_scope(scope),
        store.cues[c].term == query_terms[t],
        store.node(store.cues[c].node_id) is Some,
        keep(store.node(store.cues[c].node_id)->0),
    ensures
        0 <= i < store.terms_recall(scope, query_terms, keep, limit).len(),
        store.terms_recall(scope, query_terms, keep, limit)[i] == store.node(
            store.cues[c].node_id,
        )->0,
    decreases query_terms.len(),
{
    let front = query_terms.drop_last();
    let found = store.terms_recall(scope, front, keep, limit);
    if t < front.len() {
        assert(front[t] == query_terms[t]);
        lemma_terms_recall_holds(store, scope, front, keep, limit, t, c)
    } else {
        let term = query_terms.last();
        let hits = store.cue_hits(store.cues, scope, term, keep);
        let first = at_most(ranked::<Hit, ByRecall>(hits), limit);
        let k = lemma_cue_has_hit(store, store.cues, scope, term, keep, c);
        lemma_hits_bound(store, store.cues, scope, term, keep);
        lemma_ranked_keeps_rows::<Hit, ByRecall>(hits);
        assert(hits.contains(hits[k]));
        lemma_ranked_contains::<Hit, ByRecall>(hits, hits[k]);
        let m = choose|m: int|
            0 <= m < ranked::<Hit, ByRecall>(hits).len() && ranked::<Hit, ByRecall>(hits)[m]
                == hits[k];
        assert(first[m] == hits[k]);
        assert(store.term_recall(scope, term, keep, limit)[m] == hits[k].node);
        found.len() + m
    }
}

proof fn lemma_terms_recall_bound(
    store: StoreModel,
    scope: ScopeKey,
    query_terms: Seq<Seq<char>>,
    keep: spec_fn(NodeModel) -> bool,
    limit: int,
)
    requires
        0 <= limit,
    ensures
        store.terms_recall(scope, query_terms, keep, limit).len() <= query_terms.len()
            * store.cues.len(),
    decreases query_terms.len(),
{
    if query_terms.len() > 0 {
        lemma_terms_recall_bound(store, scope, query_terms.drop_last(), keep, limit);
        lemma_hits_bound(store, store.cues, scope, query_terms.last(), keep);
        lemma_first_of_ranked::<Hit, ByRecall>(
            store.cue_hits(store.cues, scope, query_terms.last(), keep),
            limit,
        );
        let n = query_terms.len() as int;
        let m = store.cues.len() as int;
        assert((n - 1) * m + m == n * m) by (nonlinear_arith);
    }
}

/// A memory with a cue under any of the terms that are asked about, be it the first of them or
/// not, is found as long as there is room for all that could be.
pub proof fn cued_memories_are_recalled(
    store: StoreModel,
    scope: ScopeKey,
    query_terms: Seq<Seq<char>>,
    keep: spec_fn(NodeModel) -> bool,
    limit: int,
    t: int,
    c: int,
) -> (i: int)
    requires
        store.cues.len() <= limit,
        query_terms.len() * store.cues.len() <= limit,
        0 <= t < query_terms.len(),
        0 <= c < store.cues.len(),
        store.cues[c].in_scope(scope),
        store.cues[c].term == query_terms[t],
        store.node(store.cues[c].node_id) is Some,
        keep(store.node(store.cues[c].node_id)->0),
    ensures
        0 <= i < store.recall(scope, query_terms, keep, limit).len(),
        store.recall(scope, query_terms, keep, limit)[i].id == store.cues[c].node_id,
{
    let all = store.terms_recall(scope, query_terms, keep, limit);
    let k = lemma_terms_recall_holds(store, scope, query_terms, keep, limit, t, c);
    let i = lemma_distinct_keeps(all, k);
    lemma_distinct_bound(all);
    lemma_terms_recall_bound(store, scope, query_terms, keep, limit);
    lemma_first_index(store.nodes, with_id(store.cues[c].node_id));
    i
}

// ---------------------------------------------------------------------------
// First citations
// ---------------------------------------------------------------------------
proof fn lemma_earliest(events: Seq<EventModel>)
    ensures
        earliest(events) is None <==> events.len() == 0,
        earliest(events) matches Some(first) ==> events.contains(first) && forall|i: int|
            0 <= i < events.len() ==> !ByObserved::before(#[trigger] events[i], first),
    decreases events.len(),
{
    if events.len() > 0 {
        let front = events.drop_last();
        lemma_earliest(front);
        let first = earliest(events)->0;
        assert(events[events.len() - 1] == events.last());
        if earliest(front) is Some {
            let best = earliest(front)->0;
            let k = choose|k: int| 0 <= k < front.len() && front[k] == best;
            assert(events[k] == best);
            assert forall|i: int| 0 <= i < events.len() implies !ByObserved::before(
                #[trigger] events[i],
                first,
            ) by {
                if i < front.len() {
                    assert(front[i] == events[i]);
                }
            }
        }
    }
}

/// The first event that a memory cites is an event of the ledger that it cites, and no event
/// that it cites was observed before it, nor entered before it where both were observed at one
/// time. A memory has a first event as soon as it cites any.
pub proof fn first_citations_are_the_earliest(
    store: StoreModel,
    node_id: Seq<char>,
    event: EventModel,
)
    ensures
        store.first_event(node_id) matches Some(first) ==> {
            &&& store.ledger.contains(first)
            &&& exists|row: int|
                0 <= row < store.spans.len() && (#[trigger] store.spans[row]).node_id == node_id
                    && store.spans[row].span == first.span()
        },
        store.ledger.contains(event) && (exists|row: int|
            0 <= row < store.spans.len() && (#[trigger] store.spans[row]).node_id == node_id
                && store.spans[row].span == event.span()) ==> {
            &&& store.first_event(node_id) is Some
            &&& store.first_event(node_id)->0.observed_at_unix_ms <= event.observed_at_unix_ms
            &&& store.first_event(node_id)->0.observed_at_unix_ms == event.observed_at_unix_ms
                ==> event_no(store.first_event(node_id)->0) <= event_no(event)
        },
{
    let test = cited_by(store.spans, node_id);
    let cited = store.ledger.filter(test);
    lemma_earliest(cited);
    if let Some(first) = store.first_event(node_id) {
        lemma_filter_contains(store.ledger, test, first);
        let row = choose|row: int|
            0 <= row < store.spans.len() && (is_citation(node_id, first.span()))(
                #[trigger] store.spans[row],
            );
        assert(store.spans[row].node_id == node_id && store.spans[row].span == first.span());
    }
    if store.ledger.contains(event) && exists|row: int|
        0 <= row < store.spans.len() && (#[trigger] store.spans[row]).node_id == node_id
            && store.spans[row].span == event.span() {
        let row = choose|row: int|
            0 <= row < store.spans.len() && (#[trigger] store.spans[row]).node_id == node_id
                && store.spans[row].span == event.span();
        assert((is_citation(node_id, event.span()))(store.spans[row]));
        lemma_filter_contains(store.ledger, test, event);
        let k = choose|k: int| 0 <= k < cited.len() && cited[k] == event;
        assert(!ByObserved::before(cited[k], store.first_event(node_id)->0));
    }
}

/// The citations of a memory are in the order of their numbers in the trace.
pub proof fn citations_are_in_order(
    store: StoreModel,
    node_id: Seq<char>,
    as_of: Option<i64>,
    i: int,
    j: int,
)
    requires
        0 <= i < j < store.citations(node_id, as_of).len(),
    ensures
        store.citations(node_id, as_of)[i].seq <= store.citations(node_id, as_of)[j].seq,
{
    let rows = store.spans.filter(citation_by(store.ledger, node_id, as_of));
    lemma_ranked_in_order::<NodeSpan, BySeq>(rows);
    let sorted = ranked::<NodeSpan, BySeq>(rows);
    assert(!BySeq::before(sorted[j], sorted[i]));
}

/// A memory cites only what was attached to it, and everything that was, when no time is asked
/// about.
pub proof fn citations_are_what_was_attached(
    store: StoreModel,
    node_id: Seq<char>,
    span: SpanModel,
)
    ensures
        store.citations(node_id, None).contains(span) <==> exists|row: int|
            0 <= row < store.spans.len() && (#[trigger] store.spans[row]).node_id == node_id
                && store.spans[row].span == span,
{
    let test = citation_by(store.ledger, node_id, None);
    let rows = store.spans.filter(test);
    let sorted = ranked::<NodeSpan, BySeq>(rows);
    let out = store.citations(node_id, None);
    if out.contains(span) {
        let k = choose|k: int| 0 <= k < out.len() && out[k] == span;
        assert(sorted.contains(sorted[k]));
        lemma_ranked_contains::<NodeSpan, BySeq>(rows, sorted[k]);
        lemma_filter_contains(store.spans, test, sorted[k]);
        let row = choose|row: int| 0 <= row < store.spans.len() && store.spans[row] == sorted[k];
        assert(store.spans[row].node_id == node_id && store.spans[row].span == span);
    }
    if exists|row: int|
        0 <= row < store.spans.len() && (#[trigger] store.spans[row]).node_id == node_id
            && store.spans[row].span == span {
        let row = choose|row: int|
            0 <= row < store.spans.len() && (#[trigger] store.spans[row]).node_id == node_id
                && store.spans[row].span == span;
        assert(store.spans.contains(store.spans[row]));
        lemma_filter_contains(store.spans, test, store.spans[row]);
        lemma_ranked_contains::<NodeSpan, BySeq>(rows, store.spans[row]);
        let k = choose|k: int| 0 <= k < sorted.len() && sorted[k] == store.spans[row];
        assert(out[k] == span);
    }
}

// ---------------------------------------------------------------------------
// Events that wait
// ---------------------------------------------------------------------------
/// A pass takes up events that wait, in the order in which they were observed and entered, and
/// leaves one that waits for a later pass only where it has taken its fill of no later ones.
pub proof fn passes_take_the_earliest_first(
    store: StoreModel,
    limit: usize,
    event: EventModel,
)
    ensures
        ({
            let r = pass_events(store, limit);
            &&& r.len() <= limit
            &&& r.contains(event) ==> store.ledger.contains(event)
                && event.projected_at_unix_ms is None
            &&& forall|i: int, j: int|
                0 <= i < j < r.len() ==> (#[trigger] r[i]).observed_at_unix_ms < (
                #[trigger] r[j]).observed_at_unix_ms || (r[i].observed_at_unix_ms
                    == r[j].observed_at_unix_ms && event_no(r[i]) <= event_no(r[j]))
            &&& store.ledger.contains(event) && event.projected_at_unix_ms is None && !r.contains(
                event,
            ) ==> r.len() == limit && forall|i: int|
                0 <= i < r.len() ==> (#[trigger] r[i]).observed_at_unix_ms
                    <= event.observed_at_unix_ms
        }),
{
    let waiting = store.ledger.filter(is_pending());
    let r = pass_events(store, limit);
    lemma_first_of_ranked::<LedgerEvent, ByObserved>(waiting, limit as int);
    lemma_filter_contains(store.ledger, is_pending(), event);
    if r.contains(event) {
        let k = choose|k: int| 0 <= k < r.len() && r[k] == event;
        assert(waiting.contains(r[k]));
    }
    assert forall|i: int, j: int| 0 <= i < j < r.len() implies (#[trigger] r[i]).observed_at_unix_ms
        < (#[trigger] r[j]).observed_at_unix_ms || (r[i].observed_at_unix_ms
        == r[j].observed_at_unix_ms && event_no(r[i]) <= event_no(r[j])) by {
        assert(!ByObserved::before(r[j], r[i]));
    }
    if waiting.contains(event) && !r.contains(event) {
        lemma_left_out::<LedgerEvent, ByObserved>(waiting, limit as int, event);
        assert forall|i: int| 0 <= i < r.len() implies (#[trigger] r[i]).observed_at_unix_ms
            <= event.observed_at_unix_ms by {
            assert(!ByObserved::before(event, r[i]));
        }
    }
}

// ---------------------------------------------------------------------------
// What a query sees of the graph
// ---------------------------------------------------------------------------
/// A query sees an edge only in its own scope; one that revises only from a memory that holds to
/// one that has ended, and any other only once it has been drawn. The edges that it ranks by lie
/// between memories that hold.
pub proof fn queries_see_edges_of_their_time(
    store: StoreModel,
    query: QueryModel,
    modes: Seq<MemoryMode>,
    at: i64,
    edge: EdgeModel,
)
    ensures
        ({
            let plan = store.plan(query, modes, at);
            let scope = query_scope(query);
            &&& plan.edges.contains(edge) ==> {
                &&& store.edges.contains(edge)
                &&& edge.tenant_id == query.scope.tenant_id
                &&& edge.project_id == query.scope.project_id
                &&& !edge.revises() ==> edge.created_at_unix_ms <= at
                &&& edge.revises() ==> exists|newer: int, older: int|
                    0 <= newer < plan.history.len() && 0 <= older < plan.history.len() && (
                    #[trigger] plan.history[newer]).id == edge.from_node_id && (
                    #[trigger] plan.history[older]).id == edge.to_node_id
                        && plan.history[newer].active_at(at) && plan.history[older].stale_at(at)
            }
            &&& store.edges.contains(edge) && edge.in_scope(scope) && !edge.revises()
                && edge.created_at_unix_ms <= at ==> plan.edges.contains(edge)
            &&& plan.ranking_edges.contains(edge) ==> plan.edges.contains(edge) && exists|
                from: int,
                to: int,
            |
                0 <= from < plan.active.len() && 0 <= to < plan.active.len() && (
                #[trigger] plan.active[from]).id == edge.from_node_id && (
                #[trigger] plan.active[to]).id == edge.to_node_id
        }),
{
    let plan = store.plan(query, modes, at);
    let scope = query_scope(query);
    let own = store.edges.filter(edge_in_scope(scope));
    lemma_filter_contains(store.edges, edge_in_scope(scope), edge);
    lemma_filter_contains(own, crate::graph::edge_seen(plan.history, at), edge);
    lemma_filter_contains(plan.edges, crate::graph::between(plan.active), edge);
    lemma_first_index(plan.history, with_id(edge.from_node_id));
    lemma_first_index(plan.history, with_id(edge.to_node_id));
    if plan.edges.contains(edge) && edge.revises() {
        let newer = first_index(plan.history, with_id(edge.from_node_id))->0;
        let older = first_index(plan.history, with_id(edge.to_node_id))->0;
        assert(plan.history[newer].id == edge.from_node_id);
        assert(plan.history[older].id == edge.to_node_id);
    }
    if plan.ranking_edges.contains(edge) {
        let from = choose|i: int|
            0 <= i < plan.active.len() && (with_id(edge.from_node_id))(#[trigger] plan.active[i]);
        let to = choose|i: int|
            0 <= i < plan.active.len() && (with_id(edge.to_node_id))(#[trigger] plan.active[i]);
        assert(plan.active[from].id == edge.from_node_id);
        assert(plan.active[to].id == edge.to_node_id);
    }
}

/// Where a query has terms, the memories that it starts from each have a cue under one of them,
/// in its scope; where it has none they are the latest. There are sixty-four at most, none of
/// them had not begun, and all of them are among what the query sees.
pub proof fn queries_start_from_their_terms(
    store: StoreModel,
    query: QueryModel,
    modes: Seq<MemoryMode>,
    at: i64,
    i: int,
) -> (r: (int, int, int))
    requires
        0 <= i < store.seeds_for(query, support_kinds(modes), at).len(),
    ensures
        ({
            let seeds = store.seeds_for(query, support_kinds(modes), at);
            let asked = terms_of(query.question);
            let (t, c, h) = r;
            &&& seeds.len() <= 64
            &&& seeds[i].valid_from_unix_ms <= at
            &&& asked.len() > 0 ==> {
                &&& 0 <= t < asked.len()
                &&& 0 <= c < store.cues.len()
                &&& store.cues[c].term == asked[t]
                &&& store.cues[c].node_id == seeds[i].id
                &&& store.cues[c].in_scope(query_scope(query))
            }
            &&& asked.len() == 0 ==> store.recent(
                query_scope(query),
                Some(at),
                support_kinds(modes),
                64,
            ) == seeds
            &&& 0 <= h < store.plan(query, modes, at).history.len()
            &&& store.plan(query, modes, at).history[h].id == seeds[i].id
        }),
{
    let kinds = support_kinds(modes);
    let seeds = store.seeds_for(query, kinds, at);
    let scope = query_scope(query);
    let latest = store.recent(scope, Some(at), kinds, 10_000);
    let h = lemma_seed_is_there(latest, seeds, i);
    if terms_of(query.question).len() == 0 {
        the_latest_memories_come_first(store, scope, Some(at), kinds, 64, seeds[i]);
        assert(seeds.contains(seeds[i]));
        (0, 0, h)
    } else {
        let (t, c) = recalled_memories_have_a_cue(
            store,
            scope,
            terms_of(query.question),
            seen_by(Some(at), kinds),
            64,
            i,
        );
        (t, c, h)
    }
}

proof fn lemma_seed_is_there(nodes: Seq<NodeModel>, seeds: Seq<NodeModel>, i: int) -> (h: int)
    requires
        0 <= i < seeds.len(),
    ensures
        0 <= h < with_seeds(nodes, seeds).len(),
        with_seeds(nodes, seeds)[h].id == seeds[i].id,
    decreases seeds.len(),
{
    let front = with_seeds(nodes, seeds.drop_last());
    if i < seeds.len() - 1 {
        assert(seeds.drop_last()[i] == seeds[i]);
        lemma_seed_is_there(nodes, seeds.drop_last(), i)
    } else if some_row(front, with_id(seeds.last().id)) {
        choose|h: int| 0 <= h < front.len() && (with_id(seeds.last().id))(#[trigger] front[h])
    } else {
        front.len() as int
    }
}

/// Of some places the first that the ledger knows tells the event.
pub proof fn the_first_known_place_tells_the_event(
    store: StoreModel,
    spans: Seq<SpanModel>,
    k: int,
)
    requires
        0 <= k <= spans.len(),
        forall|i: int| 0 <= i < k ==> store.event_at(#[trigger] spans[i]) is None,
        k < spans.len() ==> store.event_at(spans[k]) is Some,
    ensures
        store.event_of(spans) == (if k < spans.len() {
            store.event_at(spans[k])
        } else {
            None
        }),
    decreases spans.len(),
{
    if spans.len() > 0 {
        let front = spans.drop_last();
        assert forall|i: int| 0 <= i < k && i < front.len() implies store.event_at(
            #[trigger] front[i],
        ) is None by {
            assert(front[i] == spans[i]);
        }
        if k == spans.len() {
            the_first_known_place_tells_the_event(store, front, k - 1);
            assert(store.event_at(spans[k - 1]) is None);
        } else {
            if k < front.len() {
                assert(front[k] == spans[k]);
            }
            the_first_known_place_tells_the_event(store, front, k);
        }
    }
}

/// The event at a place is one that was observed there, and there is none only where no event
/// with a number was.
pub proof fn places_tell_their_event(store: StoreModel, span: SpanModel, k: int) -> (i: int)
    ensures
        store.event_at(span) matches Some(id) ==> 0 <= i < store.ledger.len()
            && store.ledger[i].span() == span && store.ledger[i].id == Some(id),
        wf(store) && 0 <= k < store.ledger.len() && store.ledger[k].span() == span
            ==> store.event_at(span) == store.ledger[k].id,
{
    let test = crate::store::at_span(span);
    lemma_first_index(store.ledger, test);
    if wf(store) && 0 <= k < store.ledger.len() && store.ledger[k].span() == span {
        assert(test(store.ledger[k]));
        assert(some_row(store.ledger, test));
        let i = first_index(store.ledger, test)->0;
        if i < k {
            assert(store.ledger[i].span() != store.ledger[k].span());
        } else if k < i {
            assert(store.ledger[k].span() != store.ledger[i].span());
        }
    }
    match first_index(store.ledger, test) {
        Some(i) => i,
        None => 0,
    }
}

/// Marking an event says of it when it was projected, and of no other event anything.
pub proof fn marks_are_put_on_one_event(store: StoreModel, event_id: i64, at: i64, i: int)
    requires
        0 <= i < store.ledger.len(),
    ensures
        ({
            let after = store.marked(event_id, at);
            &&& after.ledger.len() == store.ledger.len()
            &&& store.ledger[i].id == Some(event_id) ==> after.ledger[i] == (EventModel {
                projected_at_unix_ms: Some(at),
                ..store.ledger[i]
            })
            &&& store.ledger[i].id != Some(event_id) ==> after.ledger[i] == store.ledger[i]
            &&& after.nodes == store.nodes
            &&& after.edges == store.edges
        }),
{
}

/// Of two memories that begin at one time the one that the ledger came to know later is listed
/// first.
pub proof fn later_entries_break_ties(
    store: StoreModel,
    scope: ScopeKey,
    as_of: Option<i64>,
    kinds: Seq<MemoryNodeKind>,
    limit: int,
    i: int,
    j: int,
)
    requires
        0 <= limit,
        0 <= i < j < store.recent(scope, as_of, kinds, limit).len(),
    ensures
        ({
            let a = store.recent(scope, as_of, kinds, limit)[i];
            let b = store.recent(scope, as_of, kinds, limit)[j];
            let first = store.first_event(a.id);
            let second = store.first_event(b.id);
            a.valid_from_unix_ms == b.valid_from_unix_ms && first is Some && second is Some
                && first->0.id is Some && second->0.id is Some ==> first->0.id->0
                >= second->0.id->0
        }),
{
    let seen = store.nodes.filter(seen_in_scope(scope, as_of, kinds));
    let hits = store.plain_hits(seen);
    let first = at_most(ranked::<Hit, ByRecall>(hits), limit);
    lemma_first_of_ranked::<Hit, ByRecall>(hits, limit);
    assert(hits.contains(first[i]) && hits.contains(first[j]));
    let a = choose|k: int| 0 <= k < hits.len() && hits[k] == first[i];
    let b = choose|k: int| 0 <= k < hits.len() && hits[k] == first[j];
    assert(hits[a] == store.hit(seen[a], 0));
    assert(hits[b] == store.hit(seen[b], 0));
    assert(!ByRecall::before(first[j], first[i]));
}

/// Terms are served in their order: what is found under some terms comes before what is found
/// under those that follow them, and one term alone finds what has a cue under it.
pub proof fn earlier_terms_are_served_first(
    store: StoreModel,
    scope: ScopeKey,
    a: Seq<Seq<char>>,
    b: Seq<Seq<char>>,
    term: Seq<char>,
    keep: spec_fn(NodeModel) -> bool,
    limit: int,
)
    ensures
        store.terms_recall(scope, a + b, keep, limit) == store.terms_recall(scope, a, keep, limit)
            + store.terms_recall(scope, b, keep, limit),
        store.terms_recall(scope, seq![term], keep, limit) == store.term_recall(
            scope,
            term,
            keep,
            limit,
        ),
    decreases b.len(),
{
    assert(seq![term].drop_last() =~= Seq::empty());
    assert(store.terms_recall(scope, Seq::empty(), keep, limit) + store.term_recall(
        scope,
        term,
        keep,
        limit,
    ) =~= store.term_recall(scope, term, keep, limit));
    let found = store.terms_recall(scope, a, keep, limit);
    if b.len() == 0 {
        assert(a + b =~= a);
        assert(found + store.terms_recall(scope, b, keep, limit) =~= found);
    } else {
        earlier_terms_are_served_first(store, scope, a, b.drop_last(), term, keep, limit);
        assert((a + b).drop_last() =~= a + b.drop_last());
        assert((a + b).last() == b.last());
        assert(store.terms_recall(scope, a + b, keep, limit) =~= found + store.terms_recall(
            scope,
            b,
            keep,
            limit,
        ));
    }
}

/// Of memories with one identifier the first that was found stays where it was found.
pub proof fn what_was_found_first_stays(a: Seq<NodeModel>, b: Seq<NodeModel>)
    ensures
        distinct_nodes(a).is_prefix_of(distinct_nodes(a + b)),
        distinct_nodes(a).len() <= a.len(),
        a.len() > 0 ==> distinct_nodes(a).len() > 0 && distinct_nodes(a)[0] == a[0],
    decreases b.len(), a.len(),
{
    lemma_distinct_bound(a);
    if b.len() > 0 {
        what_was_found_first_stays(a, b.drop_last());
        assert((a + b).drop_last() =~= a + b.drop_last());
        let whole = distinct_nodes(a + b);
        let front = distinct_nodes(a + b.drop_last());
        let own = distinct_nodes(a);
        assert(own =~= whole.subrange(0, own.len() as int));
    } else {
        assert(a + b =~= a);
        if a.len() > 1 {
            what_was_found_first_stays(a.drop_last(), b);
            assert(a.drop_last() + b =~= a.drop_last());
        } else if a.len() == 1 {
            assert(a.drop_last() =~= Seq::empty());
            assert(distinct_nodes(a.drop_last()).len() == 0);
        }
    }
}

} // verus!
