//! What is answered about the past.
//!
//! An answer as of a time stands over later passes: it is the same before and after events are
//! projected that were observed after that time.
use vstd::prelude::*;

use crate::answer::{
    conflict_words, conflicts, follows, has_successor, shown_contradictions, shown_stale,
    stale_shown,
};
use crate::distill::Distiller;
use crate::error::MemoryResult;
use crate::graph::{
    between, edge_seen, evidence_among, evidence_of, planned_nodes_hold, query_scope,
    selected_evidence, with_seeds, PlanModel,
};
use crate::history::{
    appending_only_adds, event_kept, evolves, ledger_kept, node_kept, passes_keep_history, wf,
};
use crate::ledger::EventModel;
use crate::model::{
    EvidenceModel, MemoryMode, MemoryNodeKind, MemoryTier, QueryModel, RoutingModel, SpanModel,
};
use crate::order::{insert_ranked, ranked, Ranking};
use crate::passes::{
    allowed, events_run, pass_events, pass_happened, pass_problem, run_result, EventReplies,
    ProjectReport,
};
use crate::query::{
    accepted_evidence, answer_of, exploration_of, relevant_ids, walk_pool, walk_score,
    ReconstructionModel,
};
use crate::counting::lemma_pass_len;
use crate::recall::reads_stay_in_their_scope;
use crate::route::support_kinds;
use crate::rows::{CueModel, EdgeModel, NodeModel, NodeSpanModel, ScopeKey};
use crate::stability::{begun_after, begun_by, lemma_events_counted, old_cue, seen_then, untouched};
use crate::store::{
    at_span, citation_by, cited_by, distinct_nodes, earliest, edge_in_scope, hit_nodes, holding_at,
    is_citation, seen_by, seen_in_scope, with_id, ByRecall, Hit, HitModel, StoreModel,
};
use crate::table::{
    first_index, lemma_filter_contains, lemma_filter_none, lemma_filter_same, lemma_first_index,
    some_row,
};
use crate::text::{at_most, terms_of};

verus! {

// ---------------------------------------------------------------------------
// Nodes as they were seen
// ---------------------------------------------------------------------------
/// Some nodes as they are seen at a time.
pub open spec fn all_seen_then(nodes: Seq<NodeModel>, at: i64) -> Seq<NodeModel> {
    Seq::new(nodes.len(), |i: int| seen_then(nodes[i], at))
}

spec fn hit_then(hit: HitModel, at: i64) -> HitModel {
    HitModel { node: seen_then(hit.node, at), ..hit }
}

spec fn hits_then(hits: Seq<HitModel>, at: i64) -> Seq<HitModel> {
    Seq::new(hits.len(), |i: int| hit_then(hits[i], at))
}

proof fn lemma_hits_drop(hits: Seq<HitModel>, at: i64)
    requires
        hits.len() > 0,
    ensures
        hits_then(hits, at).drop_last() == hits_then(hits.drop_last(), at),
        hits_then(hits, at).last() == hit_then(hits.last(), at),
{
    assert(hits_then(hits, at).drop_last() =~= hits_then(hits.drop_last(), at));
}

proof fn lemma_insert_then(hits: Seq<HitModel>, hit: HitModel, at: i64)
    ensures
        hits_then(insert_ranked::<Hit, ByRecall>(hits, hit), at) == insert_ranked::<Hit, ByRecall>(
            hits_then(hits, at),
            hit_then(hit, at),
        ),
    decreases hits.len(),
{
    if hits.len() > 0 {
        lemma_hits_drop(hits, at);
        assert(ByRecall::before(hit, hits.last()) == ByRecall::before(
            hit_then(hit, at),
            hit_then(hits.last(), at),
        ));
    }
    if hits.len() > 0 && ByRecall::before(hit, hits.last()) {
        lemma_insert_then(hits.drop_last(), hit, at);
        let short = insert_ranked::<Hit, ByRecall>(hits.drop_last(), hit);
        assert(hits_then(short.push(hits.last()), at) =~= hits_then(short, at).push(
            hit_then(hits.last(), at),
        ));
    } else {
        assert(hits_then(hits.push(hit), at) =~= hits_then(hits, at).push(hit_then(hit, at)));
    }
}

proof fn lemma_ranked_then(hits: Seq<HitModel>, at: i64)
    ensures
        hits_then(ranked::<Hit, ByRecall>(hits), at) == ranked::<Hit, ByRecall>(
            hits_then(hits, at),
        ),
    decreases hits.len(),
{
    if hits.len() == 0 {
        assert(hits_then(ranked::<Hit, ByRecall>(hits), at) =~= ranked::<Hit, ByRecall>(
            hits_then(hits, at),
        ));
    } else {
        lemma_hits_drop(hits, at);
        lemma_ranked_then(hits.drop_last(), at);
        lemma_insert_then(ranked::<Hit, ByRecall>(hits.drop_last()), hits.last(), at);
    }
}

/// Hits that were seen alike lead to nodes that were seen alike.
proof fn lemma_listed_then(a: Seq<HitModel>, b: Seq<HitModel>, limit: int, at: i64)
    requires
        hits_then(a, at) == hits_then(b, at),
        0 <= limit,
    ensures
        all_seen_then(hit_nodes(at_most(ranked::<Hit, ByRecall>(a), limit)), at) == all_seen_then(
            hit_nodes(at_most(ranked::<Hit, ByRecall>(b), limit)),
            at,
        ),
{
    lemma_ranked_then(a, at);
    lemma_ranked_then(b, at);
    let x = ranked::<Hit, ByRecall>(a);
    let y = ranked::<Hit, ByRecall>(b);
    assert(x.len() == hits_then(x, at).len());
    assert(y.len() == hits_then(y, at).len());
    let p = all_seen_then(hit_nodes(at_most(x, limit)), at);
    let q = all_seen_then(hit_nodes(at_most(y, limit)), at);
    assert forall|i: int| 0 <= i < p.len() implies p[i] == q[i] by {
        assert(hits_then(x, at)[i] == hits_then(y, at)[i]);
    }
    assert(p =~= q);
}

// ---------------------------------------------------------------------------
// Events and citations
// ---------------------------------------------------------------------------
proof fn lemma_kept_filter(
    a: Seq<EventModel>,
    b: Seq<EventModel>,
    p: spec_fn(EventModel) -> bool,
    q: spec_fn(EventModel) -> bool,
)
    requires
        ledger_kept(a, b),
        forall|i: int| 0 <= i < a.len() ==> p(#[trigger] a[i]) == q(b[i]),
    ensures
        ledger_kept(a.filter(p), b.filter(q)),
    decreases a.len(),
{
    reveal(Seq::filter);
    if a.len() > 0 {
        let x = a.drop_last();
        let y = b.drop_last();
        assert forall|i: int| 0 <= i < x.len() implies event_kept(
            #[trigger] x[i],
            #[trigger] y[i],
        ) by {
            assert(event_kept(a[i], b[i]));
        }
        assert forall|i: int| 0 <= i < x.len() implies p(#[trigger] x[i]) == q(y[i]) by {
            assert(x[i] == a[i] && y[i] == b[i]);
        }
        lemma_kept_filter(x, y, p, q);
        let k = a.len() - 1;
        assert(p(a[k]) == q(b[k]));
        assert(event_kept(a[k], b[k]));
        let s = a.filter(p);
        let t = b.filter(q);
        assert forall|i: int| 0 <= i < s.len() implies event_kept(
            #[trigger] s[i],
            #[trigger] t[i],
        ) by {
            if i < x.filter(p).len() {
                assert(event_kept(x.filter(p)[i], y.filter(q)[i]));
            }
        }
    }
}

proof fn lemma_kept_earliest(a: Seq<EventModel>, b: Seq<EventModel>)
    requires
        ledger_kept(a, b),
    ensures
        match (earliest(a), earliest(b)) {
            (Some(x), Some(y)) => event_kept(x, y),
            (None, None) => true,
            _ => false,
        },
    decreases a.len(),
{
    if a.len() > 0 {
        let x = a.drop_last();
        let y = b.drop_last();
        assert forall|i: int| 0 <= i < x.len() implies event_kept(
            #[trigger] x[i],
            #[trigger] y[i],
        ) by {
            assert(event_kept(a[i], b[i]));
        }
        lemma_kept_earliest(x, y);
        assert(event_kept(a[a.len() - 1], b[b.len() - 1]));
    }
}

/// A node that had begun by a time has no namesake that begins later.
proof fn lemma_old_is_not_fresh(store: StoreModel, id: Seq<char>, at: i64)
    requires
        wf(store),
        some_row(store.nodes, begun_by(id, at)),
    ensures
        !some_row(store.nodes, begun_after(id, at)),
{
    let i = choose|i: int| 0 <= i < store.nodes.len() && (begun_by(id, at))(#[trigger] store.nodes[i]);
    if some_row(store.nodes, begun_after(id, at)) {
        let j = choose|j: int|
            0 <= j < store.nodes.len() && (begun_after(id, at))(#[trigger] store.nodes[j]);
        if i < j {
            assert(store.nodes[i].id != store.nodes[j].id);
        } else if j < i {
            assert(store.nodes[j].id != store.nodes[i].id);
        }
    }
}

/// A node that had begun in the tables before a write had begun in those after it.
proof fn lemma_old_stays_old(a: StoreModel, b: StoreModel, id: Seq<char>, at: i64)
    requires
        evolves(a, b),
        some_row(a.nodes, begun_by(id, at)),
    ensures
        some_row(b.nodes, begun_by(id, at)),
{
    let i = choose|i: int| 0 <= i < a.nodes.len() && (begun_by(id, at))(#[trigger] a.nodes[i]);
    assert(node_kept(a.nodes[i], b.nodes[i]));
    assert((begun_by(id, at))(b.nodes[i]));
}

proof fn lemma_own_spans(a: StoreModel, b: StoreModel, id: Seq<char>, at: i64, k: int)
    requires
        wf(b),
        evolves(a, b),
        untouched(a, b, at),
        some_row(a.nodes, begun_by(id, at)),
        a.spans.len() <= k < b.spans.len(),
    ensures
        b.spans[k].node_id != id,
{
    reveal(untouched);
    lemma_old_stays_old(a, b, id, at);
    lemma_old_is_not_fresh(b, id, at);
    assert(some_row(b.nodes, begun_after(b.spans[k].node_id, at)));
}

/// The first event that a node cites stays the same.
proof fn lemma_same_first_event(a: StoreModel, b: StoreModel, id: Seq<char>, at: i64)
    requires
        wf(b),
        evolves(a, b),
        untouched(a, b, at),
        some_row(a.nodes, begun_by(id, at)),
    ensures
        a.first_event_id(id) == b.first_event_id(id),
{
    let p = cited_by(a.spans, id);
    let q = cited_by(b.spans, id);
    assert forall|i: int| 0 <= i < a.ledger.len() implies p(#[trigger] a.ledger[i]) == q(
        b.ledger[i],
    ) by {
        assert(event_kept(a.ledger[i], b.ledger[i]));
        let span = a.ledger[i].span();
        assert(b.ledger[i].span() == span);
        let test = is_citation(id, span);
        if some_row(a.spans, test) {
            let k = choose|k: int| 0 <= k < a.spans.len() && test(#[trigger] a.spans[k]);
            assert(b.spans.take(a.spans.len() as int)[k] == a.spans[k]);
            assert(test(b.spans[k]));
        }
        if some_row(b.spans, test) {
            let k = choose|k: int| 0 <= k < b.spans.len() && test(#[trigger] b.spans[k]);
            if k >= a.spans.len() {
                lemma_own_spans(a, b, id, at, k);
            }
            assert(b.spans.take(a.spans.len() as int)[k] == a.spans[k]);
            assert(test(a.spans[k]));
        }
    }
    lemma_kept_filter(a.ledger, b.ledger, p, q);
    lemma_kept_earliest(a.ledger.filter(p), b.ledger.filter(q));
}

/// What a node cites, as far as it was observed by a time, stays the same.
proof fn lemma_same_citations(a: StoreModel, b: StoreModel, id: Seq<char>, at: i64)
    requires
        wf(b),
        evolves(a, b),
        untouched(a, b, at),
        some_row(a.nodes, begun_by(id, at)),
    ensures
        a.citations(id, Some(at)) == b.citations(id, Some(at)),
{
    let p = citation_by(a.ledger, id, Some(at));
    let q = citation_by(b.ledger, id, Some(at));
    let more = b.spans.skip(a.spans.len() as int);
    assert(b.spans =~= a.spans + more) by {
        assert(b.spans.take(a.spans.len() as int) + more =~= b.spans);
    }
    Seq::filter_distributes_over_add(a.spans, more, q);
    assert forall|i: int| 0 <= i < more.len() implies !q(#[trigger] more[i]) by {
        lemma_own_spans(a, b, id, at, a.spans.len() + i);
    }
    lemma_filter_none(more, q);
    assert forall|i: int| 0 <= i < a.spans.len() implies p(#[trigger] a.spans[i]) == q(a.spans[i]) by {
        lemma_same_place(a.ledger, b.ledger, a.spans[i].span);
    }
    lemma_filter_same(a.spans, p, q);
    assert(a.spans.filter(q) + Seq::<NodeSpanModel>::empty() =~= a.spans.filter(q));
}

proof fn lemma_same_place(a: Seq<EventModel>, b: Seq<EventModel>, span: SpanModel)
    requires
        ledger_kept(a, b),
    ensures
        first_index(a, at_span(span)) == first_index(b, at_span(span)),
        first_index(a, at_span(span)) matches Some(i) ==> 0 <= i < a.len()
            && a[i].observed_at_unix_ms == b[i].observed_at_unix_ms,
{
    let test = at_span(span);
    lemma_first_index(a, test);
    lemma_first_index(b, test);
    assert forall|i: int| 0 <= i < a.len() implies test(#[trigger] a[i]) == test(b[i]) by {
        assert(event_kept(a[i], b[i]));
    }
    if let Some(i) = first_index(a, test) {
        assert(event_kept(a[i], b[i]));
        assert(test(b[i]));
        if let Some(j) = first_index(b, test) {
            if j < i {
                assert(!test(a[j]));
            }
        }
    } else {
        if let Some(j) = first_index(b, test) {
            assert(test(a[j]));
        }
    }
}

// ---------------------------------------------------------------------------
// What a read finds
// ---------------------------------------------------------------------------
/// A write leaves what was seen at a time.
spec fn left(a: StoreModel, b: StoreModel, at: i64) -> bool {
    wf(a) && wf(b) && evolves(a, b) && untouched(a, b, at)
}

proof fn lemma_then_push(nodes: Seq<NodeModel>, node: NodeModel, at: i64)
    ensures
        all_seen_then(nodes.push(node), at) == all_seen_then(nodes, at).push(seen_then(node, at)),
{
    assert(all_seen_then(nodes.push(node), at) =~= all_seen_then(nodes, at).push(
        seen_then(node, at),
    ));
}

proof fn lemma_then_drop(nodes: Seq<NodeModel>, at: i64)
    requires
        nodes.len() > 0,
    ensures
        all_seen_then(nodes, at).drop_last() == all_seen_then(nodes.drop_last(), at),
        all_seen_then(nodes, at).last() == seen_then(nodes.last(), at),
{
    assert(all_seen_then(nodes, at).drop_last() =~= all_seen_then(nodes.drop_last(), at));
}

/// Nodes that were seen alike agree in everything but ends that lie later.
proof fn lemma_seen_alike(n: NodeModel, m: NodeModel, at: i64)
    requires
        seen_then(n, at) == seen_then(m, at),
    ensures
        m.id == n.id,
        m.text == n.text,
        m.kind == n.kind,
        m.token_estimate == n.token_estimate,
        m.valid_from_unix_ms == n.valid_from_unix_ms,
        m.active_at(at) == n.active_at(at),
        m.stale_at(at) == n.stale_at(at),
        n.stale_at(at) ==> m == n,
{
}

/// Keeping the nodes that meet a condition on what was seen, among nodes seen alike.
proof fn lemma_filter_then(
    n: Seq<NodeModel>,
    m: Seq<NodeModel>,
    p: spec_fn(NodeModel) -> bool,
    q: spec_fn(NodeModel) -> bool,
    at: i64,
)
    requires
        all_seen_then(n, at) == all_seen_then(m, at),
        forall|i: int| 0 <= i < n.len() ==> p(#[trigger] n[i]) == q(m[i]),
    ensures
        all_seen_then(n.filter(p), at) == all_seen_then(m.filter(q), at),
    decreases n.len(),
{
    reveal(Seq::filter);
    assert(n.len() == all_seen_then(n, at).len());
    assert(m.len() == all_seen_then(m, at).len());
    if n.len() > 0 {
        lemma_then_drop(n, at);
        lemma_then_drop(m, at);
        let x = n.drop_last();
        let y = m.drop_last();
        assert forall|i: int| 0 <= i < x.len() implies p(#[trigger] x[i]) == q(y[i]) by {
            assert(x[i] == n[i] && y[i] == m[i]);
        }
        lemma_filter_then(x, y, p, q, at);
        assert(p(n[n.len() - 1]) == q(m[n.len() - 1]));
        lemma_then_push(x.filter(p), n.last(), at);
        lemma_then_push(y.filter(q), m.last(), at);
    }
}

/// The nodes that had begun by a time and meet a condition are seen alike.
proof fn lemma_begun_then(
    n: Seq<NodeModel>,
    m: Seq<NodeModel>,
    test: spec_fn(NodeModel) -> bool,
    at: i64,
)
    requires
        n.len() <= m.len(),
        forall|i: int| 0 <= i < n.len() ==> (#[trigger] n[i]).valid_from_unix_ms
            == m[i].valid_from_unix_ms,
        forall|i: int|
            0 <= i < n.len() && n[i].valid_from_unix_ms <= at ==> seen_then(#[trigger] n[i], at)
                == seen_then(m[i], at),
        forall|i: int| n.len() <= i < m.len() ==> (#[trigger] m[i]).valid_from_unix_ms > at,
        forall|x: NodeModel| #[trigger] test(x) ==> x.valid_from_unix_ms <= at,
        forall|x: NodeModel, y: NodeModel|
            seen_then(x, at) == seen_then(y, at) ==> #[trigger] test(x) == #[trigger] test(y),
    ensures
        all_seen_then(n.filter(test), at) == all_seen_then(m.filter(test), at),
    decreases m.len(),
{
    reveal(Seq::filter);
    if m.len() > n.len() {
        let y = m.drop_last();
        assert forall|i: int| 0 <= i < n.len() implies (#[trigger] n[i]).valid_from_unix_ms
            == y[i].valid_from_unix_ms by {
            assert(y[i] == m[i]);
        }
        assert forall|i: int|
            0 <= i < n.len() && n[i].valid_from_unix_ms <= at implies seen_then(#[trigger] n[i], at)
            == seen_then(y[i], at) by {
            assert(y[i] == m[i]);
        }
        assert forall|i: int| n.len() <= i < y.len() implies (#[trigger] y[i]).valid_from_unix_ms
            > at by {
            assert(y[i] == m[i]);
        }
        lemma_begun_then(n, y, test, at);
        assert(m[m.len() - 1].valid_from_unix_ms > at);
    } else if n.len() > 0 {
        let x = n.drop_last();
        let y = m.drop_last();
        assert forall|i: int| 0 <= i < x.len() implies (#[trigger] x[i]).valid_from_unix_ms
            == y[i].valid_from_unix_ms by {
            assert(x[i] == n[i] && y[i] == m[i]);
        }
        assert forall|i: int|
            0 <= i < x.len() && x[i].valid_from_unix_ms <= at implies seen_then(#[trigger] x[i], at)
            == seen_then(y[i], at) by {
            assert(x[i] == n[i] && y[i] == m[i]);
        }
        lemma_begun_then(x, y, test, at);
        let k = n.len() - 1;
        assert(n[k].valid_from_unix_ms == m[k].valid_from_unix_ms);
        if n[k].valid_from_unix_ms <= at {
            assert(seen_then(n[k], at) == seen_then(m[k], at));
            assert(test(n[k]) == test(m[k]));
        }
        lemma_then_push(x.filter(test), n.last(), at);
        lemma_then_push(y.filter(test), m.last(), at);
    }
}

/// A node that was kept had begun by the time.
proof fn lemma_begun_row(store: StoreModel, node: NodeModel, at: i64)
    requires
        store.nodes.contains(node),
        node.valid_from_unix_ms <= at,
    ensures
        some_row(store.nodes, begun_by(node.id, at)),
{
    let k = choose|k: int| 0 <= k < store.nodes.len() && store.nodes[k] == node;
    assert((begun_by(node.id, at))(store.nodes[k]));
}

/// The latest nodes of a scope that had begun by a time are seen alike.
proof fn lemma_recent_then(
    a: StoreModel,
    b: StoreModel,
    scope: ScopeKey,
    kinds: Seq<MemoryNodeKind>,
    limit: int,
    at: i64,
)
    requires
        left(a, b, at),
        0 <= limit,
    ensures
        all_seen_then(a.recent(scope, Some(at), kinds, limit), at) == all_seen_then(
            b.recent(scope, Some(at), kinds, limit),
            at,
        ),
{
    reveal(untouched);
    let test = seen_in_scope(scope, Some(at), kinds);
    assert forall|i: int| 0 <= i < a.nodes.len() implies (#[trigger] a.nodes[i]).valid_from_unix_ms
        == b.nodes[i].valid_from_unix_ms by {
        assert(node_kept(a.nodes[i], b.nodes[i]));
    }
    lemma_begun_then(a.nodes, b.nodes, test, at);
    let x = a.nodes.filter(test);
    let y = b.nodes.filter(test);
    assert(x.len() == all_seen_then(x, at).len());
    assert(y.len() == all_seen_then(y, at).len());
    let p = a.plain_hits(x);
    let q = b.plain_hits(y);
    assert forall|i: int| 0 <= i < p.len() implies hit_then(p[i], at) == hit_then(q[i], at) by {
        lemma_then_at(x, y, i, at);
        assert(x.contains(x[i]));
        lemma_filter_contains(a.nodes, test, x[i]);
        lemma_begun_row(a, x[i], at);
        lemma_same_first_event(a, b, x[i].id, at);
    }
    assert(hits_then(p, at) =~= hits_then(q, at));
    lemma_listed_then(p, q, limit, at);
}

/// The node with an identifier that had begun by a time is seen alike.
proof fn lemma_node_then(a: StoreModel, b: StoreModel, id: Seq<char>, at: i64)
    requires
        left(a, b, at),
        some_row(a.nodes, begun_by(id, at)),
    ensures
        a.node(id) is Some,
        b.node(id) is Some,
        a.nodes.contains(a.node(id)->0),
        a.node(id)->0.id == id,
        seen_then(a.node(id)->0, at) == seen_then(b.node(id)->0, at),
{
    reveal(untouched);
    let k = choose|k: int| 0 <= k < a.nodes.len() && (begun_by(id, at))(#[trigger] a.nodes[k]);
    lemma_first_index(a.nodes, with_id(id));
    lemma_first_index(b.nodes, with_id(id));
    assert(node_kept(a.nodes[k], b.nodes[k]));
    assert((with_id(id))(a.nodes[k]));
    assert((with_id(id))(b.nodes[k]));
    let i = first_index(a.nodes, with_id(id))->0;
    let j = first_index(b.nodes, with_id(id))->0;
    if i < k {
        assert(a.nodes[i].id != a.nodes[k].id);
    }
    if j < k {
        assert(b.nodes[j].id != b.nodes[k].id);
    }
    assert(seen_then(a.nodes[k], at) == seen_then(b.nodes[k], at));
}

/// Only cues that lead to nodes begun by a time find something as of that time.
proof fn lemma_cue_hits_old(
    store: StoreModel,
    cues: Seq<CueModel>,
    scope: ScopeKey,
    term: Seq<char>,
    kinds: Seq<MemoryNodeKind>,
    at: i64,
)
    ensures
        store.cue_hits(cues, scope, term, seen_by(Some(at), kinds)) == store.cue_hits(
            cues.filter(old_cue(store.nodes, at)),
            scope,
            term,
            seen_by(Some(at), kinds),
        ),
    decreases cues.len(),
{
    reveal(Seq::filter);
    if cues.len() > 0 {
        let front = cues.drop_last();
        let cue = cues.last();
        lemma_cue_hits_old(store, front, scope, term, kinds, at);
        let kept = front.filter(old_cue(store.nodes, at));
        assert(kept.push(cue).drop_last() =~= kept);
        if !(old_cue(store.nodes, at))(cue) {
            lemma_first_index(store.nodes, with_id(cue.node_id));
            if let Some(i) = first_index(store.nodes, with_id(cue.node_id)) {
                assert(!(begun_by(cue.node_id, at))(store.nodes[i]));
            }
        }
    }
}

/// Cues that lead to nodes begun by a time find hits that are seen alike.
proof fn lemma_cue_hits_then(
    a: StoreModel,
    b: StoreModel,
    cues: Seq<CueModel>,
    scope: ScopeKey,
    term: Seq<char>,
    kinds: Seq<MemoryNodeKind>,
    at: i64,
)
    requires
        left(a, b, at),
        forall|i: int| 0 <= i < cues.len() ==> (old_cue(a.nodes, at))(#[trigger] cues[i]),
    ensures
        hits_then(a.cue_hits(cues, scope, term, seen_by(Some(at), kinds)), at) == hits_then(
            b.cue_hits(cues, scope, term, seen_by(Some(at), kinds)),
            at,
        ),
    decreases cues.len(),
{
    if cues.len() > 0 {
        let front = cues.drop_last();
        let cue = cues.last();
        let keep = seen_by(Some(at), kinds);
        assert forall|i: int| 0 <= i < front.len() implies (old_cue(a.nodes, at))(
            #[trigger] front[i],
        ) by {
            assert(front[i] == cues[i]);
        }
        lemma_cue_hits_then(a, b, front, scope, term, kinds, at);
        assert((old_cue(a.nodes, at))(cues[cues.len() - 1]));
        lemma_node_then(a, b, cue.node_id, at);
        lemma_same_first_event(a, b, cue.node_id, at);
        let n = a.node(cue.node_id)->0;
        let m = b.node(cue.node_id)->0;
        lemma_seen_alike(n, m, at);
        assert(keep(n) == keep(m));
        let x = a.cue_hits(front, scope, term, keep);
        let y = b.cue_hits(front, scope, term, keep);
        let p = a.hit(n, cue.rank);
        let q = b.hit(m, cue.rank);
        assert(hits_then(x.push(p), at) =~= hits_then(x, at).push(hit_then(p, at)));
        assert(hits_then(y.push(q), at) =~= hits_then(y, at).push(hit_then(q, at)));
    }
}

proof fn lemma_term_recall_then(
    a: StoreModel,
    b: StoreModel,
    scope: ScopeKey,
    term: Seq<char>,
    kinds: Seq<MemoryNodeKind>,
    limit: int,
    at: i64,
)
    requires
        left(a, b, at),
        0 <= limit,
    ensures
        all_seen_then(a.term_recall(scope, term, seen_by(Some(at), kinds), limit), at)
            == all_seen_then(b.term_recall(scope, term, seen_by(Some(at), kinds), limit), at),
{
    let keep = seen_by(Some(at), kinds);
    lemma_cue_hits_old(a, a.cues, scope, term, kinds, at);
    lemma_cue_hits_old(b, b.cues, scope, term, kinds, at);
    let old = a.cues.filter(old_cue(a.nodes, at));
    assert(b.cues.filter(old_cue(b.nodes, at)) == old) by {
        reveal(untouched);
    }
    assert forall|i: int| 0 <= i < old.len() implies (old_cue(a.nodes, at))(#[trigger] old[i]) by {
        assert(old.contains(old[i]));
        lemma_filter_contains(a.cues, old_cue(a.nodes, at), old[i]);
    }
    lemma_cue_hits_then(a, b, old, scope, term, kinds, at);
    lemma_listed_then(
        a.cue_hits(a.cues, scope, term, keep),
        b.cue_hits(b.cues, scope, term, keep),
        limit,
        at,
    );
}

proof fn lemma_terms_recall_then(
    a: StoreModel,
    b: StoreModel,
    scope: ScopeKey,
    query_terms: Seq<Seq<char>>,
    kinds: Seq<MemoryNodeKind>,
    limit: int,
    at: i64,
)
    requires
        left(a, b, at),
        0 <= limit,
    ensures
        all_seen_then(a.terms_recall(scope, query_terms, seen_by(Some(at), kinds), limit), at)
            == all_seen_then(
            b.terms_recall(scope, query_terms, seen_by(Some(at), kinds), limit),
            at,
        ),
    decreases query_terms.len(),
{
    if query_terms.len() > 0 {
        let keep = seen_by(Some(at), kinds);
        let front = query_terms.drop_last();
        lemma_terms_recall_then(a, b, scope, front, kinds, limit, at);
        lemma_term_recall_then(a, b, scope, query_terms.last(), kinds, limit, at);
        lemma_then_joined(
            a.terms_recall(scope, front, keep, limit),
            a.term_recall(scope, query_terms.last(), keep, limit),
            at,
        );
        lemma_then_joined(
            b.terms_recall(scope, front, keep, limit),
            b.term_recall(scope, query_terms.last(), keep, limit),
            at,
        );
    }
}

proof fn lemma_then_joined(n: Seq<NodeModel>, m: Seq<NodeModel>, at: i64)
    ensures
        all_seen_then(n + m, at) == all_seen_then(n, at) + all_seen_then(m, at),
{
    assert(all_seen_then(n + m, at) =~= all_seen_then(n, at) + all_seen_then(m, at));
}

proof fn lemma_then_at(n: Seq<NodeModel>, m: Seq<NodeModel>, i: int, at: i64)
    requires
        all_seen_then(n, at) == all_seen_then(m, at),
        0 <= i < n.len(),
    ensures
        i < m.len(),
        seen_then(n[i], at) == seen_then(m[i], at),
        m[i].id == n[i].id,
{
    assert(n.len() == all_seen_then(n, at).len());
    assert(m.len() == all_seen_then(m, at).len());
    assert(all_seen_then(n, at)[i] == seen_then(n[i], at));
    assert(all_seen_then(m, at)[i] == seen_then(m[i], at));
    lemma_seen_alike(n[i], m[i], at);
}

/// Nodes that were seen alike have the same identifiers.
proof fn lemma_same_ids(n: Seq<NodeModel>, m: Seq<NodeModel>, id: Seq<char>, at: i64)
    requires
        all_seen_then(n, at) == all_seen_then(m, at),
    ensures
        n.len() == m.len(),
        some_row(n, with_id(id)) == some_row(m, with_id(id)),
        first_index(n, with_id(id)) == first_index(m, with_id(id)),
        first_index(n, with_id(id)) matches Some(i) ==> 0 <= i < n.len() && seen_then(n[i], at)
            == seen_then(m[i], at),
    decreases n.len(),
{
    assert(n.len() == all_seen_then(n, at).len());
    assert(m.len() == all_seen_then(m, at).len());
    let test = with_id(id);
    assert forall|i: int| 0 <= i < n.len() implies test(#[trigger] n[i]) == test(m[i]) by {
        lemma_then_at(n, m, i, at);
    }
    lemma_first_index(n, test);
    lemma_first_index(m, test);
    if let Some(i) = first_index(n, test) {
        lemma_then_at(n, m, i, at);
        assert(test(m[i]));
        if let Some(j) = first_index(m, test) {
            if j < i {
                assert(!test(n[j]));
            }
        }
    } else {
        if let Some(j) = first_index(m, test) {
            assert(!test(n[j]));
        }
    }
    if some_row(n, test) {
        let i = choose|i: int| 0 <= i < n.len() && test(#[trigger] n[i]);
        assert(test(m[i]));
    }
    if some_row(m, test) {
        let i = choose|i: int| 0 <= i < m.len() && test(#[trigger] m[i]);
        assert(test(n[i]) == test(m[i]));
    }
}

proof fn lemma_distinct_then(n: Seq<NodeModel>, m: Seq<NodeModel>, at: i64)
    requires
        all_seen_then(n, at) == all_seen_then(m, at),
    ensures
        all_seen_then(distinct_nodes(n), at) == all_seen_then(distinct_nodes(m), at),
    decreases n.len(),
{
    assert(n.len() == all_seen_then(n, at).len());
    assert(m.len() == all_seen_then(m, at).len());
    if n.len() > 0 {
        lemma_then_drop(n, at);
        lemma_then_drop(m, at);
        lemma_distinct_then(n.drop_last(), m.drop_last(), at);
        let x = distinct_nodes(n.drop_last());
        let y = distinct_nodes(m.drop_last());
        lemma_seen_alike(n.last(), m.last(), at);
        lemma_same_ids(x, y, n.last().id, at);
        lemma_then_push(x, n.last(), at);
        lemma_then_push(y, m.last(), at);
    }
}

proof fn lemma_at_most_then(n: Seq<NodeModel>, m: Seq<NodeModel>, limit: int, at: i64)
    requires
        all_seen_then(n, at) == all_seen_then(m, at),
        0 <= limit,
    ensures
        all_seen_then(at_most(n, limit), at) == all_seen_then(at_most(m, limit), at),
{
    assert(n.len() == all_seen_then(n, at).len());
    assert(m.len() == all_seen_then(m, at).len());
    assert(all_seen_then(at_most(n, limit), at) =~= at_most(all_seen_then(n, at), limit));
    assert(all_seen_then(at_most(m, limit), at) =~= at_most(all_seen_then(m, at), limit));
}

proof fn lemma_with_seeds_then(
    n: Seq<NodeModel>,
    m: Seq<NodeModel>,
    seeds: Seq<NodeModel>,
    others: Seq<NodeModel>,
    at: i64,
)
    requires
        all_seen_then(n, at) == all_seen_then(m, at),
        all_seen_then(seeds, at) == all_seen_then(others, at),
    ensures
        all_seen_then(with_seeds(n, seeds), at) == all_seen_then(with_seeds(m, others), at),
    decreases seeds.len(),
{
    assert(seeds.len() == all_seen_then(seeds, at).len());
    assert(others.len() == all_seen_then(others, at).len());
    if seeds.len() > 0 {
        lemma_then_drop(seeds, at);
        lemma_then_drop(others, at);
        lemma_with_seeds_then(n, m, seeds.drop_last(), others.drop_last(), at);
        let x = with_seeds(n, seeds.drop_last());
        let y = with_seeds(m, others.drop_last());
        lemma_seen_alike(seeds.last(), others.last(), at);
        lemma_same_ids(x, y, seeds.last().id, at);
        lemma_then_push(x, seeds.last(), at);
        lemma_then_push(y, others.last(), at);
    }
}

/// What a query has to go by is seen alike.
proof fn lemma_history_then(
    a: StoreModel,
    b: StoreModel,
    query: QueryModel,
    modes: Seq<MemoryMode>,
    at: i64,
)
    requires
        left(a, b, at),
    ensures
        all_seen_then(a.history_for(query, modes, at), at) == all_seen_then(
            b.history_for(query, modes, at),
            at,
        ),
{
    let scope = query_scope(query);
    let kinds = support_kinds(modes);
    let keep = seen_by(Some(at), kinds);
    let found = terms_of(query.question);
    lemma_recent_then(a, b, scope, kinds, 10_000, at);
    if found.len() == 0 {
        lemma_recent_then(a, b, scope, kinds, 64, at);
    } else {
        lemma_terms_recall_then(a, b, scope, found, kinds, 64, at);
        let x = a.terms_recall(scope, found, keep, 64);
        let y = b.terms_recall(scope, found, keep, 64);
        lemma_distinct_then(x, y, at);
        lemma_at_most_then(distinct_nodes(x), distinct_nodes(y), 64, at);
    }
    lemma_with_seeds_then(
        a.recent(scope, Some(at), kinds, 10_000),
        b.recent(scope, Some(at), kinds, 10_000),
        a.seeds_for(query, kinds, at),
        b.seeds_for(query, kinds, at),
        at,
    );
}

// ---------------------------------------------------------------------------
// What is answered
// ---------------------------------------------------------------------------
/// Two plans show the same: their nodes agree in everything but ends that lie later than their
/// time, and their edges are the same.
pub open spec fn same_sight(p: PlanModel, q: PlanModel) -> bool {
    &&& q.as_of_unix_ms == p.as_of_unix_ms
    &&& q.modes == p.modes
    &&& all_seen_then(q.history, p.as_of_unix_ms) == all_seen_then(p.history, p.as_of_unix_ms)
    &&& all_seen_then(q.active, p.as_of_unix_ms) == all_seen_then(p.active, p.as_of_unix_ms)
    &&& q.edges == p.edges
    &&& q.ranking_edges == p.ranking_edges
}

/// An edge is seen alike among nodes that are seen alike.
proof fn lemma_edge_then(n: Seq<NodeModel>, m: Seq<NodeModel>, edge: EdgeModel, at: i64)
    requires
        all_seen_then(n, at) == all_seen_then(m, at),
    ensures
        (edge_seen(n, at))(edge) == (edge_seen(m, at))(edge),
        (between(n))(edge) == (between(m))(edge),
        conflict_words(edge, n) == conflict_words(edge, m),
{
    lemma_same_ids(n, m, edge.from_node_id, at);
    lemma_same_ids(n, m, edge.to_node_id, at);
    if let Some(i) = first_index(n, with_id(edge.from_node_id)) {
        lemma_seen_alike(n[i], m[i], at);
    }
    if let Some(i) = first_index(n, with_id(edge.to_node_id)) {
        lemma_seen_alike(n[i], m[i], at);
    }
}

/// No edge that a write added is seen at a time before it.
proof fn lemma_new_edge_unseen(
    a: StoreModel,
    b: StoreModel,
    query: QueryModel,
    modes: Seq<MemoryMode>,
    at: i64,
    k: int,
)
    requires
        left(a, b, at),
        a.edges.len() <= k < b.edges.len(),
    ensures
        !(edge_seen(b.history_for(query, modes, at), at))(b.edges[k]),
{
    reveal(untouched);
    let history = b.history_for(query, modes, at);
    let edge = b.edges[k];
    assert(edge.created_at_unix_ms > at);
    if edge.revises() {
        let from = edge.from_node_id;
        assert(some_row(b.nodes, begun_after(from, at)));
        lemma_first_index(history, with_id(from));
        if let Some(i) = first_index(history, with_id(from)) {
            assert(b.plan(query, modes, at).history.contains(history[i]));
            reads_stay_in_their_scope(b, query, modes, at, history[i]);
            lemma_begun_row(b, history[i], at);
            lemma_old_is_not_fresh(b, from, at);
        }
    }
}

/// What a query sees of the graph as of a time is left by later writes.
proof fn lemma_plan_then(
    a: StoreModel,
    b: StoreModel,
    query: QueryModel,
    modes: Seq<MemoryMode>,
    at: i64,
)
    requires
        left(a, b, at),
    ensures
        same_sight(a.plan(query, modes, at), b.plan(query, modes, at)),
{
    lemma_history_then(a, b, query, modes, at);
    let n = a.history_for(query, modes, at);
    let m = b.history_for(query, modes, at);
    assert forall|i: int| 0 <= i < n.len() implies (holding_at(at))(#[trigger] n[i]) == (
    holding_at(at))(m[i]) by {
        lemma_then_at(n, m, i, at);
        lemma_seen_alike(n[i], m[i], at);
    }
    lemma_filter_then(n, m, holding_at(at), holding_at(at), at);
    let x = n.filter(holding_at(at));
    let y = m.filter(holding_at(at));
    let more = b.edges.skip(a.edges.len() as int);
    assert(b.edges =~= a.edges + more) by {
        assert(b.edges.take(a.edges.len() as int) + more =~= b.edges);
    }
    let scope = edge_in_scope(query_scope(query));
    let seen = edge_seen(m, at);
    Seq::filter_distributes_over_add(a.edges, more, scope);
    let old = a.edges.filter(scope);
    let new = more.filter(scope);
    Seq::filter_distributes_over_add(old, new, seen);
    assert forall|i: int| 0 <= i < new.len() implies !seen(#[trigger] new[i]) by {
        assert(new.contains(new[i]));
        lemma_filter_contains(more, scope, new[i]);
        let k = choose|k: int| 0 <= k < more.len() && more[k] == new[i];
        lemma_new_edge_unseen(a, b, query, modes, at, a.edges.len() + k);
    }
    lemma_filter_none(new, seen);
    assert forall|i: int| 0 <= i < old.len() implies (edge_seen(n, at))(#[trigger] old[i]) == seen(
        old[i],
    ) by {
        lemma_edge_then(n, m, old[i], at);
    }
    lemma_filter_same(old, edge_seen(n, at), seen);
    assert(old.filter(seen) + Seq::<EdgeModel>::empty() =~= old.filter(seen));
    let edges = a.plan(query, modes, at).edges;
    assert(b.plan(query, modes, at).edges == edges);
    assert forall|i: int| 0 <= i < edges.len() implies (between(x))(#[trigger] edges[i]) == (
    between(y))(edges[i]) by {
        lemma_edge_then(x, y, edges[i], at);
    }
    lemma_filter_same(edges, between(x), between(y));
}

/// The evidence among nodes that are seen alike is the same.
proof fn lemma_evidence_then(
    a: StoreModel,
    b: StoreModel,
    modes: Seq<MemoryMode>,
    at: i64,
    n: Seq<NodeModel>,
    m: Seq<NodeModel>,
    scores: Seq<Option<u32>>,
)
    requires
        left(a, b, at),
        all_seen_then(n, at) == all_seen_then(m, at),
        forall|i: int|
            0 <= i < n.len() ==> a.nodes.contains(#[trigger] n[i]) && n[i].valid_from_unix_ms <= at,
    ensures
        evidence_among(a, modes, at, n, scores) == evidence_among(b, modes, at, m, scores),
        forall|i: int, score: u32|
            0 <= i < n.len() ==> #[trigger] evidence_of(a, n[i], score, at) == evidence_of(
                b,
                m[i],
                score,
                at,
            ),
    decreases n.len(),
{
    assert(n.len() == all_seen_then(n, at).len());
    assert(m.len() == all_seen_then(m, at).len());
    assert forall|i: int, score: u32| 0 <= i < n.len() implies #[trigger] evidence_of(
        a,
        n[i],
        score,
        at,
    ) == evidence_of(b, m[i], score, at) by {
        lemma_then_at(n, m, i, at);
        lemma_seen_alike(n[i], m[i], at);
        lemma_begun_row(a, n[i], at);
        lemma_same_citations(a, b, n[i].id, at);
    }
    if n.len() > 0 {
        lemma_then_drop(n, at);
        lemma_then_drop(m, at);
        let x = n.drop_last();
        assert forall|i: int| 0 <= i < x.len() implies a.nodes.contains(#[trigger] x[i])
            && x[i].valid_from_unix_ms <= at by {
            assert(x[i] == n[i]);
        }
        lemma_evidence_then(a, b, modes, at, x, m.drop_last(), scores);
        let k = n.len() - 1;
        lemma_seen_alike(n[k], m[k], at);
        if let Some(score) = crate::graph::score_at(scores, k as int) {
            assert(evidence_of(a, n[k], score, at) == evidence_of(b, m[k], score, at));
        }
    }
}

/// The contradictions among edges, told by nodes that are seen alike, are the same.
proof fn lemma_conflicts_then(
    edges: Seq<EdgeModel>,
    ids: Seq<Seq<char>>,
    n: Seq<NodeModel>,
    m: Seq<NodeModel>,
    at: i64,
)
    requires
        all_seen_then(n, at) == all_seen_then(m, at),
    ensures
        conflicts(edges, ids, n) == conflicts(edges, ids, m),
    decreases edges.len(),
{
    if edges.len() > 0 {
        lemma_conflicts_then(edges.drop_last(), ids, n, m, at);
        lemma_edge_then(n, m, edges.last(), at);
    }
}

/// A node has a later version that holds alike among nodes that are seen alike.
proof fn lemma_successor_then(n: Seq<NodeModel>, m: Seq<NodeModel>, node: NodeModel, at: i64)
    requires
        all_seen_then(n, at) == all_seen_then(m, at),
    ensures
        has_successor(n, node, at) == has_successor(m, node, at),
{
    if let Some(closed) = node.valid_to_unix_ms {
        let test = follows(node, closed, at);
        assert(n.len() == all_seen_then(n, at).len());
        assert(m.len() == all_seen_then(m, at).len());
        assert forall|i: int| 0 <= i < n.len() implies test(#[trigger] n[i]) == test(m[i]) by {
            lemma_then_at(n, m, i, at);
            lemma_seen_alike(n[i], m[i], at);
        }
        if some_row(n, test) {
            let i = choose|i: int| 0 <= i < n.len() && test(#[trigger] n[i]);
            assert(test(m[i]));
        }
        if some_row(m, test) {
            let i = choose|i: int| 0 <= i < m.len() && test(#[trigger] m[i]);
            assert(test(n[i]) == test(m[i]));
        }
    }
}

/// Nodes that are seen alike, and are all closed, are the same.
proof fn lemma_closed_then(n: Seq<NodeModel>, m: Seq<NodeModel>, at: i64)
    requires
        all_seen_then(n, at) == all_seen_then(m, at),
        forall|i: int| 0 <= i < n.len() ==> (#[trigger] n[i]).stale_at(at),
    ensures
        n == m,
{
    assert(n.len() == all_seen_then(n, at).len());
    assert(m.len() == all_seen_then(m, at).len());
    assert forall|i: int| 0 <= i < n.len() implies n[i] == m[i] by {
        lemma_then_at(n, m, i, at);
        lemma_seen_alike(n[i], m[i], at);
    }
    assert(n =~= m);
}

/// The stale premises among nodes that are seen alike are the same.
proof fn lemma_stale_then(
    query: QueryModel,
    n: Seq<NodeModel>,
    m: Seq<NodeModel>,
    ids: Seq<Seq<char>>,
    older: Seq<Seq<char>>,
    at: i64,
)
    requires
        all_seen_then(n, at) == all_seen_then(m, at),
    ensures
        shown_stale(query, n, ids, older, at) == shown_stale(query, m, ids, older, at),
{
    let p = stale_shown(query, n, ids, older, at);
    let q = stale_shown(query, m, ids, older, at);
    assert forall|i: int| 0 <= i < n.len() implies p(#[trigger] n[i]) == q(m[i]) by {
        lemma_then_at(n, m, i, at);
        lemma_seen_alike(n[i], m[i], at);
        lemma_successor_then(n, m, n[i], at);
    }
    lemma_filter_then(n, m, p, q, at);
    let x = n.filter(p);
    assert forall|i: int| 0 <= i < x.len() implies (#[trigger] x[i]).stale_at(at) by {
        assert(x.contains(x[i]));
        lemma_filter_contains(n, p, x[i]);
    }
    lemma_closed_then(x, m.filter(q), at);
}

/// The same evidence gives the same answer from plans that show the same.
proof fn lemma_answer_then(
    query: QueryModel,
    p: PlanModel,
    q: PlanModel,
    evidence: Seq<EvidenceModel>,
    tier: MemoryTier,
    routing: RoutingModel,
    reconstruction: Option<ReconstructionModel>,
)
    requires
        same_sight(p, q),
    ensures
        answer_of(query, q, evidence, tier, routing, reconstruction) == answer_of(
            query,
            p,
            evidence,
            tier,
            routing,
            reconstruction,
        ),
{
    let at = p.as_of_unix_ms;
    let ids = crate::answer::evidence_ids(evidence);
    lemma_conflicts_then(p.edges, ids, p.history, q.history, at);
    let told = shown_contradictions(p.edges, ids, p.history);
    lemma_stale_then(query, p.history, q.history, ids, crate::answer::older_ids(told), at);
}

/// A walk explores the same from plans that show the same.
proof fn lemma_exploration_then(
    query: QueryModel,
    modes: Seq<MemoryMode>,
    n: Seq<NodeModel>,
    m: Seq<NodeModel>,
    scores: Seq<Option<u32>>,
    ids: Seq<Seq<char>>,
    at: i64,
)
    requires
        all_seen_then(n, at) == all_seen_then(m, at),
    ensures
        walk_pool(modes, n, scores, ids) == walk_pool(modes, m, scores, ids),
        relevant_ids(query.question, modes, n) == relevant_ids(query.question, modes, m),
    decreases n.len(),
{
    assert(n.len() == all_seen_then(n, at).len());
    assert(m.len() == all_seen_then(m, at).len());
    if n.len() > 0 {
        lemma_then_drop(n, at);
        lemma_then_drop(m, at);
        lemma_exploration_then(query, modes, n.drop_last(), m.drop_last(), scores, ids, at);
        lemma_seen_alike(n.last(), m.last(), at);
    }
}

/// Accepted nodes are the same evidence from plans that show the same.
proof fn lemma_accepted_then(
    a: StoreModel,
    b: StoreModel,
    p: PlanModel,
    q: PlanModel,
    scores: Seq<Option<u32>>,
    accepted: Seq<Seq<char>>,
)
    requires
        left(a, b, p.as_of_unix_ms),
        same_sight(p, q),
        forall|i: int|
            0 <= i < p.active.len() ==> a.nodes.contains(#[trigger] p.active[i])
                && p.active[i].valid_from_unix_ms <= p.as_of_unix_ms,
    ensures
        accepted_evidence(a, p, scores, accepted) == accepted_evidence(b, q, scores, accepted),
    decreases accepted.len(),
{
    if accepted.len() > 0 {
        let at = p.as_of_unix_ms;
        lemma_accepted_then(a, b, p, q, scores, accepted.drop_last());
        lemma_same_ids(p.active, q.active, accepted.last(), at);
        lemma_evidence_then(a, b, p.modes, at, p.active, q.active, scores);
        if let Some(i) = first_index(p.active, with_id(accepted.last())) {
            let score = walk_score(scores, i);
            assert(evidence_of(a, p.active[i], score, at) == evidence_of(
                b,
                q.active[i],
                score,
                at,
            ));
        }
    }
}

/// What a query that is planned as of a time gives before a write and after it: the same view of
/// the graph, the same evidence for the same scores, the same answer from the same evidence, and
/// the same reconstruction for the same walk.
pub open spec fn same_answers(
    before: StoreModel,
    after: StoreModel,
    query: QueryModel,
    modes: Seq<MemoryMode>,
    at: i64,
) -> bool {
    let p = before.plan(query, modes, at);
    let q = after.plan(query, modes, at);
    &&& same_sight(p, q)
    &&& forall|scores: Seq<Option<u32>>, max_tokens: u32|
        #[trigger] selected_evidence(after, q, scores, max_tokens) == selected_evidence(
            before,
            p,
            scores,
            max_tokens,
        )
    &&& forall|
        evidence: Seq<EvidenceModel>,
        tier: MemoryTier,
        routing: RoutingModel,
        reconstruction: Option<ReconstructionModel>,
    |
        #[trigger] answer_of(query, q, evidence, tier, routing, reconstruction) == answer_of(
            query,
            p,
            evidence,
            tier,
            routing,
            reconstruction,
        )
    &&& forall|scores: Seq<Option<u32>>, evidence: Seq<EvidenceModel>|
        #[trigger] exploration_of(query, q, scores, evidence) == exploration_of(
            query,
            p,
            scores,
            evidence,
        )
    &&& forall|scores: Seq<Option<u32>>, accepted: Seq<Seq<char>>|
        #[trigger] accepted_evidence(after, q, scores, accepted) == accepted_evidence(
            before,
            p,
            scores,
            accepted,
        )
}

proof fn lemma_same_answers(
    a: StoreModel,
    b: StoreModel,
    query: QueryModel,
    modes: Seq<MemoryMode>,
    at: i64,
)
    requires
        left(a, b, at),
    ensures
        same_answers(a, b, query, modes, at),
{
    let p = a.plan(query, modes, at);
    let q = b.plan(query, modes, at);
    lemma_plan_then(a, b, query, modes, at);
    assert forall|i: int| 0 <= i < p.active.len() implies a.nodes.contains(#[trigger] p.active[i])
        && p.active[i].valid_from_unix_ms <= at by {
        planned_nodes_hold(a, query, modes, at, i);
        reads_stay_in_their_scope(a, query, modes, at, p.active[i]);
    }
    assert forall|scores: Seq<Option<u32>>, max_tokens: u32| #[trigger]
        selected_evidence(b, q, scores, max_tokens) == selected_evidence(
            a,
            p,
            scores,
            max_tokens,
        ) by {
        lemma_evidence_then(a, b, modes, at, p.active, q.active, scores);
    }
    assert forall|
        evidence: Seq<EvidenceModel>,
        tier: MemoryTier,
        routing: RoutingModel,
        reconstruction: Option<ReconstructionModel>,
    | #[trigger]
        answer_of(query, q, evidence, tier, routing, reconstruction) == answer_of(
            query,
            p,
            evidence,
            tier,
            routing,
            reconstruction,
        ) by {
        lemma_answer_then(query, p, q, evidence, tier, routing, reconstruction);
    }
    assert forall|scores: Seq<Option<u32>>, evidence: Seq<EvidenceModel>| #[trigger]
        exploration_of(query, q, scores, evidence) == exploration_of(
            query,
            p,
            scores,
            evidence,
        ) by {
        let ids = crate::answer::evidence_ids(evidence);
        lemma_exploration_then(query, modes, p.active, q.active, scores, ids, at);
    }
    assert forall|scores: Seq<Option<u32>>, accepted: Seq<Seq<char>>| #[trigger]
        accepted_evidence(b, q, scores, accepted) == accepted_evidence(
            a,
            p,
            scores,
            accepted,
        ) by {
        lemma_accepted_then(a, b, p, q, scores, accepted);
    }
}

/// A pass over events that were all observed after a time leaves every answer as of that time:
/// what is seen of the graph, what it cites, what contradicts it and what is stale about it. This
/// holds whatever the distiller replies, and where an error ends the pass.
pub proof fn answers_stand_over_later_passes<D: Distiller>(
    distiller: D,
    before: StoreModel,
    after: StoreModel,
    limit: usize,
    now: i64,
    r: MemoryResult<ProjectReport>,
    query: QueryModel,
    modes: Seq<MemoryMode>,
    at: i64,
)
    requires
        wf(before),
        pass_happened(distiller, before, after, limit, now, r),
        forall|i: int|
            0 <= i < pass_events(before, limit).len() ==> (#[trigger] pass_events(
                before,
                limit,
            )[i]).observed_at_unix_ms > at,
    ensures
        same_answers(before, after, query, modes, at),
{
    let events = pass_events(before, limit);
    let late = distiller.replays_late();
    if pass_problem(limit) is None {
        let replies = choose|replies: Seq<EventReplies>|
            {
                let run = #[trigger] events_run(before, events, replies, late, now);
                &&& after == run.store
                &&& run_result(r, run)
                &&& allowed(distiller, run.asked)
                &&& replies.len() == events.len()
            };
        lemma_pass_len(before, limit);
        lemma_events_counted(before, events, replies, late, now, Some(at));
    } else {
        lemma_events_counted(before, Seq::empty(), Seq::empty(), late, now, Some(at));
        assert(events_run(before, Seq::empty(), Seq::empty(), late, now).store == before);
    }
    lemma_same_answers(before, after, query, modes, at);
}

/// An event that is appended changes nothing for a query: it is in the ledger already, or no node
/// that the query may see cites its place yet.
pub open spec fn not_awaited(
    store: StoreModel,
    event: EventModel,
    query: QueryModel,
    modes: Seq<MemoryMode>,
    at: i64,
) -> bool {
    some_row(store.ledger, at_span(event.span())) || forall|i: int, n: int|
        0 <= i < store.spans.len() && 0 <= n < store.nodes.len() && (
        #[trigger] store.spans[i]).node_id == (#[trigger] store.nodes[n]).id && (seen_in_scope(
            query_scope(query),
            Some(at),
            support_kinds(modes),
        ))(store.nodes[n]) ==> store.spans[i].span != event.span()
}

/// An event that was observed after a time leaves every answer as of that time when it is
/// appended, unless a node that the query may see cites the event before it is there.
pub proof fn answers_stand_over_later_events(
    before: StoreModel,
    event: EventModel,
    query: QueryModel,
    modes: Seq<MemoryMode>,
    at: i64,
)
    requires
        wf(before),
        event.observed_at_unix_ms > at,
        not_awaited(before, event, query, modes, at),
    ensures
        before.appended(event) matches Ok((after, _)) ==> same_answers(
            before,
            after,
            query,
            modes,
            at,
        ),
{
    if let Ok((after, added)) = before.appended(event) {
        if added {
            let last = after.ledger.last();
            assert(after.ledger.drop_last() =~= before.ledger);
            assert(last.span() == event.span());
            let test = seen_in_scope(query_scope(query), Some(at), support_kinds(modes));
            assert forall|n: int|
                0 <= n < before.nodes.len() && test(#[trigger] before.nodes[n]) implies {
                &&& after.first_event(before.nodes[n].id) == before.first_event(before.nodes[n].id)
                &&& after.citations(before.nodes[n].id, Some(at)) == before.citations(
                    before.nodes[n].id,
                    Some(at),
                )
            } by {
                lemma_uncited(before, after, event, before.nodes[n].id, at);
            }
            lemma_same_plan(before, after, query, modes, at);
            let p = before.plan(query, modes, at);
            assert forall|i: int| 0 <= i < p.active.len() implies after.citations(
                (#[trigger] p.active[i]).id,
                Some(at),
            ) == before.citations(p.active[i].id, Some(at)) by {
                planned_nodes_hold(before, query, modes, at, i);
                reads_stay_in_their_scope(before, query, modes, at, p.active[i]);
                let n = choose|n: int|
                    0 <= n < before.nodes.len() && before.nodes[n] == p.active[i];
                assert(test(before.nodes[n]));
            }
            lemma_same_evidence(before, after, query, modes, at);
        } else {
            lemma_same_answers_refl(before, query, modes, at);
        }
    }
}

/// Appending an event at a place that a node does not cite changes neither its first event nor
/// its citations.
proof fn lemma_uncited(
    before: StoreModel,
    after: StoreModel,
    event: EventModel,
    node_id: Seq<char>,
    at: i64,
)
    requires
        after.ledger.len() > 0,
        after.ledger.drop_last() == before.ledger,
        after.ledger.last().span() == event.span(),
        after.spans == before.spans,
        forall|i: int|
            0 <= i < before.spans.len() && (#[trigger] before.spans[i]).node_id == node_id
                ==> before.spans[i].span != event.span(),
    ensures
        after.first_event(node_id) == before.first_event(node_id),
        after.citations(node_id, Some(at)) == before.citations(node_id, Some(at)),
{
    let last = after.ledger.last();
    assert(!(cited_by(before.spans, node_id))(last)) by {
        if some_row(before.spans, is_citation(node_id, last.span())) {
            let k = choose|k: int|
                0 <= k < before.spans.len() && (is_citation(node_id, last.span()))(
                    #[trigger] before.spans[k],
                );
            assert(before.spans[k].span != event.span());
        }
    }
    assert(after.first_event(node_id) == before.first_event(node_id)) by {
        reveal(Seq::filter);
    }
    let p = citation_by(before.ledger, node_id, Some(at));
    let q = citation_by(after.ledger, node_id, Some(at));
    assert forall|i: int| 0 <= i < before.spans.len() implies p(#[trigger] before.spans[i]) == q(
        before.spans[i],
    ) by {
        if before.spans[i].node_id == node_id {
            lemma_place_kept(before.ledger, after.ledger, before.spans[i].span);
        }
    }
    lemma_filter_same(before.spans, p, q);
}

proof fn lemma_place_kept(a: Seq<EventModel>, b: Seq<EventModel>, span: SpanModel)
    requires
        b.len() == a.len() + 1,
        b.drop_last() == a,
        b.last().span() != span,
    ensures
        first_index(a, at_span(span)) == first_index(b, at_span(span)),
        first_index(a, at_span(span)) matches Some(i) ==> 0 <= i < a.len() && a[i] == b[i],
{
    lemma_first_index(a, at_span(span));
}

/// Tables that differ in their ledgers alone, and lead each node that a query may see to the same
/// first event, are planned alike.
proof fn lemma_same_plan(
    a: StoreModel,
    b: StoreModel,
    query: QueryModel,
    modes: Seq<MemoryMode>,
    at: i64,
)
    requires
        wf(a),
        b.nodes == a.nodes,
        b.edges == a.edges,
        b.cues == a.cues,
        forall|n: int|
            0 <= n < a.nodes.len() && (seen_in_scope(
                query_scope(query),
                Some(at),
                support_kinds(modes),
            ))(#[trigger] a.nodes[n]) ==> b.first_event(a.nodes[n].id) == a.first_event(
                a.nodes[n].id,
            ),
    ensures
        b.plan(query, modes, at) == a.plan(query, modes, at),
{
    let scope = query_scope(query);
    let kinds = support_kinds(modes);
    let test = seen_in_scope(scope, Some(at), kinds);
    let keep = seen_by(Some(at), kinds);
    let x = a.nodes.filter(test);
    assert(b.plain_hits(x) =~= a.plain_hits(x)) by {
        assert forall|i: int| 0 <= i < x.len() implies b.hit(x[i], 0) == a.hit(x[i], 0) by {
            assert(x.contains(x[i]));
            lemma_filter_contains(a.nodes, test, x[i]);
            let n = choose|n: int| 0 <= n < a.nodes.len() && a.nodes[n] == x[i];
            assert(test(a.nodes[n]));
        }
    }
    assert forall|term: Seq<char>| #[trigger]
        b.term_recall(scope, term, keep, 64) == a.term_recall(scope, term, keep, 64) by {
        assert(a.cues.take(a.cues.len() as int) =~= a.cues);
        lemma_same_cue_hits(a, b, a.cues.len() as int, scope, term, kinds, at);
    }
    lemma_same_terms_recall(a, b, scope, terms_of(query.question), keep);
}

proof fn lemma_same_cue_hits(
    a: StoreModel,
    b: StoreModel,
    k: int,
    scope: ScopeKey,
    term: Seq<char>,
    kinds: Seq<MemoryNodeKind>,
    at: i64,
)
    requires
        wf(a),
        b.nodes == a.nodes,
        0 <= k <= a.cues.len(),
        forall|n: int|
            0 <= n < a.nodes.len() && (seen_in_scope(scope, Some(at), kinds))(#[trigger] a.nodes[n])
                ==> b.first_event(a.nodes[n].id) == a.first_event(a.nodes[n].id),
    ensures
        b.cue_hits(a.cues.take(k), scope, term, seen_by(Some(at), kinds)) == a.cue_hits(
            a.cues.take(k),
            scope,
            term,
            seen_by(Some(at), kinds),
        ),
    decreases k,
{
    if k > 0 {
        lemma_same_cue_hits(a, b, k - 1, scope, term, kinds, at);
        let cues = a.cues.take(k);
        assert(cues.drop_last() =~= a.cues.take(k - 1));
        let cue = cues.last();
        assert(cue == a.cues[k - 1]);
        lemma_first_index(a.nodes, with_id(cue.node_id));
        if let Some(n) = first_index(a.nodes, with_id(cue.node_id)) {
            if cue.in_scope(scope) && (seen_by(Some(at), kinds))(a.nodes[n]) {
                assert(a.cues[k - 1].node_id == a.nodes[n].id);
                assert(a.nodes[n].in_scope(scope));
                assert((seen_in_scope(scope, Some(at), kinds))(a.nodes[n]));
            }
        }
    }
}

proof fn lemma_same_terms_recall(
    a: StoreModel,
    b: StoreModel,
    scope: ScopeKey,
    query_terms: Seq<Seq<char>>,
    keep: spec_fn(NodeModel) -> bool,
)
    requires
        forall|term: Seq<char>| #[trigger]
            b.term_recall(scope, term, keep, 64) == a.term_recall(scope, term, keep, 64),
    ensures
        b.terms_recall(scope, query_terms, keep, 64) == a.terms_recall(
            scope,
            query_terms,
            keep,
            64,
        ),
    decreases query_terms.len(),
{
    if query_terms.len() > 0 {
        lemma_same_terms_recall(a, b, scope, query_terms.drop_last(), keep);
    }
}

/// Tables that are planned alike, and cite alike what the plan offers, answer alike.
proof fn lemma_same_evidence(
    a: StoreModel,
    b: StoreModel,
    query: QueryModel,
    modes: Seq<MemoryMode>,
    at: i64,
)
    requires
        b.plan(query, modes, at) == a.plan(query, modes, at),
        forall|i: int|
            0 <= i < a.plan(query, modes, at).active.len() ==> b.citations(
                (#[trigger] a.plan(query, modes, at).active[i]).id,
                Some(at),
            ) == a.citations(a.plan(query, modes, at).active[i].id, Some(at)),
    ensures
        same_answers(a, b, query, modes, at),
{
    let p = a.plan(query, modes, at);
    assert forall|scores: Seq<Option<u32>>, max_tokens: u32| #[trigger]
        selected_evidence(b, p, scores, max_tokens) == selected_evidence(
            a,
            p,
            scores,
            max_tokens,
        ) by {
        assert(p.active.take(p.active.len() as int) =~= p.active);
        lemma_same_evidence_among(a, b, modes, at, p.active, p.active.len() as int, scores);
    }
    assert forall|scores: Seq<Option<u32>>, accepted: Seq<Seq<char>>| #[trigger]
        accepted_evidence(b, p, scores, accepted) == accepted_evidence(
            a,
            p,
            scores,
            accepted,
        ) by {
        lemma_same_accepted(a, b, p, scores, accepted);
    }
}

proof fn lemma_same_evidence_among(
    a: StoreModel,
    b: StoreModel,
    modes: Seq<MemoryMode>,
    at: i64,
    active: Seq<NodeModel>,
    k: int,
    scores: Seq<Option<u32>>,
)
    requires
        0 <= k <= active.len(),
        forall|i: int|
            0 <= i < active.len() ==> b.citations((#[trigger] active[i]).id, Some(at))
                == a.citations(active[i].id, Some(at)),
    ensures
        evidence_among(b, modes, at, active.take(k), scores) == evidence_among(
            a,
            modes,
            at,
            active.take(k),
            scores,
        ),
    decreases k,
{
    if k > 0 {
        lemma_same_evidence_among(a, b, modes, at, active, k - 1, scores);
        assert(active.take(k).drop_last() =~= active.take(k - 1));
        assert(active.take(k).last() == active[k - 1]);
        assert(b.citations(active[k - 1].id, Some(at)) == a.citations(active[k - 1].id, Some(at)));
    }
}

proof fn lemma_same_accepted(
    a: StoreModel,
    b: StoreModel,
    p: PlanModel,
    scores: Seq<Option<u32>>,
    accepted: Seq<Seq<char>>,
)
    requires
        forall|i: int|
            0 <= i < p.active.len() ==> b.citations(
                (#[trigger] p.active[i]).id,
                Some(p.as_of_unix_ms),
            ) == a.citations(p.active[i].id, Some(p.as_of_unix_ms)),
    ensures
        accepted_evidence(b, p, scores, accepted) == accepted_evidence(a, p, scores, accepted),
    decreases accepted.len(),
{
    if accepted.len() > 0 {
        lemma_same_accepted(a, b, p, scores, accepted.drop_last());
        lemma_first_index(p.active, with_id(accepted.last()));
        if let Some(i) = first_index(p.active, with_id(accepted.last())) {
            assert(b.citations(p.active[i].id, Some(p.as_of_unix_ms)) == a.citations(
                p.active[i].id,
                Some(p.as_of_unix_ms),
            ));
        }
    }
}

proof fn lemma_same_answers_refl(
    a: StoreModel,
    query: QueryModel,
    modes: Seq<MemoryMode>,
    at: i64,
)
    ensures
        same_answers(a, a, query, modes, at),
{
}

proof fn lemma_same_answers_trans(
    a: StoreModel,
    b: StoreModel,
    c: StoreModel,
    query: QueryModel,
    modes: Seq<MemoryMode>,
    at: i64,
)
    requires
        same_answers(a, b, query, modes, at),
        same_answers(b, c, query, modes, at),
    ensures
        same_answers(a, c, query, modes, at),
{
    let p = a.plan(query, modes, at);
    let q = b.plan(query, modes, at);
    let r = c.plan(query, modes, at);
    assert forall|scores: Seq<Option<u32>>, max_tokens: u32| #[trigger]
        selected_evidence(c, r, scores, max_tokens) == selected_evidence(
            a,
            p,
            scores,
            max_tokens,
        ) by {
        assert(selected_evidence(b, q, scores, max_tokens) == selected_evidence(
            a,
            p,
            scores,
            max_tokens,
        ));
    }
    assert forall|
        evidence: Seq<EvidenceModel>,
        tier: MemoryTier,
        routing: RoutingModel,
        reconstruction: Option<ReconstructionModel>,
    | #[trigger]
        answer_of(query, r, evidence, tier, routing, reconstruction) == answer_of(
            query,
            p,
            evidence,
            tier,
            routing,
            reconstruction,
        ) by {
        assert(answer_of(query, q, evidence, tier, routing, reconstruction) == answer_of(
            query,
            p,
            evidence,
            tier,
            routing,
            reconstruction,
        ));
    }
    assert forall|scores: Seq<Option<u32>>, evidence: Seq<EvidenceModel>| #[trigger]
        exploration_of(query, r, scores, evidence) == exploration_of(
            query,
            p,
            scores,
            evidence,
        ) by {
        assert(exploration_of(query, q, scores, evidence) == exploration_of(
            query,
            p,
            scores,
            evidence,
        ));
    }
    assert forall|scores: Seq<Option<u32>>, accepted: Seq<Seq<char>>| #[trigger]
        accepted_evidence(c, r, scores, accepted) == accepted_evidence(
            a,
            p,
            scores,
            accepted,
        ) by {
        assert(accepted_evidence(b, q, scores, accepted) == accepted_evidence(
            a,
            p,
            scores,
            accepted,
        ));
    }
}

/// One step of later work: an event that was observed after a time is appended, and no node that
/// the query may see waits for it; or a pass goes over events that were all observed after it.
pub open spec fn later_step<D: Distiller>(
    distiller: D,
    before: StoreModel,
    after: StoreModel,
    query: QueryModel,
    modes: Seq<MemoryMode>,
    at: i64,
) -> bool {
    ||| exists|event: EventModel|
        {
            &&& event.observed_at_unix_ms > at
            &&& not_awaited(before, event, query, modes, at)
            &&& (#[trigger] before.appended(event)) matches Ok((grown, _)) && grown == after
        }
    ||| exists|limit: usize, now: i64, r: MemoryResult<ProjectReport>|
        {
            &&& #[trigger] pass_happened(distiller, before, after, limit, now, r)
            &&& forall|i: int|
                0 <= i < pass_events(before, limit).len() ==> (#[trigger] pass_events(
                    before,
                    limit,
                )[i]).observed_at_unix_ms > at
        }
}

/// An answer as of a time stands over any amount of later work: events are appended and passes
/// run in any order, and what a query as of that time sees, cites and warns of stays the same.
pub proof fn answers_stand_over_later_work<D: Distiller>(
    distiller: D,
    states: Seq<StoreModel>,
    query: QueryModel,
    modes: Seq<MemoryMode>,
    at: i64,
)
    requires
        states.len() > 0,
        wf(states[0]),
        forall|i: int|
            0 < i < states.len() ==> later_step(
                distiller,
                states[i - 1],
                #[trigger] states[i],
                query,
                modes,
                at,
            ),
    ensures
        wf(states.last()),
        same_answers(states[0], states.last(), query, modes, at),
    decreases states.len(),
{
    if states.len() == 1 {
        lemma_same_answers_refl(states[0], query, modes, at);
    } else {
        let front = states.drop_last();
        assert forall|i: int| 0 < i < front.len() implies later_step(
            distiller,
            front[i - 1],
            #[trigger] front[i],
            query,
            modes,
            at,
        ) by {
            assert(states[i] == front[i] && states[i - 1] == front[i - 1]);
        }
        answers_stand_over_later_work(distiller, front, query, modes, at);
        let k = states.len() - 1;
        let before = states[k - 1];
        let after = states[k];
        assert(before == front.last());
        assert(after == states.last());
        assert(later_step(distiller, states[k - 1], states[k], query, modes, at));
        if exists|event: EventModel|
            {
                &&& event.observed_at_unix_ms > at
                &&& not_awaited(before, event, query, modes, at)
                &&& (#[trigger] before.appended(event)) matches Ok((grown, _)) && grown == after
            } {
            let event = choose|event: EventModel|
                {
                    &&& event.observed_at_unix_ms > at
                    &&& not_awaited(before, event, query, modes, at)
                    &&& (#[trigger] before.appended(event)) matches Ok((grown, _)) && grown == after
                };
            answers_stand_over_later_events(before, event, query, modes, at);
            appending_only_adds(before, event);
        } else {
            let (limit, now, r) = choose|limit: usize, now: i64, r: MemoryResult<ProjectReport>|
                {
                    &&& #[trigger] pass_happened(distiller, before, after, limit, now, r)
                    &&& forall|i: int|
                        0 <= i < pass_events(before, limit).len() ==> (#[trigger] pass_events(
                            before,
                            limit,
                        )[i]).observed_at_unix_ms > at
                };
            answers_stand_over_later_passes(
                distiller,
                before,
                after,
                limit,
                now,
                r,
                query,
                modes,
                at,
            );
            passes_keep_history(distiller, before, after, limit, now, r);
        }
        lemma_same_answers_trans(states[0], before, after, query, modes, at);
    }
}

} // verus!
