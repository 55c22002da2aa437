//! What an answer owes to the one who asks: what holds and what has ended told apart, the best
//! evidence first, and every source named.
use vstd::prelude::*;

use crate::digits::in_24_digits;
use crate::answer::{
    answer_form, answer_lines, conflicts, evidence_line, evidence_lines, follow_up_terms, older_ids,
    shown_contradictions, shown_stale, stale_shown, suggestions, with_terms, without_repeats, ById,
    ByOlder,
};
use crate::chars::join;
use crate::graph::{
    edge_seen, evidence_spans, insert_span, keyed_spans, query_scope, revision_seen, span_key,
};
use crate::model::{
    budgeted, evidence_tokens, fitting_items, ByScore, Contradiction, ContradictionModel, Evidence,
    EvidenceModel, MemoryMode, MemoryNodeKind, QueryModel, SpanModel, StaleModel,
};
use crate::query::answer_of;
use crate::order::{lemma_ranked_contains, lemma_ranked_in_order, ranked, Ranking};
use crate::rows::{EdgeModel, MemoryNode, NodeModel};
use crate::store::{distinct_nodes, edge_in_scope, with_id, StoreModel};
use crate::table::{
    first_index, lemma_filter_contains, lemma_first_index, lemma_push_contains, some_row,
};
use crate::text::{at_most, concise_form, overlap_of, overlap_share, top_terms_of};

verus! {

// ---------------------------------------------------------------------------
// Contradictions
// ---------------------------------------------------------------------------
/// A contradiction comes of an edge that revises.
proof fn lemma_conflict_has_edge(
    edges: Seq<EdgeModel>,
    ids: Seq<Seq<char>>,
    history: Seq<NodeModel>,
    k: int,
) -> (e: int)
    requires
        0 <= k < conflicts(edges, ids, history).len(),
    ensures
        ({
            let c = conflicts(edges, ids, history)[k];
            &&& 0 <= e < edges.len()
            &&& edges[e].revises()
            &&& edges[e].from_node_id == c.newer_node_id
            &&& edges[e].to_node_id == c.older_node_id
            &&& ids.contains(c.newer_node_id) || ids.contains(c.older_node_id)
        }),
    decreases edges.len(),
{
    let front = edges.drop_last();
    let done = conflicts(front, ids, history);
    if k < done.len() {
        assert(conflicts(edges, ids, history)[k] == done[k]);
        let e = lemma_conflict_has_edge(front, ids, history, k);
        assert(edges[e] == front[e]);
        e
    } else {
        edges.len() - 1
    }
}

/// An edge that revises and touches the evidence comes to a contradiction.
proof fn lemma_edge_has_conflict(
    edges: Seq<EdgeModel>,
    ids: Seq<Seq<char>>,
    history: Seq<NodeModel>,
    e: int,
) -> (k: int)
    requires
        0 <= e < edges.len(),
        edges[e].revises(),
        ids.contains(edges[e].from_node_id) || ids.contains(edges[e].to_node_id),
    ensures
        0 <= k < conflicts(edges, ids, history).len(),
        conflicts(edges, ids, history)[k].newer_node_id == edges[e].from_node_id,
        conflicts(edges, ids, history)[k].older_node_id == edges[e].to_node_id,
    decreases edges.len(),
{
    let front = edges.drop_last();
    let done = conflicts(front, ids, history);
    if e < front.len() {
        assert(front[e] == edges[e]);
        let k = lemma_edge_has_conflict(front, ids, history, e);
        assert(conflicts(edges, ids, history)[k] == done[k]);
        k
    } else {
        done.len() as int
    }
}

/// What stands in a list without repeats stands in the list.
proof fn lemma_kept_of_list(list: Seq<ContradictionModel>, k: int) -> (j: int)
    requires
        0 <= k < without_repeats(list).len(),
    ensures
        0 <= j < list.len(),
        list[j] == without_repeats(list)[k],
    decreases list.len(),
{
    let front = list.drop_last();
    let done = without_repeats(front);
    if k < done.len() {
        assert(without_repeats(list)[k] == done[k]);
        let j = lemma_kept_of_list(front, k);
        assert(list[j] == front[j]);
        j
    } else {
        list.len() - 1
    }
}

/// What stands in a list is told by the list without repeats.
proof fn lemma_told_by_list(list: Seq<ContradictionModel>, j: int) -> (k: int)
    requires
        0 <= j < list.len(),
    ensures
        0 <= k < without_repeats(list).len(),
        without_repeats(list)[k].newer_node_id == list[j].newer_node_id,
        without_repeats(list)[k].older_node_id == list[j].older_node_id,
    decreases list.len(),
{
    let front = list.drop_last();
    let done = without_repeats(front);
    if j < front.len() {
        assert(front[j] == list[j]);
        let k = lemma_told_by_list(front, j);
        assert(without_repeats(list)[k] == done[k]);
        k
    } else {
        without_repeats(list).len() - 1
    }
}

/// An answer tells what holds from what has ended. Of each contradiction that it shows, the newer
/// memory holds at its time and the older one had ended by then; an edge says that the newer one
/// revises the older; and one of the two is among the evidence.
pub proof fn contradictions_tell_what_holds_from_what_ended(
    store: StoreModel,
    query: QueryModel,
    modes: Seq<MemoryMode>,
    at: i64,
    ids: Seq<Seq<char>>,
    c: ContradictionModel,
)
    requires
        shown_contradictions(
            store.plan(query, modes, at).edges,
            ids,
            store.plan(query, modes, at).history,
        ).contains(c),
    ensures
        ({
            let plan = store.plan(query, modes, at);
            &&& ids.contains(c.newer_node_id) || ids.contains(c.older_node_id)
            &&& exists|n: int|
                0 <= n < plan.history.len() && (#[trigger] plan.history[n]).id == c.newer_node_id
                    && plan.history[n].active_at(at)
            &&& exists|n: int|
                0 <= n < plan.history.len() && (#[trigger] plan.history[n]).id == c.older_node_id
                    && plan.history[n].stale_at(at)
            &&& exists|e: int|
                0 <= e < store.edges.len() && (#[trigger] store.edges[e]).revises()
                    && store.edges[e].from_node_id == c.newer_node_id && store.edges[e].to_node_id
                    == c.older_node_id
        }),
{
    let plan = store.plan(query, modes, at);
    let list = conflicts(plan.edges, ids, plan.history);
    let sorted = ranked::<Contradiction, ByOlder>(list);
    let shown = without_repeats(sorted);
    let s = choose|s: int| 0 <= s < shown.len() && shown[s] == c;
    let j = lemma_kept_of_list(sorted, s);
    assert(sorted.contains(sorted[j]));
    lemma_ranked_contains::<Contradiction, ByOlder>(list, c);
    let f = choose|f: int| 0 <= f < list.len() && list[f] == c;
    let e = lemma_conflict_has_edge(plan.edges, ids, plan.history, f);
    let edge = plan.edges[e];
    let scoped = store.edges.filter(edge_in_scope(query_scope(query)));
    assert(plan.edges.contains(edge));
    lemma_filter_contains(scoped, edge_seen(plan.history, at), edge);
    lemma_filter_contains(store.edges, edge_in_scope(query_scope(query)), edge);
    let k = choose|k: int| 0 <= k < store.edges.len() && store.edges[k] == edge;
    assert(store.edges[k].revises());
    assert(revision_seen(edge, plan.history, at));
    lemma_first_index(plan.history, with_id(edge.from_node_id));
    lemma_first_index(plan.history, with_id(edge.to_node_id));
    let n = first_index(plan.history, with_id(edge.from_node_id))->0;
    let m = first_index(plan.history, with_id(edge.to_node_id))->0;
    assert(plan.history[n].active_at(at));
    assert(plan.history[m].stale_at(at));
}

/// No contradiction is kept back: each revision that a plan sees and that touches the evidence is
/// shown.
pub proof fn contradictions_are_not_kept_back(
    edges: Seq<EdgeModel>,
    ids: Seq<Seq<char>>,
    history: Seq<NodeModel>,
    e: int,
)
    requires
        0 <= e < edges.len(),
        edges[e].revises(),
        ids.contains(edges[e].from_node_id) || ids.contains(edges[e].to_node_id),
    ensures
        exists|c: ContradictionModel|
            #[trigger] shown_contradictions(edges, ids, history).contains(c) && c.newer_node_id
                == edges[e].from_node_id && c.older_node_id == edges[e].to_node_id,
{
    let list = conflicts(edges, ids, history);
    let sorted = ranked::<Contradiction, ByOlder>(list);
    let f = lemma_edge_has_conflict(edges, ids, history, e);
    assert(list.contains(list[f]));
    lemma_ranked_contains::<Contradiction, ByOlder>(list, list[f]);
    let j = choose|j: int| 0 <= j < sorted.len() && sorted[j] == list[f];
    let k = lemma_told_by_list(sorted, j);
    let c = without_repeats(sorted)[k];
    assert(without_repeats(sorted).contains(c));
    assert(shown_contradictions(edges, ids, history).contains(c));
}

// ---------------------------------------------------------------------------
// Stale premises
// ---------------------------------------------------------------------------
proof fn lemma_distinct_ids(nodes: Seq<NodeModel>)
    ensures
        forall|node: NodeModel| #[trigger]
            distinct_nodes(nodes).contains(node) ==> nodes.contains(node),
        forall|node: NodeModel| #[trigger]
            nodes.contains(node) ==> exists|other: NodeModel|
                #[trigger] distinct_nodes(nodes).contains(other) && other.id == node.id,
    decreases nodes.len(),
{
    if nodes.len() > 0 {
        let before = nodes.drop_last();
        let front = distinct_nodes(before);
        let out = distinct_nodes(nodes);
        let last = nodes.last();
        lemma_distinct_ids(before);
        assert(nodes =~= before.push(last));
        assert forall|node: NodeModel| #[trigger] out.contains(node) implies nodes.contains(
            node,
        ) by {
            lemma_push_contains(front, last, node);
            lemma_push_contains(before, last, node);
        }
        assert forall|node: NodeModel| #[trigger] nodes.contains(node) implies exists|
            other: NodeModel,
        |
            #[trigger] out.contains(other) && other.id == node.id by {
            lemma_push_contains(before, last, node);
            if before.contains(node) {
                let other = choose|other: NodeModel|
                    #[trigger] front.contains(other) && other.id == node.id;
                lemma_push_contains(front, last, other);
                assert(out.contains(other));
            } else {
                lemma_push_contains(front, last, last);
                if out == front {
                    let k = choose|k: int|
                        0 <= k < front.len() && (with_id(last.id))(#[trigger] front[k]);
                    assert(out.contains(front[k]));
                } else {
                    assert(out.contains(last));
                }
            }
        }
    }
}

/// Each stale premise that an answer shows is a memory that had ended by its time, and says when.
pub proof fn stale_premises_had_ended(
    query: QueryModel,
    history: Seq<NodeModel>,
    ids: Seq<Seq<char>>,
    older: Seq<Seq<char>>,
    at: i64,
    s: StaleModel,
)
    requires
        shown_stale(query, history, ids, older, at).contains(s),
    ensures
        exists|n: int|
            0 <= n < history.len() && (#[trigger] history[n]).id == s.node_id
                && history[n].valid_from_unix_ms <= at && history[n].valid_to_unix_ms is Some
                && history[n].valid_to_unix_ms->0 <= at && s.invalidated_at_unix_ms
                == history[n].valid_to_unix_ms && s.summary == concise_form(history[n].text, 180),
{
    let test = stale_shown(query, history, ids, older, at);
    let found = history.filter(test);
    let single = distinct_nodes(found);
    let sorted = ranked::<MemoryNode, ById>(single);
    let shown = shown_stale(query, history, ids, older, at);
    let k = choose|k: int| 0 <= k < shown.len() && shown[k] == s;
    let node = sorted[k];
    assert(sorted.contains(node));
    lemma_ranked_contains::<MemoryNode, ById>(single, node);
    lemma_distinct_ids(found);
    lemma_filter_contains(history, test, node);
    let n = choose|n: int| 0 <= n < history.len() && history[n] == node;
    assert(history[n].stale_at(at));
}

/// A memory that had ended and is among the evidence, or is the older part of a contradiction that
/// is shown, is shown as a stale premise.
pub proof fn stale_premises_are_not_kept_back(
    query: QueryModel,
    history: Seq<NodeModel>,
    ids: Seq<Seq<char>>,
    older: Seq<Seq<char>>,
    at: i64,
    n: int,
)
    requires
        0 <= n < history.len(),
        history[n].stale_at(at),
        ids.contains(history[n].id) || older.contains(history[n].id),
    ensures
        exists|k: int|
            0 <= k < shown_stale(query, history, ids, older, at).len() && (#[trigger] shown_stale(
                query,
                history,
                ids,
                older,
                at,
            )[k]).node_id == history[n].id,
{
    let test = stale_shown(query, history, ids, older, at);
    let found = history.filter(test);
    let single = distinct_nodes(found);
    let sorted = ranked::<MemoryNode, ById>(single);
    assert(history.contains(history[n]));
    lemma_filter_contains(history, test, history[n]);
    lemma_distinct_ids(found);
    let other = choose|other: NodeModel|
        #[trigger] single.contains(other) && other.id == history[n].id;
    lemma_ranked_contains::<MemoryNode, ById>(single, other);
    let k = choose|k: int| 0 <= k < sorted.len() && sorted[k] == other;
    assert(shown_stale(query, history, ids, older, at)[k].node_id == history[n].id);
}

// ---------------------------------------------------------------------------
// Evidence
// ---------------------------------------------------------------------------
/// The tokens of evidence are those of its items, one for one.
pub proof fn tokens_add_up(items: Seq<EvidenceModel>, more: Seq<EvidenceModel>)
    ensures
        evidence_tokens(items + more) == evidence_tokens(items) + evidence_tokens(more),
        forall|item: EvidenceModel|
            evidence_tokens(#[trigger] seq![item]) == item.token_estimate,
        evidence_tokens(items) >= 0,
    decreases more.len(),
{
    lemma_tokens_positive(items);
    assert forall|item: EvidenceModel|
        evidence_tokens(#[trigger] seq![item]) == item.token_estimate by {
        let one = seq![item];
        assert(one.drop_last() =~= Seq::<EvidenceModel>::empty());
        assert(evidence_tokens(one.drop_last()) == 0);
        assert(one.last() == item);
    }
    if more.len() == 0 {
        assert(items + more =~= items);
    } else {
        tokens_add_up(items, more.drop_last());
        assert((items + more).drop_last() =~= items + more.drop_last());
        assert((items + more).last() == more.last());
    }
}

proof fn lemma_tokens_positive(items: Seq<EvidenceModel>)
    ensures
        evidence_tokens(items) >= 0,
    decreases items.len(),
{
    if items.len() > 0 {
        lemma_tokens_positive(items.drop_last());
    }
}

/// What was selected of a list in turn: nothing else, in its order, and an item is left out only
/// for want of room behind what was selected before it.
proof fn lemma_fitting(items: Seq<EvidenceModel>, max_tokens: u32)
    requires
        forall|i: int, j: int|
            0 <= i < j < items.len() ==> (#[trigger] items[i]).score >= (#[trigger] items[j]).score,
    ensures
        ({
            let out = fitting_items(items, max_tokens);
            &&& forall|k: int| 0 <= k < out.len() ==> items.contains(#[trigger] out[k])
            &&& forall|i: int, j: int|
                0 <= i < j < out.len() ==> (#[trigger] out[i]).score >= (#[trigger] out[j]).score
            &&& forall|x: EvidenceModel| #[trigger]
                items.contains(x) ==> out.contains(x) || exists|n: int|
                    {
                        &&& 0 <= n <= out.len()
                        &&& evidence_tokens(#[trigger] out.take(n)) + x.token_estimate > max_tokens
                        &&& forall|k: int| 0 <= k < n ==> (#[trigger] out[k]).score >= x.score
                    }
        }),
    decreases items.len(),
{
    if items.len() > 0 {
        let front = items.drop_last();
        let last = items.last();
        let done = fitting_items(front, max_tokens);
        let out = fitting_items(items, max_tokens);
        assert forall|i: int, j: int| 0 <= i < j < front.len() implies (
        #[trigger] front[i]).score >= (#[trigger] front[j]).score by {
            assert(front[i] == items[i] && front[j] == items[j]);
        }
        lemma_fitting(front, max_tokens);
        assert(items =~= front.push(last));
        assert forall|k: int| 0 <= k < done.len() implies (#[trigger] done[k]).score
            >= last.score by {
            assert(front.contains(done[k]));
            let m = choose|m: int| 0 <= m < front.len() && front[m] == done[k];
            assert(items[m].score >= items[items.len() - 1].score);
        }
        assert forall|k: int| 0 <= k < out.len() implies items.contains(#[trigger] out[k]) by {
            if k < done.len() {
                assert(front.contains(done[k]));
                lemma_push_contains(front, last, done[k]);
            } else {
                lemma_push_contains(front, last, last);
            }
        }
        assert forall|x: EvidenceModel| #[trigger] items.contains(x) implies out.contains(x)
            || exists|n: int|
            {
                &&& 0 <= n <= out.len()
                &&& evidence_tokens(#[trigger] out.take(n)) + x.token_estimate > max_tokens
                &&& forall|k: int| 0 <= k < n ==> (#[trigger] out[k]).score >= x.score
            } by {
            lemma_push_contains(front, last, x);
            if front.contains(x) {
                if done.contains(x) {
                    lemma_push_contains(done, last, x);
                } else {
                    let n = choose|n: int|
                        {
                            &&& 0 <= n <= done.len()
                            &&& evidence_tokens(#[trigger] done.take(n)) + x.token_estimate
                                > max_tokens
                            &&& forall|k: int| 0 <= k < n ==> (#[trigger] done[k]).score >= x.score
                        };
                    assert(out.take(n) =~= done.take(n));
                    assert forall|k: int| 0 <= k < n implies (#[trigger] out[k]).score
                        >= x.score by {
                        assert(out[k] == done[k]);
                    }
                }
            } else {
                if out == done {
                    assert(out.take(out.len() as int) =~= done);
                } else {
                    lemma_push_contains(done, last, last);
                }
            }
        }
    }
}

/// The best evidence comes first and is left out last. What is selected is evidence, in the order
/// of its scores from the highest on; and an item is left out only where it does not fit behind
/// what scored at least as high.
pub proof fn the_best_evidence_is_selected(evidence: Seq<EvidenceModel>, max_tokens: u32)
    ensures
        ({
            let out = budgeted(evidence, max_tokens);
            &&& forall|k: int| 0 <= k < out.len() ==> evidence.contains(#[trigger] out[k])
            &&& forall|i: int, j: int|
                0 <= i < j < out.len() ==> (#[trigger] out[i]).score >= (#[trigger] out[j]).score
            &&& forall|x: EvidenceModel| #[trigger]
                evidence.contains(x) ==> out.contains(x) || exists|n: int|
                    {
                        &&& 0 <= n <= out.len()
                        &&& evidence_tokens(#[trigger] out.take(n)) + x.token_estimate > max_tokens
                        &&& forall|k: int| 0 <= k < n ==> (#[trigger] out[k]).score >= x.score
                    }
        }),
{
    let sorted = ranked::<Evidence, ByScore>(evidence);
    lemma_ranked_in_order::<Evidence, ByScore>(evidence);
    assert forall|i: int, j: int| 0 <= i < j < sorted.len() implies (#[trigger] sorted[i]).score
        >= (#[trigger] sorted[j]).score by {
        assert(!ByScore::before(sorted[j], sorted[i]));
    }
    lemma_fitting(sorted, max_tokens);
    let out = budgeted(evidence, max_tokens);
    assert forall|k: int| 0 <= k < out.len() implies evidence.contains(#[trigger] out[k]) by {
        assert(sorted.contains(out[k]));
        lemma_ranked_contains::<Evidence, ByScore>(evidence, out[k]);
    }
    assert forall|x: EvidenceModel| #[trigger] evidence.contains(x) implies sorted.contains(x) by {
        lemma_ranked_contains::<Evidence, ByScore>(evidence, x);
    }
    assert forall|x: EvidenceModel| #[trigger] evidence.contains(x) implies out.contains(x)
        || exists|n: int|
        {
            &&& 0 <= n <= out.len()
            &&& evidence_tokens(#[trigger] out.take(n)) + x.token_estimate > max_tokens
            &&& forall|k: int| 0 <= k < n ==> (#[trigger] out[k]).score >= x.score
        } by {
        assert(sorted.contains(x));
    }
}

// ---------------------------------------------------------------------------
// Sources
// ---------------------------------------------------------------------------
proof fn lemma_insert_span(spans: Seq<SpanModel>, span: SpanModel)
    ensures
        forall|x: SpanModel| #[trigger]
            insert_span(spans, span).contains(x) ==> x == span || spans.contains(x),
        insert_span(spans, span).contains(span),
        forall|x: SpanModel| #[trigger]
            spans.contains(x) ==> exists|y: SpanModel|
                #[trigger] insert_span(spans, span).contains(y) && span_key(y) == span_key(x),
    decreases spans.len(),
{
    let out = insert_span(spans, span);
    if spans.len() == 0 {
        assert(out[0] == span);
    } else {
        let front = spans.drop_last();
        let last = spans.last();
        assert(spans =~= front.push(last));
        lemma_insert_span(front, span);
        if span_key(span) == span_key(last) {
            assert forall|x: SpanModel| #[trigger] out.contains(x) implies x == span
                || spans.contains(x) by {
                lemma_push_contains(front, span, x);
                lemma_push_contains(front, last, x);
            }
            lemma_push_contains(front, span, span);
            assert forall|x: SpanModel| #[trigger] spans.contains(x) implies exists|y: SpanModel|
                #[trigger] out.contains(y) && span_key(y) == span_key(x) by {
                lemma_push_contains(front, last, x);
                if front.contains(x) {
                    lemma_push_contains(front, span, x);
                    assert(out.contains(x));
                } else {
                    assert(out.contains(span));
                }
            }
        } else if crate::chars::text_less(span_key(span), span_key(last)) {
            let short = insert_span(front, span);
            assert forall|x: SpanModel| #[trigger] out.contains(x) implies x == span
                || spans.contains(x) by {
                lemma_push_contains(short, last, x);
                lemma_push_contains(front, last, x);
            }
            lemma_push_contains(short, last, span);
            assert forall|x: SpanModel| #[trigger] spans.contains(x) implies exists|y: SpanModel|
                #[trigger] out.contains(y) && span_key(y) == span_key(x) by {
                lemma_push_contains(front, last, x);
                if front.contains(x) {
                    let y = choose|y: SpanModel|
                        #[trigger] short.contains(y) && span_key(y) == span_key(x);
                    lemma_push_contains(short, last, y);
                    assert(out.contains(y));
                } else {
                    lemma_push_contains(short, last, last);
                    assert(out.contains(last));
                }
            }
        } else {
            assert forall|x: SpanModel| #[trigger] out.contains(x) implies x == span
                || spans.contains(x) by {
                lemma_push_contains(spans, span, x);
            }
            lemma_push_contains(spans, span, span);
            assert forall|x: SpanModel| #[trigger] spans.contains(x) implies exists|y: SpanModel|
                #[trigger] out.contains(y) && span_key(y) == span_key(x) by {
                lemma_push_contains(spans, span, x);
                assert(out.contains(x));
            }
        }
    }
}

proof fn lemma_keyed_spans(start: Seq<SpanModel>, spans: Seq<SpanModel>)
    ensures
        forall|x: SpanModel| #[trigger]
            keyed_spans(start, spans).contains(x) ==> start.contains(x) || spans.contains(x),
        forall|x: SpanModel| #[trigger]
            start.contains(x) ==> exists|y: SpanModel|
                #[trigger] keyed_spans(start, spans).contains(y) && span_key(y) == span_key(x),
        forall|x: SpanModel| #[trigger]
            spans.contains(x) ==> exists|y: SpanModel|
                #[trigger] keyed_spans(start, spans).contains(y) && span_key(y) == span_key(x),
    decreases spans.len(),
{
    let out = keyed_spans(start, spans);
    if spans.len() == 0 {
        assert forall|x: SpanModel| #[trigger] start.contains(x) implies exists|y: SpanModel|
            #[trigger] out.contains(y) && span_key(y) == span_key(x) by {
            assert(out.contains(x));
        }
    } else {
        let front = spans.drop_last();
        let last = spans.last();
        let done = keyed_spans(start, front);
        assert(spans =~= front.push(last));
        lemma_keyed_spans(start, front);
        lemma_insert_span(done, last);
        assert forall|x: SpanModel| #[trigger] out.contains(x) implies start.contains(x)
            || spans.contains(x) by {
            lemma_push_contains(front, last, x);
        }
        assert forall|x: SpanModel| #[trigger] start.contains(x) implies exists|y: SpanModel|
            #[trigger] out.contains(y) && span_key(y) == span_key(x) by {
            let z = choose|z: SpanModel| #[trigger] done.contains(z) && span_key(z) == span_key(x);
            let y = choose|y: SpanModel| #[trigger] out.contains(y) && span_key(y) == span_key(z);
            assert(out.contains(y));
        }
        assert forall|x: SpanModel| #[trigger] spans.contains(x) implies exists|y: SpanModel|
            #[trigger] out.contains(y) && span_key(y) == span_key(x) by {
            lemma_push_contains(front, last, x);
            if front.contains(x) {
                let z = choose|z: SpanModel|
                    #[trigger] done.contains(z) && span_key(z) == span_key(x);
                let y = choose|y: SpanModel|
                    #[trigger] out.contains(y) && span_key(y) == span_key(z);
                assert(out.contains(y));
            } else {
                assert(out.contains(last));
            }
        }
    }
}

/// An answer names its sources: every place that it cites is cited by some of its evidence, and
/// every place that its evidence cites is among them under its key.
pub proof fn answers_cite_what_their_evidence_cites(evidence: Seq<EvidenceModel>)
    ensures
        forall|x: SpanModel| #[trigger]
            evidence_spans(evidence).contains(x) ==> exists|i: int|
                0 <= i < evidence.len() && (#[trigger] evidence[i]).cited_spans.contains(x),
        forall|i: int, x: SpanModel|
            0 <= i < evidence.len() && #[trigger] evidence[i].cited_spans.contains(x)
                ==> exists|y: SpanModel|
                #[trigger] evidence_spans(evidence).contains(y) && span_key(y) == span_key(x),
    decreases evidence.len(),
{
    if evidence.len() > 0 {
        let front = evidence.drop_last();
        let last = evidence.last();
        let done = evidence_spans(front);
        let out = evidence_spans(evidence);
        answers_cite_what_their_evidence_cites(front);
        lemma_keyed_spans(done, last.cited_spans);
        assert forall|x: SpanModel| #[trigger] out.contains(x) implies exists|i: int|
            0 <= i < evidence.len() && (#[trigger] evidence[i]).cited_spans.contains(x) by {
            if done.contains(x) {
                let i = choose|i: int|
                    0 <= i < front.len() && (#[trigger] front[i]).cited_spans.contains(x);
                assert(evidence[i] == front[i]);
            } else {
                assert(evidence[evidence.len() - 1].cited_spans.contains(x));
            }
        }
        assert forall|i: int, x: SpanModel|
            0 <= i < evidence.len() && #[trigger] evidence[i].cited_spans.contains(
                x,
            ) implies exists|y: SpanModel|
            #[trigger] out.contains(y) && span_key(y) == span_key(x) by {
            if i < front.len() {
                assert(front[i].cited_spans.contains(x));
                let z = choose|z: SpanModel|
                    #[trigger] done.contains(z) && span_key(z) == span_key(x);
                let y = choose|y: SpanModel|
                    #[trigger] out.contains(y) && span_key(y) == span_key(z);
                assert(out.contains(y));
            } else {
                assert(last.cited_spans.contains(x));
            }
        }
    }
}

// ---------------------------------------------------------------------------
// Words
// ---------------------------------------------------------------------------
/// A part of a list stands in what the list is joined to.
proof fn lemma_part_occurs(parts: Seq<Seq<char>>, sep: Seq<char>, i: int)
    requires
        0 <= i < parts.len(),
    ensures
        exists|before: Seq<char>, after: Seq<char>|
            join(parts, sep) == #[trigger] (before + parts[i] + after),
    decreases parts.len(),
{
    let whole = join(parts, sep);
    if parts.len() == 1 {
        let none = Seq::<char>::empty();
        assert(whole =~= none + parts[i] + none);
    } else {
        let front = parts.drop_last();
        let head = join(front, sep);
        if i == parts.len() - 1 {
            let none = Seq::<char>::empty();
            assert(whole =~= (head + sep) + parts[i] + none);
        } else {
            lemma_part_occurs(front, sep, i);
            assert(front[i] == parts[i]);
            let (before, after) = choose|before: Seq<char>, after: Seq<char>|
                head == #[trigger] (before + front[i] + after);
            assert(whole =~= before + parts[i] + (after + sep + parts.last()));
        }
    }
}

/// An answer says what its evidence says: the text of each of its first eight items stands in it,
/// cut to two hundred and sixty characters; and where it shows contradictions, it says how many.
pub proof fn answers_say_what_their_evidence_says(
    evidence: Seq<EvidenceModel>,
    contradictions: nat,
    i: int,
)
    requires
        0 <= i < evidence.len(),
        i < 8,
    ensures
        exists|before: Seq<char>, after: Seq<char>|
            answer_form(evidence, contradictions) == #[trigger] (before + concise_form(
                evidence[i].text,
                260,
            ) + after),
        contradictions > 0 ==> exists|before: Seq<char>, after: Seq<char>|
            answer_form(evidence, contradictions) == #[trigger] (before + crate::chars::decimal(
                contradictions,
            ) + after),
{
    let lines = answer_lines(evidence, contradictions);
    let whole = answer_form(evidence, contradictions);
    let body = evidence_lines(at_most(evidence, 8));
    assert(body[i] == evidence_line(evidence[i]));
    assert(lines[i + 1] == body[i]);
    lemma_part_occurs(lines, "\n"@, i + 1);
    let (before, after) = choose|before: Seq<char>, after: Seq<char>|
        whole == #[trigger] (before + lines[i + 1] + after);
    let text = concise_form(evidence[i].text, 260);
    let mark = "- ["@ + evidence[i].kind.name() + " score "@ + crate::answer::score_form(
        evidence[i].score,
    ) + "] "@;
    assert(lines[i + 1] =~= mark + text);
    assert(whole =~= (before + mark) + text + after);
    if contradictions > 0 {
        let last = lines.len() - 1;
        lemma_part_occurs(lines, "\n"@, last);
        let (head, tail) = choose|head: Seq<char>, tail: Seq<char>|
            whole == #[trigger] (head + lines[last] + tail);
        let count = crate::chars::decimal(contradictions);
        let rest = " contradiction(s) or superseded premise(s) were surfaced."@;
        assert(lines[last] =~= "Warning: "@ + count + rest);
        assert(whole =~= (head + "Warning: "@) + count + (rest + tail));
    }
}

proof fn lemma_with_terms(list: Seq<Seq<char>>, more: Seq<Seq<char>>)
    ensures
        forall|t: Seq<char>| #[trigger]
            with_terms(list, more).contains(t) <==> list.contains(t) || more.contains(t),
        list.len() <= with_terms(list, more).len(),
        forall|k: int| 0 <= k < list.len() ==> #[trigger] with_terms(list, more)[k] == list[k],
    decreases more.len(),
{
    if more.len() > 0 {
        let front = more.drop_last();
        let done = with_terms(list, front);
        lemma_with_terms(list, front);
        assert(more =~= front.push(more.last()));
        assert forall|t: Seq<char>| #[trigger] with_terms(list, more).contains(t)
            <==> list.contains(t) || more.contains(t) by {
            lemma_push_contains(front, more.last(), t);
            lemma_push_contains(done, more.last(), t);
        }
    }
}

proof fn lemma_follow_up_terms(question: Seq<char>, evidence: Seq<EvidenceModel>)
    ensures
        forall|t: Seq<char>| #[trigger]
            follow_up_terms(question, evidence).contains(t) ==> top_terms_of(
                question,
                3,
            ).contains(t) || exists|i: int|
                0 <= i < evidence.len() && top_terms_of(
                    (#[trigger] evidence[i]).text,
                    2,
                ).contains(t),
        top_terms_of(question, 3).len() <= follow_up_terms(question, evidence).len(),
        forall|k: int|
            0 <= k < top_terms_of(question, 3).len() ==> #[trigger] follow_up_terms(
                question,
                evidence,
            )[k] == top_terms_of(question, 3)[k],
    decreases evidence.len(),
{
    if evidence.len() > 0 {
        let front = evidence.drop_last();
        let more = top_terms_of(evidence.last().text, 2);
        lemma_follow_up_terms(question, front);
        lemma_with_terms(follow_up_terms(question, front), more);
        assert forall|t: Seq<char>| #[trigger]
            follow_up_terms(question, evidence).contains(t) implies top_terms_of(
            question,
            3,
        ).contains(t) || exists|i: int|
            0 <= i < evidence.len() && top_terms_of((#[trigger] evidence[i]).text, 2).contains(
                t,
            ) by {
            if more.contains(t) {
                assert(top_terms_of(evidence[evidence.len() - 1].text, 2).contains(t));
            } else {
                assert(follow_up_terms(question, front).contains(t));
                if !top_terms_of(question, 3).contains(t) {
                    let i = choose|i: int|
                        0 <= i < front.len() && top_terms_of(
                            (#[trigger] front[i]).text,
                            2,
                        ).contains(t);
                    assert(evidence[i] == front[i]);
                }
            }
        }
    }
}

/// A line asks about a telling term of the question or of the evidence.
pub open spec fn asks_about(
    line: Seq<char>,
    question: Seq<char>,
    evidence: Seq<EvidenceModel>,
    t: Seq<char>,
) -> bool {
    &&& line == "what should I remember about "@ + t + "?"@
    &&& top_terms_of(question, 3).contains(t) || exists|i: int|
        0 <= i < evidence.len() && top_terms_of((#[trigger] evidence[i]).text, 2).contains(t)
}

/// An answer suggests at most three further questions, each about a telling term of the question
/// or of the evidence, those of the question first.
pub proof fn suggestions_follow_up_on_what_was_said(
    question: Seq<char>,
    evidence: Seq<EvidenceModel>,
    k: int,
)
    requires
        0 <= k < suggestions(question, evidence).len(),
    ensures
        k < 3,
        exists|t: Seq<char>| #[trigger]
            asks_about(suggestions(question, evidence)[k], question, evidence, t),
        top_terms_of(question, 3).len() <= suggestions(question, evidence).len(),
        k < top_terms_of(question, 3).len() ==> suggestions(question, evidence)[k]
            == "what should I remember about "@ + top_terms_of(question, 3)[k] + "?"@,
{
    let found = follow_up_terms(question, evidence);
    let out = suggestions(question, evidence);
    lemma_follow_up_terms(question, evidence);
    let t = found[k];
    assert(found.contains(t));
    assert(asks_about(out[k], question, evidence, t));
    assert(top_terms_of(question, 3).len() <= 3);
}

// ---------------------------------------------------------------------------
// Wording
// ---------------------------------------------------------------------------
/// A contradiction is put in words with the newer memory first: what it says, and then what the
/// older one said that it conflicts with.
pub proof fn contradictions_say_what_holds_first(
    store: StoreModel,
    query: QueryModel,
    modes: Seq<MemoryMode>,
    at: i64,
    ids: Seq<Seq<char>>,
    c: ContradictionModel,
) -> (r: (int, int))
    requires
        shown_contradictions(
            store.plan(query, modes, at).edges,
            ids,
            store.plan(query, modes, at).history,
        ).contains(c),
    ensures
        ({
            let history = store.plan(query, modes, at).history;
            let (n, m) = r;
            &&& 0 <= n < history.len()
            &&& 0 <= m < history.len()
            &&& history[n].id == c.newer_node_id
            &&& history[n].active_at(at)
            &&& history[m].id == c.older_node_id
            &&& history[m].stale_at(at)
            &&& c.summary == concise_form(history[n].text, 120) + " conflicts with "@
                + concise_form(history[m].text, 120)
        }),
{
    let plan = store.plan(query, modes, at);
    let list = conflicts(plan.edges, ids, plan.history);
    let sorted = ranked::<Contradiction, ByOlder>(list);
    let shown = without_repeats(sorted);
    let s = choose|s: int| 0 <= s < shown.len() && shown[s] == c;
    let j = lemma_kept_of_list(sorted, s);
    assert(sorted.contains(sorted[j]));
    lemma_ranked_contains::<Contradiction, ByOlder>(list, c);
    let f = choose|f: int| 0 <= f < list.len() && list[f] == c;
    let e = lemma_conflict_words(plan.edges, ids, plan.history, f);
    let edge = plan.edges[e];
    let scoped = store.edges.filter(edge_in_scope(query_scope(query)));
    assert(plan.edges.contains(edge));
    lemma_filter_contains(scoped, edge_seen(plan.history, at), edge);
    assert(revision_seen(edge, plan.history, at));
    lemma_first_index(plan.history, with_id(edge.from_node_id));
    lemma_first_index(plan.history, with_id(edge.to_node_id));
    (
        first_index(plan.history, with_id(edge.from_node_id))->0,
        first_index(plan.history, with_id(edge.to_node_id))->0,
    )
}

proof fn lemma_conflict_words(
    edges: Seq<EdgeModel>,
    ids: Seq<Seq<char>>,
    history: Seq<NodeModel>,
    k: int,
) -> (e: int)
    requires
        0 <= k < conflicts(edges, ids, history).len(),
    ensures
        0 <= e < edges.len(),
        edges[e].revises(),
        conflicts(edges, ids, history)[k].newer_node_id == edges[e].from_node_id,
        conflicts(edges, ids, history)[k].older_node_id == edges[e].to_node_id,
        conflicts(edges, ids, history)[k].summary == crate::answer::conflict_words(
            edges[e],
            history,
        ),
    decreases edges.len(),
{
    let front = edges.drop_last();
    if k < conflicts(front, ids, history).len() {
        let e = lemma_conflict_words(front, ids, history, k);
        assert(front[e] == edges[e]);
        e
    } else {
        edges.len() - 1
    }
}

/// A stale premise is to the point: it is among the evidence, or the older part of a
/// contradiction that is shown, or else of a kind that was asked for, shares a term with the
/// question, and has no later version that holds.
pub proof fn stale_premises_are_to_the_point(
    query: QueryModel,
    history: Seq<NodeModel>,
    ids: Seq<Seq<char>>,
    older: Seq<Seq<char>>,
    at: i64,
    s: StaleModel,
) -> (n: int)
    requires
        shown_stale(query, history, ids, older, at).contains(s),
    ensures
        0 <= n < history.len(),
        history[n].id == s.node_id,
        ids.contains(s.node_id) || older.contains(s.node_id) || {
            &&& history[n].kind != MemoryNodeKind::EntityCue
            &&& exists|m: int|
                0 <= m < query.modes.len() && (#[trigger] query.modes[m]).takes(history[n].kind)
            &&& overlap_of(query.question, history[n].text).0 > 0
            &&& forall|k: int|
                0 <= k < history.len() ==> !((#[trigger] history[k]).id != history[n].id
                    && history[k].tenant_id == history[n].tenant_id && history[k].project_id
                    == history[n].project_id && history[k].environment_id
                    == history[n].environment_id && history[k].kind == history[n].kind
                    && crate::rows::family_key(history[k].canonical_key) == crate::rows::family_key(
                    history[n].canonical_key,
                ) && history[k].valid_from_unix_ms >= history[n].valid_to_unix_ms->0
                    && history[k].active_at(at))
        },
{
    let test = stale_shown(query, history, ids, older, at);
    let found = history.filter(test);
    let single = distinct_nodes(found);
    let sorted = ranked::<MemoryNode, ById>(single);
    let shown = shown_stale(query, history, ids, older, at);
    let k = choose|k: int| 0 <= k < shown.len() && shown[k] == s;
    let node = sorted[k];
    assert(sorted.contains(node));
    lemma_ranked_contains::<MemoryNode, ById>(single, node);
    lemma_distinct_ids(found);
    lemma_filter_contains(history, test, node);
    let n = choose|n: int| 0 <= n < history.len() && history[n] == node;
    if !ids.contains(s.node_id) && !older.contains(s.node_id) {
        let closed = node.valid_to_unix_ms->0;
        let later = crate::answer::follows(node, closed, at);
        assert(!some_row(history, later));
        assert forall|j: int| 0 <= j < history.len() implies !later(#[trigger] history[j]) by {}
    }
    n
}

/// A memory that had ended, is of a kind that was asked for, shares more than a thousandth of
/// its terms with the question and has no later version that holds is shown as a stale premise.
pub proof fn stale_premises_of_the_question_are_shown(
    query: QueryModel,
    history: Seq<NodeModel>,
    ids: Seq<Seq<char>>,
    older: Seq<Seq<char>>,
    at: i64,
    n: int,
    m: int,
)
    requires
        0 <= n < history.len(),
        history[n].valid_from_unix_ms <= at,
        history[n].valid_to_unix_ms is Some,
        history[n].valid_to_unix_ms->0 <= at,
        history[n].kind != MemoryNodeKind::EntityCue,
        0 <= m < query.modes.len(),
        query.modes[m].takes(history[n].kind),
        overlap_share(query.question, history[n].text) > in_24_digits(1, 1_000),
        forall|k: int|
            0 <= k < history.len() && (#[trigger] history[k]).kind == history[n].kind
                && history[k].active_at(at) ==> crate::rows::family_key(history[k].canonical_key)
                != crate::rows::family_key(history[n].canonical_key),
    ensures
        exists|k: int|
            0 <= k < shown_stale(query, history, ids, older, at).len() && (#[trigger] shown_stale(
                query,
                history,
                ids,
                older,
                at,
            )[k]).node_id == history[n].id,
{
    let test = stale_shown(query, history, ids, older, at);
    let found = history.filter(test);
    let single = distinct_nodes(found);
    let sorted = ranked::<MemoryNode, ById>(single);
    let later = crate::answer::follows(history[n], history[n].valid_to_unix_ms->0, at);
    if some_row(history, later) {
        let k = choose|k: int| 0 <= k < history.len() && later(#[trigger] history[k]);
        assert(history[k].kind == history[n].kind);
    }
    assert(test(history[n]));
    assert(history.contains(history[n]));
    lemma_filter_contains(history, test, history[n]);
    lemma_distinct_ids(found);
    let other = choose|other: NodeModel|
        #[trigger] single.contains(other) && other.id == history[n].id;
    lemma_ranked_contains::<MemoryNode, ById>(single, other);
    let k = choose|k: int| 0 <= k < sorted.len() && sorted[k] == other;
    assert(shown_stale(query, history, ids, older, at)[k].node_id == history[n].id);
}

/// Contradictions are shown in the order of their older memories, and stale premises in the order
/// of their own identifiers.
pub proof fn warnings_are_in_order(
    query: QueryModel,
    edges: Seq<EdgeModel>,
    history: Seq<NodeModel>,
    ids: Seq<Seq<char>>,
    older: Seq<Seq<char>>,
    at: i64,
    i: int,
    j: int,
)
    requires
        0 <= i < j,
    ensures
        j < shown_stale(query, history, ids, older, at).len() ==> !crate::chars::text_less(
            shown_stale(query, history, ids, older, at)[j].node_id,
            shown_stale(query, history, ids, older, at)[i].node_id,
        ),
        j < shown_contradictions(edges, ids, history).len() ==> !crate::chars::text_less(
            shown_contradictions(edges, ids, history)[j].older_node_id,
            shown_contradictions(edges, ids, history)[i].older_node_id,
        ),
{
    let single = distinct_nodes(history.filter(stale_shown(query, history, ids, older, at)));
    crate::order::lemma_ranked_in_order::<MemoryNode, ById>(single);
    let sorted = ranked::<MemoryNode, ById>(single);
    if j < sorted.len() {
        assert(!ById::before(sorted[j], sorted[i]));
    }
    let list = conflicts(edges, ids, history);
    let ordered = ranked::<Contradiction, ByOlder>(list);
    crate::order::lemma_ranked_in_order::<Contradiction, ByOlder>(list);
    if j < without_repeats(ordered).len() {
        let (a, b) = lemma_kept_in_order(ordered, i, j);
        assert(!ByOlder::before(ordered[b], ordered[a]));
    }
}

proof fn lemma_kept_in_order(list: Seq<ContradictionModel>, i: int, j: int) -> (r: (int, int))
    requires
        0 <= i < j < without_repeats(list).len(),
    ensures
        0 <= r.0 < r.1 < list.len(),
        without_repeats(list)[i] == list[r.0],
        without_repeats(list)[j] == list[r.1],
    decreases list.len(),
{
    let front = without_repeats(list.drop_last());
    if j < front.len() {
        let (a, b) = lemma_kept_in_order(list.drop_last(), i, j);
        assert(list.drop_last()[a] == list[a] && list.drop_last()[b] == list[b]);
        (a, b)
    } else {
        let a = lemma_kept_of_list(list.drop_last(), i);
        assert(list.drop_last()[a] == list[a]);
        (a, list.len() - 1)
    }
}

/// A score is shown in hundredths, off by no more than half of one.
pub proof fn scores_are_shown_in_hundredths(score: u32)
    ensures
        crate::answer::score_hundredths(score) * 10_000_000 - score <= 5_000_000,
        score - crate::answer::score_hundredths(score) * 10_000_000 <= 5_000_000,
{
}

/// An answer without evidence says so; any other is a heading, a line for each of its first eight
/// items with kind and score, and a warning if and only if it shows contradictions.
pub proof fn answers_have_a_line_for_each_item(
    evidence: Seq<EvidenceModel>,
    contradictions: nat,
    i: int,
)
    ensures
        evidence.len() == 0 ==> answer_form(evidence, contradictions)
            == "No matching memory was found for this scope."@,
        evidence.len() > 0 ==> {
            let lines = answer_lines(evidence, contradictions);
            let shown: int = if evidence.len() < 8 {
                evidence.len() as int
            } else {
                8
            };
            &&& answer_form(evidence, contradictions) == crate::chars::join(lines, "\n"@)
            &&& lines.len() == 1 + shown + (if contradictions > 0 {
                1int
            } else {
                0
            })
            &&& lines[0] == "Relevant memory:"@
            &&& 0 <= i < shown ==> lines[i + 1] == "- ["@ + evidence[i].kind.name() + " score "@
                + crate::answer::score_form(evidence[i].score) + "] "@ + concise_form(
                evidence[i].text,
                260,
            )
        },
{
}

/// An answer is made of its evidence: it says it, cites what it cites, warns of what its plan sees
/// revised, and follows up on what was asked and found.
pub proof fn answers_are_made_of_their_evidence(
    query: QueryModel,
    plan: crate::graph::PlanModel,
    evidence: Seq<EvidenceModel>,
    tier: crate::model::MemoryTier,
    routing: crate::model::RoutingModel,
    reconstruction: Option<crate::query::ReconstructionModel>,
)
    ensures
        ({
            let r = answer_of(query, plan, evidence, tier, routing, reconstruction);
            let ids = Seq::new(evidence.len(), |i: int| evidence[i].node_id);
            &&& r.evidence == evidence
            &&& r.contradictions == shown_contradictions(plan.edges, ids, plan.history)
            &&& r.answer == answer_form(evidence, r.contradictions.len())
            &&& r.cited_spans == evidence_spans(evidence)
            &&& r.suggested_next_queries == suggestions(query.question, evidence)
        }),
{
    assert(crate::answer::evidence_ids(evidence) =~= Seq::new(
        evidence.len(),
        |i: int| evidence[i].node_id,
    ));
}

/// An answer that shows a contradiction warns of its older memory as a stale premise too.
pub proof fn answers_warn_of_what_they_contradict(
    store: StoreModel,
    query: QueryModel,
    modes: Seq<MemoryMode>,
    at: i64,
    evidence: Seq<EvidenceModel>,
    tier: crate::model::MemoryTier,
    routing: crate::model::RoutingModel,
    reconstruction: Option<crate::query::ReconstructionModel>,
    c: ContradictionModel,
)
    requires
        answer_of(
            query,
            store.plan(query, modes, at),
            evidence,
            tier,
            routing,
            reconstruction,
        ).contradictions.contains(c),
    ensures
        ({
            let stale = answer_of(
                query,
                store.plan(query, modes, at),
                evidence,
                tier,
                routing,
                reconstruction,
            ).stale_assumptions;
            exists|k: int| 0 <= k < stale.len() && (#[trigger] stale[k]).node_id == c.older_node_id
        }),
{
    let plan = store.plan(query, modes, at);
    let ids = crate::answer::evidence_ids(evidence);
    let shown = shown_contradictions(plan.edges, ids, plan.history);
    let (_, m) = contradictions_say_what_holds_first(store, query, modes, at, ids, c);
    let s = choose|s: int| 0 <= s < shown.len() && shown[s] == c;
    let older = older_ids(shown);
    assert(older[s] == c.older_node_id);
    assert(older.contains(c.older_node_id));
    stale_premises_are_not_kept_back(query, plan.history, ids, older, at, m);
    let stale = shown_stale(query, plan.history, ids, older, at);
    let k = choose|k: int|
        0 <= k < stale.len() && (#[trigger] stale[k]).node_id == plan.history[m].id;
    let r = answer_of(query, plan, evidence, tier, routing, reconstruction);
    assert(plan.as_of_unix_ms == at);
    assert(r.stale_assumptions == stale);
    assert(r.stale_assumptions[k].node_id == c.older_node_id);
}

} // verus!
