//! What a write leaves of the past.
//!
//! A write that rests on events observed after a time leaves what was seen at that time as it
//! was: the nodes that had begun by then keep all but an end that lies later, new nodes begin
//! later, and new edges, citations and cues speak of later nodes.
use vstd::prelude::*;

use crate::error::ErrorModel;
use crate::history::{
    closing_deletes_nothing, evolves, lemma_begun, lemma_family_member, lemma_linked, lemma_marked,
    lemma_restated, lemma_sound_refl, lemma_sound_trans, node_kept, nodes_wf, wf,
};
use crate::ledger::{EventModel, LedgerEvent};
use crate::model::{DistilledModel, MemoryEdgeKind, MemoryNodeKind, SpanModel};
use crate::order::lemma_ranked_contains;
use crate::passes::{
    applied_all, event_neighbors, event_run, event_seen, events_run, late_node, late_nodes,
    late_start, later_events, projected, waits, Call, EventReplies, EventRun, LateRun,
    ProjectReport, Reply,
};
use crate::projection::{
    attached, base_key, beginning_at, cue_of_other, marked_rows, node_cues, reindexed, revision,
    saying_at, Upsert,
};
use crate::revise::{checked_outcome, target_of_update, targets_of_invalidation};
use crate::rows::{family_key, CueModel, NodeModel, NodeSpanModel, ScopeKey};
use crate::store::{
    event_scope, is_pending, open_before, projected_between, with_id, with_number, ByObserved,
    StoreModel,
};
use crate::table::{
    first_index, lemma_filter_contains, lemma_filter_none, lemma_filter_same, lemma_first_index,
    some_row,
};
use crate::text::{canonical_key_of, terms_of, top_terms_of};

verus! {

// ---------------------------------------------------------------------------
// The past
// ---------------------------------------------------------------------------
/// A node as it is seen at a time: an end that lies later is not seen.
pub open spec fn seen_then(node: NodeModel, at: i64) -> NodeModel {
    if node.active_at(at) {
        NodeModel { valid_to_unix_ms: None, valid_to_event_id: None, ..node }
    } else {
        node
    }
}

/// Nodes with an identifier that had begun by a time.
pub open spec fn begun_by(id: Seq<char>, at: i64) -> spec_fn(NodeModel) -> bool {
    |node: NodeModel| node.id == id && node.valid_from_unix_ms <= at
}

/// Nodes with an identifier that begin after a time.
pub open spec fn begun_after(id: Seq<char>, at: i64) -> spec_fn(NodeModel) -> bool {
    |node: NodeModel| node.id == id && node.valid_from_unix_ms > at
}

/// Cues that lead to nodes that had begun by a time.
pub open spec fn old_cue(nodes: Seq<NodeModel>, at: i64) -> spec_fn(CueModel) -> bool {
    |cue: CueModel| some_row(nodes, begun_by(cue.node_id, at))
}

/// The tables after a write show the same as those before it, at a time.
#[verifier::opaque]
pub open spec fn untouched(a: StoreModel, b: StoreModel, at: i64) -> bool {
    &&& forall|i: int|
        0 <= i < a.nodes.len() && a.nodes[i].valid_from_unix_ms <= at ==> seen_then(
            #[trigger] a.nodes[i],
            at,
        ) == seen_then(b.nodes[i], at)
    &&& forall|i: int|
        a.nodes.len() <= i < b.nodes.len() ==> (#[trigger] b.nodes[i]).valid_from_unix_ms > at
    &&& forall|i: int|
        a.edges.len() <= i < b.edges.len() ==> {
            &&& (#[trigger] b.edges[i]).created_at_unix_ms > at
            &&& b.edges[i].revises() ==> some_row(b.nodes, begun_after(b.edges[i].from_node_id, at))
        }
    &&& forall|i: int|
        a.spans.len() <= i < b.spans.len() ==> some_row(
            b.nodes,
            begun_after((#[trigger] b.spans[i]).node_id, at),
        )
    &&& b.cues.filter(old_cue(b.nodes, at)) == a.cues.filter(old_cue(a.nodes, at))
}

/// A write that keeps the tables well formed and what they hold, leaves the ledger alone, and
/// leaves what was seen at a given time, where one is given.
pub open spec fn quiet(a: StoreModel, b: StoreModel, past: Option<i64>) -> bool {
    wf(a) ==> {
        &&& wf(b)
        &&& evolves(a, b)
        &&& b.ledger == a.ledger
        &&& past matches Some(at) ==> untouched(a, b, at)
    }
}

/// The node with an identifier begins after a given time, where one is given.
pub open spec fn fresh(store: StoreModel, id: Seq<char>, past: Option<i64>) -> bool {
    past matches Some(at) ==> some_row(store.nodes, begun_after(id, at))
}

/// A time lies after a given one, where one is given.
pub open spec fn later_than(time: i64, past: Option<i64>) -> bool {
    past matches Some(at) ==> time > at
}

proof fn lemma_fresh_kept(a: StoreModel, b: StoreModel, id: Seq<char>, past: Option<i64>)
    requires
        evolves(a, b),
        fresh(a, id, past),
    ensures
        fresh(b, id, past),
{
    if let Some(at) = past {
        let i = choose|i: int|
            0 <= i < a.nodes.len() && (begun_after(id, at))(#[trigger] a.nodes[i]);
        assert(node_kept(a.nodes[i], b.nodes[i]));
        assert((begun_after(id, at))(b.nodes[i]));
    }
}

proof fn lemma_quiet_refl(a: StoreModel, past: Option<i64>)
    ensures
        quiet(a, a, past),
{
    reveal(untouched);
    lemma_sound_refl(a);
}

proof fn lemma_untouched_trans(a: StoreModel, b: StoreModel, c: StoreModel, at: i64)
    requires
        evolves(a, b),
        evolves(b, c),
        untouched(a, b, at),
        untouched(b, c, at),
    ensures
        untouched(a, c, at),
{
    reveal(untouched);
    assert forall|i: int|
        0 <= i < a.nodes.len() && a.nodes[i].valid_from_unix_ms <= at implies seen_then(
        #[trigger] a.nodes[i],
        at,
    ) == seen_then(c.nodes[i], at) by {
        assert(node_kept(a.nodes[i], b.nodes[i]));
        assert(seen_then(b.nodes[i], at) == seen_then(c.nodes[i], at));
    }
    assert forall|i: int| a.nodes.len() <= i < c.nodes.len() implies (
    #[trigger] c.nodes[i]).valid_from_unix_ms > at by {
        if i < b.nodes.len() {
            assert(node_kept(b.nodes[i], c.nodes[i]));
        }
    }
    assert forall|i: int| a.edges.len() <= i < c.edges.len() implies {
        &&& (#[trigger] c.edges[i]).created_at_unix_ms > at
        &&& c.edges[i].revises() ==> some_row(c.nodes, begun_after(c.edges[i].from_node_id, at))
    } by {
        if i < b.edges.len() {
            assert(c.edges.take(b.edges.len() as int)[i] == b.edges[i]);
            if c.edges[i].revises() {
                lemma_fresh_kept(b, c, c.edges[i].from_node_id, Some(at));
            }
        }
    }
    assert forall|i: int| a.spans.len() <= i < c.spans.len() implies some_row(
        c.nodes,
        begun_after((#[trigger] c.spans[i]).node_id, at),
    ) by {
        if i < b.spans.len() {
            assert(c.spans.take(b.spans.len() as int)[i] == b.spans[i]);
            lemma_fresh_kept(b, c, c.spans[i].node_id, Some(at));
        }
    }
}

proof fn lemma_quiet_trans(a: StoreModel, b: StoreModel, c: StoreModel, past: Option<i64>)
    requires
        quiet(a, b, past),
        quiet(b, c, past),
    ensures
        quiet(a, c, past),
{
    if wf(a) {
        lemma_sound_trans(a, b, c);
        if let Some(at) = past {
            lemma_untouched_trans(a, b, c, at);
        }
    }
}

// ---------------------------------------------------------------------------
// Cues
// ---------------------------------------------------------------------------

/// Filtering by two conditions of which the second implies the first is filtering by the second.
proof fn lemma_filter_twice<A>(
    rows: Seq<A>,
    wide: spec_fn(A) -> bool,
    narrow: spec_fn(A) -> bool,
    same: spec_fn(A) -> bool,
)
    requires
        forall|i: int|
            0 <= i < rows.len() ==> (narrow(#[trigger] rows[i]) ==> wide(rows[i])) && narrow(rows[i])
                == same(rows[i]),
    ensures
        rows.filter(wide).filter(narrow) == rows.filter(same),
    decreases rows.len(),
{
    reveal(Seq::filter);
    if rows.len() > 0 {
        let front = rows.drop_last();
        assert forall|i: int| 0 <= i < front.len() implies (narrow(#[trigger] front[i]) ==> wide(
            front[i],
        )) && narrow(front[i]) == same(front[i]) by {
            assert(front[i] == rows[i]);
        }
        lemma_filter_twice(front, wide, narrow, same);
        let last = rows[rows.len() - 1];
        assert((narrow(last) ==> wide(last)) && narrow(last) == same(last));
        if wide(last) {
            let kept = front.filter(wide);
            assert(kept.push(last).drop_last() =~= kept);
        }
    }
}

/// Renewing the cues of a node that begins after a time leaves those of the nodes before it.
proof fn lemma_old_cues_kept(
    cues: Seq<CueModel>,
    before: Seq<NodeModel>,
    after: Seq<NodeModel>,
    node: NodeModel,
    at: i64,
)
    requires
        !some_row(after, begun_by(node.id, at)),
        forall|id: Seq<char>|
            #[trigger] some_row(before, begun_by(id, at)) == some_row(after, begun_by(id, at)),
    ensures
        reindexed(cues, node).filter(old_cue(after, at)) == cues.filter(old_cue(before, at)),
{
    let others = cues.filter(cue_of_other(node.id));
    let own = node_cues(node);
    let old = old_cue(after, at);
    Seq::filter_distributes_over_add(others, own, old);
    lemma_filter_none(own, old);
    assert forall|i: int| 0 <= i < cues.len() implies (old(#[trigger] cues[i]) ==> (cue_of_other(
        node.id,
    ))(cues[i])) && old(cues[i]) == (old_cue(before, at))(cues[i]) by {
        assert(some_row(before, begun_by(cues[i].node_id, at)) == some_row(
            after,
            begun_by(cues[i].node_id, at),
        ));
    }
    lemma_filter_twice(cues, cue_of_other(node.id), old, old_cue(before, at));
    assert(others.filter(old) + Seq::<CueModel>::empty() =~= others.filter(old));
}

/// Nodes that keep their identifiers and beginnings, with others behind them that begin later,
/// had the same begun by a time.
proof fn lemma_same_begun(before: Seq<NodeModel>, after: Seq<NodeModel>, at: i64)
    requires
        before.len() <= after.len(),
        forall|i: int|
            0 <= i < before.len() ==> (#[trigger] before[i]).id == after[i].id
                && before[i].valid_from_unix_ms == after[i].valid_from_unix_ms,
        forall|i: int|
            before.len() <= i < after.len() ==> (#[trigger] after[i]).valid_from_unix_ms > at,
    ensures
        forall|id: Seq<char>|
            #[trigger] some_row(before, begun_by(id, at)) == some_row(after, begun_by(id, at)),
{
    assert forall|id: Seq<char>|
        #[trigger] some_row(before, begun_by(id, at)) == some_row(after, begun_by(id, at)) by {
        let test = begun_by(id, at);
        if some_row(before, test) {
            let i = choose|i: int| 0 <= i < before.len() && test(#[trigger] before[i]);
            assert(test(after[i]));
        }
        if some_row(after, test) {
            let i = choose|i: int| 0 <= i < after.len() && test(#[trigger] after[i]);
            assert(i < before.len());
            assert(before[i].id == after[i].id);
            assert(test(before[i]));
        }
    }
}

/// A node with an identifier of its own that begins after a time is the only one with it.
proof fn lemma_begun_once(nodes: Seq<NodeModel>, k: int, at: i64)
    requires
        nodes_wf(nodes),
        0 <= k < nodes.len(),
        nodes[k].valid_from_unix_ms > at,
    ensures
        !some_row(nodes, begun_by(nodes[k].id, at)),
{
    if some_row(nodes, begun_by(nodes[k].id, at)) {
        let i = choose|i: int|
            0 <= i < nodes.len() && (begun_by(nodes[k].id, at))(#[trigger] nodes[i]);
        if i < k {
            assert(nodes[i].id != nodes[k].id);
        }
        if k < i {
            assert(nodes[k].id != nodes[i].id);
        }
    }
}

/// Citations that are attached to a node are its own.
proof fn lemma_attached_own(rows: Seq<NodeSpanModel>, node_id: Seq<char>, spans: Seq<SpanModel>)
    ensures
        rows.len() <= attached(rows, node_id, spans).len(),
        forall|i: int|
            rows.len() <= i < attached(rows, node_id, spans).len() ==> (#[trigger] attached(
                rows,
                node_id,
                spans,
            )[i]).node_id == node_id,
    decreases spans.len(),
{
    if spans.len() > 0 {
        lemma_attached_own(rows, node_id, spans.drop_last());
    }
}

// ---------------------------------------------------------------------------
// Single writes
// ---------------------------------------------------------------------------
proof fn lemma_quiet_restated(
    store: StoreModel,
    node: NodeModel,
    text: Seq<char>,
    spans: Seq<SpanModel>,
    now: i64,
    past: Option<i64>,
)
    requires
        store.nodes.contains(node),
        later_than(node.valid_from_unix_ms, past),
    ensures
        ({
            let done = store.restated(node, text, spans, now);
            &&& quiet(store, done.store, past)
            &&& wf(store) ==> fresh(done.store, done.node.id, past)
        }),
{
    lemma_restated(store, node, text, spans, now);
    let done = store.restated(node, text, spans, now);
    let after = done.store;
    if wf(store) {
        if let Some(at) = past {
            reveal(untouched);
            let k = choose|k: int| 0 <= k < store.nodes.len() && store.nodes[k] == node;
            lemma_first_index(store.nodes, with_id(node.id));
            assert((with_id(node.id))(store.nodes[k]));
            let i = first_index(store.nodes, with_id(node.id))->0;
            assert(i == k) by {
                if i < k {
                    assert(store.nodes[i].id != store.nodes[k].id);
                }
            }
            assert((begun_after(node.id, at))(after.nodes[k]));
            lemma_attached_own(store.spans, node.id, spans);
            lemma_same_begun(store.nodes, after.nodes, at);
            lemma_begun_once(after.nodes, k, at);
            if after.cues != store.cues {
                lemma_old_cues_kept(store.cues, store.nodes, after.nodes, done.node, at);
            } else {
                assert(after.cues.filter(old_cue(after.nodes, at)) == store.cues.filter(
                    old_cue(store.nodes, at),
                )) by {
                    lemma_filter_same(
                        store.cues,
                        old_cue(after.nodes, at),
                        old_cue(store.nodes, at),
                    );
                }
            }
        }
    }
}

proof fn lemma_quiet_begun(
    store: StoreModel,
    scope: ScopeKey,
    kind: MemoryNodeKind,
    family: Seq<char>,
    key: Seq<char>,
    text: Seq<char>,
    valid_from: i64,
    spans: Seq<SpanModel>,
    now: i64,
    past: Option<i64>,
)
    requires
        later_than(valid_from, past),
    ensures
        match store.begun(scope, kind, family, key, text, valid_from, spans, now) {
            Ok(done) => {
                &&& quiet(store, done.store, past)
                &&& wf(store) ==> fresh(done.store, done.node.id, past)
            },
            Err(_) => true,
        },
{
    lemma_begun(store, scope, kind, family, key, text, valid_from, spans, now);
    if let Ok(done) = store.begun(scope, kind, family, key, text, valid_from, spans, now) {
        let after = done.store;
        let last = store.nodes.len() as int;
        assert(after.nodes[last] == done.node);
        if wf(store) {
            if let Some(at) = past {
                reveal(untouched);
                assert((begun_after(done.node.id, at))(after.nodes[last]));
                assert forall|i: int|
                    0 <= i < store.nodes.len() && store.nodes[i].valid_from_unix_ms
                        <= at implies seen_then(#[trigger] store.nodes[i], at) == seen_then(
                    after.nodes[i],
                    at,
                ) by {
                    let node = store.nodes[i];
                    let followed = node.followed_at(valid_from, store.event_of(spans));
                    assert(after.nodes[i] == node || after.nodes[i] == followed);
                }
                lemma_attached_own(store.spans, done.node.id, spans);
                assert forall|i: int| 0 <= i < store.nodes.len() implies (
                #[trigger] store.nodes[i]).id == after.nodes[i].id
                    && store.nodes[i].valid_from_unix_ms == after.nodes[i].valid_from_unix_ms by {
                    assert(node_kept(store.nodes[i], after.nodes[i]));
                }
                lemma_same_begun(store.nodes, after.nodes, at);
                lemma_begun_once(after.nodes, last, at);
                lemma_old_cues_kept(store.cues, store.nodes, after.nodes, done.node, at);
            }
        }
    }
}

proof fn lemma_quiet_upserted(
    store: StoreModel,
    scope: ScopeKey,
    kind: MemoryNodeKind,
    text: Seq<char>,
    valid_from: i64,
    spans: Seq<SpanModel>,
    now: i64,
    past: Option<i64>,
)
    requires
        later_than(valid_from, past),
    ensures
        match store.upserted(scope, kind, text, valid_from, spans, now) {
            Ok(done) => {
                &&& quiet(store, done.store, past)
                &&& wf(store) ==> fresh(done.store, done.node.id, past)
            },
            Err(_) => true,
        },
{
    reveal(StoreModel::upserted);
    let family = base_key(kind, text, spans);
    let versions = store.family(scope, kind, family);
    let test = beginning_at(valid_from);
    lemma_first_index(versions, test);
    match first_index(versions, test) {
        Some(i) => {
            lemma_family_member(store, scope, kind, family, i);
            lemma_quiet_restated(store, versions[i], text, spans, now, past);
        },
        None => {
            let key = if kind == MemoryNodeKind::Episode {
                family
            } else {
                revision(family, valid_from)
            };
            lemma_quiet_begun(store, scope, kind, family, key, text, valid_from, spans, now, past);
        },
    }
}

proof fn lemma_quiet_upserted_in_family(
    store: StoreModel,
    scope: ScopeKey,
    kind: MemoryNodeKind,
    family: Seq<char>,
    text: Seq<char>,
    valid_from: i64,
    spans: Seq<SpanModel>,
    now: i64,
    past: Option<i64>,
)
    requires
        later_than(valid_from, past),
    ensures
        match store.upserted_in_family(scope, kind, family, text, valid_from, spans, now) {
            Ok(done) => {
                &&& quiet(store, done.store, past)
                &&& wf(store) ==> fresh(done.store, done.node.id, past)
            },
            Err(_) => true,
        },
{
    reveal(StoreModel::upserted_in_family);
    let versions = store.family(scope, kind, family);
    let test = saying_at(valid_from, text);
    lemma_first_index(versions, test);
    match first_index(versions, test) {
        Some(i) => {
            lemma_family_member(store, scope, kind, family, i);
            lemma_quiet_restated(store, versions[i], text, spans, now, past);
        },
        None => {
            let key = store.family_revision(scope, kind, family, valid_from);
            lemma_quiet_begun(store, scope, kind, family, key, text, valid_from, spans, now, past);
        },
    }
}

proof fn lemma_quiet_invalidated(
    store: StoreModel,
    node_id: Seq<char>,
    time: i64,
    event: Option<i64>,
    past: Option<i64>,
)
    requires
        later_than(time, past),
    ensures
        quiet(store, store.invalidated(node_id, time, event).0, past),
{
    closing_deletes_nothing(store, node_id, time, event);
    reveal(StoreModel::invalidated);
    lemma_first_index(store.nodes, with_id(node_id));
    let after = store.invalidated(node_id, time, event).0;
    if let Some(at) = past {
        reveal(untouched);
        lemma_same_begun(store.nodes, after.nodes, at);
        lemma_filter_same(store.cues, old_cue(after.nodes, at), old_cue(store.nodes, at));
    }
}

proof fn lemma_quiet_linked(
    store: StoreModel,
    scope: ScopeKey,
    from: Seq<char>,
    to: Seq<char>,
    kind: MemoryEdgeKind,
    weight: u32,
    time: i64,
    past: Option<i64>,
)
    requires
        later_than(time, past),
        wf(store) && (kind == MemoryEdgeKind::Supersedes || kind == MemoryEdgeKind::Contradicts)
            ==> fresh(store, from, past),
    ensures
        match store.linked(scope, from, to, kind, weight, time) {
            Ok((after, _)) => quiet(store, after, past),
            Err(_) => true,
        },
{
    lemma_linked(store, scope, from, to, kind, weight, time);
    reveal(StoreModel::linked);
    if let Ok((after, _)) = store.linked(scope, from, to, kind, weight, time) {
        if past is Some {
            reveal(untouched);
        }
    }
}

// ---------------------------------------------------------------------------
// Revisions
// ---------------------------------------------------------------------------
proof fn lemma_quiet_cued(
    store: StoreModel,
    event: EventModel,
    node_id: Seq<char>,
    cue_terms: Seq<Seq<char>>,
    now: i64,
    past: Option<i64>,
)
    requires
        later_than(event.observed_at_unix_ms, past),
    ensures
        match store.cued(event, node_id, cue_terms, now) {
            Ok(after) => quiet(store, after, past),
            Err(_) => true,
        },
    decreases cue_terms.len(),
{
    if cue_terms.len() == 0 {
        lemma_quiet_refl(store, past);
    } else {
        lemma_quiet_cued(store, event, node_id, cue_terms.drop_last(), now, past);
        if let Ok(front) = store.cued(event, node_id, cue_terms.drop_last(), now) {
            let scope = event_scope(event);
            let at = event.observed_at_unix_ms;
            let kind = MemoryNodeKind::EntityCue;
            let spans = seq![event.span()];
            lemma_quiet_upserted(front, scope, kind, cue_terms.last(), at, spans, now, past);
            if let Ok(done) = front.upserted(scope, kind, cue_terms.last(), at, spans, now) {
                lemma_quiet_trans(store, front, done.store, past);
                lemma_quiet_linked(
                    done.store,
                    scope,
                    node_id,
                    done.node.id,
                    MemoryEdgeKind::Mentions,
                    55,
                    at,
                    past,
                );
                if let Ok((after, _)) = done.store.linked(
                    scope,
                    node_id,
                    done.node.id,
                    MemoryEdgeKind::Mentions,
                    55,
                    at,
                ) {
                    lemma_quiet_trans(store, done.store, after, past);
                }
            }
        }
    }
}

proof fn lemma_quiet_with_cues(
    store: StoreModel,
    upsert: Result<Upsert, ErrorModel>,
    event: EventModel,
    now: i64,
    past: Option<i64>,
)
    requires
        later_than(event.observed_at_unix_ms, past),
        upsert matches Ok(done) ==> quiet(store, done.store, past) && (wf(store) ==> fresh(
            done.store,
            done.node.id,
            past,
        )),
    ensures
        match StoreModel::upsert_with_cues(upsert, event, now) {
            Ok(done) => {
                &&& quiet(store, done.store, past)
                &&& wf(store) ==> fresh(done.store, done.node.id, past)
            },
            Err(_) => true,
        },
{
    if let Ok(done) = upsert {
        lemma_quiet_cued(
            done.store,
            event,
            done.node.id,
            top_terms_of(done.node.text, 8),
            now,
            past,
        );
        if let Ok(after) = done.store.with_entity_cues(event, done.node, now) {
            lemma_quiet_trans(store, done.store, after, past);
            if wf(store) {
                lemma_fresh_kept(done.store, after, done.node.id, past);
            }
        }
    }
}

/// A version that is found by its text begins when it is said to.
proof fn lemma_version_fresh(
    store: StoreModel,
    scope: ScopeKey,
    kind: MemoryNodeKind,
    text: Seq<char>,
    valid_from: i64,
    past: Option<i64>,
)
    requires
        later_than(valid_from, past),
    ensures
        store.version_by_text(scope, kind, text, valid_from) matches Some(node) ==> fresh(
            store,
            node.id,
            past,
        ),
{
    reveal(StoreModel::version_by_text);
    let family = canonical_key_of(kind.name(), text);
    let versions = store.family(scope, kind, family);
    lemma_first_index(versions, beginning_at(valid_from));
    if let Some(i) = first_index(versions, beginning_at(valid_from)) {
        lemma_family_member(store, scope, kind, family, i);
        let k = choose|k: int| 0 <= k < store.nodes.len() && store.nodes[k] == versions[i];
        if let Some(at) = past {
            assert((begun_after(versions[i].id, at))(store.nodes[k]));
        }
    }
}

proof fn lemma_quiet_with_replacement(
    store: StoreModel,
    event: EventModel,
    memory: DistilledModel,
    now: i64,
    past: Option<i64>,
)
    requires
        later_than(event.observed_at_unix_ms, past),
    ensures
        match store.with_replacement(event, memory, now) {
            Ok((after, replacement)) => {
                &&& quiet(store, after, past)
                &&& wf(store) && replacement is Some ==> fresh(after, replacement->0.id, past)
            },
            Err(_) => true,
        },
{
    lemma_quiet_refl(store, past);
    let scope = event_scope(event);
    let at = event.observed_at_unix_ms;
    let kind = memory.node_kind;
    lemma_version_fresh(store, scope, kind, memory.text, at, past);
    lemma_quiet_upserted(store, scope, kind, memory.text, at, memory.cited_spans, now, past);
    lemma_quiet_with_cues(
        store,
        store.upserted(scope, kind, memory.text, at, memory.cited_spans, now),
        event,
        now,
        past,
    );
}

proof fn lemma_quiet_taken_back(
    store: StoreModel,
    event: EventModel,
    older: Seq<char>,
    replacement: Option<NodeModel>,
    past: Option<i64>,
)
    requires
        wf(store),
        later_than(event.observed_at_unix_ms, past),
        replacement is Some ==> fresh(store, replacement->0.id, past),
    ensures
        match store.taken_back(event, older, replacement) {
            Ok((after, _)) => quiet(store, after, past),
            Err(_) => true,
        },
{
    let at = event.observed_at_unix_ms;
    let scope = event_scope(event);
    lemma_quiet_invalidated(store, older, at, event.id, past);
    let (closed, changed) = store.invalidated(older, at, event.id);
    if changed && replacement is Some {
        let newer = replacement->0.id;
        lemma_fresh_kept(store, closed, newer, past);
        lemma_quiet_linked(closed, scope, newer, older, MemoryEdgeKind::Supersedes, 100, at, past);
        if let Ok((middle, _)) = closed.linked(
            scope,
            newer,
            older,
            MemoryEdgeKind::Supersedes,
            100,
            at,
        ) {
            lemma_quiet_trans(store, closed, middle, past);
            lemma_fresh_kept(store, middle, newer, past);
            lemma_quiet_linked(
                middle,
                scope,
                newer,
                older,
                MemoryEdgeKind::Contradicts,
                80,
                at,
                past,
            );
            if let Ok((after, _)) = middle.linked(
                scope,
                newer,
                older,
                MemoryEdgeKind::Contradicts,
                80,
                at,
            ) {
                lemma_quiet_trans(store, middle, after, past);
            }
        }
    }
}

proof fn lemma_quiet_all_taken_back(
    store: StoreModel,
    event: EventModel,
    targets: Seq<NodeModel>,
    replacement: Option<NodeModel>,
    past: Option<i64>,
)
    requires
        later_than(event.observed_at_unix_ms, past),
        wf(store),
        replacement is Some ==> fresh(store, replacement->0.id, past),
    ensures
        match store.all_taken_back(event, targets, replacement) {
            Ok((after, _)) => quiet(store, after, past),
            Err(_) => true,
        },
    decreases targets.len(),
{
    if targets.len() == 0 {
        lemma_quiet_refl(store, past);
    } else {
        lemma_quiet_all_taken_back(store, event, targets.drop_last(), replacement, past);
        if let Ok((front, _)) = store.all_taken_back(event, targets.drop_last(), replacement) {
            if replacement is Some {
                lemma_fresh_kept(store, front, replacement->0.id, past);
            }
            lemma_quiet_taken_back(front, event, targets.last().id, replacement, past);
            if let Ok((after, _)) = front.taken_back(event, targets.last().id, replacement) {
                lemma_quiet_trans(store, front, after, past);
            }
        }
    }
}

proof fn lemma_quiet_updated(
    store: StoreModel,
    event: EventModel,
    memory: DistilledModel,
    target: NodeModel,
    now: i64,
    past: Option<i64>,
)
    requires
        wf(store),
        later_than(event.observed_at_unix_ms, past),
    ensures
        match store.updated(event, memory, target, now) {
            Ok((after, _)) => quiet(store, after, past),
            Err(_) => true,
        },
{
    let scope = event_scope(event);
    let at = event.observed_at_unix_ms;
    let family = family_key(target.canonical_key);
    lemma_quiet_upserted_in_family(
        store,
        scope,
        memory.node_kind,
        family,
        memory.text,
        at,
        memory.cited_spans,
        now,
        past,
    );
    let upsert = store.upserted_in_family(
        scope,
        memory.node_kind,
        family,
        memory.text,
        at,
        memory.cited_spans,
        now,
    );
    lemma_quiet_with_cues(store, upsert, event, now, past);
    if let Ok(done) = StoreModel::upsert_with_cues(upsert, event, now) {
        let kind = MemoryEdgeKind::Supersedes;
        lemma_quiet_linked(done.store, scope, done.node.id, target.id, kind, 100, at, past);
        if let Ok((after, _)) = done.store.linked(
            scope,
            done.node.id,
            target.id,
            kind,
            100,
            at,
        ) {
            lemma_quiet_trans(store, done.store, after, past);
        }
    }
}

proof fn lemma_quiet_applied(
    store: StoreModel,
    event: EventModel,
    memory: DistilledModel,
    neighbors: Seq<NodeModel>,
    now: i64,
    past: Option<i64>,
)
    requires
        wf(store),
        later_than(event.observed_at_unix_ms, past),
    ensures
        match store.applied(event, memory, neighbors, now) {
            Ok((after, _)) => quiet(store, after, past),
            Err(_) => true,
        },
{
    lemma_quiet_refl(store, past);
    let scope = event_scope(event);
    let at = event.observed_at_unix_ms;
    let spans = memory.cited_spans;
    lemma_quiet_upserted(store, scope, memory.node_kind, memory.text, at, spans, now, past);
    if let Ok(done) = store.upserted(scope, memory.node_kind, memory.text, at, spans, now) {
        lemma_quiet_cued(
            done.store,
            event,
            done.node.id,
            top_terms_of(done.node.text, 8),
            now,
            past,
        );
        if let Ok(after) = done.store.with_entity_cues(event, done.node, now) {
            lemma_quiet_trans(store, done.store, after, past);
        }
    }
    if let Some(target) = target_of_update(memory, neighbors) {
        lemma_quiet_updated(store, event, memory, target, now, past);
    }
    lemma_quiet_with_replacement(store, event, memory, now, past);
    if let Ok((middle, replacement)) = store.with_replacement(event, memory, now) {
        let id = match replacement {
            Some(node) => Some(node.id),
            None => None,
        };
        let targets = targets_of_invalidation(memory, neighbors, id);
        lemma_quiet_all_taken_back(middle, event, targets, replacement, past);
        if let Ok((after, _)) = middle.all_taken_back(event, targets, replacement) {
            lemma_quiet_trans(store, middle, after, past);
        }
    }
}

proof fn lemma_quiet_late_invalidated(
    store: StoreModel,
    event: EventModel,
    memory: DistilledModel,
    target: Seq<char>,
    now: i64,
    past: Option<i64>,
)
    requires
        wf(store),
        later_than(event.observed_at_unix_ms, past),
    ensures
        match store.late_invalidated(event, memory, target, now) {
            Ok((after, _)) => quiet(store, after, past),
            Err(_) => true,
        },
{
    lemma_quiet_with_replacement(store, event, memory, now, past);
    if let Ok((middle, replacement)) = store.with_replacement(event, memory, now) {
        lemma_quiet_taken_back(middle, event, target, replacement, past);
        if let Ok((after, _)) = middle.taken_back(event, target, replacement) {
            lemma_quiet_trans(store, middle, after, past);
        }
    }
}

proof fn lemma_quiet_late_updated(
    store: StoreModel,
    event: EventModel,
    memory: DistilledModel,
    target: NodeModel,
    now: i64,
    past: Option<i64>,
)
    requires
        wf(store),
        later_than(event.observed_at_unix_ms, past),
    ensures
        match store.late_updated(event, memory, target, now) {
            Ok((after, _)) => quiet(store, after, past),
            Err(_) => true,
        },
{
    let scope = event_scope(event);
    let at = event.observed_at_unix_ms;
    lemma_quiet_invalidated(store, target.id, at, event.id, past);
    let closed = store.invalidated(target.id, at, event.id).0;
    lemma_quiet_refl(closed, past);
    lemma_version_fresh(closed, scope, memory.node_kind, memory.text, at, past);
    let family = family_key(target.canonical_key);
    lemma_quiet_upserted_in_family(
        closed,
        scope,
        memory.node_kind,
        family,
        memory.text,
        at,
        memory.cited_spans,
        now,
        past,
    );
    let upsert = closed.upserted_in_family(
        scope,
        memory.node_kind,
        family,
        memory.text,
        at,
        memory.cited_spans,
        now,
    );
    lemma_quiet_with_cues(closed, upsert, event, now, past);
    if let Ok((middle, successor, duplicate)) = closed.late_successor(event, memory, target, now) {
        lemma_quiet_trans(store, closed, middle, past);
        let single = match duplicate {
            Some(id) => middle.invalidated(id, at, event.id).0,
            None => middle,
        };
        if let Some(id) = duplicate {
            lemma_quiet_invalidated(middle, id, at, event.id, past);
            lemma_quiet_trans(store, middle, single, past);
            lemma_fresh_kept(middle, single, successor.id, past);
        }
        let kind = MemoryEdgeKind::Supersedes;
        lemma_quiet_linked(single, scope, successor.id, target.id, kind, 100, at, past);
        if let Ok((after, _)) = single.linked(scope, successor.id, target.id, kind, 100, at) {
            lemma_quiet_trans(store, single, after, past);
        }
    }
}

// ---------------------------------------------------------------------------
// Passes
// ---------------------------------------------------------------------------
proof fn lemma_quiet_applied_all(
    store: StoreModel,
    report: ProjectReport,
    event: EventModel,
    memories: Seq<DistilledModel>,
    neighbors: Seq<NodeModel>,
    now: i64,
    past: Option<i64>,
)
    requires
        wf(store),
        later_than(event.observed_at_unix_ms, past),
    ensures
        match applied_all(store, report, event, memories, neighbors, now) {
            Ok(done) => quiet(store, done.store, past),
            Err(_) => true,
        },
    decreases memories.len(),
{
    if memories.len() == 0 {
        lemma_quiet_refl(store, past);
    } else {
        let front = memories.drop_last();
        lemma_quiet_applied_all(store, report, event, front, neighbors, now, past);
        if let Ok(done) = applied_all(store, report, event, front, neighbors, now) {
            lemma_quiet_applied(done.store, event, memories.last(), neighbors, now, past);
            if let Ok((after, _)) = done.store.applied(event, memories.last(), neighbors, now) {
                lemma_quiet_trans(store, done.store, after, past);
            }
        }
    }
}

proof fn lemma_quiet_chain(
    store: StoreModel,
    event: EventModel,
    nodes: Seq<NodeModel>,
    past: Option<i64>,
)
    requires
        later_than(event.observed_at_unix_ms, past),
    ensures
        match store.chain_linked(event, nodes) {
            Ok((after, _)) => quiet(store, after, past),
            Err(_) => true,
        },
    decreases nodes.len(),
{
    if nodes.len() < 2 {
        lemma_quiet_refl(store, past);
    } else {
        lemma_quiet_chain(store, event, nodes.drop_last(), past);
        if let Ok((front, _)) = store.chain_linked(event, nodes.drop_last()) {
            let scope = event_scope(event);
            let at = event.observed_at_unix_ms;
            let from = nodes[nodes.len() - 2].id;
            let to = nodes[nodes.len() - 1].id;
            let derived = MemoryEdgeKind::DerivedFrom;
            lemma_quiet_linked(front, scope, to, from, derived, 80, at, past);
            if let Ok((middle, _)) = front.linked(scope, to, from, derived, 80, at) {
                lemma_quiet_trans(store, front, middle, past);
                let observed = MemoryEdgeKind::ObservedIn;
                lemma_quiet_linked(middle, scope, to, from, observed, 90, at, past);
                if let Ok((after, _)) = middle.linked(scope, to, from, observed, 90, at) {
                    lemma_quiet_trans(store, middle, after, past);
                }
            }
        }
    }
}

proof fn lemma_quiet_memories(
    run: LateRun,
    event: EventModel,
    node: NodeModel,
    neighbors: Seq<NodeModel>,
    memories: Seq<DistilledModel>,
    now: i64,
    past: Option<i64>,
)
    requires
        wf(run.store),
        later_than(event.observed_at_unix_ms, past),
    ensures
        quiet(run.store, run.after_memories(event, node, neighbors, memories, now).store, past),
    decreases memories.len(),
{
    if memories.len() == 0 {
        lemma_quiet_refl(run.store, past);
    } else {
        lemma_quiet_memories(run, event, node, neighbors, memories.drop_last(), now, past);
        let front = run.after_memories(event, node, neighbors, memories.drop_last(), now);
        let memory = memories.last();
        lemma_quiet_refl(front.store, past);
        lemma_quiet_late_invalidated(front.store, event, memory, node.id, now, past);
        lemma_quiet_late_updated(front.store, event, memory, node, now, past);
        let after = front.after_memory(event, node, neighbors, memory, now);
        assert(quiet(front.store, after.store, past));
        lemma_quiet_trans(run.store, front.store, after.store, past);
    }
}

proof fn lemma_quiet_event(
    run: LateRun,
    event: EventModel,
    node: NodeModel,
    reply: Reply,
    now: i64,
    past: Option<i64>,
)
    requires
        wf(run.store),
        later_than(event.observed_at_unix_ms, past),
    ensures
        quiet(run.store, run.after_event(event, node, reply, now).store, past),
{
    reveal(LateRun::after_event);
    lemma_quiet_refl(run.store, past);
    let neighbors = run.store.recall(
        event_scope(event),
        terms_of(event.text),
        open_before(run.store, event),
        24,
    );
    if !run.over() && some_row(neighbors, with_id(node.id)) {
        if let Ok(outcome) = reply {
            if let Ok(checked) = checked_outcome(
                "late distilled memory"@,
                event,
                neighbors,
                outcome,
            ) {
                let heard = LateRun {
                    asked: run.asked.push(Call { event, neighbors, reply }),
                    ..run
                };
                let counted = LateRun {
                    report: heard.report.plus_metrics(checked.metrics).plus_outputs(
                        checked.memories.len(),
                    ),
                    ..heard
                };
                lemma_quiet_memories(counted, event, node, neighbors, checked.memories, now, past);
            }
        }
    }
}

proof fn lemma_quiet_events(
    run: LateRun,
    events: Seq<EventModel>,
    node: NodeModel,
    replies: Seq<Reply>,
    now: i64,
    past: Option<i64>,
)
    requires
        wf(run.store),
        forall|i: int|
            0 <= i < events.len() ==> later_than((#[trigger] events[i]).observed_at_unix_ms, past),
    ensures
        quiet(run.store, run.after_events(events, node, replies, now).store, past),
    decreases events.len(),
{
    if events.len() == 0 {
        lemma_quiet_refl(run.store, past);
    } else {
        let earlier = events.drop_last();
        assert forall|i: int| 0 <= i < earlier.len() implies later_than(
            (#[trigger] earlier[i]).observed_at_unix_ms,
            past,
        ) by {
            assert(earlier[i] == events[i]);
        }
        lemma_quiet_events(run, earlier, node, replies.drop_last(), now, past);
        let front = run.after_events(earlier, node, replies.drop_last(), now);
        assert(later_than(events[events.len() - 1].observed_at_unix_ms, past));
        lemma_quiet_event(front, events.last(), node, replies.last(), now, past);
        lemma_quiet_trans(
            run.store,
            front.store,
            front.after_event(events.last(), node, replies.last(), now).store,
            past,
        );
    }
}

/// The events that are replayed against a late memory were not observed before its own.
proof fn lemma_later_events(
    store: StoreModel,
    event: EventModel,
    node: NodeModel,
    past: Option<i64>,
)
    requires
        later_than(event.observed_at_unix_ms, past),
    ensures
        forall|i: int|
            0 <= i < later_events(store, event, node).len() ==> later_than(
                (#[trigger] later_events(store, event, node)[i]).observed_at_unix_ms,
                past,
            ),
{
    let found = later_events(store, event, node);
    let test = projected_between(
        event_scope(event),
        event,
        node.valid_to_unix_ms,
        node.valid_to_event_id,
    );
    assert forall|i: int| 0 <= i < found.len() implies later_than(
        (#[trigger] found[i]).observed_at_unix_ms,
        past,
    ) by {
        let rows = store.ledger.filter(test);
        assert(found.contains(found[i]));
        lemma_ranked_contains::<LedgerEvent, ByObserved>(rows, found[i]);
        lemma_filter_contains(store.ledger, test, found[i]);
    }
}

proof fn lemma_quiet_nodes(
    store: StoreModel,
    event: EventModel,
    nodes: Seq<NodeModel>,
    replies: Seq<Seq<Reply>>,
    now: i64,
    past: Option<i64>,
)
    requires
        wf(store),
        later_than(event.observed_at_unix_ms, past),
    ensures
        quiet(store, late_nodes(store, event, nodes, replies, now).store, past),
    decreases nodes.len(),
{
    if nodes.len() == 0 {
        lemma_quiet_refl(store, past);
    } else {
        lemma_quiet_nodes(store, event, nodes.drop_last(), replies.drop_last(), now, past);
        let front = late_nodes(store, event, nodes.drop_last(), replies.drop_last(), now);
        if front.error is None {
            reveal(late_node);
            lemma_quiet_refl(front.store, past);
            lemma_later_events(front.store, event, nodes.last(), past);
            lemma_quiet_events(
                late_start(front.store),
                later_events(front.store, event, nodes.last()),
                nodes.last(),
                replies.last(),
                now,
                past,
            );
            let last = late_node(front.store, event, nodes.last(), replies.last(), now);
            lemma_quiet_trans(store, front.store, last.store, past);
        }
    }
}

/// The memories that were touched are no fewer than those that were added, brought up to date or
/// taken back, as far as they can be counted.
pub open spec fn balanced(report: ProjectReport) -> bool {
    report.stored_memories_touched == usize::MAX || report.stored_memories_touched
        >= report.memories_added + report.memories_updated + report.memories_invalidated
}

/// A report that counts no event.
pub open spec fn counts_no_event(report: ProjectReport) -> bool {
    report.events_seen == 0 && report.events_projected == 0 && report.events_skipped == 0
}

proof fn lemma_applied_counts(
    store: StoreModel,
    report: ProjectReport,
    event: EventModel,
    memories: Seq<DistilledModel>,
    neighbors: Seq<NodeModel>,
    now: i64,
)
    requires
        balanced(report),
    ensures
        applied_all(store, report, event, memories, neighbors, now) matches Ok(done) ==> {
            &&& done.report.events_seen == report.events_seen
            &&& done.report.events_skipped == report.events_skipped
            &&& balanced(done.report)
        },
    decreases memories.len(),
{
    if memories.len() > 0 {
        lemma_applied_counts(store, report, event, memories.drop_last(), neighbors, now);
    }
}

proof fn lemma_memories_counts(
    run: LateRun,
    event: EventModel,
    node: NodeModel,
    neighbors: Seq<NodeModel>,
    memories: Seq<DistilledModel>,
    now: i64,
)
    requires
        balanced(run.report),
        counts_no_event(run.report),
    ensures
        balanced(run.after_memories(event, node, neighbors, memories, now).report),
        counts_no_event(run.after_memories(event, node, neighbors, memories, now).report),
    decreases memories.len(),
{
    if memories.len() > 0 {
        lemma_memories_counts(run, event, node, neighbors, memories.drop_last(), now);
    }
}

proof fn lemma_events_counts(
    run: LateRun,
    events: Seq<EventModel>,
    node: NodeModel,
    replies: Seq<Reply>,
    now: i64,
)
    requires
        balanced(run.report),
        counts_no_event(run.report),
    ensures
        balanced(run.after_events(events, node, replies, now).report),
        counts_no_event(run.after_events(events, node, replies, now).report),
    decreases events.len(),
{
    if events.len() > 0 {
        lemma_events_counts(run, events.drop_last(), node, replies.drop_last(), now);
        let front = run.after_events(events.drop_last(), node, replies.drop_last(), now);
        let event = events.last();
        let reply = replies.last();
        reveal(LateRun::after_event);
        let neighbors = front.store.recall(
            event_scope(event),
            terms_of(event.text),
            open_before(front.store, event),
            24,
        );
        if let Ok(outcome) = reply {
            if let Ok(checked) = checked_outcome(
                "late distilled memory"@,
                event,
                neighbors,
                outcome,
            ) {
                let counted = LateRun {
                    report: front.report.plus_metrics(checked.metrics).plus_outputs(
                        checked.memories.len(),
                    ),
                    asked: front.asked.push(Call { event, neighbors, reply }),
                    ..front
                };
                lemma_memories_counts(counted, event, node, neighbors, checked.memories, now);
            }
        }
    }
}

proof fn lemma_late_counts(
    store: StoreModel,
    event: EventModel,
    nodes: Seq<NodeModel>,
    replies: Seq<Seq<Reply>>,
    now: i64,
)
    ensures
        balanced(late_nodes(store, event, nodes, replies, now).report),
        counts_no_event(late_nodes(store, event, nodes, replies, now).report),
    decreases nodes.len(),
{
    if nodes.len() > 0 {
        lemma_late_counts(store, event, nodes.drop_last(), replies.drop_last(), now);
        let front = late_nodes(store, event, nodes.drop_last(), replies.drop_last(), now);
        reveal(late_node);
        lemma_events_counts(
            late_start(front.store),
            later_events(front.store, event, nodes.last()),
            nodes.last(),
            replies.last(),
            now,
        );
    }
}

proof fn lemma_projected_left(
    store: StoreModel,
    report: ProjectReport,
    event: EventModel,
    event_id: i64,
    memories: Seq<DistilledModel>,
    neighbors: Seq<NodeModel>,
    now: i64,
    past: Option<i64>,
)
    requires
        wf(store),
        event.id == Some(event_id),
        balanced(report),
        later_than(event.observed_at_unix_ms, past),
    ensures
        projected(store, report, event, event_id, memories, neighbors, now) matches Ok(done) ==> {
            &&& event_left(store, done.store, event, true, now, past)
            &&& done.report.events_seen == report.events_seen
            &&& done.report.events_skipped == report.events_skipped
            &&& done.report.events_projected == 1
            &&& balanced(done.report)
        },
{
    reveal(projected);
    lemma_quiet_applied_all(store, report, event, memories, neighbors, now, past);
    lemma_applied_counts(store, report, event, memories, neighbors, now);
    if let Ok(done) = applied_all(store, report, event, memories, neighbors, now) {
        lemma_quiet_chain(done.store, event, done.nodes, past);
        if let Ok((linked, _)) = done.store.chain_linked(event, done.nodes) {
            lemma_quiet_trans(store, done.store, linked, past);
            lemma_marked(linked, event_id, now);
            let after = linked.marked(event_id, now);
            lemma_sound_trans(store, linked, after);
            if let Some(at) = past {
                assert(untouched(store, after, at)) by {
                    reveal(untouched);
                }
            }
        }
    }
}

/// What projecting an event leaves: the ledger, with the event marked where it was projected
/// and the rest as it was, and the past.
pub open spec fn event_left(
    before: StoreModel,
    after: StoreModel,
    event: EventModel,
    marked: bool,
    now: i64,
    past: Option<i64>,
) -> bool {
    &&& wf(after)
    &&& evolves(before, after)
    &&& after.ledger == (if marked {
        marked_rows(before.ledger, event.id->0, now)
    } else {
        before.ledger
    })
    &&& past matches Some(at) ==> untouched(before, after, at)
}

/// What projecting an event came to: it was marked and counted as projected, or left waiting and
/// counted as skipped, unless an error ended it.
pub open spec fn event_counted(
    store: StoreModel,
    run: EventRun,
    event: EventModel,
    marked: bool,
    now: i64,
    past: Option<i64>,
) -> bool {
    &&& event_left(store, run.store, event, marked, now, past)
    &&& marked ==> event.id is Some && waits(store, event.id->0)
    &&& run.error is None ==> {
        &&& balanced(run.report)
        &&& run.report.events_seen == 1
        &&& run.report.events_projected == (if marked {
            1int
        } else {
            0
        })
        &&& run.report.events_skipped == (if marked {
            0int
        } else {
            1
        })
    }
}

/// Projecting an event marks it, or leaves the ledger; either way it leaves the past.
pub proof fn lemma_event_counted(
    store: StoreModel,
    event: EventModel,
    replies: EventReplies,
    late: bool,
    now: i64,
    past: Option<i64>,
) -> (marked: bool)
    requires
        wf(store),
        later_than(event.observed_at_unix_ms, past),
    ensures
        event_counted(
            store,
            event_run(store, event, replies, late, now),
            event,
            marked,
            now,
            past,
        ),
{
    reveal(event_run);
    lemma_quiet_refl(store, past);
    let run = event_run(store, event, replies, late, now);
    assert(event_left(store, store, event, false, now, past));
    if event.id is None || !waits(store, event.id->0) {
        false
    } else {
        let neighbors = event_neighbors(store, event);
        let seen = event_seen(event);
        match replies.first {
            Err(_) => false,
            Ok(outcome) => match checked_outcome("distilled memory"@, event, neighbors, outcome) {
                Err(_) => false,
                Ok(checked) => {
                    let counted = seen.plus_metrics(checked.metrics);
                    let report = counted.plus_outputs(checked.memories.len());
                    let memories = checked.memories;
                    let id = event.id->0;
                    if checked.rejected {
                        false
                    } else {
                        match projected(store, report, event, id, memories, neighbors, now) {
                            Err(_) => false,
                            Ok(done) => {
                                lemma_projected_left(
                                    store,
                                    report,
                                    event,
                                    id,
                                    memories,
                                    neighbors,
                                    now,
                                    past,
                                );
                                if late {
                                    let replayed = replies.late;
                                    let nodes = done.nodes;
                                    let later = late_nodes(done.store, event, nodes, replayed, now);
                                    lemma_quiet_nodes(
                                        done.store,
                                        event,
                                        nodes,
                                        replayed,
                                        now,
                                        past,
                                    );
                                    lemma_left_on(store, done.store, later.store, event, now, past);
                                    lemma_late_counts(done.store, event, nodes, replayed, now);
                                    assert(balanced(done.report.plus(later.report)));
                                }
                                true
                            },
                        }
                    }
                },
            },
        }
    }
}

/// A quiet write behind an event that was marked leaves what the event left.
proof fn lemma_left_on(
    a: StoreModel,
    b: StoreModel,
    c: StoreModel,
    event: EventModel,
    now: i64,
    past: Option<i64>,
)
    requires
        wf(a),
        event_left(a, b, event, true, now, past),
        quiet(b, c, past),
    ensures
        event_left(a, c, event, true, now, past),
{
    lemma_sound_trans(a, b, c);
    if past is Some {
        lemma_untouched_trans(a, b, c, past->0);
    }
}

/// The events that wait for projection.
pub open spec fn waiting(store: StoreModel) -> nat {
    store.ledger.filter(is_pending()).len()
}

/// A run of events counted each of them once, as projected or as skipped; as many as it counted
/// as projected wait no longer.
pub open spec fn run_counted(store: StoreModel, events: nat, run: EventRun) -> bool {
    &&& balanced(run.report)
    &&& run.report.events_seen == events
    &&& run.report.events_seen == run.report.events_projected + run.report.events_skipped
    &&& waiting(run.store) + run.report.events_projected == waiting(store)
}

/// Projecting events counts them, and leaves what was seen before any of them was observed.
pub proof fn lemma_events_counted(
    store: StoreModel,
    events: Seq<EventModel>,
    replies: Seq<EventReplies>,
    late: bool,
    now: i64,
    past: Option<i64>,
)
    requires
        wf(store),
        events.len() <= usize::MAX,
        forall|i: int|
            0 <= i < events.len() ==> later_than((#[trigger] events[i]).observed_at_unix_ms, past),
    ensures
        ({
            let run = events_run(store, events, replies, late, now);
            &&& wf(run.store)
            &&& evolves(store, run.store)
            &&& past matches Some(at) ==> untouched(store, run.store, at)
            &&& run.error is None ==> run_counted(store, events.len(), run)
        }),
    decreases events.len(),
{
    if events.len() == 0 {
        lemma_quiet_refl(store, past);
    } else {
        let earlier = events.drop_last();
        assert forall|i: int| 0 <= i < earlier.len() implies later_than(
            (#[trigger] earlier[i]).observed_at_unix_ms,
            past,
        ) by {
            assert(earlier[i] == events[i]);
        }
        lemma_events_counted(store, earlier, replies.drop_last(), late, now, past);
        let front = events_run(store, earlier, replies.drop_last(), late, now);
        if front.error is None {
            let event = events[events.len() - 1];
            assert(event == events.last());
            assert(later_than(event.observed_at_unix_ms, past));
            let last = event_run(front.store, event, replies.last(), late, now);
            let marked = lemma_event_counted(
                front.store,
                event,
                replies.last(),
                late,
                now,
                past,
            );
            lemma_sound_trans(store, front.store, last.store);
            if let Some(at) = past {
                lemma_untouched_trans(store, front.store, last.store, at);
            }
            if marked {
                lemma_marked_waits_no_more(front.store, event.id->0, now);
            }
            assert(last.error is None ==> balanced(front.report.plus(last.report)));
        }
    }
}

proof fn lemma_marked_waits_no_more(store: StoreModel, event_id: i64, now: i64)
    requires
        wf(store),
        waits(store, event_id),
    ensures
        marked_rows(store.ledger, event_id, now).filter(is_pending()).len() + 1 == waiting(store),
{
    let rows = store.ledger;
    lemma_first_index(rows, with_number(event_id));
    let k = first_index(rows, with_number(event_id))->0;
    let done = EventModel { projected_at_unix_ms: Some(now), ..rows[k] };
    assert(marked_rows(rows, event_id, now) =~= rows.update(k, done)) by {
        assert forall|i: int| 0 <= i < rows.len() && i != k implies rows[i].id != Some(event_id) by {
            if i < k {
                assert(rows[i].id->0 < rows[k].id->0);
            } else {
                assert(rows[k].id->0 < rows[i].id->0);
            }
        }
    }
    lemma_one_fewer(rows, k, done, is_pending());
}

/// One row fewer meets a condition once a row that did is changed so that it does not.
proof fn lemma_one_fewer<A>(rows: Seq<A>, k: int, row: A, test: spec_fn(A) -> bool)
    requires
        0 <= k < rows.len(),
        test(rows[k]),
        !test(row),
    ensures
        rows.update(k, row).filter(test).len() + 1 == rows.filter(test).len(),
    decreases rows.len(),
{
    reveal(Seq::filter);
    let after = rows.update(k, row);
    if k == rows.len() - 1 {
        assert(after.drop_last() =~= rows.drop_last());
    } else {
        lemma_one_fewer(rows.drop_last(), k, row, test);
        assert(after.drop_last() =~= rows.drop_last().update(k, row));
        assert(after.last() == rows.last());
    }
}

} // verus!
