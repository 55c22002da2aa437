//! Laws of upkeep: what the counts count, what a repair and a pruning leave, and what is filled
//! in when older tables are brought up to date.
use vstd::prelude::*;

use crate::ledger::EventModel;
use crate::model::MemoryNodeKind;
use crate::order::{
    lemma_ranked_contains, lemma_ranked_in_order, lemma_ranked_keeps_rows, ranked, Ranking,
};
use crate::rows::{
    AuditEvent, AuditModel, CueModel, EdgeModel, NodeModel, NodeSpanModel, RecordModel,
};
use crate::store::{holding_at, is_citation, is_pending, with_id, StoreModel};
use crate::table::{lemma_filter_contains, some_row};
use crate::upkeep::{
    audit_wf, cited_at, closing_edge, cue_anchored, cue_to_nothing, edge_anchored,
    edge_from_nowhere, edge_to_nowhere, holding_of_kind, identity_verdict, least_id,
    lemma_filter_distinct, lemma_filter_len, lemma_retained, lesser, newest, node_tokens,
    not_before, pruned, span_anchored, span_of_nothing, succeeding, version_problem, ByNewest,
    IdentityAction, MaintenanceOptions, StoreStats,
};

verus! {

// ---------------------------------------------------------------------------
// Counts
// ---------------------------------------------------------------------------
/// The count of memories of a kind that hold.
pub open spec fn kind_count(stats: StoreStats, kind: MemoryNodeKind) -> i64 {
    match kind {
        MemoryNodeKind::Episode => stats.active_episode_nodes,
        MemoryNodeKind::Fact => stats.active_fact_nodes,
        MemoryNodeKind::EntityCue => stats.active_entity_cue_nodes,
        MemoryNodeKind::Tag => stats.active_tag_nodes,
        MemoryNodeKind::Procedure => stats.active_procedure_nodes,
        MemoryNodeKind::State => stats.active_state_nodes,
        MemoryNodeKind::Gotcha => stats.active_gotcha_nodes,
        MemoryNodeKind::AntiMemory => stats.active_anti_memory_nodes,
        MemoryNodeKind::Topic => stats.active_topic_nodes,
    }
}

proof fn lemma_filter_push<A>(rows: Seq<A>, row: A, test: spec_fn(A) -> bool)
    ensures
        rows.push(row).filter(test) == (if test(row) {
            rows.filter(test).push(row)
        } else {
            rows.filter(test)
        }),
{
    reveal(Seq::filter);
    assert(rows.push(row).drop_last() =~= rows);
}

proof fn lemma_tokens(nodes: Seq<NodeModel>, node: NodeModel)
    ensures
        node_tokens(nodes.push(node)) == node_tokens(nodes) + node.token_estimate,
        0 <= node_tokens(nodes),
    decreases nodes.len(),
{
    assert(nodes.push(node).drop_last() =~= nodes);
    if nodes.len() > 0 {
        lemma_tokens(nodes.drop_last(), node);
    }
}

/// With one more memory the tables hold one more and its tokens; among those that hold, and among
/// those of its own kind that do, they count it exactly if it holds. Nothing else is counted
/// otherwise.
pub proof fn memories_are_counted(store: StoreModel, node: NodeModel, kind: MemoryNodeKind, now: i64)
    requires
        store.nodes.len() < i64::MAX,
        node_tokens(store.nodes) + node.token_estimate <= i64::MAX,
        node_tokens(store.nodes.filter(holding_at(now))) + node.token_estimate <= i64::MAX,
    ensures
        ({
            let before = store.stats(now);
            let after = (StoreModel { nodes: store.nodes.push(node), ..store }).stats(now);
            let holds = node.valid_from_unix_ms <= now && (node.valid_to_unix_ms matches Some(end)
                ==> now < end);
            let one: int = if holds {
                1
            } else {
                0
            };
            let of_kind: int = if holds && node.kind == kind {
                1
            } else {
                0
            };
            &&& after.nodes == before.nodes + 1
            &&& after.active_nodes == before.active_nodes + one
            &&& after.total_node_tokens == before.total_node_tokens + node.token_estimate
            &&& after.active_node_tokens == before.active_node_tokens + one * node.token_estimate
            &&& kind_count(after, kind) == kind_count(before, kind) + of_kind
            &&& after.ledger_events == before.ledger_events
            &&& after.pending_events == before.pending_events
            &&& after.edges == before.edges
            &&& after.audit_events == before.audit_events
        }),
{
    lemma_filter_push(store.nodes, node, holding_at(now));
    lemma_filter_push(store.nodes, node, holding_of_kind(kind, now));
    lemma_tokens(store.nodes, node);
    lemma_tokens(store.nodes.filter(holding_at(now)), node);
    lemma_filter_len(store.nodes, holding_at(now));
    lemma_filter_len(store.nodes, holding_of_kind(kind, now));
}

/// With one more event the ledger counts one more, and one more that waits exactly if it does;
/// edges and audit events are counted the same way, and empty tables count nothing.
pub proof fn other_rows_are_counted(
    store: StoreModel,
    event: EventModel,
    edge: EdgeModel,
    audit: AuditModel,
    now: i64,
)
    requires
        store.ledger.len() < i64::MAX,
        store.edges.len() < i64::MAX,
        store.audit.len() < i64::MAX,
    ensures
        ({
            let before = store.stats(now);
            let after = (StoreModel {
                ledger: store.ledger.push(event),
                edges: store.edges.push(edge),
                audit: store.audit.push(audit),
                ..store
            }).stats(now);
            &&& after.ledger_events == before.ledger_events + 1
            &&& after.pending_events == before.pending_events + (if event.projected_at_unix_ms
                is None {
                1int
            } else {
                0
            })
            &&& after.edges == before.edges + 1
            &&& after.audit_events == before.audit_events + 1
            &&& after.nodes == before.nodes
            &&& after.active_nodes == before.active_nodes
            &&& store.ledger.len() == 0 ==> before.ledger_events == 0 && before.pending_events == 0
            &&& store.nodes.len() == 0 ==> before.nodes == 0 && before.active_nodes == 0
                && before.total_node_tokens == 0 && before.active_node_tokens == 0
        }),
{
    lemma_filter_push(store.ledger, event, is_pending());
    lemma_filter_len(store.ledger, is_pending());
    lemma_filter_len(store.nodes, holding_at(now));
}

proof fn lemma_kinds_add_up(nodes: Seq<NodeModel>, now: i64)
    ensures
        nodes.filter(holding_at(now)).len() == nodes.filter(
            holding_of_kind(MemoryNodeKind::Episode, now),
        ).len() + nodes.filter(holding_of_kind(MemoryNodeKind::Fact, now)).len() + nodes.filter(
            holding_of_kind(MemoryNodeKind::EntityCue, now),
        ).len() + nodes.filter(holding_of_kind(MemoryNodeKind::Tag, now)).len() + nodes.filter(
            holding_of_kind(MemoryNodeKind::Procedure, now),
        ).len() + nodes.filter(holding_of_kind(MemoryNodeKind::State, now)).len() + nodes.filter(
            holding_of_kind(MemoryNodeKind::Gotcha, now),
        ).len() + nodes.filter(holding_of_kind(MemoryNodeKind::AntiMemory, now)).len()
            + nodes.filter(holding_of_kind(MemoryNodeKind::Topic, now)).len(),
    decreases nodes.len(),
{
    reveal(Seq::filter);
    if nodes.len() > 0 {
        lemma_kinds_add_up(nodes.drop_last(), now);
    }
}

/// Every memory that holds is counted under exactly one kind.
pub proof fn kinds_add_up(store: StoreModel, now: i64)
    requires
        store.nodes.len() <= i64::MAX,
    ensures
        ({
            let s = store.stats(now);
            s.active_nodes == s.active_episode_nodes + s.active_fact_nodes
                + s.active_entity_cue_nodes + s.active_tag_nodes + s.active_procedure_nodes
                + s.active_state_nodes + s.active_gotcha_nodes + s.active_anti_memory_nodes
                + s.active_topic_nodes
        }),
{
    lemma_kinds_add_up(store.nodes, now);
    lemma_filter_len(store.nodes, holding_at(now));
}

// ---------------------------------------------------------------------------
// Integrity
// ---------------------------------------------------------------------------
proof fn lemma_none_left<A>(rows: Seq<A>, test: spec_fn(A) -> bool)
    ensures
        rows.filter(test).len() == 0 <==> forall|i: int|
            0 <= i < rows.len() ==> !test(#[trigger] rows[i]),
{
    if rows.filter(test).len() > 0 {
        let row = rows.filter(test)[0];
        assert(rows.filter(test).contains(row));
        lemma_filter_contains(rows, test, row);
        let i = choose|i: int| 0 <= i < rows.len() && rows[i] == row;
        assert(test(rows[i]));
    } else {
        assert forall|i: int| 0 <= i < rows.len() implies !test(#[trigger] rows[i]) by {
            lemma_filter_contains(rows, test, rows[i]);
            assert(rows.contains(rows[i]));
        }
    }
}

/// Some memory of a list has an identifier.
pub open spec fn there(nodes: Seq<NodeModel>, id: Seq<char>) -> bool {
    exists|i: int| 0 <= i < nodes.len() && (#[trigger] nodes[i]).id == id
}

pub proof fn lemma_there(nodes: Seq<NodeModel>, id: Seq<char>)
    ensures
        some_row(nodes, with_id(id)) == there(nodes, id),
{
    let test = with_id(id);
    if some_row(nodes, test) {
        let i = choose|i: int| 0 <= i < nodes.len() && test(#[trigger] nodes[i]);
        assert(nodes[i].id == id);
    }
    if there(nodes, id) {
        let i = choose|i: int| 0 <= i < nodes.len() && (#[trigger] nodes[i]).id == id;
        assert(test(nodes[i]));
    }
}

/// The graph is sound if and only if every edge leads from a memory that is there to one that is
/// there, and every citation and every cue belongs to one that is there.
pub proof fn sound_graphs_lead_somewhere(store: StoreModel)
    ensures
        store.integrity().clean() <==> {
            &&& forall|i: int|
                0 <= i < store.edges.len() ==> there(
                    store.nodes,
                    (#[trigger] store.edges[i]).from_node_id,
                ) && there(store.nodes, store.edges[i].to_node_id)
            &&& forall|i: int|
                0 <= i < store.spans.len() ==> there(
                    store.nodes,
                    (#[trigger] store.spans[i]).node_id,
                )
            &&& forall|i: int|
                0 <= i < store.cues.len() ==> there(store.nodes, (#[trigger] store.cues[i]).node_id)
        },
{
    lemma_none_left(store.edges, edge_from_nowhere(store.nodes));
    lemma_none_left(store.edges, edge_to_nowhere(store.nodes));
    lemma_none_left(store.spans, span_of_nothing(store.nodes));
    lemma_none_left(store.cues, cue_to_nothing(store.nodes));
    assert forall|id: Seq<char>| #[trigger] some_row(store.nodes, with_id(id)) == there(
        store.nodes,
        id,
    ) by {
        lemma_there(store.nodes, id);
    }
    let from = edge_from_nowhere(store.nodes);
    let to = edge_to_nowhere(store.nodes);
    let spans = span_of_nothing(store.nodes);
    let cues = cue_to_nothing(store.nodes);
    assert forall|i: int| 0 <= i < store.edges.len() implies (!from(#[trigger] store.edges[i])
        && !to(store.edges[i])) == (there(store.nodes, store.edges[i].from_node_id) && there(
        store.nodes,
        store.edges[i].to_node_id,
    )) by {}
    assert forall|i: int| 0 <= i < store.spans.len() implies !spans(#[trigger] store.spans[i])
        == there(store.nodes, store.spans[i].node_id) by {}
    assert forall|i: int| 0 <= i < store.cues.len() implies !cues(#[trigger] store.cues[i])
        == there(store.nodes, store.cues[i].node_id) by {}
}

/// A repair takes out a row if and only if it leads to a memory that is missing, and touches
/// neither memories nor ledger nor audit log.
pub proof fn repairs_take_out_orphans_alone(
    store: StoreModel,
    edge: EdgeModel,
    span: NodeSpanModel,
    cue: CueModel,
)
    ensures
        ({
            let after = store.repaired();
            &&& after.nodes == store.nodes
            &&& after.ledger == store.ledger
            &&& after.audit == store.audit
            &&& after.edges.contains(edge) <==> store.edges.contains(edge) && there(
                store.nodes,
                edge.from_node_id,
            ) && there(store.nodes, edge.to_node_id)
            &&& after.spans.contains(span) <==> store.spans.contains(span) && there(
                store.nodes,
                span.node_id,
            )
            &&& after.cues.contains(cue) <==> store.cues.contains(cue) && there(
                store.nodes,
                cue.node_id,
            )
        }),
{
    lemma_filter_contains(store.edges, edge_anchored(store.nodes), edge);
    lemma_filter_contains(store.spans, span_anchored(store.nodes), span);
    lemma_filter_contains(store.cues, cue_anchored(store.nodes), cue);
    lemma_there(store.nodes, edge.from_node_id);
    lemma_there(store.nodes, edge.to_node_id);
    lemma_there(store.nodes, span.node_id);
    lemma_there(store.nodes, cue.node_id);
}

/// A reset makes every event wait again and counts those that did not; it counts all that it
/// takes out of the projection.
pub proof fn resets_count_what_they_undo(store: StoreModel)
    requires
        store.ledger.len() <= i64::MAX,
        store.nodes.len() <= i64::MAX,
        store.edges.len() <= i64::MAX,
        store.spans.len() <= i64::MAX,
        store.cues.len() <= i64::MAX,
    ensures
        ({
            let counts = store.reset_counts();
            let after = store.reset();
            &&& counts.ledger_events_reset + store.ledger.filter(is_pending()).len()
                == store.ledger.len()
            &&& counts.nodes_removed == store.nodes.len() - after.nodes.len()
            &&& counts.edges_removed == store.edges.len() - after.edges.len()
            &&& counts.node_spans_removed == store.spans.len() - after.spans.len()
            &&& counts.cue_index_entries_removed == store.cues.len() - after.cues.len()
            &&& forall|i: int|
                0 <= i < after.ledger.len() ==> (#[trigger] after.ledger[i]).projected_at_unix_ms
                    is None
        }),
{
    lemma_filter_len(store.ledger, is_pending());
}

// ---------------------------------------------------------------------------
// Audit log
// ---------------------------------------------------------------------------
/// The newest audit events are audit events, in order from the newest on; one that is left out
/// occurred no later than any that is listed.
pub proof fn the_newest_audit_events_come_first(
    events: Seq<AuditModel>,
    limit: int,
    event: AuditModel,
)
    requires
        0 <= limit,
    ensures
        ({
            let r = newest(events, limit);
            &&& r.len() <= limit
            &&& events.len() <= limit ==> r.len() == events.len()
            &&& r.contains(event) ==> events.contains(event)
            &&& forall|i: int, j: int|
                0 <= i < j < r.len() ==> (#[trigger] r[i]).occurred_at_unix_ms >= (
                #[trigger] r[j]).occurred_at_unix_ms
            &&& events.contains(event) && !r.contains(event) ==> r.len() == limit && forall|i: int|
                0 <= i < r.len() ==> (#[trigger] r[i]).occurred_at_unix_ms
                    >= event.occurred_at_unix_ms
        }),
{
    let sorted = ranked::<AuditEvent, ByNewest>(events);
    let r = newest(events, limit);
    lemma_ranked_keeps_rows::<AuditEvent, ByNewest>(events);
    lemma_ranked_in_order::<AuditEvent, ByNewest>(events);
    lemma_ranked_contains::<AuditEvent, ByNewest>(events, event);
    if r.contains(event) {
        let k = choose|k: int| 0 <= k < r.len() && r[k] == event;
        assert(sorted[k] == event);
    }
    assert forall|i: int, j: int| 0 <= i < j < r.len() implies (#[trigger] r[i]).occurred_at_unix_ms
        >= (#[trigger] r[j]).occurred_at_unix_ms by {
        assert(r[i] == sorted[i] && r[j] == sorted[j]);
        assert(!ByNewest::before(sorted[j], sorted[i]));
    }
    if events.contains(event) && !r.contains(event) {
        let k = choose|k: int| 0 <= k < sorted.len() && sorted[k] == event;
        if k < r.len() {
            assert(r[k] == event);
        }
        assert forall|i: int| 0 <= i < r.len() implies (#[trigger] r[i]).occurred_at_unix_ms
            >= event.occurred_at_unix_ms by {
            assert(r[i] == sorted[i]);
            assert(!ByNewest::before(sorted[k], sorted[i]));
        }
    }
}

/// Pruning drops no more than it is told to: an audit event that did not occur before the cutoff
/// goes only where the log is cut down to a number, and then as many as that stay.
pub proof fn pruning_drops_no_more_than_told(
    events: Seq<AuditModel>,
    before: Option<i64>,
    retain: Option<usize>,
    event: AuditModel,
)
    requires
        audit_wf(events),
        events.contains(event),
        before matches Some(cutoff) ==> event.occurred_at_unix_ms >= cutoff,
        !pruned(events, before, retain).contains(event),
    ensures
        retain matches Some(limit) && pruned(events, before, retain).len() >= limit,
{
    let young = match before {
        Some(cutoff) => events.filter(not_before(cutoff)),
        None => events,
    };
    if let Some(cutoff) = before {
        lemma_filter_distinct(events, not_before(cutoff));
        lemma_filter_contains(events, not_before(cutoff), event);
    }
    assert(young.contains(event));
    assert(audit_wf(young));
    if let Some(limit) = retain {
        let first = newest(young, limit as int);
        let out = pruned(events, before, retain);
        lemma_retained(young, limit as int, event);
        the_newest_audit_events_come_first(young, limit as int, event);
        let sorted = ranked::<AuditEvent, ByNewest>(young);
        assert(young.no_duplicates()) by {
            assert forall|i: int, j: int|
                0 <= i < young.len() && 0 <= j < young.len() && i != j implies young[i]
                != young[j] by {
                if i < j {
                    assert(young[i].id != young[j].id);
                } else {
                    assert(young[j].id != young[i].id);
                }
            }
        }
        lemma_ranked_keeps_rows::<AuditEvent, ByNewest>(young);
        young.lemma_multiset_has_no_duplicates();
        sorted.lemma_multiset_has_no_duplicates_conv();
        assert(first.no_duplicates()) by {
            assert forall|i: int, j: int|
                0 <= i < first.len() && 0 <= j < first.len() && i != j implies first[i]
                != first[j] by {
                assert(first[i] == sorted[i] && first[j] == sorted[j]);
            }
        }
        first.unique_seq_to_set();
        out.lemma_cardinality_of_set();
        assert(first.to_set().subset_of(out.to_set())) by {
            assert forall|e: AuditModel| first.to_set().contains(e) implies
                #[trigger] out.to_set().contains(e) by {
                assert(first.contains(e));
                lemma_retained(young, limit as int, e);
            }
        }
        vstd::set_lib::lemma_len_subset(first.to_set(), out.to_set());
    }
}

/// An audit record that is taken is kept as the last of the log, in its words and at its time,
/// under a number of its own; nothing else changes.
pub proof fn audit_records_are_kept(store: StoreModel, record: RecordModel, now: i64)
    ensures
        store.audited(record, now) matches Ok((after, id)) ==> {
            &&& after.audit.len() == store.audit.len() + 1
            &&& after.audit.drop_last() == store.audit
            &&& after.audit.last().id == id
            &&& id == store.last_audit_id + 1
            &&& after.audit.last().occurred_at_unix_ms == now
            &&& after.audit.last().actor == record.actor
            &&& after.audit.last().action == record.action
            &&& after.audit.last().outcome == record.outcome
            &&& after.audit.last().route == record.route
            &&& after.audit.last().status_code == record.status_code
            &&& after.audit.last().detail == record.detail
            &&& after.nodes == store.nodes
            &&& after.ledger == store.ledger
            &&& after.edges == store.edges
        },
        record.problem() is None && store.last_audit_id < i64::MAX ==> store.audited(record, now)
            is Ok,
        record.problem() is Some ==> store.audited(record, now) is Err,
{
    if let Ok((after, id)) = store.audited(record, now) {
        assert(after.audit.drop_last() =~= store.audit);
    }
}

// ---------------------------------------------------------------------------
// Identity of a file
// ---------------------------------------------------------------------------
/// A file with the library's own mark is used as it is; one without any mark is marked if and
/// only if it may be initialized and holds nothing yet; a file of anyone else's is never touched.
pub proof fn foreign_files_are_not_touched(
    application_id: i64,
    user_version: u32,
    initialize_empty: bool,
    has_user_objects: bool,
)
    ensures
        ({
            let verdict = identity_verdict(
                application_id,
                user_version,
                initialize_empty,
                has_user_objects,
            );
            &&& verdict == Ok::<IdentityAction, Seq<char>>(IdentityAction::Accept)
                <==> application_id == 0x424D_454D
            &&& verdict == Ok::<IdentityAction, Seq<char>>(IdentityAction::Stamp)
                <==> application_id == 0 && initialize_empty && user_version == 0
                && !has_user_objects
            &&& application_id != 0 && application_id != 0x424D_454D ==> verdict is Err
            &&& application_id == 0 && has_user_objects ==> verdict is Err
        }),
{
}

/// Tables of a layout up to the third can be read, and no later ones.
pub proof fn later_layouts_are_refused(what: Seq<char>, user_version: u32)
    ensures
        version_problem(what, user_version) is None <==> user_version <= 3,
{
}

// ---------------------------------------------------------------------------
// Migration
// ---------------------------------------------------------------------------
/// The lesser of two identifiers is one of them and not above the other; one alone is the
/// lesser.
pub proof fn the_lesser_is_not_above(a: Option<i64>, b: Option<i64>)
    ensures
        lesser(a, b) == a || lesser(a, b) == b,
        lesser(a, b) is None <==> a is None && b is None,
        a matches Some(x) ==> lesser(a, b) is Some && lesser(a, b)->0 <= x,
        b matches Some(y) ==> lesser(a, b) is Some && lesser(a, b)->0 <= y,
{
}

proof fn lemma_least(events: Seq<EventModel>, k: int)
    requires
        0 <= k < events.len(),
        events[k].id is Some,
    ensures
        least_id(events) is Some,
        least_id(events)->0 <= events[k].id->0,
    decreases events.len(),
{
    if k < events.len() - 1 {
        assert(events.drop_last()[k] == events[k]);
        lemma_least(events.drop_last(), k);
    }
    the_lesser_is_not_above(least_id(events.drop_last()), events.last().id);
}

proof fn lemma_least_is_one(events: Seq<EventModel>) -> (k: int)
    requires
        least_id(events) is Some,
    ensures
        0 <= k < events.len(),
        events[k].id == least_id(events),
    decreases events.len(),
{
    the_lesser_is_not_above(least_id(events.drop_last()), events.last().id);
    if events.last().id == least_id(events) {
        events.len() - 1
    } else {
        let k = lemma_least_is_one(events.drop_last());
        assert(events.drop_last()[k] == events[k]);
        k
    }
}

proof fn lemma_closer_least(store: StoreModel, edges: Seq<EdgeModel>, at: i64, e: int, k: int)
    requires
        0 <= e < edges.len(),
        0 <= k < store.ledger.len(),
        store.ledger[k].id is Some,
        (cited_at(store.spans, edges[e].from_node_id, at))(store.ledger[k]),
    ensures
        store.least_closer(edges, at) is Some,
        store.least_closer(edges, at)->0 <= store.ledger[k].id->0,
    decreases edges.len(),
{
    let test = cited_at(store.spans, edges.last().from_node_id, at);
    let cited = store.ledger.filter(test);
    the_lesser_is_not_above(store.least_closer(edges.drop_last(), at), least_id(cited));
    if e < edges.len() - 1 {
        assert(edges.drop_last()[e] == edges[e]);
        lemma_closer_least(store, edges.drop_last(), at, e, k);
    } else {
        lemma_filter_contains(store.ledger, test, store.ledger[k]);
        assert(store.ledger.contains(store.ledger[k]));
        let j = choose|j: int| 0 <= j < cited.len() && cited[j] == store.ledger[k];
        lemma_least(cited, j);
    }
}

proof fn lemma_closer_is_cited(store: StoreModel, edges: Seq<EdgeModel>, at: i64) -> (r: (int, int))
    requires
        store.least_closer(edges, at) is Some,
    ensures
        ({
            let (e, k) = r;
            &&& 0 <= e < edges.len()
            &&& 0 <= k < store.ledger.len()
            &&& store.ledger[k].id == store.least_closer(edges, at)
            &&& (cited_at(store.spans, edges[e].from_node_id, at))(store.ledger[k])
        }),
    decreases edges.len(),
{
    let test = cited_at(store.spans, edges.last().from_node_id, at);
    let cited = store.ledger.filter(test);
    the_lesser_is_not_above(store.least_closer(edges.drop_last(), at), least_id(cited));
    if store.least_closer(edges, at) == least_id(cited) {
        let j = lemma_least_is_one(cited);
        assert(cited.contains(cited[j]));
        lemma_filter_contains(store.ledger, test, cited[j]);
        let k = choose|k: int| 0 <= k < store.ledger.len() && store.ledger[k] == cited[j];
        (edges.len() - 1, k)
    } else {
        let (e, k) = lemma_closer_is_cited(store, edges.drop_last(), at);
        assert(edges.drop_last()[e] == edges[e]);
        (e, k)
    }
}

/// Where edges tell what closed a memory, the event that is filled in was observed when the
/// memory was closed, is cited by a memory that revises it, and is the first such in the ledger:
/// no other event of that time that a revising memory cites has a lesser number.
pub proof fn the_first_closer_is_filled_in(
    store: StoreModel,
    node: NodeModel,
    at: i64,
    e: int,
    k: int,
) -> (r: (int, int))
    requires
        0 <= e < store.edges.len(),
        store.edges[e].to_node_id == node.id,
        store.edges[e].revises(),
        0 <= k < store.ledger.len(),
        store.ledger[k].id is Some,
        store.ledger[k].observed_at_unix_ms == at,
        some_row(store.spans, is_citation(store.edges[e].from_node_id, store.ledger[k].span())),
    ensures
        ({
            let (f, j) = r;
            let closer = store.closer_of(node, at);
            &&& closer is Some
            &&& closer->0 <= store.ledger[k].id->0
            &&& 0 <= f < store.edges.len()
            &&& store.edges[f].to_node_id == node.id
            &&& store.edges[f].revises()
            &&& 0 <= j < store.ledger.len()
            &&& store.ledger[j].id == closer
            &&& store.ledger[j].observed_at_unix_ms == at
            &&& some_row(
                store.spans,
                is_citation(store.edges[f].from_node_id, store.ledger[j].span()),
            )
        }),
{
    let test = closing_edge(node.id);
    let edges = store.edges.filter(test);
    lemma_filter_contains(store.edges, test, store.edges[e]);
    assert(store.edges.contains(store.edges[e]));
    let i = choose|i: int| 0 <= i < edges.len() && edges[i] == store.edges[e];
    lemma_closer_least(store, edges, at, i, k);
    let (g, j) = lemma_closer_is_cited(store, edges, at);
    assert(edges.contains(edges[g]));
    lemma_filter_contains(store.edges, test, edges[g]);
    let f = choose|f: int| 0 <= f < store.edges.len() && store.edges[f] == edges[g];
    (f, j)
}

/// Filling in changes nothing of a memory but which event closed it, and that only where the
/// memory is closed and no event is recorded.
pub proof fn filling_in_changes_no_more(store: StoreModel, i: int)
    requires
        0 <= i < store.nodes.len(),
    ensures
        ({
            let before = store.nodes[i];
            let after = store.backfilled().nodes[i];
            &&& store.backfilled().nodes.len() == store.nodes.len()
            &&& store.backfilled().ledger == store.ledger
            &&& store.backfilled().edges == store.edges
            &&& store.backfilled().spans == store.spans
            &&& after == (NodeModel { valid_to_event_id: after.valid_to_event_id, ..before })
            &&& before.valid_to_event_id is Some || before.valid_to_unix_ms is None ==> after
                == before
            &&& before.valid_to_unix_ms matches Some(at) ==> (before.valid_to_event_id is None
                ==> after.valid_to_event_id == store.closer_of(before, at))
        }),
{
}

/// Tables of the present layout are filled in and nothing more; older ones in which it cannot be
/// told what closed some memory are projected anew from the ledger.
pub proof fn unclear_tables_are_projected_anew(store: StoreModel, user_version: u32, i: int)
    ensures
        user_version >= 3 ==> store.migrated(user_version) == store.backfilled(),
        user_version < 3 && 0 <= i < store.nodes.len() && store.backfilled().unclear_closing(
            store.backfilled().nodes[i],
        ) ==> store.migrated(user_version) == store.backfilled().reset(),
        user_version < 3 && (forall|k: int|
            0 <= k < store.nodes.len() ==> !store.backfilled().unclear_closing(
                #[trigger] store.backfilled().nodes[k],
            )) ==> store.migrated(user_version) == store.backfilled(),
{
    let filled = store.backfilled();
    let test = |node: NodeModel| filled.unclear_closing(node);
    if 0 <= i < store.nodes.len() && filled.unclear_closing(filled.nodes[i]) {
        assert(test(filled.nodes[i]));
        assert(some_row(filled.nodes, test));
    }
}

/// Maintenance repairs only where it is told to, prunes the audit log as it is told to, and
/// never touches memories or the ledger.
pub proof fn maintenance_does_what_it_is_told(store: StoreModel, options: MaintenanceOptions)
    ensures
        ({
            let after = store.maintained(options);
            &&& after.nodes == store.nodes
            &&& after.ledger == store.ledger
            &&& !options.repair_orphans ==> after.edges == store.edges && after.spans == store.spans
                && after.cues == store.cues
            &&& options.repair_orphans ==> after.integrity().clean()
            &&& after.audit == pruned(
                store.audit,
                options.prune_audit_before_unix_ms,
                options.retain_latest_audit_events,
            )
            &&& options.prune_audit_before_unix_ms is None && options.retain_latest_audit_events
                is None ==> after.audit == store.audit
        }),
{
    crate::upkeep::repair_leaves_the_graph_clean(store);
}

proof fn lemma_citation_least(store: StoreModel, nodes: Seq<NodeModel>, at: i64, n: int, k: int)
    requires
        0 <= n < nodes.len(),
        0 <= k < store.ledger.len(),
        store.ledger[k].id is Some,
        (cited_at(store.spans, nodes[n].id, at))(store.ledger[k]),
    ensures
        store.least_citation(nodes, at) is Some,
        store.least_citation(nodes, at)->0 <= store.ledger[k].id->0,
    decreases nodes.len(),
{
    let test = cited_at(store.spans, nodes.last().id, at);
    let cited = store.ledger.filter(test);
    the_lesser_is_not_above(store.least_citation(nodes.drop_last(), at), least_id(cited));
    if n < nodes.len() - 1 {
        assert(nodes.drop_last()[n] == nodes[n]);
        lemma_citation_least(store, nodes.drop_last(), at, n, k);
    } else {
        lemma_filter_contains(store.ledger, test, store.ledger[k]);
        assert(store.ledger.contains(store.ledger[k]));
        let j = choose|j: int| 0 <= j < cited.len() && cited[j] == store.ledger[k];
        lemma_least(cited, j);
    }
}

/// Where no edge tells what closed a memory, the first event of that time that a version which
/// follows it cites is filled in: no other such event has a lesser number.
pub proof fn the_first_successor_is_filled_in(
    store: StoreModel,
    node: NodeModel,
    at: i64,
    n: int,
    k: int,
)
    requires
        forall|e: int|
            0 <= e < store.edges.len() ==> !((#[trigger] store.edges[e]).to_node_id == node.id
                && store.edges[e].revises()),
        0 <= n < store.nodes.len(),
        (succeeding(node, at))(store.nodes[n]),
        0 <= k < store.ledger.len(),
        store.ledger[k].id is Some,
        store.ledger[k].observed_at_unix_ms == at,
        some_row(store.spans, is_citation(store.nodes[n].id, store.ledger[k].span())),
    ensures
        store.closer_of(node, at) is Some,
        store.closer_of(node, at)->0 <= store.ledger[k].id->0,
{
    lemma_none_left(store.edges, closing_edge(node.id));
    let test = succeeding(node, at);
    let nodes = store.nodes.filter(test);
    assert(store.nodes.contains(store.nodes[n]));
    lemma_filter_contains(store.nodes, test, store.nodes[n]);
    let i = choose|i: int| 0 <= i < nodes.len() && nodes[i] == store.nodes[n];
    lemma_citation_least(store, nodes, at, i, k);
}

/// What follows a memory at a time is another version of it, in its scope and of its kind, that
/// begins then.
pub proof fn successors_are_versions_of_one_memory(node: NodeModel, at: i64, other: NodeModel)
    ensures
        (succeeding(node, at))(other) ==> other.id != node.id && other.kind == node.kind
            && other.tenant_id == node.tenant_id && other.project_id == node.project_id
            && other.valid_from_unix_ms == at && crate::rows::family_key(other.canonical_key)
            == crate::rows::family_key(node.canonical_key),
        !(succeeding(node, at))(node),
{
}

} // verus!
