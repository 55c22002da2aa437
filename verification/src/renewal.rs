//! Laws of renewal: what becomes of a memory that is stated, stated again, replaced or closed,
//! and how it can be found afterwards.
use vstd::prelude::*;

use crate::belief::found_words_split_the_text;
use crate::chars::{blank, lemma_trim_blank, occurs, occurs_at, trim};
use crate::ledger::EventModel;
use crate::model::{token_cost, MemoryEdgeKind, MemoryNodeKind, SpanModel};
use crate::order::lemma_ranked_contains;
use crate::projection::{
    attached, cue_of_other, in_family, is_edge, merged_text, next_version, node_cues, reindexed,
    ByVersion,
};
use crate::rows::{CueModel, MemoryNode, NodeModel, NodeSpanModel, ScopeKey};
use crate::store::{is_citation, with_id, StoreModel};
use crate::table::{
    first_index, lemma_filter_contains, lemma_first_index, lemma_push_contains, some_row,
};
use crate::text::terms_of;

verus! {

// ---------------------------------------------------------------------------
// Stating again
// ---------------------------------------------------------------------------
proof fn lemma_part(before: Seq<char>, part: Seq<char>, after: Seq<char>)
    ensures
        occurs(part, before + part + after),
{
    let whole = before + part + after;
    assert(whole == before + part + after);
    found_words_split_the_text(part, whole);
}

/// A memory that is stated again says what it said and what is added, and no more than that;
/// stating the same once more adds nothing.
pub proof fn restated_memories_say_both(existing: Seq<char>, incoming: Seq<char>)
    ensures
        ({
            let r = merged_text(existing, incoming);
            &&& occurs(trim(existing), r) || r == existing
            &&& occurs(trim(incoming), r)
            &&& r.len() <= existing.len() + 1 + incoming.len()
            &&& merged_text(r, incoming) == r
        }),
{
    let kept = trim(existing);
    let added = trim(incoming);
    let r = merged_text(existing, incoming);
    lemma_trim_len(existing);
    lemma_trim_len(incoming);
    lemma_trim_blank(existing);
    if added.len() == 0 {
        assert(occurs_at(added, r, 0)) by {
            assert(r.subrange(0, 0) =~= added);
        }
    } else if occurs(added, existing) {
    } else if blank(existing) {
        lemma_part(Seq::empty(), added, Seq::empty());
        assert(Seq::<char>::empty() + added + Seq::<char>::empty() =~= added);
        assert(occurs_at(kept, r, 0)) by {
            assert(kept =~= Seq::empty());
            assert(r.subrange(0, 0) =~= kept);
        }
    } else {
        reveal_strlit(" ");
        lemma_part(Seq::empty(), kept, " "@ + added);
        assert(Seq::<char>::empty() + kept + (" "@ + added) =~= r);
        lemma_part(kept + " "@, added, Seq::empty());
        assert(kept + " "@ + added + Seq::<char>::empty() =~= r);
    }
}

proof fn lemma_trim_len(s: Seq<char>)
    ensures
        trim(s).len() <= s.len(),
{
    crate::chars::lemma_trim_start_shape(s);
    crate::chars::lemma_trim_end_shape(crate::chars::trim_start(s));
}

/// A memory that is observed again is surer of itself by five hundredths, up to certainty, and
/// has been observed once more; it is the same memory, of the same time, with the tokens of
/// what it now says.
pub proof fn observations_strengthen(node: NodeModel, text: Seq<char>, now: i64)
    requires
        node.confidence <= 100,
    ensures
        ({
            let again = node.observed_again(text, now);
            &&& node.confidence <= again.confidence <= 100
            &&& node.confidence <= 95 ==> again.confidence == node.confidence + 5
            &&& node.confidence > 95 ==> again.confidence == 100
            &&& node.observation_count < u32::MAX ==> again.observation_count
                == node.observation_count + 1
            &&& again.token_estimate == token_cost(again.text)
            &&& again.updated_at_unix_ms == now
            &&& again.id == node.id
            &&& again.kind == node.kind
            &&& again.canonical_key == node.canonical_key
            &&& again.tenant_id == node.tenant_id
            &&& again.project_id == node.project_id
            &&& again.environment_id == node.environment_id
            &&& again.created_at_unix_ms == node.created_at_unix_ms
            &&& again.valid_from_unix_ms == node.valid_from_unix_ms
            &&& again.valid_to_unix_ms == node.valid_to_unix_ms
            &&& again.valid_to_event_id == node.valid_to_event_id
        }),
{
}

// ---------------------------------------------------------------------------
// Beginning
// ---------------------------------------------------------------------------
/// A memory that begins says what was stated, in the scope, of the kind and from the time that
/// were stated; it is sixty-five hundredths sure, was observed once, and is not known to end
/// unless a later version of it is.
pub proof fn new_versions_say_what_was_stated(
    store: StoreModel,
    scope: ScopeKey,
    kind: MemoryNodeKind,
    family: Seq<char>,
    key: Seq<char>,
    text: Seq<char>,
    valid_from: i64,
    spans: Seq<SpanModel>,
    now: i64,
)
    ensures
        store.begun(scope, kind, family, key, text, valid_from, spans, now) matches Ok(up) ==> {
            &&& up.created
            &&& up.node.text == text
            &&& up.node.kind == kind
            &&& up.node.canonical_key == key
            &&& up.node.tenant_id == scope.tenant_id
            &&& up.node.project_id == scope.project_id
            &&& up.node.environment_id == scope.environment_id
            &&& up.node.valid_from_unix_ms == valid_from
            &&& up.node.confidence == 65
            &&& up.node.observation_count == 1
            &&& up.node.token_estimate == token_cost(text)
            &&& up.node.created_at_unix_ms == now
            &&& up.node.updated_at_unix_ms == now
            &&& up.store.nodes.len() == store.nodes.len() + 1
            &&& up.store.nodes.last() == up.node
            &&& up.store.ledger == store.ledger
            &&& up.store.edges == store.edges
            &&& up.store.audit == store.audit
        },
{
}

/// A version that begins ends where the next version of its family begins: at or before the
/// beginning of every later one, at the beginning of one of them, and not at all where there is
/// none.
pub proof fn new_versions_end_where_the_next_begins(
    store: StoreModel,
    scope: ScopeKey,
    kind: MemoryNodeKind,
    family: Seq<char>,
    key: Seq<char>,
    text: Seq<char>,
    valid_from: i64,
    spans: Seq<SpanModel>,
    now: i64,
    later: NodeModel,
)
    ensures
        store.begun(scope, kind, family, key, text, valid_from, spans, now) matches Ok(up) ==> {
            &&& store.nodes.contains(later) && (in_family(scope, kind, family))(later)
                && later.valid_from_unix_ms > valid_from ==> up.node.valid_to_unix_ms is Some
                && up.node.valid_to_unix_ms->0 <= later.valid_from_unix_ms
            &&& up.node.valid_to_unix_ms matches Some(end) ==> end > valid_from && exists|n: int|
                0 <= n < store.nodes.len() && (#[trigger] store.nodes[n]).valid_from_unix_ms == end
                    && store.nodes[n].kind == kind && store.nodes[n].in_scope(scope)
        },
{
    let member = in_family(scope, kind, family);
    let versions = store.family(scope, kind, family);
    lemma_next(versions, valid_from);
    if store.nodes.contains(later) && member(later) && later.valid_from_unix_ms > valid_from {
        lemma_filter_contains(store.nodes, member, later);
        lemma_ranked_contains::<MemoryNode, ByVersion>(store.nodes.filter(member), later);
        let k = choose|k: int| 0 <= k < versions.len() && versions[k] == later;
        assert(versions[k].valid_from_unix_ms > valid_from);
    }
    if let Some(next) = next_version(versions, valid_from) {
        lemma_ranked_contains::<MemoryNode, ByVersion>(store.nodes.filter(member), next);
        lemma_filter_contains(store.nodes, member, next);
        let n = choose|n: int| 0 <= n < store.nodes.len() && store.nodes[n] == next;
        assert(store.nodes[n].valid_from_unix_ms == next.valid_from_unix_ms);
        assert(member(store.nodes[n]));
    }
}

proof fn lemma_next(versions: Seq<NodeModel>, at: i64)
    ensures
        next_version(versions, at) matches Some(next) ==> versions.contains(next)
            && next.valid_from_unix_ms > at,
        forall|k: int|
            0 <= k < versions.len() && (#[trigger] versions[k]).valid_from_unix_ms > at ==> {
                &&& next_version(versions, at) is Some
                &&& next_version(versions, at)->0.valid_from_unix_ms
                    <= versions[k].valid_from_unix_ms
            },
    decreases versions.len(),
{
    if versions.len() > 0 {
        let front = versions.drop_last();
        lemma_next(front, at);
        assert(versions[versions.len() - 1] == versions.last());
        assert forall|k: int|
            0 <= k < versions.len() && (#[trigger] versions[k]).valid_from_unix_ms > at implies {
            &&& next_version(versions, at) is Some
            &&& next_version(versions, at)->0.valid_from_unix_ms <= versions[k].valid_from_unix_ms
        } by {
            if k < front.len() {
                assert(front[k] == versions[k]);
            }
        }
        if let Some(next) = next_version(front, at) {
            let k = choose|k: int| 0 <= k < front.len() && front[k] == next;
            assert(versions[k] == next);
        }
    }
}

/// When a version begins, each version of its family that holds then ends then; any other
/// memory stays exactly as it was.
pub proof fn new_versions_end_the_ones_before(
    store: StoreModel,
    scope: ScopeKey,
    kind: MemoryNodeKind,
    family: Seq<char>,
    key: Seq<char>,
    text: Seq<char>,
    valid_from: i64,
    spans: Seq<SpanModel>,
    now: i64,
    n: int,
)
    requires
        0 <= n < store.nodes.len(),
    ensures
        store.begun(scope, kind, family, key, text, valid_from, spans, now) matches Ok(up) ==> {
            let before = store.nodes[n];
            let after = up.store.nodes[n];
            let mine = (in_family(scope, kind, family))(before);
            &&& mine && before.active_at(valid_from) ==> after.valid_to_unix_ms == Some(valid_from)
                && after.valid_to_event_id == store.event_of(spans)
            &&& !mine || !before.active_at(valid_from) ==> after == before
            &&& after.id == before.id
            &&& after.text == before.text
            &&& after.valid_from_unix_ms == before.valid_from_unix_ms
            &&& after.confidence == before.confidence
        },
{
}

// ---------------------------------------------------------------------------
// Closing
// ---------------------------------------------------------------------------
/// Closing a memory ends it at the time it is closed, and ends nothing else. One that had ended
/// by then, or had not begun, stays as it was.
pub proof fn closing_ends_one_memory(
    store: StoreModel,
    node_id: Seq<char>,
    at: i64,
    event: Option<i64>,
    n: int,
)
    requires
        0 <= n < store.nodes.len(),
        forall|i: int, j: int|
            0 <= i < j < store.nodes.len() ==> (#[trigger] store.nodes[i]).id != (
            #[trigger] store.nodes[j]).id,
    ensures
        ({
            let (after, changed) = store.invalidated(node_id, at, event);
            let node = store.nodes[n];
            &&& after.nodes.len() == store.nodes.len()
            &&& node.id != node_id ==> after.nodes[n] == node
            &&& node.id == node_id && node.active_at(at) ==> changed
                && after.nodes[n].valid_to_unix_ms == Some(at) && after.nodes[n].valid_to_event_id
                == event && after.nodes[n].text == node.text
            &&& node.id == node_id && node.valid_from_unix_ms > at ==> after.nodes[n] == node
                && !changed
            &&& node.id == node_id && (node.valid_to_unix_ms matches Some(end) && end < at)
                ==> after.nodes[n] == node && !changed
            &&& after.edges == store.edges
            &&& after.ledger == store.ledger
            &&& after.spans == store.spans
        }),
{
    reveal(StoreModel::invalidated);
    let test = with_id(node_id);
    lemma_first_index(store.nodes, test);
    if store.nodes[n].id == node_id {
        assert(test(store.nodes[n]));
        assert(some_row(store.nodes, test));
        let i = first_index(store.nodes, test)->0;
        if i < n {
            assert(store.nodes[i].id != store.nodes[n].id);
        } else if n < i {
            assert(store.nodes[n].id != store.nodes[i].id);
        }
    }
}

// ---------------------------------------------------------------------------
// Citations and cues
// ---------------------------------------------------------------------------
/// Attaching places to a memory makes it cite each of them, and changes no other citation.
pub proof fn attached_places_are_cited(
    rows: Seq<NodeSpanModel>,
    node_id: Seq<char>,
    spans: Seq<SpanModel>,
    row: NodeSpanModel,
)
    ensures
        attached(rows, node_id, spans).contains(row) <==> rows.contains(row) || (row.node_id
            == node_id && spans.contains(row.span)),
    decreases spans.len(),
{
    if spans.len() > 0 {
        let front = attached(rows, node_id, spans.drop_last());
        let last = spans.last();
        let added = NodeSpanModel { node_id, span: last };
        attached_places_are_cited(rows, node_id, spans.drop_last(), row);
        assert(spans =~= spans.drop_last().push(last));
        lemma_push_contains(spans.drop_last(), last, row.span);
        if some_row(front, is_citation(node_id, last)) {
            let k = choose|k: int|
                0 <= k < front.len() && (is_citation(node_id, last))(#[trigger] front[k]);
            assert(front[k] == added);
            assert(front.contains(added));
        } else {
            lemma_push_contains(front, added, row);
        }
    }
}

/// A memory can be found by each of its first sixty-four terms, in its own scope, the earlier
/// term being no weaker a cue than the later.
pub proof fn memories_are_found_by_their_terms(node: NodeModel, i: int, j: int)
    requires
        0 <= i <= j < terms_of(node.text).len(),
        j < 64,
    ensures
        ({
            let cues = node_cues(node);
            &&& j < cues.len() <= 64
            &&& cues.len() <= terms_of(node.text).len()
            &&& cues[i].term == terms_of(node.text)[i]
            &&& cues[i].node_id == node.id
            &&& cues[i].tenant_id == node.tenant_id
            &&& cues[i].project_id == node.project_id
            &&& cues[i].environment_id == node.environment_id
            &&& cues[i].rank <= cues[j].rank
            &&& j < 53 ==> cues[j].rank == j
        }),
{
}

/// Renewing the cues of a memory leaves those of every other memory as they were, and of its own
/// those of what it says now.
pub proof fn renewed_cues_are_the_present_ones(
    cues: Seq<CueModel>,
    node: NodeModel,
    cue: CueModel,
)
    ensures
        cue.node_id != node.id ==> (reindexed(cues, node).contains(cue) <==> cues.contains(cue)),
        cue.node_id == node.id ==> (reindexed(cues, node).contains(cue) <==> node_cues(
            node,
        ).contains(cue)),
{
    let test = cue_of_other(node.id);
    let others = cues.filter(test);
    let own = node_cues(node);
    let all = reindexed(cues, node);
    lemma_filter_contains(cues, test, cue);
    if all.contains(cue) {
        let k = choose|k: int| 0 <= k < all.len() && all[k] == cue;
        if k < others.len() {
            assert(others[k] == cue);
        } else {
            assert(own[k - others.len()] == cue);
        }
    }
    if others.contains(cue) {
        let k = choose|k: int| 0 <= k < others.len() && others[k] == cue;
        assert(all[k] == cue);
    }
    if own.contains(cue) {
        let k = choose|k: int| 0 <= k < own.len() && own[k] == cue;
        assert(all[others.len() + k] == cue);
        assert(own[k].node_id == node.id);
    }
}

// ---------------------------------------------------------------------------
// Edges and events
// ---------------------------------------------------------------------------
/// An edge that is drawn leads from the one memory to the other, is of its kind and weight, and
/// belongs to its scope. No memory is joined to itself, and drawing the same edge again changes
/// nothing.
pub proof fn edges_are_drawn_once(
    store: StoreModel,
    scope: ScopeKey,
    from: Seq<char>,
    to: Seq<char>,
    kind: MemoryEdgeKind,
    weight: u32,
    at: i64,
    later: i64,
)
    ensures
        store.linked(scope, from, to, kind, weight, at) matches Ok((after, added)) ==> {
            &&& after.nodes == store.nodes
            &&& after.ledger == store.ledger
            &&& after.spans == store.spans
            &&& after.cues == store.cues
            &&& from == to ==> !added
            &&& !added ==> after == store
            &&& added ==> {
                let edge = after.edges.last();
                &&& after.edges.len() == store.edges.len() + 1
                &&& after.edges.drop_last() == store.edges
                &&& edge.from_node_id == from
                &&& edge.to_node_id == to
                &&& edge.kind == kind
                &&& edge.weight == weight
                &&& edge.created_at_unix_ms == at
                &&& edge.tenant_id == scope.tenant_id
                &&& edge.project_id == scope.project_id
                &&& edge.environment_id == scope.environment_id
            }
            &&& from != to ==> some_row(after.edges, is_edge(from, to, kind))
            &&& after.linked(scope, from, to, kind, weight, later) == Ok::<
                (StoreModel, bool),
                crate::error::ErrorModel,
            >((after, false))
        },
{
    reveal(StoreModel::linked);
    if let Ok((after, added)) = store.linked(scope, from, to, kind, weight, at) {
        if added {
            assert(after.edges.drop_last() =~= store.edges);
            assert((is_edge(from, to, kind))(after.edges[store.edges.len() as int]));
        }
    }
}

/// An event that is taken stands at the end of the ledger as it was given, under a number of its
/// own; one whose place is taken already is not taken again, and one that is not valid never.
pub proof fn events_are_kept_as_given(store: StoreModel, event: EventModel, k: int)
    ensures
        event.problem() is Some ==> store.appended(event) is Err,
        event.problem() is None && store.last_event_id < i64::MAX ==> store.appended(event) is Ok,
        store.appended(event) matches Ok((after, added)) ==> {
            &&& added ==> {
                &&& after.ledger.len() == store.ledger.len() + 1
                &&& after.ledger.last().id == Some((store.last_event_id + 1) as i64)
                &&& after.ledger.last() == (EventModel { id: after.ledger.last().id, ..event })
            }
            &&& !added ==> after == store
            &&& 0 <= k < store.ledger.len() && store.ledger[k].tenant_id == event.tenant_id
                && store.ledger[k].project_id == event.project_id && store.ledger[k].trace_id
                == event.trace_id && store.ledger[k].span_id == event.span_id
                && store.ledger[k].seq == event.seq ==> !added
            &&& !added ==> exists|j: int|
                0 <= j < store.ledger.len() && (#[trigger] store.ledger[j]).trace_id
                    == event.trace_id && store.ledger[j].span_id == event.span_id
                    && store.ledger[j].seq == event.seq && store.ledger[j].tenant_id
                    == event.tenant_id && store.ledger[j].project_id == event.project_id
        },
{
    let test = crate::store::at_span(event.span());
    if let Ok((after, added)) = store.appended(event) {
        if 0 <= k < store.ledger.len() && store.ledger[k].span() == event.span() {
            assert(test(store.ledger[k]));
        }
        if !added {
            let j = choose|j: int| 0 <= j < store.ledger.len() && test(#[trigger] store.ledger[j]);
            assert(store.ledger[j].span() == event.span());
        }
    }
}

/// A version that is stated again by an entry of the ledger that came after its first is only
/// cited by it; one that is stated again by its own first entry, or by an earlier one, takes up
/// what is said. Either way it cites where it was stated, and no edge or event changes.
pub proof fn later_entries_only_cite(
    store: StoreModel,
    node: NodeModel,
    text: Seq<char>,
    spans: Seq<SpanModel>,
    now: i64,
    k: int,
)
    requires
        0 <= k < spans.len(),
    ensures
        ({
            let r = store.restated(node, text, spans, now);
            let entry = store.event_of(spans);
            let first = match store.first_event(node.id) {
                Some(event) => event.id,
                None => None,
            };
            let later = entry is Some && first is Some && entry->0 > first->0;
            &&& !r.created
            &&& later ==> r.node == node && r.store.nodes == store.nodes && r.store.cues
                == store.cues
            &&& !later ==> r.node == node.observed_again(text, now)
            &&& r.store.spans.contains(NodeSpanModel { node_id: node.id, span: spans[k] })
            &&& r.store.edges == store.edges
            &&& r.store.ledger == store.ledger
            &&& r.store.nodes.len() == store.nodes.len()
        }),
{
    attached_places_are_cited(
        store.spans,
        node.id,
        spans,
        NodeSpanModel { node_id: node.id, span: spans[k] },
    );
    lemma_first_index(store.nodes, with_id(node.id));
}

/// A version that begins where another of its family begins has a key of its own.
pub proof fn versions_of_one_time_have_their_own_keys(
    store: StoreModel,
    scope: ScopeKey,
    kind: MemoryNodeKind,
    family: Seq<char>,
    at: i64,
    other: NodeModel,
)
    requires
        store.nodes.contains(other),
        (in_family(scope, kind, family))(other),
        other.valid_from_unix_ms == at,
    ensures
        store.family_revision(scope, kind, family, at) != crate::projection::revision(family, at),
{
    let member = in_family(scope, kind, family);
    let versions = store.family(scope, kind, family);
    let test = crate::projection::beginning_at(at);
    lemma_filter_contains(store.nodes, member, other);
    lemma_ranked_contains::<MemoryNode, ByVersion>(store.nodes.filter(member), other);
    lemma_filter_contains(versions, test, other);
    let beside = versions.filter(test);
    assert(beside.contains(other));
    reveal_strlit(".");
    let key = crate::projection::revision(family, at);
    assert((key + "."@ + crate::chars::decimal(beside.len())).len() > key.len());
}

} // verus!
