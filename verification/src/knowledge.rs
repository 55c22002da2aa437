//! What was known at a time.
//!
//! A read has two times. The one it asks about bounds what had been observed; the one it knows
//! from bounds what the ledger had taken in. The tables as known at a time hold the events that
//! were ingested by then, the citations of those events, the nodes that such a citation stands
//! behind, and the edges and cues among those nodes. A window that was closed by an event not yet
//! known ends where a known node begins that the memory gave way to, and else is open.
use vstd::prelude::*;

use crate::chars::{same_opt_text, same_text};
use crate::history::{evolves, node_kept, wf};
use crate::ledger::{EventModel, LedgerEvent};
use crate::model::{CitedSpan, MemoryEdgeKind, MemoryMode, MemoryQuery, QueryModel, SpanModel};
use crate::order::{lemma_views_push, views};
use crate::recall::reads_stay_in_their_scope;
use crate::rows::{
    family_key, EdgeModel, MemoryEdge, MemoryNode, NodeModel, NodeSpan, NodeSpanModel,
};
use crate::store::{at_span, with_id, with_number, MemoryStore, StoreModel};
use crate::table::{
    copy_rows, has_row, lemma_filter_contains, lemma_filter_same, select, some_row, Rule,
};
use crate::upkeep::{cue_anchored, edge_anchored, CueAnchored, EdgeAnchored};

verus! {

// ---------------------------------------------------------------------------
// Events, citations and nodes
// ---------------------------------------------------------------------------
/// Events that the ledger had taken in by a time.
pub open spec fn ingested_by(at: i64) -> spec_fn(EventModel) -> bool {
    |event: EventModel| event.ingested_at_unix_ms <= at
}

/// Events at a place in a trace that the ledger had taken in by a time.
pub open spec fn place_known(span: SpanModel, at: i64) -> spec_fn(EventModel) -> bool {
    |event: EventModel| event.span() == span && event.ingested_at_unix_ms <= at
}

/// Events with an identifier that the ledger had taken in by a time.
pub open spec fn number_known(id: i64, at: i64) -> spec_fn(EventModel) -> bool {
    |event: EventModel| event.id == Some(id) && event.ingested_at_unix_ms <= at
}

/// Citations of events that the ledger had taken in by a time.
pub open spec fn citation_known(ledger: Seq<EventModel>, at: i64) -> spec_fn(NodeSpanModel) -> bool {
    |row: NodeSpanModel| some_row(ledger, place_known(row.span, at))
}

/// Citations of a node.
pub open spec fn citation_of(node_id: Seq<char>) -> spec_fn(NodeSpanModel) -> bool {
    |row: NodeSpanModel| row.node_id == node_id
}

/// Nodes that some citation stands behind.
pub open spec fn cited_in(spans: Seq<NodeSpanModel>) -> spec_fn(NodeModel) -> bool {
    |node: NodeModel| some_row(spans, citation_of(node.id))
}

/// Edges that say that one node replaced or contradicts another.
pub open spec fn revision_of(newer: Seq<char>, older: Seq<char>) -> spec_fn(EdgeModel) -> bool {
    |edge: EdgeModel|
        edge.revises() && edge.from_node_id == newer && edge.to_node_id == older
}

/// Nodes that a node gives way to: later versions of its memory, and nodes that revise it.
pub open spec fn gives_way_to(edges: Seq<EdgeModel>, node: NodeModel) -> spec_fn(NodeModel) -> bool {
    |other: NodeModel|
        other.id != node.id && ((other.valid_from_unix_ms > node.valid_from_unix_ms
            && other.tenant_id == node.tenant_id && other.project_id == node.project_id
            && other.environment_id == node.environment_id && other.kind == node.kind
            && family_key(other.canonical_key) == family_key(node.canonical_key)) || (
        other.valid_from_unix_ms >= node.valid_from_unix_ms && some_row(
            edges,
            revision_of(other.id, node.id),
        )))
}

/// When the first of some nodes begins.
pub open spec fn first_beginning(nodes: Seq<NodeModel>) -> Option<i64>
    decreases nodes.len(),
{
    if nodes.len() == 0 {
        None
    } else {
        match first_beginning(nodes.drop_last()) {
            Some(begins) => if nodes.last().valid_from_unix_ms < begins {
                Some(nodes.last().valid_from_unix_ms)
            } else {
                Some(begins)
            },
            None => Some(nodes.last().valid_from_unix_ms),
        }
    }
}

/// A node as it was known at a time, among the nodes that were known: where the event that
/// closed it was not known, it ends where the first of those begins that it gives way to.
pub open spec fn as_then(
    ledger: Seq<EventModel>,
    edges: Seq<EdgeModel>,
    known: Seq<NodeModel>,
    node: NodeModel,
    at: i64,
) -> NodeModel {
    match node.valid_to_event_id {
        Some(id) => if some_row(ledger, number_known(id, at)) {
            node
        } else {
            NodeModel {
                valid_to_unix_ms: first_beginning(known.filter(gives_way_to(edges, node))),
                valid_to_event_id: None,
                ..node
            }
        },
        None => node,
    }
}

/// The nodes that were known at a time, as they were known.
pub open spec fn all_as_then(
    ledger: Seq<EventModel>,
    edges: Seq<EdgeModel>,
    known: Seq<NodeModel>,
    at: i64,
) -> Seq<NodeModel> {
    Seq::new(known.len(), |i: int| as_then(ledger, edges, known, known[i], at))
}

impl StoreModel {
    /// The citations that were known at a time.
    pub open spec fn spans_known(self, at: i64) -> Seq<NodeSpanModel> {
        self.spans.filter(citation_known(self.ledger, at))
    }

    /// The nodes that were known at a time, as they are.
    pub open spec fn nodes_cited(self, at: i64) -> Seq<NodeModel> {
        self.nodes.filter(cited_in(self.spans_known(at)))
    }

    /// A node as it was known at a time.
    pub open spec fn node_then(self, node: NodeModel, at: i64) -> NodeModel {
        as_then(self.ledger, self.edges, self.nodes_cited(at), node, at)
    }

    /// The nodes that were known at a time, as they were known.
    pub open spec fn nodes_known(self, at: i64) -> Seq<NodeModel> {
        all_as_then(self.ledger, self.edges, self.nodes_cited(at), at)
    }

    /// The tables as they were known at a time.
    pub open spec fn known_at(self, at: i64) -> StoreModel {
        let nodes = self.nodes_known(at);
        StoreModel {
            ledger: self.ledger.filter(ingested_by(at)),
            nodes,
            edges: self.edges.filter(edge_anchored(nodes)),
            spans: self.spans_known(at),
            cues: self.cues.filter(cue_anchored(nodes)),
            ..self
        }
    }

    /// The tables that a query reads: all of them, or what was known at the time that it knows
    /// from.
    pub open spec fn known_to(self, query: QueryModel) -> StoreModel {
        match query.scope.known_at_unix_ms {
            Some(at) => self.known_at(at),
            None => self,
        }
    }
}

// ---------------------------------------------------------------------------
// Reading
// ---------------------------------------------------------------------------
pub struct IngestedBy {
    pub at: i64,
}

impl Rule<LedgerEvent> for IngestedBy {
    open spec fn test(&self) -> spec_fn(EventModel) -> bool {
        ingested_by(self.at)
    }

    fn admits(&self, row: &LedgerEvent) -> (r: bool) {
        row.ingested_at_unix_ms <= self.at
    }
}

pub struct PlaceKnown<'a> {
    pub span: &'a CitedSpan,
    pub at: i64,
}

impl<'a> Rule<LedgerEvent> for PlaceKnown<'a> {
    open spec fn test(&self) -> spec_fn(EventModel) -> bool {
        place_known(self.span@, self.at)
    }

    fn admits(&self, row: &LedgerEvent) -> (r: bool) {
        row.ingested_at_unix_ms <= self.at && row.cited_span().same(self.span)
    }
}

pub struct NumberKnown {
    pub id: i64,
    pub at: i64,
}

impl Rule<LedgerEvent> for NumberKnown {
    open spec fn test(&self) -> spec_fn(EventModel) -> bool {
        number_known(self.id, self.at)
    }

    fn admits(&self, row: &LedgerEvent) -> (r: bool) {
        match row.id {
            Some(id) => id == self.id && row.ingested_at_unix_ms <= self.at,
            None => false,
        }
    }
}

pub struct CitationKnown<'a> {
    pub ledger: &'a Vec<LedgerEvent>,
    pub at: i64,
}

impl<'a> Rule<NodeSpan> for CitationKnown<'a> {
    open spec fn test(&self) -> spec_fn(NodeSpanModel) -> bool {
        citation_known(views(self.ledger@), self.at)
    }

    fn admits(&self, row: &NodeSpan) -> (r: bool) {
        has_row(self.ledger, &PlaceKnown { span: &row.span, at: self.at })
    }
}

pub struct CitationOf<'a> {
    pub node_id: &'a str,
}

impl<'a> Rule<NodeSpan> for CitationOf<'a> {
    open spec fn test(&self) -> spec_fn(NodeSpanModel) -> bool {
        citation_of(self.node_id@)
    }

    fn admits(&self, row: &NodeSpan) -> (r: bool) {
        same_text(row.node_id.as_str(), self.node_id)
    }
}

pub struct CitedIn<'a> {
    pub spans: &'a Vec<NodeSpan>,
}

impl<'a> Rule<MemoryNode> for CitedIn<'a> {
    open spec fn test(&self) -> spec_fn(NodeModel) -> bool {
        cited_in(views(self.spans@))
    }

    fn admits(&self, row: &MemoryNode) -> (r: bool) {
        has_row(self.spans, &CitationOf { node_id: row.id.as_str() })
    }
}

pub struct RevisionOf<'a> {
    pub newer: &'a str,
    pub older: &'a str,
}

impl<'a> Rule<MemoryEdge> for RevisionOf<'a> {
    open spec fn test(&self) -> spec_fn(EdgeModel) -> bool {
        revision_of(self.newer@, self.older@)
    }

    fn admits(&self, row: &MemoryEdge) -> (r: bool) {
        (row.kind == MemoryEdgeKind::Contradicts || row.kind == MemoryEdgeKind::Supersedes)
            && same_text(row.from_node_id.as_str(), self.newer) && same_text(
            row.to_node_id.as_str(),
            self.older,
        )
    }
}

pub struct GivesWayTo<'a> {
    pub edges: &'a Vec<MemoryEdge>,
    pub node: &'a MemoryNode,
}

impl<'a> Rule<MemoryNode> for GivesWayTo<'a> {
    open spec fn test(&self) -> spec_fn(NodeModel) -> bool {
        gives_way_to(views(self.edges@), self.node@)
    }

    fn admits(&self, row: &MemoryNode) -> (r: bool) {
        if same_text(row.id.as_str(), self.node.id.as_str()) || row.valid_from_unix_ms
            < self.node.valid_from_unix_ms {
            return false;
        }
        if has_row(
            self.edges,
            &RevisionOf { newer: row.id.as_str(), older: self.node.id.as_str() },
        ) {
            return true;
        }
        if row.valid_from_unix_ms == self.node.valid_from_unix_ms || row.kind != self.node.kind
            || !same_text(row.tenant_id.as_str(), self.node.tenant_id.as_str()) || !same_text(
            row.project_id.as_str(),
            self.node.project_id.as_str(),
        ) || !same_opt_text(&row.environment_id, &self.node.environment_id) {
            return false;
        }
        let here = row.family_canonical_key();
        let there = self.node.family_canonical_key();
        same_text(here.as_str(), there.as_str())
    }
}

fn beginning_of_first(nodes: &Vec<MemoryNode>) -> (r: Option<i64>)
    ensures
        r == first_beginning(views(nodes@)),
{
    let ghost all = views(nodes@);
    let mut first: Option<i64> = None;
    let mut i: usize = 0;
    proof {
        assert(all.take(0) =~= Seq::empty());
    }
    while i < nodes.len()
        invariant
            i <= nodes@.len(),
            all == views(nodes@),
            first == first_beginning(all.take(i as int)),
        decreases nodes.len() - i,
    {
        proof {
            assert(all.take(i as int + 1).drop_last() =~= all.take(i as int));
            assert(all.take(i as int + 1).last() == nodes@[i as int]@);
        }
        let begins: i64 = nodes[i].valid_from_unix_ms;
        first = match first {
            Some(earlier) => if begins < earlier {
                Some(begins)
            } else {
                Some(earlier)
            },
            None => Some(begins),
        };
        i += 1;
    }
    proof {
        assert(all.take(i as int) =~= all);
    }
    first
}

/// Puts back the ends of known nodes that were closed by events not known at a time.
fn put_back_ends(
    ledger: &Vec<LedgerEvent>,
    edges: &Vec<MemoryEdge>,
    known: &Vec<MemoryNode>,
    at: i64,
) -> (r: Vec<MemoryNode>)
    ensures
        views(r@) == all_as_then(views(ledger@), views(edges@), views(known@), at),
{
    let ghost all = all_as_then(views(ledger@), views(edges@), views(known@), at);
    let mut out: Vec<MemoryNode> = Vec::new();
    let mut i: usize = 0;
    while i < known.len()
        invariant
            i <= known@.len(),
            all == all_as_then(views(ledger@), views(edges@), views(known@), at),
            views(out@) == all.take(i as int),
        decreases known.len() - i,
    {
        let mut node = known[i].clone();
        if let Some(id) = node.valid_to_event_id {
            if !has_row(ledger, &NumberKnown { id, at }) {
                let later = select(known, &GivesWayTo { edges, node: &known[i] });
                node.valid_to_unix_ms = beginning_of_first(&later);
                node.valid_to_event_id = None;
            }
        }
        let ghost before = out@;
        proof {
            assert(node@ == as_then(
                views(ledger@),
                views(edges@),
                views(known@),
                known@[i as int]@,
                at,
            ));
            lemma_views_push(before, node);
        }
        out.push(node);
        i += 1;
        proof {
            assert(views(out@) =~= all.take(i as int));
        }
    }
    proof {
        assert(all.take(i as int) =~= all);
    }
    out
}

impl MemoryStore {
    /// The tables as they were known at a time.
    pub fn known_at(&self, at: i64) -> (r: MemoryStore)
        ensures
            r@ == self@.known_at(at),
    {
        let spans = select(&self.spans, &CitationKnown { ledger: &self.ledger, at });
        let cited = select(&self.nodes, &CitedIn { spans: &spans });
        let nodes = put_back_ends(&self.ledger, &self.edges, &cited, at);
        let edges = select(&self.edges, &EdgeAnchored { nodes: &nodes });
        let cues = select(&self.cues, &CueAnchored { nodes: &nodes });
        MemoryStore {
            ledger: select(&self.ledger, &IngestedBy { at }),
            nodes,
            edges,
            spans,
            cues,
            audit: copy_rows(&self.audit),
            last_event_id: self.last_event_id,
            last_edge_id: self.last_edge_id,
            last_audit_id: self.last_audit_id,
        }
    }

    /// The tables that a query reads, where they are not all that the store holds.
    pub fn narrowed_for(&self, query: &MemoryQuery) -> (r: Option<MemoryStore>)
        ensures
            match r {
                Some(store) => query@.scope.known_at_unix_ms is Some && store@ == self@.known_to(
                    query@,
                ),
                None => query@.scope.known_at_unix_ms is None && self@ == self@.known_to(query@),
            },
    {
        match query.scope.known_at_unix_ms {
            Some(at) => Some(self.known_at(at)),
            None => None,
        }
    }
}

// ---------------------------------------------------------------------------
// Laws
// ---------------------------------------------------------------------------
/// The tables as known at a time have exactly the nodes that cite an event which the ledger had
/// taken in by then, each as it was known; an end that names an event names one that was known.
pub proof fn known_memories_rest_on_known_events(store: StoreModel, at: i64, known: NodeModel)
    ensures
        store.known_at(at).nodes.contains(known) <==> exists|node: NodeModel|
            {
                &&& #[trigger] store.nodes.contains(node)
                &&& known == store.node_then(node, at)
                &&& exists|s: int, e: int|
                    0 <= s < store.spans.len() && 0 <= e < store.ledger.len() && (
                    #[trigger] store.spans[s]).node_id == node.id && (
                    #[trigger] store.ledger[e]).span() == store.spans[s].span
                        && store.ledger[e].ingested_at_unix_ms <= at
            },
        store.known_at(at).nodes.contains(known) ==> match known.valid_to_event_id {
            Some(id) => some_row(store.ledger, number_known(id, at)),
            None => true,
        },
{
    let spans = store.spans_known(at);
    let cited = store.nodes.filter(cited_in(spans));
    let nodes = store.nodes_known(at);
    if nodes.contains(known) {
        let i = choose|i: int| 0 <= i < nodes.len() && nodes[i] == known;
        let node = cited[i];
        assert(cited.contains(node));
        lemma_filter_contains(store.nodes, cited_in(spans), node);
        lemma_known_citation(store, at, node);
        assert(store.nodes.contains(node));
    }
    assert forall|node: NodeModel|
        #![trigger store.nodes.contains(node)]
        store.nodes.contains(node) && known == store.node_then(node, at) && (exists|
            s: int,
            e: int,
        |
            0 <= s < store.spans.len() && 0 <= e < store.ledger.len() && (
            #[trigger] store.spans[s]).node_id == node.id && (#[trigger] store.ledger[e]).span()
                == store.spans[s].span && store.ledger[e].ingested_at_unix_ms <= at) implies nodes.contains(
    known) by {
        lemma_known_citation(store, at, node);
        lemma_filter_contains(store.nodes, cited_in(spans), node);
        let i = choose|i: int| 0 <= i < cited.len() && cited[i] == node;
        assert(nodes[i] == known);
    }
}

/// A known citation stands behind a node just if the node cites an event that was known.
proof fn lemma_known_citation(store: StoreModel, at: i64, node: NodeModel)
    ensures
        (cited_in(store.spans_known(at)))(node) <==> exists|s: int, e: int|
            0 <= s < store.spans.len() && 0 <= e < store.ledger.len() && (
            #[trigger] store.spans[s]).node_id == node.id && (#[trigger] store.ledger[e]).span()
                == store.spans[s].span && store.ledger[e].ingested_at_unix_ms <= at,
{
    let spans = store.spans_known(at);
    let test = citation_known(store.ledger, at);
    if (cited_in(spans))(node) {
        let k = choose|k: int| 0 <= k < spans.len() && (citation_of(node.id))(#[trigger] spans[k]);
        assert(spans.contains(spans[k]));
        lemma_filter_contains(store.spans, test, spans[k]);
        let s = choose|s: int| 0 <= s < store.spans.len() && store.spans[s] == spans[k];
        let e = choose|e: int|
            0 <= e < store.ledger.len() && (place_known(spans[k].span, at))(
                #[trigger] store.ledger[e],
            );
        assert(store.spans[s].node_id == node.id && store.ledger[e].span() == store.spans[s].span);
    }
    if exists|s: int, e: int|
        0 <= s < store.spans.len() && 0 <= e < store.ledger.len() && (
        #[trigger] store.spans[s]).node_id == node.id && (#[trigger] store.ledger[e]).span()
            == store.spans[s].span && store.ledger[e].ingested_at_unix_ms <= at {
        let (s, e) = choose|s: int, e: int|
            0 <= s < store.spans.len() && 0 <= e < store.ledger.len() && (
            #[trigger] store.spans[s]).node_id == node.id && (#[trigger] store.ledger[e]).span()
                == store.spans[s].span && store.ledger[e].ingested_at_unix_ms <= at;
        let row = store.spans[s];
        assert((place_known(row.span, at))(store.ledger[e]));
        assert(store.spans.contains(row));
        lemma_filter_contains(store.spans, test, row);
        let k = choose|k: int| 0 <= k < spans.len() && spans[k] == row;
        assert((citation_of(node.id))(spans[k]));
    }
}

/// No node of a list begins before the first does, and some node of it begins then.
proof fn lemma_first_beginning(nodes: Seq<NodeModel>)
    ensures
        match first_beginning(nodes) {
            Some(begins) => {
                &&& exists|i: int|
                    0 <= i < nodes.len() && (#[trigger] nodes[i]).valid_from_unix_ms == begins
                &&& forall|i: int|
                    0 <= i < nodes.len() ==> (#[trigger] nodes[i]).valid_from_unix_ms >= begins
            },
            None => nodes.len() == 0,
        },
    decreases nodes.len(),
{
    if nodes.len() > 0 {
        let front = nodes.drop_last();
        lemma_first_beginning(front);
        let last = nodes[nodes.len() - 1];
        assert(last == nodes.last());
        if let Some(begins) = first_beginning(front) {
            let k = choose|k: int|
                0 <= k < front.len() && (#[trigger] front[k]).valid_from_unix_ms == begins;
            assert(nodes[k] == front[k]);
            assert forall|i: int| 0 <= i < nodes.len() implies (
            #[trigger] nodes[i]).valid_from_unix_ms >= first_beginning(nodes)->0 by {
                if i < front.len() {
                    assert(front[i] == nodes[i]);
                }
            }
        }
    }
}

/// A memory that was closed by an event not yet known holds from its beginning on, until a known
/// node begins that it gives way to.
pub proof fn unknown_ends_are_not_seen(store: StoreModel, node: NodeModel, at: i64, time: i64)
    requires
        node.valid_to_event_id matches Some(id) && !some_row(store.ledger, number_known(id, at)),
        node.valid_from_unix_ms <= time,
    ensures
        store.node_then(node, at).active_at(time) <==> !exists|other: NodeModel|
            #[trigger] store.nodes_cited(at).contains(other) && (gives_way_to(store.edges, node))(
                other,
            ) && other.valid_from_unix_ms <= time,
        store.node_then(node, at).text == node.text,
{
    let known = store.nodes_cited(at);
    let test = gives_way_to(store.edges, node);
    let later = known.filter(test);
    lemma_first_beginning(later);
    if let Some(begins) = first_beginning(later) {
        let k = choose|k: int|
            0 <= k < later.len() && (#[trigger] later[k]).valid_from_unix_ms == begins;
        assert(later.contains(later[k]));
        lemma_filter_contains(known, test, later[k]);
        assert(known.contains(later[k]));
    }
    assert forall|other: NodeModel| #[trigger]
        known.contains(other) && test(other) && other.valid_from_unix_ms
            <= time implies !store.node_then(node, at).active_at(time) by {
        lemma_filter_contains(known, test, other);
        let k = choose|k: int| 0 <= k < later.len() && later[k] == other;
        assert(later[k].valid_from_unix_ms >= first_beginning(later)->0);
    }
}

/// An event that comes in later changes nothing of what was known before.
pub proof fn later_events_were_not_known(store: StoreModel, event: EventModel, at: i64)
    requires
        event.ingested_at_unix_ms > at,
    ensures
        match store.appended(event) {
            Ok((after, _)) => after.known_at(at) == (StoreModel {
                last_event_id: after.last_event_id,
                ..store.known_at(at)
            }),
            Err(_) => true,
        },
{
    if let Ok((after, added)) = store.appended(event) {
        if added {
            let ledger = after.ledger;
            let last = ledger.last();
            assert(ledger.drop_last() =~= store.ledger);
            assert(ledger.filter(ingested_by(at)) == store.ledger.filter(ingested_by(at))) by {
                reveal(Seq::filter);
            }
            assert(ledger =~= store.ledger.push(last));
            assert forall|i: int| 0 <= i < store.spans.len() implies (citation_known(ledger, at))(
                #[trigger] store.spans[i],
            ) == (citation_known(store.ledger, at))(store.spans[i]) by {
                lemma_pushed_row(store.ledger, last, place_known(store.spans[i].span, at));
            }
            lemma_filter_same(
                store.spans,
                citation_known(ledger, at),
                citation_known(store.ledger, at),
            );
            assert forall|node: NodeModel| #[trigger]
                after.node_then(node, at) == store.node_then(node, at) by {
                if let Some(id) = node.valid_to_event_id {
                    lemma_pushed_row(store.ledger, last, number_known(id, at));
                }
            }
            assert forall|i: int| 0 <= i < after.nodes_cited(at).len() implies after.nodes_known(
                at,
            )[i] == store.nodes_known(at)[i] by {
                let node = store.nodes_cited(at)[i];
                assert(after.node_then(node, at) == store.node_then(node, at));
            }
            assert(after.nodes_known(at) =~= store.nodes_known(at));
        }
    }
}

proof fn lemma_pushed_row<A>(rows: Seq<A>, row: A, test: spec_fn(A) -> bool)
    requires
        !test(row),
    ensures
        some_row(rows.push(row), test) == some_row(rows, test),
{
    let longer = rows.push(row);
    if some_row(rows, test) {
        let i = choose|i: int| 0 <= i < rows.len() && test(#[trigger] rows[i]);
        assert(test(longer[i]));
    }
    if some_row(longer, test) {
        let i = choose|i: int| 0 <= i < longer.len() && test(#[trigger] longer[i]);
        assert(test(rows[i]));
    }
}

/// Where the rows that meet a condition stood.
proof fn lemma_filter_places<A>(rows: Seq<A>, test: spec_fn(A) -> bool) -> (places: Seq<int>)
    ensures
        places.len() == rows.filter(test).len(),
        forall|i: int|
            0 <= i < places.len() ==> 0 <= #[trigger] places[i] < rows.len() && rows[places[i]]
                == rows.filter(test)[i],
        forall|i: int, j: int| 0 <= i < j < places.len() ==> #[trigger] places[i] < #[trigger] places[j],
    decreases rows.len(),
{
    reveal(Seq::filter);
    if rows.len() == 0 {
        Seq::empty()
    } else {
        let front = rows.drop_last();
        let places = lemma_filter_places(front, test);
        if test(rows.last()) {
            places.push(rows.len() - 1)
        } else {
            places
        }
    }
}

/// The tables as known at a time are well formed where the tables are.
pub proof fn known_tables_are_well_formed(store: StoreModel, at: i64)
    requires
        wf(store),
    ensures
        wf(store.known_at(at)),
{
    let known = store.known_at(at);
    let cited = store.nodes.filter(cited_in(store.spans_known(at)));
    let of_events = lemma_filter_places(store.ledger, ingested_by(at));
    let of_spans = lemma_filter_places(store.spans, citation_known(store.ledger, at));
    let of_nodes = lemma_filter_places(store.nodes, cited_in(store.spans_known(at)));
    let of_edges = lemma_filter_places(store.edges, edge_anchored(known.nodes));
    let of_cues = lemma_filter_places(store.cues, cue_anchored(known.nodes));
    assert forall|i: int| 0 <= i < known.ledger.len() implies (#[trigger] known.ledger[i]).id
        is Some && known.ledger[i].id->0 <= known.last_event_id by {
        assert(known.ledger[i] == store.ledger[of_events[i]]);
    }
    assert forall|i: int, j: int| 0 <= i < j < known.ledger.len() implies {
        &&& (#[trigger] known.ledger[i]).id->0 < (#[trigger] known.ledger[j]).id->0
        &&& known.ledger[i].span() != known.ledger[j].span()
    } by {
        assert(store.ledger[of_events[i]].id->0 < store.ledger[of_events[j]].id->0);
    }
    assert forall|i: int, j: int| 0 <= i < j < known.nodes.len() implies (
    #[trigger] known.nodes[i]).id != (#[trigger] known.nodes[j]).id by {
        assert(store.nodes[of_nodes[i]].id != store.nodes[of_nodes[j]].id);
        assert(known.nodes[i].id == cited[i].id && known.nodes[j].id == cited[j].id);
    }
    assert forall|i: int| 0 <= i < known.edges.len() implies (
    #[trigger] known.edges[i]).from_node_id != known.edges[i].to_node_id by {
        assert(known.edges[i] == store.edges[of_edges[i]]);
    }
    assert forall|i: int, j: int| 0 <= i < j < known.edges.len() implies !((
    #[trigger] known.edges[i]).from_node_id == (#[trigger] known.edges[j]).from_node_id
        && known.edges[i].to_node_id == known.edges[j].to_node_id && known.edges[i].kind
        == known.edges[j].kind) by {
        assert(store.edges[of_edges[i]] == known.edges[i]);
        assert(store.edges[of_edges[j]] == known.edges[j]);
    }
    assert forall|i: int, j: int| 0 <= i < j < known.spans.len() implies #[trigger] known.spans[i]
        != #[trigger] known.spans[j] by {
        assert(store.spans[of_spans[i]] != store.spans[of_spans[j]]);
    }
    assert forall|c: int, n: int|
        0 <= c < known.cues.len() && 0 <= n < known.nodes.len() && (#[trigger] known.cues[c]).node_id
            == (#[trigger] known.nodes[n]).id implies {
        &&& known.cues[c].tenant_id == known.nodes[n].tenant_id
        &&& known.cues[c].project_id == known.nodes[n].project_id
        &&& known.cues[c].environment_id == known.nodes[n].environment_id
    } by {
        assert(known.nodes[n].id == cited[n].id);
        assert(store.cues[of_cues[c]].node_id == store.nodes[of_nodes[n]].id);
    }
}

/// What a query ranks rests on events that were known at the time that it knows from, and so do
/// the ends of what it ranks.
pub proof fn reads_rest_on_known_events(
    store: StoreModel,
    query: QueryModel,
    modes: Seq<MemoryMode>,
    at: i64,
    node: NodeModel,
)
    requires
        wf(store),
        query.scope.known_at_unix_ms is Some,
        store.known_to(query).plan(query, modes, at).history.contains(node),
    ensures
        exists|s: int, e: int|
            0 <= s < store.spans.len() && 0 <= e < store.ledger.len() && (
            #[trigger] store.spans[s]).node_id == node.id && (#[trigger] store.ledger[e]).span()
                == store.spans[s].span && store.ledger[e].ingested_at_unix_ms
                <= query.scope.known_at_unix_ms->0,
        node.valid_to_event_id matches Some(id) ==> some_row(
            store.ledger,
            number_known(id, query.scope.known_at_unix_ms->0),
        ),
{
    let time = query.scope.known_at_unix_ms->0;
    known_tables_are_well_formed(store, time);
    reads_stay_in_their_scope(store.known_at(time), query, modes, at, node);
    known_memories_rest_on_known_events(store, time, node);
}

/// What was known stays known: at a later time, and after every write that keeps what the
/// tables hold.
pub proof fn knowledge_grows(
    before: StoreModel,
    after: StoreModel,
    at: i64,
    later: i64,
    node: NodeModel,
)
    requires
        evolves(before, after),
        at <= later,
        before.known_at(at).nodes.contains(node),
    ensures
        some_row(after.known_at(later).nodes, with_id(node.id)),
{
    known_memories_rest_on_known_events(before, at, node);
    let own = choose|own: NodeModel|
        {
            &&& #[trigger] before.nodes.contains(own)
            &&& node == before.node_then(own, at)
            &&& exists|s: int, e: int|
                0 <= s < before.spans.len() && 0 <= e < before.ledger.len() && (
                #[trigger] before.spans[s]).node_id == own.id && (
                #[trigger] before.ledger[e]).span() == before.spans[s].span
                    && before.ledger[e].ingested_at_unix_ms <= at
        };
    let (s, e) = choose|s: int, e: int|
        0 <= s < before.spans.len() && 0 <= e < before.ledger.len() && (
        #[trigger] before.spans[s]).node_id == own.id && (#[trigger] before.ledger[e]).span()
            == before.spans[s].span && before.ledger[e].ingested_at_unix_ms <= at;
    let n = choose|n: int| 0 <= n < before.nodes.len() && before.nodes[n] == own;
    let kept = after.nodes[n];
    assert(after.spans.take(before.spans.len() as int)[s] == before.spans[s]);
    assert(after.spans[s] == before.spans[s]);
    assert(after.ledger[e].span() == before.ledger[e].span());
    assert(kept.id == own.id) by {
        assert(node_kept(before.nodes[n], after.nodes[n]));
    }
    assert(after.nodes.contains(kept));
    let known = after.node_then(kept, later);
    known_memories_rest_on_known_events(after, later, known);
    let rows = after.known_at(later).nodes;
    let k = choose|k: int| 0 <= k < rows.len() && rows[k] == known;
    assert((with_id(node.id))(rows[k]));
}

/// Once every event is known, the tables are read whole: where every node cites an event, and
/// citations, ends, edges and cues lead somewhere.
pub proof fn everything_is_known_in_the_end(store: StoreModel, at: i64)
    requires
        forall|i: int|
            0 <= i < store.ledger.len() ==> (#[trigger] store.ledger[i]).ingested_at_unix_ms <= at,
        forall|i: int|
            0 <= i < store.spans.len() ==> some_row(
                store.ledger,
                at_span((#[trigger] store.spans[i]).span),
            ),
        forall|i: int|
            0 <= i < store.nodes.len() ==> {
                &&& some_row(store.spans, citation_of((#[trigger] store.nodes[i]).id))
                &&& store.nodes[i].valid_to_event_id matches Some(id) ==> some_row(
                    store.ledger,
                    with_number(id),
                )
            },
        forall|i: int|
            0 <= i < store.edges.len() ==> (edge_anchored(store.nodes))(#[trigger] store.edges[i]),
        forall|i: int|
            0 <= i < store.cues.len() ==> (cue_anchored(store.nodes))(#[trigger] store.cues[i]),
    ensures
        store.known_at(at) == store,
{
    lemma_filter_all(store.ledger, ingested_by(at));
    assert forall|i: int| 0 <= i < store.spans.len() implies (citation_known(store.ledger, at))(
        #[trigger] store.spans[i],
    ) by {
        let place = at_span(store.spans[i].span);
        let e = choose|e: int| 0 <= e < store.ledger.len() && place(#[trigger] store.ledger[e]);
        assert((place_known(store.spans[i].span, at))(store.ledger[e]));
    }
    lemma_filter_all(store.spans, citation_known(store.ledger, at));
    lemma_filter_all(store.nodes, cited_in(store.spans));
    assert forall|i: int| 0 <= i < store.nodes.len() implies store.node_then(
        #[trigger] store.nodes[i],
        at,
    ) == store.nodes[i] by {
        if let Some(id) = store.nodes[i].valid_to_event_id {
            let e = choose|e: int|
                0 <= e < store.ledger.len() && (with_number(id))(
                    #[trigger] store.ledger[e],
                );
            assert((number_known(id, at))(store.ledger[e]));
        }
    }
    assert(store.nodes_known(at) =~= store.nodes);
    lemma_filter_all(store.edges, edge_anchored(store.nodes));
    lemma_filter_all(store.cues, cue_anchored(store.nodes));
}

proof fn lemma_filter_all<A>(rows: Seq<A>, test: spec_fn(A) -> bool)
    requires
        forall|i: int| 0 <= i < rows.len() ==> test(#[trigger] rows[i]),
    ensures
        rows.filter(test) == rows,
    decreases rows.len(),
{
    reveal(Seq::filter);
    if rows.len() > 0 {
        let front = rows.drop_last();
        assert forall|i: int| 0 <= i < front.len() implies test(#[trigger] front[i]) by {
            assert(front[i] == rows[i]);
        }
        lemma_filter_all(front, test);
        assert(test(rows[rows.len() - 1]));
        assert(front.push(rows.last()) =~= rows);
    } else {
        assert(rows.filter(test) =~= rows);
    }
}

/// A memory whose end was not known at a time ended then, as far as was known, where the first of
/// the known memories begins that it gives way to; where it gives way to none it had not ended.
pub proof fn unknown_ends_are_the_first_known_successors(
    store: StoreModel,
    node: NodeModel,
    at: i64,
    other: NodeModel,
)
    requires
        node.valid_to_event_id is Some,
        !some_row(store.ledger, number_known(node.valid_to_event_id->0, at)),
    ensures
        ({
            let then = store.node_then(node, at);
            let known = store.nodes_cited(at);
            &&& known.contains(other) && (gives_way_to(store.edges, node))(other)
                ==> then.valid_to_unix_ms is Some && then.valid_to_unix_ms->0
                <= other.valid_from_unix_ms
            &&& then.valid_to_unix_ms matches Some(end) ==> exists|k: int|
                0 <= k < known.len() && (gives_way_to(store.edges, node))(#[trigger] known[k])
                    && known[k].valid_from_unix_ms == end
            &&& then.id == node.id
            &&& then.text == node.text
            &&& then.valid_from_unix_ms == node.valid_from_unix_ms
        }),
{
    let test = gives_way_to(store.edges, node);
    let known = store.nodes_cited(at);
    let found = known.filter(test);
    lemma_first_beginning_least(found);
    lemma_filter_contains(known, test, other);
    if found.contains(other) {
        let k = choose|k: int| 0 <= k < found.len() && found[k] == other;
        assert(found[k].valid_from_unix_ms == other.valid_from_unix_ms);
    }
    if let Some(end) = first_beginning(found) {
        let k = choose|k: int| 0 <= k < found.len() && #[trigger] found[k].valid_from_unix_ms == end;
        assert(found.contains(found[k]));
        lemma_filter_contains(known, test, found[k]);
        let j = choose|j: int| 0 <= j < known.len() && known[j] == found[k];
        assert(test(known[j]));
    }
}

proof fn lemma_first_beginning_least(nodes: Seq<NodeModel>)
    ensures
        first_beginning(nodes) is None <==> nodes.len() == 0,
        forall|k: int|
            0 <= k < nodes.len() ==> first_beginning(nodes)->0 <= (
            #[trigger] nodes[k]).valid_from_unix_ms,
        first_beginning(nodes) matches Some(at) ==> exists|k: int|
            0 <= k < nodes.len() && #[trigger] nodes[k].valid_from_unix_ms == at,
    decreases nodes.len(),
{
    if nodes.len() > 0 {
        let front = nodes.drop_last();
        lemma_first_beginning_least(front);
        assert(nodes[nodes.len() - 1] == nodes.last());
        assert forall|k: int| 0 <= k < nodes.len() implies first_beginning(nodes)->0 <= (
        #[trigger] nodes[k]).valid_from_unix_ms by {
            if k < front.len() {
                assert(front[k] == nodes[k]);
            }
        }
        let at = first_beginning(nodes)->0;
        if nodes.last().valid_from_unix_ms != at {
            let k = choose|k: int|
                0 <= k < front.len() && #[trigger] front[k].valid_from_unix_ms == at;
            assert(nodes[k].valid_from_unix_ms == at);
        }
    }
}

} // verus!
