//! The tables of the memory store and the reads on them.
//!
//! The store holds the ledger, the projected graph and the audit log as tables of rows. What a
//! read returns is stated over the rows: which are kept, in what order, and how many.
use vstd::prelude::*;

use crate::chars::{is_text_less, same_text, text_less, text_or_empty, texts};
use crate::chars::{lemma_text_less_irreflexive, lemma_text_less_total, lemma_text_less_transitive};
use crate::error::{failure, rejection, MemoryError, MemoryResult};
use crate::ledger::{EventModel, LedgerEvent};
use crate::model::{CitedSpan, MemoryNodeKind, SpanModel};
use crate::order::{lemma_views_push, ranked, sort_ranked, views, Ranking};
use crate::rows::{
    AuditEvent, AuditModel, CueEntry, CueModel, EdgeModel, MemoryEdge, MemoryNode, NodeModel,
    NodeSpan, NodeSpanModel, ScopeKey, StoreScope,
};
use crate::table::{find_row, first_index, has_row, lemma_filter_contains, select, some_row, Rule};
use crate::text::{at_most, canonical_key, terms, terms_of};

verus! {

/// The tables of a memory store.
#[derive(Debug, PartialEq, Eq)]
pub struct MemoryStore {
    pub ledger: Vec<LedgerEvent>,
    pub nodes: Vec<MemoryNode>,
    pub edges: Vec<MemoryEdge>,
    pub spans: Vec<NodeSpan>,
    pub cues: Vec<CueEntry>,
    pub audit: Vec<AuditEvent>,
    pub last_event_id: i64,
    pub last_edge_id: i64,
    pub last_audit_id: i64,
}

pub struct StoreModel {
    pub ledger: Seq<EventModel>,
    pub nodes: Seq<NodeModel>,
    pub edges: Seq<EdgeModel>,
    pub spans: Seq<NodeSpanModel>,
    pub cues: Seq<CueModel>,
    pub audit: Seq<AuditModel>,
    pub last_event_id: i64,
    pub last_edge_id: i64,
    pub last_audit_id: i64,
}

impl View for MemoryStore {
    type V = StoreModel;

    open spec fn view(&self) -> StoreModel {
        StoreModel {
            ledger: views(self.ledger@),
            nodes: views(self.nodes@),
            edges: views(self.edges@),
            spans: views(self.spans@),
            cues: views(self.cues@),
            audit: views(self.audit@),
            last_event_id: self.last_event_id,
            last_edge_id: self.last_edge_id,
            last_audit_id: self.last_audit_id,
        }
    }
}

// ---------------------------------------------------------------------------
// Limits
// ---------------------------------------------------------------------------
/// What is wrong with a row limit: it cannot be bound as an SQL integer.
pub open spec fn limit_problem(field: Seq<char>, limit: usize) -> Option<Seq<char>> {
    if limit > i64::MAX {
        Some(field + " exceeds SQLite LIMIT range"@)
    } else {
        None
    }
}

/// A row limit as an SQL integer.
pub fn sqlite_limit(field: &str, limit: usize) -> (r: MemoryResult<i64>)
    ensures
        failure(r) == rejection(limit_problem(field@, limit)),
        r matches Ok(bound) ==> bound == limit,
{
    if limit as u64 > 0x7fff_ffff_ffff_ffff {
        Err(MemoryError::InvalidInput(field.to_owned().concat(" exceeds SQLite LIMIT range")))
    } else {
        Ok(limit as i64)
    }
}

// ---------------------------------------------------------------------------
// Ledger
// ---------------------------------------------------------------------------
/// Where an event stands among events observed at one time.
pub open spec fn event_no(event: EventModel) -> i64 {
    match event.id {
        Some(id) => id,
        None => 0,
    }
}

fn event_number(event: &LedgerEvent) -> (r: i64)
    ensures
        r == event_no(event@),
{
    match event.id {
        Some(id) => id,
        None => 0,
    }
}

/// Ledger order: by the time of observation, and by identifier within one time.
pub struct ByObserved;

impl Ranking<LedgerEvent> for ByObserved {
    open spec fn before(a: EventModel, b: EventModel) -> bool {
        a.observed_at_unix_ms < b.observed_at_unix_ms || (a.observed_at_unix_ms
            == b.observed_at_unix_ms && event_no(a) < event_no(b))
    }

    fn precedes(a: &LedgerEvent, b: &LedgerEvent) -> (r: bool) {
        a.observed_at_unix_ms < b.observed_at_unix_ms || (a.observed_at_unix_ms
            == b.observed_at_unix_ms && event_number(a) < event_number(b))
    }

    proof fn lawful() {
    }
}

/// Events observed at a place in a trace.
pub open spec fn at_span(span: SpanModel) -> spec_fn(EventModel) -> bool {
    |event: EventModel| event.span() == span
}

/// Events with an identifier.
pub open spec fn with_number(id: i64) -> spec_fn(EventModel) -> bool {
    |event: EventModel| event.id == Some(id)
}

/// Events that wait for projection.
pub open spec fn is_pending() -> spec_fn(EventModel) -> bool {
    |event: EventModel| event.projected_at_unix_ms is None
}

/// Rows of the provenance table for one node and one place in a trace.
pub open spec fn is_citation(node_id: Seq<char>, span: SpanModel) -> spec_fn(NodeSpanModel) -> bool {
    |row: NodeSpanModel| row.node_id == node_id && row.span == span
}

/// Events that a node cites.
pub open spec fn cited_by(
    spans: Seq<NodeSpanModel>,
    node_id: Seq<char>,
) -> spec_fn(EventModel) -> bool {
    |event: EventModel| some_row(spans, is_citation(node_id, event.span()))
}

/// The first event in ledger order.
pub open spec fn earliest(events: Seq<EventModel>) -> Option<EventModel>
    decreases events.len(),
{
    if events.len() == 0 {
        None
    } else {
        match earliest(events.drop_last()) {
            Some(best) => if ByObserved::before(events.last(), best) {
                Some(events.last())
            } else {
                Some(best)
            },
            None => Some(events.last()),
        }
    }
}

pub struct AtSpan<'a> {
    pub span: &'a CitedSpan,
}

impl<'a> Rule<LedgerEvent> for AtSpan<'a> {
    open spec fn test(&self) -> spec_fn(EventModel) -> bool {
        at_span(self.span@)
    }

    fn admits(&self, row: &LedgerEvent) -> (r: bool) {
        row.cited_span().same(self.span)
    }
}

pub struct WithNumber {
    pub id: i64,
}

impl Rule<LedgerEvent> for WithNumber {
    open spec fn test(&self) -> spec_fn(EventModel) -> bool {
        with_number(self.id)
    }

    fn admits(&self, row: &LedgerEvent) -> (r: bool) {
        match row.id {
            Some(id) => id == self.id,
            None => false,
        }
    }
}

pub struct Pending;

impl Rule<LedgerEvent> for Pending {
    open spec fn test(&self) -> spec_fn(EventModel) -> bool {
        is_pending()
    }

    fn admits(&self, row: &LedgerEvent) -> (r: bool) {
        row.projected_at_unix_ms.is_none()
    }
}

pub struct Citation<'a> {
    pub node_id: &'a str,
    pub span: &'a CitedSpan,
}

impl<'a> Rule<NodeSpan> for Citation<'a> {
    open spec fn test(&self) -> spec_fn(NodeSpanModel) -> bool {
        is_citation(self.node_id@, self.span@)
    }

    fn admits(&self, row: &NodeSpan) -> (r: bool) {
        same_text(row.node_id.as_str(), self.node_id) && row.span.same(self.span)
    }
}

pub struct CitedBy<'a> {
    pub spans: &'a Vec<NodeSpan>,
    pub node_id: &'a str,
}

impl<'a> Rule<LedgerEvent> for CitedBy<'a> {
    open spec fn test(&self) -> spec_fn(EventModel) -> bool {
        cited_by(views(self.spans@), self.node_id@)
    }

    fn admits(&self, row: &LedgerEvent) -> (r: bool) {
        let span = row.cited_span();
        has_row(self.spans, &Citation { node_id: self.node_id, span: &span })
    }
}

/// Projected events of a scope that come after an event and before a closing time.
pub open spec fn projected_between(
    scope: ScopeKey,
    after: EventModel,
    before: Option<i64>,
    before_id: Option<i64>,
) -> spec_fn(EventModel) -> bool {
    |event: EventModel|
        {
            &&& event.tenant_id == scope.tenant_id
            &&& event.project_id == scope.project_id
            &&& text_or_empty(event.environment_id) == scope.environment()
            &&& event.projected_at_unix_ms is Some
            &&& event.observed_at_unix_ms > after.observed_at_unix_ms || (after.id is Some
                && event.observed_at_unix_ms == after.observed_at_unix_ms && event_no(event)
                > after.id->0)
            &&& match before {
                None => true,
                Some(end) => event.observed_at_unix_ms < end || (before_id is Some
                    && event.observed_at_unix_ms == end && event_no(event) < before_id->0),
            }
        }
}

pub struct ProjectedBetween<'a> {
    pub scope: StoreScope<'a>,
    pub after: &'a LedgerEvent,
    pub before: Option<i64>,
    pub before_id: Option<i64>,
}

impl<'a> Rule<LedgerEvent> for ProjectedBetween<'a> {
    open spec fn test(&self) -> spec_fn(EventModel) -> bool {
        projected_between(self.scope@, self.after@, self.before, self.before_id)
    }

    fn admits(&self, row: &LedgerEvent) -> (r: bool) {
        let late_enough = row.observed_at_unix_ms > self.after.observed_at_unix_ms
            || match self.after.id {
            Some(id) => row.observed_at_unix_ms == self.after.observed_at_unix_ms && event_number(
                row,
            ) > id,
            None => false,
        };
        let early_enough = match self.before {
            None => true,
            Some(end) => row.observed_at_unix_ms < end || match self.before_id {
                Some(id) => row.observed_at_unix_ms == end && event_number(row) < id,
                None => false,
            },
        };
        late_enough && early_enough && row.projected_at_unix_ms.is_some() && scope_holds(
            &self.scope,
            row.tenant_id.as_str(),
            row.project_id.as_str(),
            &row.environment_id,
        )
    }
}

/// Whether a row with these identifiers belongs to a scope.
pub(crate) fn scope_holds(
    scope: &StoreScope<'_>,
    tenant_id: &str,
    project_id: &str,
    environment_id: &Option<String>,
) -> (r: bool)
    ensures
        r == (tenant_id@ == scope@.tenant_id && project_id@ == scope@.project_id && text_or_empty(
            crate::chars::opt_text(*environment_id),
        ) == scope@.environment()),
{
    let here = crate::chars::or_empty(environment_id);
    let there = environment_or_empty(scope);
    same_text(tenant_id, scope.tenant_id) && same_text(project_id, scope.project_id) && same_text(
        here,
        there,
    )
}

pub(crate) fn environment_or_empty<'a>(scope: &StoreScope<'a>) -> (r: &'a str)
    ensures
        r@ == scope@.environment(),
{
    match scope.environment_id {
        Some(text) => text,
        None => {
            proof {
                reveal_strlit("");
                assert(""@ =~= Seq::<char>::empty());
            }
            ""
        },
    }
}

impl StoreModel {
    /// The identifier of the event observed at a place in a trace.
    pub open spec fn event_at(self, span: SpanModel) -> Option<i64> {
        match first_index(self.ledger, at_span(span)) {
            Some(i) => self.ledger[i].id,
            None => None,
        }
    }

    /// The identifier of the event at the first of some places that the ledger knows.
    pub open spec fn event_of(self, spans: Seq<SpanModel>) -> Option<i64>
        decreases spans.len(),
    {
        if spans.len() == 0 {
            None
        } else {
            match self.event_of(spans.drop_last()) {
                Some(id) => Some(id),
                None => self.event_at(spans.last()),
            }
        }
    }

    /// The first event, in ledger order, that a node cites.
    pub open spec fn first_event(self, node_id: Seq<char>) -> Option<EventModel> {
        earliest(self.ledger.filter(cited_by(self.spans, node_id)))
    }

    /// The identifier of the first event that a node cites.
    pub open spec fn first_event_id(self, node_id: Seq<char>) -> Option<i64> {
        match self.first_event(node_id) {
            Some(event) => event.id,
            None => None,
        }
    }
}

/// What a node cites is among its own citations.
proof fn lemma_own_citation(
    spans: Seq<NodeSpanModel>,
    ledger: Seq<EventModel>,
    node_id: Seq<char>,
    span: SpanModel,
)
    ensures
        some_row(spans, is_citation(node_id, span)) == some_row(
            spans.filter(citation_by(ledger, node_id, None)),
            is_citation(node_id, span),
        ),
{
    let own = citation_by(ledger, node_id, None);
    let test = is_citation(node_id, span);
    let mine = spans.filter(own);
    if some_row(spans, test) {
        let i = choose|i: int| 0 <= i < spans.len() && test(#[trigger] spans[i]);
        lemma_filter_contains(spans, own, spans[i]);
        let j = choose|j: int| 0 <= j < mine.len() && mine[j] == spans[i];
        assert(test(mine[j]));
    }
    if some_row(mine, test) {
        let j = choose|j: int| 0 <= j < mine.len() && test(#[trigger] mine[j]);
        assert(mine.contains(mine[j]));
        lemma_filter_contains(spans, own, mine[j]);
        let i = choose|i: int| 0 <= i < spans.len() && spans[i] == mine[j];
        assert(test(spans[i]));
    }
}

fn earliest_of(events: &Vec<LedgerEvent>) -> (r: Option<LedgerEvent>)
    ensures
        match (r, earliest(views(events@))) {
            (Some(event), Some(model)) => event@ == model,
            (None, None) => true,
            _ => false,
        },
{
    if events.len() == 0 {
        return None;
    }
    let ghost all = views(events@);
    let mut best: usize = 0;
    let mut i: usize = 1;
    proof {
        assert(all.take(1).drop_last() =~= Seq::empty());
        assert(earliest(Seq::<EventModel>::empty()) is None);
        assert(all.take(1).last() == all[0]);
    }
    while i < events.len()
        invariant
            1 <= i <= events@.len(),
            best < events@.len(),
            all == views(events@),
            earliest(all.take(i as int)) == Some(events@[best as int]@),
        decreases events.len() - i,
    {
        proof {
            assert(all.take(i as int + 1).drop_last() =~= all.take(i as int));
            assert(all.take(i as int + 1).last() == events@[i as int]@);
        }
        if ByObserved::precedes(&events[i], &events[best]) {
            best = i;
        }
        i += 1;
    }
    proof {
        assert(all.take(i as int) =~= all);
    }
    Some(events[best].clone())
}

// ---------------------------------------------------------------------------
// Recall
// ---------------------------------------------------------------------------
/// A node that a read found, with what it is ordered by.
pub struct Hit {
    pub rank: u32,
    pub first_event: i64,
    pub node: MemoryNode,
}

pub struct HitModel {
    pub rank: u32,
    pub first_event: i64,
    pub node: NodeModel,
}

impl View for Hit {
    type V = HitModel;

    open spec fn view(&self) -> HitModel {
        HitModel { rank: self.rank, first_event: self.first_event, node: self.node@ }
    }
}

/// Recall order: stronger cues first, then later nodes, then later ledger entries, then by
/// identifier.
pub struct ByRecall;

impl Ranking<Hit> for ByRecall {
    open spec fn before(a: HitModel, b: HitModel) -> bool {
        if a.rank != b.rank {
            a.rank < b.rank
        } else if a.node.valid_from_unix_ms != b.node.valid_from_unix_ms {
            a.node.valid_from_unix_ms > b.node.valid_from_unix_ms
        } else if a.first_event != b.first_event {
            a.first_event > b.first_event
        } else {
            text_less(a.node.id, b.node.id)
        }
    }

    fn precedes(a: &Hit, b: &Hit) -> (r: bool) {
        if a.rank != b.rank {
            a.rank < b.rank
        } else if a.node.valid_from_unix_ms != b.node.valid_from_unix_ms {
            a.node.valid_from_unix_ms > b.node.valid_from_unix_ms
        } else if a.first_event != b.first_event {
            a.first_event > b.first_event
        } else {
            is_text_less(a.node.id.as_str(), b.node.id.as_str())
        }
    }

    proof fn lawful() {
        assert forall|a: HitModel, b: HitModel|
            !(#[trigger] Self::before(a, b) && #[trigger] Self::before(b, a)) by {
            if Self::before(a, b) && Self::before(b, a) {
                lemma_text_less_transitive(a.node.id, b.node.id, a.node.id);
                lemma_text_less_irreflexive(a.node.id);
            }
        }
        assert forall|a: HitModel, b: HitModel, c: HitModel|
            !#[trigger] Self::before(a, b) && !#[trigger] Self::before(
                b,
                c,
            ) implies !Self::before(a, c) by {
            if Self::before(a, c) {
                lemma_text_less_total(a.node.id, b.node.id);
                lemma_text_less_total(b.node.id, c.node.id);
                if text_less(b.node.id, a.node.id) && text_less(a.node.id, c.node.id) {
                    lemma_text_less_transitive(b.node.id, a.node.id, c.node.id);
                }
                if text_less(a.node.id, c.node.id) && text_less(c.node.id, b.node.id) {
                    lemma_text_less_transitive(a.node.id, c.node.id, b.node.id);
                }
            }
        }
    }
}

pub open spec fn with_id(id: Seq<char>) -> spec_fn(NodeModel) -> bool {
    |node: NodeModel| node.id == id
}

pub struct WithId<'a> {
    pub id: &'a str,
}

impl<'a> Rule<MemoryNode> for WithId<'a> {
    open spec fn test(&self) -> spec_fn(NodeModel) -> bool {
        with_id(self.id@)
    }

    fn admits(&self, row: &MemoryNode) -> (r: bool) {
        same_text(row.id.as_str(), self.id)
    }
}

/// The nodes of some hits.
pub open spec fn hit_nodes(hits: Seq<HitModel>) -> Seq<NodeModel> {
    Seq::new(hits.len(), |i: int| hits[i].node)
}

/// The nodes of a list, each identifier where it came first.
pub open spec fn distinct_nodes(nodes: Seq<NodeModel>) -> Seq<NodeModel>
    decreases nodes.len(),
{
    if nodes.len() == 0 {
        Seq::empty()
    } else {
        let front = distinct_nodes(nodes.drop_last());
        if some_row(front, with_id(nodes.last().id)) {
            front
        } else {
            front.push(nodes.last())
        }
    }
}

impl StoreModel {
    /// The node with an identifier.
    pub open spec fn node(self, id: Seq<char>) -> Option<NodeModel> {
        match first_index(self.nodes, with_id(id)) {
            Some(i) => Some(self.nodes[i]),
            None => None,
        }
    }

    /// A node as a hit of a given rank.
    pub open spec fn hit(self, node: NodeModel, rank: u32) -> HitModel {
        HitModel {
            rank,
            first_event: match self.first_event_id(node.id) {
                Some(id) => id,
                None => 0,
            },
            node,
        }
    }

    /// The nodes that some cues lead to for a term, as far as they meet a condition.
    pub open spec fn cue_hits(
        self,
        cues: Seq<CueModel>,
        scope: ScopeKey,
        term: Seq<char>,
        keep: spec_fn(NodeModel) -> bool,
    ) -> Seq<HitModel>
        decreases cues.len(),
    {
        if cues.len() == 0 {
            Seq::empty()
        } else {
            let front = self.cue_hits(cues.drop_last(), scope, term, keep);
            let cue = cues.last();
            if cue.in_scope(scope) && cue.term == term {
                match self.node(cue.node_id) {
                    Some(node) => if keep(node) {
                        front.push(self.hit(node, cue.rank))
                    } else {
                        front
                    },
                    None => front,
                }
            } else {
                front
            }
        }
    }

    /// The nodes found under one term, in recall order, at most `limit` of them.
    pub open spec fn term_recall(
        self,
        scope: ScopeKey,
        term: Seq<char>,
        keep: spec_fn(NodeModel) -> bool,
        limit: int,
    ) -> Seq<NodeModel> {
        hit_nodes(
            at_most(ranked::<Hit, ByRecall>(self.cue_hits(self.cues, scope, term, keep)), limit),
        )
    }

    /// What is found under each of some terms, one term after the other.
    pub open spec fn terms_recall(
        self,
        scope: ScopeKey,
        query_terms: Seq<Seq<char>>,
        keep: spec_fn(NodeModel) -> bool,
        limit: int,
    ) -> Seq<NodeModel>
        decreases query_terms.len(),
    {
        if query_terms.len() == 0 {
            Seq::empty()
        } else {
            self.terms_recall(scope, query_terms.drop_last(), keep, limit) + self.term_recall(
                scope,
                query_terms.last(),
                keep,
                limit,
            )
        }
    }

    /// The nodes found under some terms, each once, at most `limit` of them.
    pub open spec fn recall(
        self,
        scope: ScopeKey,
        query_terms: Seq<Seq<char>>,
        keep: spec_fn(NodeModel) -> bool,
        limit: int,
    ) -> Seq<NodeModel> {
        at_most(distinct_nodes(self.terms_recall(scope, query_terms, keep, limit)), limit)
    }

    /// Nodes as hits of one rank.
    pub open spec fn plain_hits(self, nodes: Seq<NodeModel>) -> Seq<HitModel> {
        Seq::new(nodes.len(), |i: int| self.hit(nodes[i], 0))
    }

    /// The nodes of a scope that meet a condition, latest first, at most `limit` of them.
    pub open spec fn recent(
        self,
        scope: ScopeKey,
        as_of: Option<i64>,
        kinds: Seq<MemoryNodeKind>,
        limit: int,
    ) -> Seq<NodeModel> {
        hit_nodes(
            at_most(
                ranked::<Hit, ByRecall>(
                    self.plain_hits(self.nodes.filter(seen_in_scope(scope, as_of, kinds))),
                ),
                limit,
            ),
        )
    }
}

/// Nodes that hold at a time.
pub open spec fn holding_at(at: i64) -> spec_fn(NodeModel) -> bool {
    |node: NodeModel| node.active_at(at)
}

/// Nodes that had begun by a time, of some kinds or of any where none is given.
pub open spec fn seen_by(as_of: Option<i64>, kinds: Seq<MemoryNodeKind>) -> spec_fn(
    NodeModel,
) -> bool {
    |node: NodeModel|
        (match as_of {
            Some(at) => node.valid_from_unix_ms <= at,
            None => true,
        }) && (kinds.len() == 0 || kinds.contains(node.kind))
}

/// Nodes of a scope that had begun by a time, of some kinds or of any where none is given.
pub open spec fn seen_in_scope(
    scope: ScopeKey,
    as_of: Option<i64>,
    kinds: Seq<MemoryNodeKind>,
) -> spec_fn(NodeModel) -> bool {
    |node: NodeModel| node.in_scope(scope) && (seen_by(as_of, kinds))(node)
}

/// Nodes that an event can revise: those that held when it was observed, counting what was
/// closed by it or after it as open, and leaving out what it or a later entry of its time
/// brought in.
pub open spec fn open_before(store: StoreModel, event: EventModel) -> spec_fn(NodeModel) -> bool {
    |node: NodeModel|
        {
            let at = event.observed_at_unix_ms;
            &&& node.valid_from_unix_ms <= at
            &&& match node.valid_to_unix_ms {
                None => true,
                Some(end) => end > at || (end == at && event.id is Some && match
                node.valid_to_event_id {
                    Some(closer) => closer >= event.id->0,
                    None => false,
                }),
            }
            &&& match store.first_event(node.id) {
                None => true,
                Some(first) => !(first.tenant_id == event.tenant_id && first.project_id
                    == event.project_id && text_or_empty(first.environment_id) == text_or_empty(
                    event.environment_id,
                ) && first.observed_at_unix_ms == at && event.id is Some && event_no(first)
                    >= event.id->0),
            }
        }
}

pub struct HoldingAt {
    pub at: i64,
}

impl Rule<MemoryNode> for HoldingAt {
    open spec fn test(&self) -> spec_fn(NodeModel) -> bool {
        holding_at(self.at)
    }

    fn admits(&self, row: &MemoryNode) -> (r: bool) {
        row.active_at(self.at)
    }
}

fn kind_listed(kinds: &[MemoryNodeKind], kind: MemoryNodeKind) -> (r: bool)
    ensures
        r == kinds@.contains(kind),
{
    let mut i: usize = 0;
    while i < kinds.len()
        invariant
            i <= kinds@.len(),
            forall|k: int| 0 <= k < i ==> kinds@[k] != kind,
        decreases kinds.len() - i,
    {
        if kinds[i] == kind {
            return true;
        }
        i += 1;
    }
    false
}

pub struct SeenBy<'a> {
    pub as_of: Option<i64>,
    pub kinds: &'a [MemoryNodeKind],
}

impl<'a> Rule<MemoryNode> for SeenBy<'a> {
    open spec fn test(&self) -> spec_fn(NodeModel) -> bool {
        seen_by(self.as_of, self.kinds@)
    }

    fn admits(&self, row: &MemoryNode) -> (r: bool) {
        (match self.as_of {
            Some(at) => row.valid_from_unix_ms <= at,
            None => true,
        }) && (self.kinds.len() == 0 || kind_listed(self.kinds, row.kind))
    }
}

pub struct SeenInScope<'a> {
    pub scope: StoreScope<'a>,
    pub as_of: Option<i64>,
    pub kinds: &'a [MemoryNodeKind],
}

impl<'a> Rule<MemoryNode> for SeenInScope<'a> {
    open spec fn test(&self) -> spec_fn(NodeModel) -> bool {
        seen_in_scope(self.scope@, self.as_of, self.kinds@)
    }

    fn admits(&self, row: &MemoryNode) -> (r: bool) {
        scope_holds(
            &self.scope,
            row.tenant_id.as_str(),
            row.project_id.as_str(),
            &row.environment_id,
        ) && (SeenBy { as_of: self.as_of, kinds: self.kinds }).admits(row)
    }
}

pub struct OpenBefore<'a> {
    pub store: &'a MemoryStore,
    pub event: &'a LedgerEvent,
}

impl<'a> Rule<MemoryNode> for OpenBefore<'a> {
    open spec fn test(&self) -> spec_fn(NodeModel) -> bool {
        open_before(self.store@, self.event@)
    }

    fn admits(&self, row: &MemoryNode) -> (r: bool) {
        let at: i64 = self.event.observed_at_unix_ms;
        if row.valid_from_unix_ms > at {
            return false;
        }
        let still_open = match row.valid_to_unix_ms {
            None => true,
            Some(end) => end > at || (end == at && match (self.event.id, row.valid_to_event_id) {
                (Some(id), Some(closer)) => closer >= id,
                _ => false,
            }),
        };
        if !still_open {
            return false;
        }
        match self.store.first_event_of(row.id.as_str()) {
            None => true,
            Some(first) => {
                let later = match self.event.id {
                    Some(id) => event_number(&first) >= id,
                    None => false,
                };
                !(later && first.observed_at_unix_ms == at && same_text(
                    first.tenant_id.as_str(),
                    self.event.tenant_id.as_str(),
                ) && same_text(first.project_id.as_str(), self.event.project_id.as_str())
                    && same_text(
                    crate::chars::or_empty(&first.environment_id),
                    crate::chars::or_empty(&self.event.environment_id),
                ))
            },
        }
    }
}

/// Drops hits beyond a limit and keeps the nodes of the rest.
fn nodes_of_hits(hits: Vec<Hit>, limit: usize) -> (r: Vec<MemoryNode>)
    ensures
        views(r@) == hit_nodes(at_most(views(hits@), limit as int)),
{
    let ghost all = views(hits@);
    let mut out: Vec<MemoryNode> = Vec::new();
    let mut i: usize = 0;
    while i < hits.len() && i < limit
        invariant
            i <= hits@.len(),
            i <= limit,
            all == views(hits@),
            views(out@) == hit_nodes(all.take(i as int)),
        decreases hits.len() - i,
    {
        let ghost before = views(out@);
        let node = hits[i].node.clone();
        out.push(node);
        proof {
            assert(views(out@) =~= before.push(hits@[i as int].node@));
            assert(views(out@) =~= hit_nodes(all.take(i as int + 1)));
        }
        i += 1;
    }
    proof {
        if i == hits@.len() {
            assert(all.take(i as int) =~= all);
        }
    }
    out
}

/// Keeps the first node of each identifier.
pub fn keep_distinct(nodes: Vec<MemoryNode>) -> (r: Vec<MemoryNode>)
    ensures
        views(r@) == distinct_nodes(views(nodes@)),
{
    let ghost all = views(nodes@);
    let mut out: Vec<MemoryNode> = Vec::new();
    let mut i: usize = 0;
    proof {
        assert(all.take(0) =~= Seq::empty());
        assert(views(out@) =~= Seq::empty());
    }
    while i < nodes.len()
        invariant
            i <= nodes@.len(),
            all == views(nodes@),
            views(out@) == distinct_nodes(all.take(i as int)),
        decreases nodes.len() - i,
    {
        proof {
            assert(all.take(i as int + 1).drop_last() =~= all.take(i as int));
            assert(all.take(i as int + 1).last() == nodes@[i as int]@);
        }
        if !has_row(&out, &WithId { id: nodes[i].id.as_str() }) {
            let ghost before = out@;
            let node = nodes[i].clone();
            out.push(node);
            proof {
                lemma_views_push(before, node);
            }
        }
        i += 1;
    }
    proof {
        assert(all.take(i as int) =~= all);
    }
    out
}

/// Keeps the first node of each identifier and drops what is beyond a limit.
fn first_of_each(nodes: Vec<MemoryNode>, limit: usize) -> (r: Vec<MemoryNode>)
    ensures
        views(r@) == at_most(distinct_nodes(views(nodes@)), limit as int),
{
    let mut out = keep_distinct(nodes);
    let ghost whole = views(out@);
    if limit < out.len() {
        out.truncate(limit);
        proof {
            assert(views(out@) =~= whole.take(limit as int));
        }
    }
    out
}

/// The tables of a store that holds nothing.
pub open spec fn empty_store() -> StoreModel {
    StoreModel {
        ledger: Seq::empty(),
        nodes: Seq::empty(),
        edges: Seq::empty(),
        spans: Seq::empty(),
        cues: Seq::empty(),
        audit: Seq::empty(),
        last_event_id: 0,
        last_edge_id: 0,
        last_audit_id: 0,
    }
}

impl MemoryStore {
    /// A store without rows.
    pub fn new() -> (r: Self)
        ensures
            r@ == empty_store(),
    {
        let store = MemoryStore {
            ledger: Vec::new(),
            nodes: Vec::new(),
            edges: Vec::new(),
            spans: Vec::new(),
            cues: Vec::new(),
            audit: Vec::new(),
            last_event_id: 0,
            last_edge_id: 0,
            last_audit_id: 0,
        };
        proof {
            assert(store@.ledger =~= Seq::empty());
            assert(store@.nodes =~= Seq::empty());
            assert(store@.edges =~= Seq::empty());
            assert(store@.spans =~= Seq::empty());
            assert(store@.cues =~= Seq::empty());
            assert(store@.audit =~= Seq::empty());
        }
        store
    }

    /// Events that wait for projection, in ledger order.
    pub fn pending_events(&self, limit: usize) -> (r: MemoryResult<Vec<LedgerEvent>>)
        ensures
            failure(r) == rejection(limit_problem("pending_events limit"@, limit)),
            r matches Ok(events) ==> views(events@) == at_most(
                ranked::<LedgerEvent, ByObserved>(self@.ledger.filter(is_pending())),
                limit as int,
            ),
    {
        sqlite_limit("pending_events limit", limit)?;
        let waiting = select(&self.ledger, &Pending);
        let mut events = sort_ranked::<LedgerEvent, ByObserved>(waiting);
        let ghost all = views(events@);
        if limit < events.len() {
            events.truncate(limit);
            proof {
                assert(views(events@) =~= all.take(limit as int));
            }
        }
        Ok(events)
    }

    /// Projected events of a scope that come after an event and before a closing time.
    pub fn projected_events_after(
        &self,
        scope: StoreScope<'_>,
        after_event: &LedgerEvent,
        before_unix_ms: Option<i64>,
        before_event_id: Option<i64>,
    ) -> (r: Vec<LedgerEvent>)
        ensures
            views(r@) == ranked::<LedgerEvent, ByObserved>(
                self@.ledger.filter(
                    projected_between(scope@, after_event@, before_unix_ms, before_event_id),
                ),
            ),
    {
        let rule = ProjectedBetween {
            scope,
            after: after_event,
            before: before_unix_ms,
            before_id: before_event_id,
        };
        let found = select(&self.ledger, &rule);
        sort_ranked::<LedgerEvent, ByObserved>(found)
    }

    /// Whether the event with an identifier waits for projection.
    pub fn event_is_pending(&self, event_id: i64) -> (r: bool)
        ensures
            r == (match first_index(self@.ledger, with_number(event_id)) {
                Some(i) => self@.ledger[i].projected_at_unix_ms is None,
                None => false,
            }),
    {
        match find_row(&self.ledger, &WithNumber { id: event_id }) {
            Some(i) => self.ledger[i].projected_at_unix_ms.is_none(),
            None => false,
        }
    }

    /// The identifier of the event observed at a place in a trace.
    pub fn event_id_for_span(&self, span: &CitedSpan) -> (r: Option<i64>)
        ensures
            r == self@.event_at(span@),
    {
        match find_row(&self.ledger, &AtSpan { span }) {
            Some(i) => self.ledger[i].id,
            None => None,
        }
    }

    /// The identifier of the event at the first of some places that the ledger knows.
    pub fn event_id_for_spans(&self, cited_spans: &[CitedSpan]) -> (r: Option<i64>)
        ensures
            r == self@.event_of(views(cited_spans@)),
    {
        let ghost all = views(cited_spans@);
        let mut i: usize = 0;
        proof {
            assert(all.take(0) =~= Seq::empty());
        }
        while i < cited_spans.len()
            invariant
                i <= cited_spans@.len(),
                all == views(cited_spans@),
                self@.event_of(all.take(i as int)) is None,
            decreases cited_spans.len() - i,
        {
            proof {
                assert(all.take(i as int + 1).drop_last() =~= all.take(i as int));
                assert(all.take(i as int + 1).last() == cited_spans@[i as int]@);
            }
            let found = self.event_id_for_span(&cited_spans[i]);
            if found.is_some() {
                proof {
                    lemma_event_of_prefix(self@, all, i as int + 1);
                }
                return found;
            }
            i += 1;
        }
        proof {
            assert(all.take(i as int) =~= all);
        }
        None
    }

    /// The first event, in ledger order, that a node cites.
    pub fn first_event_of(&self, node_id: &str) -> (r: Option<LedgerEvent>)
        ensures
            match (r, self@.first_event(node_id@)) {
                (Some(event), Some(model)) => event@ == model,
                (None, None) => true,
                _ => false,
            },
    {
        let own = select(&self.spans, &CitationBy { ledger: &self.ledger, node_id, as_of: None });
        let rule = CitedBy { spans: &own, node_id };
        proof {
            let all = self@.spans;
            let mine = all.filter(citation_by(self@.ledger, node_id@, None));
            assert forall|event: EventModel| #[trigger]
                (cited_by(all, node_id@))(event) == (cited_by(mine, node_id@))(event) by {
                lemma_own_citation(all, self@.ledger, node_id@, event.span());
            }
            assert(cited_by(all, node_id@) =~= cited_by(mine, node_id@));
        }
        let cited = select(&self.ledger, &rule);
        earliest_of(&cited)
    }

    /// The identifier of the first event that a node cites.
    pub fn first_event_id_for_node(&self, node_id: &str) -> (r: Option<i64>)
        ensures
            r == self@.first_event_id(node_id@),
    {
        match self.first_event_of(node_id) {
            Some(event) => event.id,
            None => None,
        }
    }

    fn hit_for(&self, node: &MemoryNode, rank: u32) -> (r: Hit)
        ensures
            r@ == self@.hit(node@, rank),
    {
        let first_event: i64 = match self.first_event_id_for_node(node.id.as_str()) {
            Some(id) => id,
            None => 0,
        };
        Hit { rank, first_event, node: node.clone() }
    }

    /// The node with an identifier.
    pub fn node_by_id(&self, id: &str) -> (r: Option<MemoryNode>)
        ensures
            match (r, self@.node(id@)) {
                (Some(node), Some(model)) => node@ == model,
                (None, None) => true,
                _ => false,
            },
    {
        match find_row(&self.nodes, &WithId { id }) {
            Some(i) => Some(self.nodes[i].clone()),
            None => None,
        }
    }

    fn recall_term<F: Rule<MemoryNode>>(
        &self,
        scope: &StoreScope<'_>,
        term: &str,
        rule: &F,
        limit: usize,
    ) -> (r: Vec<MemoryNode>)
        ensures
            views(r@) == self@.term_recall(scope@, term@, rule.test(), limit as int),
    {
        let ghost cues = self@.cues;
        let mut hits: Vec<Hit> = Vec::new();
        let mut i: usize = 0;
        proof {
            assert(cues.take(0) =~= Seq::empty());
            assert(views(hits@) =~= Seq::empty());
        }
        while i < self.cues.len()
            invariant
                i <= self.cues@.len(),
                cues == self@.cues,
                cues == views(self.cues@),
                views(hits@) == self@.cue_hits(cues.take(i as int), scope@, term@, rule.test()),
            decreases self.cues.len() - i,
        {
            proof {
                assert(cues.take(i as int + 1).drop_last() =~= cues.take(i as int));
                assert(cues.take(i as int + 1).last() == self.cues@[i as int]@);
            }
            let cue = &self.cues[i];
            if same_text(cue.term.as_str(), term) && scope_holds(
                scope,
                cue.tenant_id.as_str(),
                cue.project_id.as_str(),
                &cue.environment_id,
            ) {
                if let Some(at) = find_row(&self.nodes, &WithId { id: cue.node_id.as_str() }) {
                    if rule.admits(&self.nodes[at]) {
                        let ghost before = hits@;
                        let hit = self.hit_for(&self.nodes[at], cue.rank);
                        hits.push(hit);
                        proof {
                            lemma_views_push(before, hit);
                        }
                    }
                }
            }
            i += 1;
        }
        proof {
            assert(cues.take(i as int) =~= cues);
        }
        let sorted = sort_ranked::<Hit, ByRecall>(hits);
        nodes_of_hits(sorted, limit)
    }

    fn recall_terms<F: Rule<MemoryNode>>(
        &self,
        scope: &StoreScope<'_>,
        query_terms: &Vec<String>,
        rule: &F,
        limit: usize,
    ) -> (r: Vec<MemoryNode>)
        ensures
            views(r@) == self@.recall(scope@, texts(query_terms@), rule.test(), limit as int),
    {
        let ghost all = texts(query_terms@);
        let mut found: Vec<MemoryNode> = Vec::new();
        let mut i: usize = 0;
        proof {
            assert(all.take(0) =~= Seq::empty());
            assert(views(found@) =~= Seq::empty());
        }
        while i < query_terms.len()
            invariant
                i <= query_terms@.len(),
                all == texts(query_terms@),
                views(found@) == self@.terms_recall(
                    scope@,
                    all.take(i as int),
                    rule.test(),
                    limit as int,
                ),
            decreases query_terms.len() - i,
        {
            proof {
                assert(all.take(i as int + 1).drop_last() =~= all.take(i as int));
                assert(all.take(i as int + 1).last() == query_terms@[i as int]@);
            }
            let ghost before = views(found@);
            let mut more = self.recall_term(scope, query_terms[i].as_str(), rule, limit);
            let ghost added = views(more@);
            found.append(&mut more);
            proof {
                assert(views(found@) =~= before + added);
            }
            i += 1;
        }
        proof {
            assert(all.take(i as int) =~= all);
        }
        first_of_each(found, limit)
    }

    /// Nodes of a scope that hold at a time and share terms with a text.
    pub fn active_neighbors(
        &self,
        tenant_id: &str,
        project_id: &str,
        environment_id: Option<&str>,
        text: &str,
        limit: usize,
        as_of_unix_ms: i64,
    ) -> (r: MemoryResult<Vec<MemoryNode>>)
        ensures
            failure(r) == rejection(
                if terms_of(text@).len() == 0 {
                    None
                } else {
                    limit_problem("active_neighbors limit"@, limit)
                },
            ),
            r matches Ok(nodes) ==> views(nodes@) == self@.recall(
                StoreScope { tenant_id, project_id, environment_id }@,
                terms_of(text@),
                holding_at(as_of_unix_ms),
                limit as int,
            ),
    {
        let scope = StoreScope::new(tenant_id, project_id, environment_id);
        let query_terms = terms(text);
        if query_terms.len() > 0 {
            sqlite_limit("active_neighbors limit", limit)?;
        }
        Ok(self.recall_terms(&scope, &query_terms, &HoldingAt { at: as_of_unix_ms }, limit))
    }

    /// Nodes that an event can revise and that share terms with a text.
    pub fn projection_neighbors_for_event(&self, event: &LedgerEvent, text: &str, limit: usize) -> (r:
        MemoryResult<Vec<MemoryNode>>)
        ensures
            failure(r) == rejection(
                if terms_of(text@).len() == 0 {
                    None
                } else {
                    limit_problem("projection_neighbors_for_event limit"@, limit)
                },
            ),
            r matches Ok(nodes) ==> views(nodes@) == self@.recall(
                event_scope(event@),
                terms_of(text@),
                open_before(self@, event@),
                limit as int,
            ),
    {
        let scope = scope_of_event(event);
        let query_terms = terms(text);
        if query_terms.len() > 0 {
            sqlite_limit("projection_neighbors_for_event limit", limit)?;
        }
        Ok(self.recall_terms(&scope, &query_terms, &OpenBefore { store: self, event }, limit))
    }

    /// Nodes of a scope that had begun by a time, of some kinds, found under some terms; the
    /// latest nodes where no term is given.
    pub fn seed_nodes_observed_by_kinds(
        &self,
        scope: StoreScope<'_>,
        query_terms: &Vec<String>,
        limit: usize,
        as_of_unix_ms: Option<i64>,
        kinds: &[MemoryNodeKind],
    ) -> (r: MemoryResult<Vec<MemoryNode>>)
        ensures
            failure(r) == rejection(limit_problem("seed_nodes limit"@, limit)),
            r matches Ok(nodes) ==> views(nodes@) == (if query_terms@.len() == 0 {
                self@.recent(scope@, as_of_unix_ms, kinds@, limit as int)
            } else {
                self@.recall(
                    scope@,
                    texts(query_terms@),
                    seen_by(as_of_unix_ms, kinds@),
                    limit as int,
                )
            }),
    {
        sqlite_limit("seed_nodes limit", limit)?;
        if query_terms.len() == 0 {
            return Ok(self.recent_of(&scope, limit, as_of_unix_ms, kinds));
        }
        Ok(self.recall_terms(&scope, query_terms, &SeenBy { as_of: as_of_unix_ms, kinds }, limit))
    }

    /// Nodes of a scope that had begun by a time, found under some terms.
    pub fn seed_nodes_observed_by(
        &self,
        tenant_id: &str,
        project_id: &str,
        environment_id: Option<&str>,
        query_terms: &Vec<String>,
        limit: usize,
        as_of_unix_ms: Option<i64>,
    ) -> (r: MemoryResult<Vec<MemoryNode>>)
        ensures
            failure(r) == rejection(limit_problem("seed_nodes limit"@, limit)),
            r matches Ok(nodes) ==> views(nodes@) == (if query_terms@.len() == 0 {
                self@.recent(
                    StoreScope { tenant_id, project_id, environment_id }@,
                    as_of_unix_ms,
                    Seq::empty(),
                    limit as int,
                )
            } else {
                self@.recall(
                    StoreScope { tenant_id, project_id, environment_id }@,
                    texts(query_terms@),
                    seen_by(as_of_unix_ms, Seq::empty()),
                    limit as int,
                )
            }),
    {
        let kinds: [MemoryNodeKind; 0] = [];
        proof {
            assert(kinds@ =~= Seq::<MemoryNodeKind>::empty());
        }
        self.seed_nodes_observed_by_kinds(
            StoreScope::new(tenant_id, project_id, environment_id),
            query_terms,
            limit,
            as_of_unix_ms,
            &kinds,
        )
    }

    /// Nodes of a scope found under some terms.
    pub fn seed_nodes(
        &self,
        tenant_id: &str,
        project_id: &str,
        environment_id: Option<&str>,
        query_terms: &Vec<String>,
        limit: usize,
    ) -> (r: MemoryResult<Vec<MemoryNode>>)
        ensures
            failure(r) == rejection(limit_problem("seed_nodes limit"@, limit)),
            r matches Ok(nodes) ==> views(nodes@) == (if query_terms@.len() == 0 {
                self@.recent(
                    StoreScope { tenant_id, project_id, environment_id }@,
                    None,
                    Seq::empty(),
                    limit as int,
                )
            } else {
                self@.recall(
                    StoreScope { tenant_id, project_id, environment_id }@,
                    texts(query_terms@),
                    seen_by(None, Seq::empty()),
                    limit as int,
                )
            }),
    {
        self.seed_nodes_observed_by(tenant_id, project_id, environment_id, query_terms, limit, None)
    }

    fn recent_of(
        &self,
        scope: &StoreScope<'_>,
        limit: usize,
        as_of_unix_ms: Option<i64>,
        kinds: &[MemoryNodeKind],
    ) -> (r: Vec<MemoryNode>)
        ensures
            views(r@) == self@.recent(scope@, as_of_unix_ms, kinds@, limit as int),
    {
        let found = select(
            &self.nodes,
            &SeenInScope { scope: *scope, as_of: as_of_unix_ms, kinds },
        );
        let ghost all = views(found@);
        let mut hits: Vec<Hit> = Vec::new();
        let mut i: usize = 0;
        while i < found.len()
            invariant
                i <= found@.len(),
                all == views(found@),
                views(hits@) == self@.plain_hits(all.take(i as int)),
            decreases found.len() - i,
        {
            let ghost before = hits@;
            let hit = self.hit_for(&found[i], 0);
            hits.push(hit);
            proof {
                lemma_views_push(before, hit);
                assert(views(hits@) =~= self@.plain_hits(all.take(i as int + 1)));
            }
            i += 1;
        }
        proof {
            assert(all.take(i as int) =~= all);
        }
        let sorted = sort_ranked::<Hit, ByRecall>(hits);
        nodes_of_hits(sorted, limit)
    }

    /// The latest nodes of a scope that had begun by a time, of some kinds.
    pub fn recent_nodes_observed_by_kinds(
        &self,
        tenant_id: &str,
        project_id: &str,
        environment_id: Option<&str>,
        limit: usize,
        as_of_unix_ms: Option<i64>,
        kinds: &[MemoryNodeKind],
    ) -> (r: MemoryResult<Vec<MemoryNode>>)
        ensures
            failure(r) == rejection(limit_problem("recent_nodes limit"@, limit)),
            r matches Ok(nodes) ==> views(nodes@) == self@.recent(
                StoreScope { tenant_id, project_id, environment_id }@,
                as_of_unix_ms,
                kinds@,
                limit as int,
            ),
    {
        sqlite_limit("recent_nodes limit", limit)?;
        let scope = StoreScope::new(tenant_id, project_id, environment_id);
        Ok(self.recent_of(&scope, limit, as_of_unix_ms, kinds))
    }

    /// The latest nodes of a scope that had begun by a time.
    pub fn recent_nodes_observed_by(
        &self,
        tenant_id: &str,
        project_id: &str,
        environment_id: Option<&str>,
        limit: usize,
        as_of_unix_ms: Option<i64>,
    ) -> (r: MemoryResult<Vec<MemoryNode>>)
        ensures
            failure(r) == rejection(limit_problem("recent_nodes limit"@, limit)),
            r matches Ok(nodes) ==> views(nodes@) == self@.recent(
                StoreScope { tenant_id, project_id, environment_id }@,
                as_of_unix_ms,
                Seq::empty(),
                limit as int,
            ),
    {
        let kinds: [MemoryNodeKind; 0] = [];
        proof {
            assert(kinds@ =~= Seq::<MemoryNodeKind>::empty());
        }
        self.recent_nodes_observed_by_kinds(
            tenant_id,
            project_id,
            environment_id,
            limit,
            as_of_unix_ms,
            &kinds,
        )
    }

    /// The latest nodes of a scope.
    pub fn recent_nodes(
        &self,
        tenant_id: &str,
        project_id: &str,
        environment_id: Option<&str>,
        limit: usize,
    ) -> (r: MemoryResult<Vec<MemoryNode>>)
        ensures
            failure(r) == rejection(limit_problem("recent_nodes limit"@, limit)),
            r matches Ok(nodes) ==> views(nodes@) == self@.recent(
                StoreScope { tenant_id, project_id, environment_id }@,
                None,
                Seq::empty(),
                limit as int,
            ),
    {
        self.recent_nodes_observed_by(tenant_id, project_id, environment_id, limit, None)
    }

    /// The nodes of a scope, up to ten thousand of them.
    pub fn all_nodes(&self, tenant_id: &str, project_id: &str, environment_id: Option<&str>) -> (r:
        Vec<MemoryNode>)
        ensures
            views(r@) == self@.recent(
                StoreScope { tenant_id, project_id, environment_id }@,
                None,
                Seq::empty(),
                10_000,
            ),
    {
        let kinds: [MemoryNodeKind; 0] = [];
        proof {
            assert(kinds@ =~= Seq::<MemoryNodeKind>::empty());
        }
        let scope = StoreScope::new(tenant_id, project_id, environment_id);
        self.recent_of(&scope, 10_000, None, &kinds)
    }

    /// The nodes of a scope that had begun by a time, up to ten thousand of them.
    pub fn all_nodes_observed_by(
        &self,
        tenant_id: &str,
        project_id: &str,
        environment_id: Option<&str>,
        as_of_unix_ms: i64,
    ) -> (r: Vec<MemoryNode>)
        ensures
            views(r@) == self@.recent(
                StoreScope { tenant_id, project_id, environment_id }@,
                Some(as_of_unix_ms),
                Seq::empty(),
                10_000,
            ),
    {
        let kinds: [MemoryNodeKind; 0] = [];
        proof {
            assert(kinds@ =~= Seq::<MemoryNodeKind>::empty());
        }
        let scope = StoreScope::new(tenant_id, project_id, environment_id);
        self.recent_of(&scope, 10_000, Some(as_of_unix_ms), &kinds)
    }

    /// The nodes of a scope that had begun by a time, of some kinds, up to ten thousand of them.
    pub fn all_nodes_observed_by_kinds(
        &self,
        tenant_id: &str,
        project_id: &str,
        environment_id: Option<&str>,
        as_of_unix_ms: i64,
        kinds: &[MemoryNodeKind],
    ) -> (r: Vec<MemoryNode>)
        ensures
            views(r@) == self@.recent(
                StoreScope { tenant_id, project_id, environment_id }@,
                Some(as_of_unix_ms),
                kinds@,
                10_000,
            ),
    {
        let scope = StoreScope::new(tenant_id, project_id, environment_id);
        self.recent_of(&scope, 10_000, Some(as_of_unix_ms), kinds)
    }
}

// ---------------------------------------------------------------------------
// Edges, citations and keys
// ---------------------------------------------------------------------------
pub open spec fn edge_in_scope(scope: ScopeKey) -> spec_fn(EdgeModel) -> bool {
    |edge: EdgeModel| edge.in_scope(scope)
}

pub struct EdgeInScope<'a> {
    pub scope: StoreScope<'a>,
}

impl<'a> Rule<MemoryEdge> for EdgeInScope<'a> {
    open spec fn test(&self) -> spec_fn(EdgeModel) -> bool {
        edge_in_scope(self.scope@)
    }

    fn admits(&self, row: &MemoryEdge) -> (r: bool) {
        scope_holds(
            &self.scope,
            row.tenant_id.as_str(),
            row.project_id.as_str(),
            &row.environment_id,
        )
    }
}

/// Citations in the order of their sequence numbers.
pub struct BySeq;

impl Ranking<NodeSpan> for BySeq {
    open spec fn before(a: NodeSpanModel, b: NodeSpanModel) -> bool {
        a.span.seq < b.span.seq
    }

    fn precedes(a: &NodeSpan, b: &NodeSpan) -> (r: bool) {
        a.span.seq < b.span.seq
    }

    proof fn lawful() {
    }
}

/// Citations of a node whose event was observed by a time, or is not in the ledger.
pub open spec fn citation_by(
    ledger: Seq<EventModel>,
    node_id: Seq<char>,
    as_of: Option<i64>,
) -> spec_fn(NodeSpanModel) -> bool {
    |row: NodeSpanModel|
        row.node_id == node_id && match as_of {
            None => true,
            Some(at) => match first_index(ledger, at_span(row.span)) {
                Some(i) => ledger[i].observed_at_unix_ms <= at,
                None => true,
            },
        }
}

pub struct CitationBy<'a> {
    pub ledger: &'a Vec<LedgerEvent>,
    pub node_id: &'a str,
    pub as_of: Option<i64>,
}

impl<'a> Rule<NodeSpan> for CitationBy<'a> {
    open spec fn test(&self) -> spec_fn(NodeSpanModel) -> bool {
        citation_by(views(self.ledger@), self.node_id@, self.as_of)
    }

    fn admits(&self, row: &NodeSpan) -> (r: bool) {
        if !same_text(row.node_id.as_str(), self.node_id) {
            return false;
        }
        match self.as_of {
            None => true,
            Some(at) => match find_row(self.ledger, &AtSpan { span: &row.span }) {
                Some(i) => self.ledger[i].observed_at_unix_ms <= at,
                None => true,
            },
        }
    }
}

/// The places that some citations name.
pub open spec fn cited_places(rows: Seq<NodeSpanModel>) -> Seq<SpanModel> {
    Seq::new(rows.len(), |i: int| rows[i].span)
}

impl StoreModel {
    /// The places that a node cites, as far as they were observed by a time.
    pub open spec fn citations(self, node_id: Seq<char>, as_of: Option<i64>) -> Seq<SpanModel> {
        cited_places(
            ranked::<NodeSpan, BySeq>(self.spans.filter(citation_by(self.ledger, node_id, as_of))),
        )
    }
}

/// Nodes of a scope and kind with a canonical key.
pub open spec fn with_key(scope: ScopeKey, kind: MemoryNodeKind, key: Seq<char>) -> spec_fn(
    NodeModel,
) -> bool {
    |node: NodeModel| node.in_scope(scope) && node.kind == kind && node.canonical_key == key
}

pub struct WithKey<'a> {
    pub scope: StoreScope<'a>,
    pub kind: MemoryNodeKind,
    pub key: &'a str,
}

impl<'a> Rule<MemoryNode> for WithKey<'a> {
    open spec fn test(&self) -> spec_fn(NodeModel) -> bool {
        with_key(self.scope@, self.kind, self.key@)
    }

    fn admits(&self, row: &MemoryNode) -> (r: bool) {
        row.kind == self.kind && same_text(row.canonical_key.as_str(), self.key) && scope_holds(
            &self.scope,
            row.tenant_id.as_str(),
            row.project_id.as_str(),
            &row.environment_id,
        )
    }
}

impl MemoryStore {
    /// The edges of a scope.
    pub fn edges_for_scope(
        &self,
        tenant_id: &str,
        project_id: &str,
        environment_id: Option<&str>,
    ) -> (r: Vec<MemoryEdge>)
        ensures
            views(r@) == self@.edges.filter(
                edge_in_scope(StoreScope { tenant_id, project_id, environment_id }@),
            ),
    {
        select(
            &self.edges,
            &EdgeInScope { scope: StoreScope::new(tenant_id, project_id, environment_id) },
        )
    }

    /// The places that a node cites.
    pub fn cited_spans_for_node(&self, node_id: &str) -> (r: Vec<CitedSpan>)
        ensures
            views(r@) == self@.citations(node_id@, None),
    {
        self.cited_spans_for_node_as_of(node_id, None)
    }

    /// The places that a node cites, as far as they were observed by a time.
    pub fn cited_spans_for_node_as_of(&self, node_id: &str, as_of_unix_ms: Option<i64>) -> (r: Vec<
        CitedSpan,
    >)
        ensures
            views(r@) == self@.citations(node_id@, as_of_unix_ms),
    {
        let rows = select(
            &self.spans,
            &CitationBy { ledger: &self.ledger, node_id, as_of: as_of_unix_ms },
        );
        let sorted = sort_ranked::<NodeSpan, BySeq>(rows);
        let ghost all = views(sorted@);
        let mut out: Vec<CitedSpan> = Vec::new();
        let mut i: usize = 0;
        while i < sorted.len()
            invariant
                i <= sorted@.len(),
                all == views(sorted@),
                views(out@) == cited_places(all).take(i as int),
            decreases sorted.len() - i,
        {
            let ghost before = out@;
            let span = sorted[i].span.clone();
            out.push(span);
            proof {
                lemma_views_push(before, span);
                assert(views(out@) =~= cited_places(all).take(i as int + 1));
            }
            i += 1;
        }
        proof {
            assert(cited_places(all).take(i as int) =~= cited_places(all));
        }
        out
    }

    /// The node of a scope and kind with a canonical key.
    pub fn node_by_scope_key(
        &self,
        tenant_id: &str,
        project_id: &str,
        environment_id: Option<&str>,
        kind: MemoryNodeKind,
        canonical_key: &str,
    ) -> (r: Option<MemoryNode>)
        ensures
            match (
                r,
                first_index(
                    self@.nodes,
                    with_key(
                        StoreScope { tenant_id, project_id, environment_id }@,
                        kind,
                        canonical_key@,
                    ),
                ),
            ) {
                (Some(node), Some(i)) => node@ == self@.nodes[i],
                (None, None) => true,
                _ => false,
            },
    {
        let rule = WithKey {
            scope: StoreScope::new(tenant_id, project_id, environment_id),
            kind,
            key: canonical_key,
        };
        match find_row(&self.nodes, &rule) {
            Some(i) => Some(self.nodes[i].clone()),
            None => None,
        }
    }
}

proof fn lemma_event_of_prefix(store: StoreModel, spans: Seq<SpanModel>, k: int)
    requires
        0 <= k <= spans.len(),
        store.event_of(spans.take(k)) is Some,
    ensures
        store.event_of(spans) == store.event_of(spans.take(k)),
    decreases spans.len(),
{
    if k < spans.len() {
        assert(spans.drop_last().take(k) =~= spans.take(k));
        lemma_event_of_prefix(store, spans.drop_last(), k);
    } else {
        assert(spans.take(k) =~= spans);
    }
}

/// The scope of an event.
pub open spec fn event_scope(event: EventModel) -> ScopeKey {
    ScopeKey {
        tenant_id: event.tenant_id,
        project_id: event.project_id,
        environment_id: event.environment_id,
    }
}

pub fn scope_of_event(event: &LedgerEvent) -> (r: StoreScope<'_>)
    ensures
        r@ == event_scope(event@),
{
    let environment_id = match &event.environment_id {
        Some(text) => Some(text.as_str()),
        None => None,
    };
    StoreScope::new(event.tenant_id.as_str(), event.project_id.as_str(), environment_id)
}

} // verus!
