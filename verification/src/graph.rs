//! Reads: what a query sees of the graph, and the evidence that it finds there.
//!
//! Activation scores are worked out between the two: a plan lists the active nodes and the
//! edges that carry activation, and the answer takes the score of each node, in billionths.
use vstd::prelude::*;

use crate::chars::{
    decimal, decimal_text, is_text_less, lemma_text_less_irreflexive, same_text, text_less, texts,
};
use crate::model::{
    budget_evidence, budgeted, copy_modes, evidence_tokens, modes_accept_kind, modes_take,
    CitedSpan, Evidence, EvidenceModel, MemoryEdgeKind, MemoryMode, MemoryNodeKind, MemoryQuery,
    QueryModel, SpanModel,
};
use crate::order::{lemma_views_push, ranked, views};
use crate::route::{support_kinds, support_kinds_for_modes};
use crate::rows::{EdgeModel, MemoryEdge, MemoryNode, NodeModel, ScopeKey, StoreScope};
use crate::store::{
    edge_in_scope, holding_at, limit_problem, seen_by, with_id, HoldingAt, MemoryStore, StoreModel,
    WithId,
};
use crate::table::{find_row, first_index, has_row, select, some_row, Rule};
use crate::text::{terms, terms_of};

verus! {

// ---------------------------------------------------------------------------
// What a query sees
// ---------------------------------------------------------------------------
/// The scope of a query.
pub open spec fn query_scope(query: QueryModel) -> ScopeKey {
    ScopeKey {
        tenant_id: query.scope.tenant_id,
        project_id: query.scope.project_id,
        environment_id: query.scope.environment_id,
    }
}

pub fn scope_of_query(query: &MemoryQuery) -> (r: StoreScope<'_>)
    ensures
        r@ == query_scope(query@),
{
    let environment_id = match &query.scope.environment_id {
        Some(text) => Some(text.as_str()),
        None => None,
    };
    StoreScope::new(
        query.scope.tenant_id.as_str(),
        query.scope.project_id.as_str(),
        environment_id,
    )
}

/// Nodes with others added whose identifiers are not among them.
pub open spec fn with_seeds(nodes: Seq<NodeModel>, seeds: Seq<NodeModel>) -> Seq<NodeModel>
    decreases seeds.len(),
{
    if seeds.len() == 0 {
        nodes
    } else {
        let front = with_seeds(nodes, seeds.drop_last());
        if some_row(front, with_id(seeds.last().id)) {
            front
        } else {
            front.push(seeds.last())
        }
    }
}

fn merge_seed_nodes(nodes: &mut Vec<MemoryNode>, seeds: &Vec<MemoryNode>)
    ensures
        views(final(nodes)@) == with_seeds(views(old(nodes)@), views(seeds@)),
{
    let ghost start = views(nodes@);
    let ghost all = views(seeds@);
    let mut i: usize = 0;
    proof {
        assert(all.take(0) =~= Seq::empty());
    }
    while i < seeds.len()
        invariant
            i <= seeds@.len(),
            all == views(seeds@),
            views(nodes@) == with_seeds(start, all.take(i as int)),
        decreases seeds.len() - i,
    {
        proof {
            assert(all.take(i as int + 1).drop_last() =~= all.take(i as int));
            assert(all.take(i as int + 1).last() == seeds@[i as int]@);
        }
        if !has_row(&*nodes, &WithId { id: seeds[i].id.as_str() }) {
            let ghost before = nodes@;
            let node = seeds[i].clone();
            nodes.push(node);
            proof {
                lemma_views_push(before, node);
            }
        }
        i += 1;
    }
    proof {
        assert(all.take(i as int) =~= all);
    }
}

/// The node of a list with an identifier.
pub open spec fn node_in(nodes: Seq<NodeModel>, id: Seq<char>) -> Option<NodeModel> {
    match first_index(nodes, with_id(id)) {
        Some(i) => Some(nodes[i]),
        None => None,
    }
}

/// A revision is seen once its newer node holds and its older one has been closed.
pub open spec fn revision_seen(edge: EdgeModel, history: Seq<NodeModel>, at: i64) -> bool {
    match (node_in(history, edge.from_node_id), node_in(history, edge.to_node_id)) {
        (Some(newer), Some(older)) => newer.active_at(at) && older.stale_at(at),
        _ => false,
    }
}

/// Edges that are seen at a time.
pub open spec fn edge_seen(history: Seq<NodeModel>, at: i64) -> spec_fn(EdgeModel) -> bool {
    |edge: EdgeModel|
        if edge.revises() {
            revision_seen(edge, history, at)
        } else {
            edge.created_at_unix_ms <= at
        }
}

pub struct EdgeSeen<'a> {
    pub history: &'a Vec<MemoryNode>,
    pub at: i64,
}

fn revises(edge: &MemoryEdge) -> (r: bool)
    ensures
        r == edge@.revises(),
{
    edge.kind == MemoryEdgeKind::Contradicts || edge.kind == MemoryEdgeKind::Supersedes
}

/// Whether a revision is seen at a time.
pub fn contradiction_edge_visible_at(
    edge: &MemoryEdge,
    history: &Vec<MemoryNode>,
    as_of_unix_ms: i64,
) -> (r: bool)
    ensures
        r == (edge@.revises() && revision_seen(edge@, views(history@), as_of_unix_ms)),
{
    if !revises(edge) {
        return false;
    }
    match (
        find_row(history, &WithId { id: edge.from_node_id.as_str() }),
        find_row(history, &WithId { id: edge.to_node_id.as_str() }),
    ) {
        (Some(newer), Some(older)) => history[newer].active_at(as_of_unix_ms)
            && history[older].stale_at(as_of_unix_ms),
        _ => false,
    }
}

impl<'a> Rule<MemoryEdge> for EdgeSeen<'a> {
    open spec fn test(&self) -> spec_fn(EdgeModel) -> bool {
        edge_seen(views(self.history@), self.at)
    }

    fn admits(&self, row: &MemoryEdge) -> (r: bool) {
        if revises(row) {
            contradiction_edge_visible_at(row, self.history, self.at)
        } else {
            row.created_at_unix_ms <= self.at
        }
    }
}

/// Edges between nodes of a list.
pub open spec fn between(nodes: Seq<NodeModel>) -> spec_fn(EdgeModel) -> bool {
    |edge: EdgeModel|
        some_row(nodes, with_id(edge.from_node_id)) && some_row(nodes, with_id(edge.to_node_id))
}

pub struct Between<'a> {
    pub nodes: &'a Vec<MemoryNode>,
}

impl<'a> Rule<MemoryEdge> for Between<'a> {
    open spec fn test(&self) -> spec_fn(EdgeModel) -> bool {
        between(views(self.nodes@))
    }

    fn admits(&self, row: &MemoryEdge) -> (r: bool) {
        has_row(self.nodes, &WithId { id: row.from_node_id.as_str() }) && has_row(
            self.nodes,
            &WithId { id: row.to_node_id.as_str() },
        )
    }
}

/// What a query sees of the graph: the nodes that had begun, those that hold, the edges that
/// are seen and those among them that carry activation.
pub struct ReadPlan {
    pub as_of_unix_ms: i64,
    pub modes: Vec<MemoryMode>,
    pub history: Vec<MemoryNode>,
    pub active: Vec<MemoryNode>,
    pub edges: Vec<MemoryEdge>,
    pub ranking_edges: Vec<MemoryEdge>,
}

pub struct PlanModel {
    pub as_of_unix_ms: i64,
    pub modes: Seq<MemoryMode>,
    pub history: Seq<NodeModel>,
    pub active: Seq<NodeModel>,
    pub edges: Seq<EdgeModel>,
    pub ranking_edges: Seq<EdgeModel>,
}

impl View for ReadPlan {
    type V = PlanModel;

    open spec fn view(&self) -> PlanModel {
        PlanModel {
            as_of_unix_ms: self.as_of_unix_ms,
            modes: self.modes@,
            history: views(self.history@),
            active: views(self.active@),
            edges: views(self.edges@),
            ranking_edges: views(self.ranking_edges@),
        }
    }
}

impl StoreModel {
    /// The nodes that a query finds by its terms, or the latest where it has none.
    pub open spec fn seeds_for(self, query: QueryModel, kinds: Seq<MemoryNodeKind>, at: i64) -> Seq<
        NodeModel,
    > {
        if terms_of(query.question).len() == 0 {
            self.recent(query_scope(query), Some(at), kinds, 64)
        } else {
            self.recall(
                query_scope(query),
                terms_of(query.question),
                seen_by(Some(at), kinds),
                64,
            )
        }
    }

    /// The nodes of a query's scope that had begun by a time, of the kinds that some modes load.
    pub open spec fn history_for(self, query: QueryModel, modes: Seq<MemoryMode>, at: i64) -> Seq<
        NodeModel,
    > {
        with_seeds(
            self.recent(query_scope(query), Some(at), support_kinds(modes), 10_000),
            self.seeds_for(query, support_kinds(modes), at),
        )
    }

    /// What a query sees of the graph under some modes at a time.
    pub open spec fn plan(self, query: QueryModel, modes: Seq<MemoryMode>, at: i64) -> PlanModel {
        let history = self.history_for(query, modes, at);
        let active = history.filter(holding_at(at));
        let edges = self.edges.filter(edge_in_scope(query_scope(query))).filter(
            edge_seen(history, at),
        );
        PlanModel {
            as_of_unix_ms: at,
            modes,
            history,
            active,
            edges,
            ranking_edges: edges.filter(between(active)),
        }
    }
}

/// Works out what a query sees of the graph under some modes at a time.
pub fn plan_read(store: &MemoryStore, query: &MemoryQuery, modes: &Vec<MemoryMode>, at: i64) -> (r:
    ReadPlan)
    ensures
        r@ == store@.plan(query@, modes@, at),
{
    let scope = scope_of_query(query);
    let kinds = support_kinds_for_modes(modes.as_slice());
    let query_terms = terms(query.question.as_str());
    proof {
        assert(texts(query_terms@).len() == query_terms@.len());
    }
    let seeds = match store.seed_nodes_observed_by_kinds(
        scope,
        &query_terms,
        64,
        Some(at),
        kinds.as_slice(),
    ) {
        Ok(seeds) => seeds,
        Err(_) => {
            proof {
                assert(limit_problem("seed_nodes limit"@, 64) is None);
                assert(false);
            }
            Vec::new()
        },
    };
    let mut history = store.all_nodes_observed_by_kinds(
        scope.tenant_id,
        scope.project_id,
        scope.environment_id,
        at,
        kinds.as_slice(),
    );
    merge_seed_nodes(&mut history, &seeds);
    let active = select(&history, &HoldingAt { at });
    let in_scope = store.edges_for_scope(scope.tenant_id, scope.project_id, scope.environment_id);
    let edges = select(&in_scope, &EdgeSeen { history: &history, at });
    let ranking_edges = select(&edges, &Between { nodes: &active });
    ReadPlan {
        as_of_unix_ms: at,
        modes: copy_modes(modes),
        history,
        active,
        edges,
        ranking_edges,
    }
}

/// Everything that a plan offers as active holds at its time, and is part of its history.
pub proof fn planned_nodes_hold(
    store: StoreModel,
    query: QueryModel,
    modes: Seq<MemoryMode>,
    at: i64,
    i: int,
)
    requires
        0 <= i < store.plan(query, modes, at).active.len(),
    ensures
        store.plan(query, modes, at).active[i].active_at(at),
        store.plan(query, modes, at).history.contains(store.plan(query, modes, at).active[i]),
{
    let plan = store.plan(query, modes, at);
    crate::table::lemma_filter_contains(plan.history, holding_at(at), plan.active[i]);
    assert(plan.active.contains(plan.active[i]));
}

// ---------------------------------------------------------------------------
// Evidence
// ---------------------------------------------------------------------------
/// A node that may answer under some modes: entity cues never do.
pub open spec fn answers(modes: Seq<MemoryMode>, kind: MemoryNodeKind) -> bool {
    kind != MemoryNodeKind::EntityCue && modes_take(modes, kind)
}

/// The score at a place, where there is one.
pub open spec fn score_at(scores: Seq<Option<u32>>, i: int) -> Option<u32> {
    if 0 <= i < scores.len() {
        scores[i]
    } else {
        None
    }
}

/// A node as evidence.
pub open spec fn evidence_of(store: StoreModel, node: NodeModel, score: u32, at: i64) -> EvidenceModel {
    EvidenceModel {
        node_id: node.id,
        kind: node.kind,
        text: node.text,
        score,
        token_estimate: node.token_estimate,
        cited_spans: store.citations(node.id, Some(at)),
    }
}

/// The scored nodes of some active ones that may answer, as evidence.
pub open spec fn evidence_among(
    store: StoreModel,
    modes: Seq<MemoryMode>,
    at: i64,
    active: Seq<NodeModel>,
    scores: Seq<Option<u32>>,
) -> Seq<EvidenceModel>
    decreases active.len(),
{
    if active.len() == 0 {
        Seq::empty()
    } else {
        let front = evidence_among(store, modes, at, active.drop_last(), scores);
        let node = active.last();
        match score_at(scores, active.len() - 1) {
            Some(score) => if answers(modes, node.kind) {
                front.push(evidence_of(store, node, score, at))
            } else {
                front
            },
            None => front,
        }
    }
}

fn make_evidence(store: &MemoryStore, node: &MemoryNode, score: u32, at: i64) -> (r: Evidence)
    ensures
        r@ == evidence_of(store@, node@, score, at),
{
    Evidence {
        node_id: node.id.clone(),
        kind: node.kind,
        text: node.text.clone(),
        score,
        token_estimate: node.token_estimate,
        cited_spans: store.cited_spans_for_node_as_of(node.id.as_str(), Some(at)),
    }
}

/// The evidence of a plan that fits into a budget.
pub open spec fn selected_evidence(
    store: StoreModel,
    plan: PlanModel,
    scores: Seq<Option<u32>>,
    max_tokens: u32,
) -> Seq<EvidenceModel> {
    budgeted(
        evidence_among(store, plan.modes, plan.as_of_unix_ms, plan.active, scores),
        max_tokens,
    )
}

/// Selects the evidence of a plan that fits into a budget. A node without a score is left out.
pub fn select_evidence(
    store: &MemoryStore,
    plan: &ReadPlan,
    scores: &Vec<Option<u32>>,
    max_tokens: u32,
) -> (r: Vec<Evidence>)
    ensures
        views(r@) == selected_evidence(store@, plan@, scores@, max_tokens),
        evidence_tokens(views(r@)) <= max_tokens,
{
    let ghost all = views(plan.active@);
    let mut found: Vec<Evidence> = Vec::new();
    let mut i: usize = 0;
    proof {
        assert(all.take(0) =~= Seq::empty());
        assert(views(found@) =~= Seq::empty());
    }
    while i < plan.active.len()
        invariant
            i <= plan.active@.len(),
            all == views(plan.active@),
            views(found@) == evidence_among(
                store@,
                plan.modes@,
                plan.as_of_unix_ms,
                all.take(i as int),
                scores@,
            ),
        decreases plan.active.len() - i,
    {
        proof {
            assert(all.take(i as int + 1).drop_last() =~= all.take(i as int));
            assert(all.take(i as int + 1).last() == plan.active@[i as int]@);
        }
        let node = &plan.active[i];
        if i < scores.len() && node.kind != MemoryNodeKind::EntityCue && modes_accept_kind(
            &plan.modes,
            node.kind,
        ) {
            if let Some(score) = scores[i] {
                let ghost before = found@;
                let item = make_evidence(store, node, score, plan.as_of_unix_ms);
                found.push(item);
                proof {
                    lemma_views_push(before, item);
                }
            }
        }
        i += 1;
    }
    proof {
        assert(all.take(i as int) =~= all);
    }
    budget_evidence(found, max_tokens)
}

proof fn lemma_evidence_among(
    store: StoreModel,
    modes: Seq<MemoryMode>,
    at: i64,
    active: Seq<NodeModel>,
    scores: Seq<Option<u32>>,
    item: EvidenceModel,
)
    requires
        evidence_among(store, modes, at, active, scores).contains(item),
    ensures
        exists|i: int|
            0 <= i < active.len() && answers(modes, active[i].kind) && scores.len() > i
                && scores[i] is Some && item == #[trigger] evidence_of(
                store,
                active[i],
                scores[i]->0,
                at,
            ),
    decreases active.len(),
{
    if active.len() > 0 {
        let last = active.len() - 1;
        let front = evidence_among(store, modes, at, active.drop_last(), scores);
        let whole = evidence_among(store, modes, at, active, scores);
        let k = choose|k: int| 0 <= k < whole.len() && whole[k] == item;
        if k < front.len() {
            assert(front[k] == item);
            lemma_evidence_among(store, modes, at, active.drop_last(), scores, item);
            let i = choose|i: int|
                0 <= i < active.drop_last().len() && answers(modes, active.drop_last()[i].kind)
                    && scores.len() > i && scores[i] is Some && item == #[trigger] evidence_of(
                    store,
                    active.drop_last()[i],
                    scores[i]->0,
                    at,
                );
            assert(active.drop_last()[i] == active[i]);
            assert(item == evidence_of(store, active[i], scores[i]->0, at));
        } else {
            assert(item == evidence_of(store, active[last], scores[last]->0, at));
        }
    }
}

/// Evidence comes from nodes that hold at the time of the read, are of a kind that the modes
/// consult, and are not entity cues; it cites what was observed by then.
pub proof fn evidence_is_active_typed_and_cited(
    store: StoreModel,
    query: QueryModel,
    modes: Seq<MemoryMode>,
    at: i64,
    scores: Seq<Option<u32>>,
    max_tokens: u32,
    item: EvidenceModel,
)
    requires
        selected_evidence(store, store.plan(query, modes, at), scores, max_tokens).contains(item),
    ensures
        item.kind != MemoryNodeKind::EntityCue,
        modes_take(modes, item.kind),
        item.cited_spans == store.citations(item.node_id, Some(at)),
        exists|i: int|
            0 <= i < store.plan(query, modes, at).active.len() && {
                let node = #[trigger] store.plan(query, modes, at).active[i];
                node.id == item.node_id && node.text == item.text && node.active_at(at)
            },
{
    let plan = store.plan(query, modes, at);
    let found = evidence_among(store, modes, at, plan.active, scores);
    let sorted = ranked::<Evidence, crate::model::ByScore>(found);
    crate::model::lemma_fitting_items(sorted, max_tokens);
    assert(sorted.contains(item));
    crate::order::lemma_ranked_contains::<Evidence, crate::model::ByScore>(found, item);
    lemma_evidence_among(store, modes, at, plan.active, scores, item);
    let i = choose|i: int|
        0 <= i < plan.active.len() && answers(modes, plan.active[i].kind) && scores.len() > i
            && scores[i] is Some && item == #[trigger] evidence_of(
            store,
            plan.active[i],
            scores[i]->0,
            at,
        );
    planned_nodes_hold(store, query, modes, at, i);
}

// ---------------------------------------------------------------------------
// Provenance of an answer
// ---------------------------------------------------------------------------
/// The key by which the spans of an answer are told apart.
pub open spec fn span_key(span: SpanModel) -> Seq<char> {
    span.tenant_id + ":"@ + span.project_id + ":"@ + span.trace_id + ":"@ + span.span_id + ":"@
        + decimal(span.seq as nat)
}

fn key_of_span(span: &CitedSpan) -> (r: String)
    ensures
        r@ == span_key(span@),
{
    let mut key = span.tenant_id.clone();
    key.append(":");
    key.append(span.project_id.as_str());
    key.append(":");
    key.append(span.trace_id.as_str());
    key.append(":");
    key.append(span.span_id.as_str());
    key.append(":");
    let number = decimal_text(span.seq);
    key.append(number.as_str());
    key
}

/// Spans in the order of their keys, with one put in; it takes the place of one with its key.
pub open spec fn insert_span(spans: Seq<SpanModel>, span: SpanModel) -> Seq<SpanModel>
    decreases spans.len(),
{
    if spans.len() == 0 {
        seq![span]
    } else if span_key(span) == span_key(spans.last()) {
        spans.drop_last().push(span)
    } else if text_less(span_key(span), span_key(spans.last())) {
        insert_span(spans.drop_last(), span).push(spans.last())
    } else {
        spans.push(span)
    }
}

/// Spans in the order of their keys, each key once; the last of equals stays.
pub open spec fn keyed_spans(start: Seq<SpanModel>, spans: Seq<SpanModel>) -> Seq<SpanModel>
    decreases spans.len(),
{
    if spans.len() == 0 {
        start
    } else {
        insert_span(keyed_spans(start, spans.drop_last()), spans.last())
    }
}

/// The spans that some evidence cites, in the order of their keys, each key once.
pub open spec fn evidence_spans(evidence: Seq<EvidenceModel>) -> Seq<SpanModel>
    decreases evidence.len(),
{
    if evidence.len() == 0 {
        Seq::empty()
    } else {
        keyed_spans(evidence_spans(evidence.drop_last()), evidence.last().cited_spans)
    }
}

fn put_span(spans: &mut Vec<CitedSpan>, span: &CitedSpan)
    ensures
        views(final(spans)@) == insert_span(views(old(spans)@), span@),
{
    let key = key_of_span(span);
    let mut at: usize = spans.len();
    let ghost rows = views(spans@);
    let ghost row = span@;
    proof {
        assert(rows.take(rows.len() as int) =~= rows);
        assert(insert_span(rows, row) =~= insert_span(rows.take(at as int), row) + rows.skip(
            at as int,
        ));
    }
    while at > 0 && is_text_less(key.as_str(), key_of_span(&spans[at - 1]).as_str())
        invariant
            at <= spans@.len(),
            spans@ == old(spans)@,
            rows == views(spans@),
            row == span@,
            key@ == span_key(row),
            insert_span(rows, row) == insert_span(rows.take(at as int), row) + rows.skip(at as int),
        decreases at,
    {
        proof {
            let head = rows.take(at as int);
            lemma_text_less_irreflexive(key@);
            assert(head.last() == rows[at as int - 1]);
            assert(head.drop_last() =~= rows.take(at as int - 1));
            assert(insert_span(head, row) + rows.skip(at as int) =~= insert_span(
                rows.take(at as int - 1),
                row,
            ) + rows.skip(at as int - 1));
        }
        at -= 1;
    }
    let copy = span.clone();
    if at > 0 && same_text(key.as_str(), key_of_span(&spans[at - 1]).as_str()) {
        spans.set(at - 1, copy);
        proof {
            let head = rows.take(at as int);
            assert(head.last() == rows[at as int - 1]);
            assert(views(spans@) =~= head.drop_last().push(row) + rows.skip(at as int));
        }
        return ;
    }
    proof {
        let head = rows.take(at as int);
        if at > 0 {
            assert(head.last() == rows[at as int - 1]);
        } else {
            assert(seq![row] =~= head.push(row));
        }
        assert(insert_span(head, row) == head.push(row));
    }
    spans.insert(at, copy);
    proof {
        assert(views(spans@) =~= rows.take(at as int).push(row) + rows.skip(at as int));
    }
}

/// The spans that some evidence cites, in the order of their keys, each key once.
pub fn cited_by_evidence(evidence: &Vec<Evidence>) -> (r: Vec<CitedSpan>)
    ensures
        views(r@) == evidence_spans(views(evidence@)),
{
    let ghost all = views(evidence@);
    let mut out: Vec<CitedSpan> = Vec::new();
    let mut i: usize = 0;
    proof {
        assert(all.take(0) =~= Seq::empty());
        assert(views(out@) =~= Seq::empty());
    }
    while i < evidence.len()
        invariant
            i <= evidence@.len(),
            all == views(evidence@),
            views(out@) == evidence_spans(all.take(i as int)),
        decreases evidence.len() - i,
    {
        proof {
            assert(all.take(i as int + 1).drop_last() =~= all.take(i as int));
            assert(all.take(i as int + 1).last() == evidence@[i as int]@);
        }
        let spans = &evidence[i].cited_spans;
        let ghost start = views(out@);
        let ghost more = views(spans@);
        let mut k: usize = 0;
        proof {
            assert(more.take(0) =~= Seq::empty());
        }
        while k < spans.len()
            invariant
                k <= spans@.len(),
                more == views(spans@),
                views(out@) == keyed_spans(start, more.take(k as int)),
            decreases spans.len() - k,
        {
            proof {
                assert(more.take(k as int + 1).drop_last() =~= more.take(k as int));
                assert(more.take(k as int + 1).last() == spans@[k as int]@);
            }
            put_span(&mut out, &spans[k]);
            k += 1;
        }
        proof {
            assert(more.take(k as int) =~= more);
        }
        i += 1;
    }
    proof {
        assert(all.take(i as int) =~= all);
    }
    out
}

// ---------------------------------------------------------------------------
// Edge weights
// ---------------------------------------------------------------------------
/// How much activation an edge of a kind carries, in hundredths.
pub open spec fn kind_weight(kind: MemoryEdgeKind) -> u32 {
    match kind {
        MemoryEdgeKind::Mentions => 70,
        MemoryEdgeKind::CausedBy => 100,
        MemoryEdgeKind::Fixes => 100,
        MemoryEdgeKind::Contradicts => 90,
        MemoryEdgeKind::Supersedes => 95,
        MemoryEdgeKind::Before => 55,
        MemoryEdgeKind::After => 55,
        MemoryEdgeKind::PartOf => 80,
        MemoryEdgeKind::DerivedFrom => 75,
        MemoryEdgeKind::Blocks => 90,
        MemoryEdgeKind::Enables => 90,
        MemoryEdgeKind::ObservedIn => 60,
    }
}

/// How much activation an edge of a kind carries, in hundredths.
pub fn edge_kind_weight(kind: MemoryEdgeKind) -> (r: u32)
    ensures
        r == kind_weight(kind),
        0 < r <= 100,
{
    match kind {
        MemoryEdgeKind::Mentions => 70,
        MemoryEdgeKind::CausedBy | MemoryEdgeKind::Fixes => 100,
        MemoryEdgeKind::Contradicts | MemoryEdgeKind::Blocks | MemoryEdgeKind::Enables => 90,
        MemoryEdgeKind::Supersedes => 95,
        MemoryEdgeKind::Before | MemoryEdgeKind::After => 55,
        MemoryEdgeKind::PartOf => 80,
        MemoryEdgeKind::DerivedFrom => 75,
        MemoryEdgeKind::ObservedIn => 60,
    }
}

} // verus!
