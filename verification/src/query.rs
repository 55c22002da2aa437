//! The stages of a query: route, read, select, widen, reconstruct and answer.
//!
//! A query is begun with what it sees of the graph. Whoever works out activation scores hands
//! them back, and the next stage says whether to widen the route, to reconstruct, or to answer.
use vstd::prelude::*;

use crate::answer::{
    answer_form, contradictions_for, evidence_ids, shown_contradictions, shown_stale,
    stale_assumptions_for, suggested_queries, suggestions, synthesize_answer,
};
use crate::chars::{any_occurs, list_contains, lower, lower_text, texts};
use crate::distill::{add_tokens, plus_tokens};
use crate::error::{failure, rejection, MemoryResult};
use crate::explore::{
    explore, some_walk, walk, Exploration, ExplorationModel, LinkModel, NodeLink, Walk,
};
use crate::graph::{
    answers, cited_by_evidence, evidence_of, evidence_spans, plan_read, score_at, PlanModel,
    ReadPlan,
};
use crate::model::{
    budget_evidence, budgeted, copy_modes, estimate_tokens, evidence_tokens, modes_accept_kind,
    token_cost, ContradictionModel, Evidence, EvidenceModel, MemoryAnswer, MemoryMode,
    MemoryNodeKind, MemoryQuery, MemoryTier, QueryModel, ReconstructionMode, ReconstructionReason,
    ReconstructionReport, RoutingModel, RoutingReport, SpanModel, StaleModel,
};
use crate::order::{lemma_views_push, views};
use crate::reconstruct::{
    ActiveReconstructor, CandidateModel, ReconstructionCandidate, ReconstructionMetrics,
};
use crate::route::{
    contains_any, fallback_route_after_empty_evidence, route_memory_query, route_of, same_mode_set,
    same_modes, widened,
};
use crate::rows::{EdgeModel, MemoryEdge, NodeModel};
use crate::store::{with_id, MemoryStore, StoreModel, WithId};
use crate::table::{copy_rows, find_row, first_index};
use crate::text::{overlap_of, overlap_score, str_texts};

verus! {

// ---------------------------------------------------------------------------
// Answers
// ---------------------------------------------------------------------------
pub struct ReconstructionModel {
    pub mode: ReconstructionMode,
    pub reason: ReconstructionReason,
    pub steps_used: u8,
    pub tokens_spent: u32,
    pub expanded_node_ids: Seq<Seq<char>>,
    pub accepted_node_ids: Seq<Seq<char>>,
    pub pruned_node_ids: Seq<Seq<char>>,
    pub metrics: ReconstructionMetrics,
}

impl View for ReconstructionReport {
    type V = ReconstructionModel;

    open spec fn view(&self) -> ReconstructionModel {
        ReconstructionModel {
            mode: self.mode,
            reason: self.reason,
            steps_used: self.steps_used,
            tokens_spent: self.tokens_spent,
            expanded_node_ids: texts(self.expanded_node_ids@),
            accepted_node_ids: texts(self.accepted_node_ids@),
            pruned_node_ids: texts(self.pruned_node_ids@),
            metrics: self.metrics,
        }
    }
}

pub struct AnswerModel {
    pub answer: Seq<char>,
    pub evidence: Seq<EvidenceModel>,
    pub cited_spans: Seq<SpanModel>,
    pub contradictions: Seq<ContradictionModel>,
    pub stale_assumptions: Seq<StaleModel>,
    pub suggested_next_queries: Seq<Seq<char>>,
    pub token_estimate: u32,
    pub tier_used: MemoryTier,
    pub routing: Option<RoutingModel>,
    pub reconstruction: Option<ReconstructionModel>,
}

impl View for MemoryAnswer {
    type V = AnswerModel;

    open spec fn view(&self) -> AnswerModel {
        AnswerModel {
            answer: self.answer@,
            evidence: views(self.evidence@),
            cited_spans: views(self.cited_spans@),
            contradictions: views(self.contradictions@),
            stale_assumptions: views(self.stale_assumptions@),
            suggested_next_queries: texts(self.suggested_next_queries@),
            token_estimate: self.token_estimate,
            tier_used: self.tier_used,
            routing: match self.routing {
                Some(report) => Some(report@),
                None => None,
            },
            reconstruction: match self.reconstruction {
                Some(report) => Some(report@),
                None => None,
            },
        }
    }
}

/// The tokens of some evidence added to a count.
pub open spec fn evidence_cost(start: u32, evidence: Seq<EvidenceModel>) -> u32
    decreases evidence.len(),
{
    if evidence.len() == 0 {
        start
    } else {
        plus_tokens(
            evidence_cost(start, evidence.drop_last()),
            evidence.last().token_estimate,
        )
    }
}

/// The answer that some evidence gives to a query.
pub open spec fn answer_of(
    query: QueryModel,
    plan: PlanModel,
    evidence: Seq<EvidenceModel>,
    tier: MemoryTier,
    routing: RoutingModel,
    reconstruction: Option<ReconstructionModel>,
) -> AnswerModel {
    let ids = evidence_ids(evidence);
    let contradictions = shown_contradictions(plan.edges, ids, plan.history);
    let text = answer_form(evidence, contradictions.len());
    AnswerModel {
        answer: text,
        evidence,
        cited_spans: evidence_spans(evidence),
        contradictions,
        stale_assumptions: shown_stale(
            query,
            plan.history,
            ids,
            crate::answer::older_ids(contradictions),
            plan.as_of_unix_ms,
        ),
        suggested_next_queries: suggestions(query.question, evidence),
        token_estimate: evidence_cost(token_cost(text), evidence),
        tier_used: tier,
        routing: Some(routing),
        reconstruction,
    }
}

fn cost_of_evidence(start: u32, evidence: &Vec<Evidence>) -> (r: u32)
    ensures
        r == evidence_cost(start, views(evidence@)),
{
    let ghost all = views(evidence@);
    let mut total: u32 = start;
    let mut i: usize = 0;
    proof {
        assert(all.take(0) =~= Seq::empty());
    }
    while i < evidence.len()
        invariant
            i <= evidence@.len(),
            all == views(evidence@),
            total == evidence_cost(start, all.take(i as int)),
        decreases evidence.len() - i,
    {
        proof {
            assert(all.take(i as int + 1).drop_last() =~= all.take(i as int));
            assert(all.take(i as int + 1).last() == evidence@[i as int]@);
        }
        total = add_tokens(total, evidence[i].token_estimate);
        i += 1;
    }
    proof {
        assert(all.take(i as int) =~= all);
    }
    total
}

fn ids_of(evidence: &Vec<Evidence>) -> (r: Vec<String>)
    ensures
        texts(r@) == evidence_ids(views(evidence@)),
{
    let ghost all = evidence_ids(views(evidence@));
    let mut out: Vec<String> = Vec::new();
    let mut i: usize = 0;
    while i < evidence.len()
        invariant
            i <= evidence@.len(),
            all == evidence_ids(views(evidence@)),
            texts(out@) == all.take(i as int),
        decreases evidence.len() - i,
    {
        let ghost before = texts(out@);
        out.push(evidence[i].node_id.clone());
        proof {
            assert(texts(out@) =~= before.push(evidence@[i as int].node_id@));
            assert(texts(out@) =~= all.take(i as int + 1));
        }
        i += 1;
    }
    proof {
        assert(all.take(i as int) =~= all);
    }
    out
}

/// Makes the answer that some evidence gives to a query.
fn compose_answer(
    query: &MemoryQuery,
    plan: &ReadPlan,
    evidence: Vec<Evidence>,
    tier: MemoryTier,
    routing: RoutingReport,
    reconstruction: Option<ReconstructionReport>,
) -> (r: MemoryAnswer)
    ensures
        r@ == answer_of(
            query@,
            plan@,
            views(evidence@),
            tier,
            routing@,
            match reconstruction {
                Some(report) => Some(report@),
                None => None,
            },
        ),
{
    let cited_spans = cited_by_evidence(&evidence);
    let ids = ids_of(&evidence);
    let contradictions = contradictions_for(&plan.edges, &ids, &plan.history);
    proof {
        assert(views(contradictions@).len() == contradictions@.len());
    }
    let stale_assumptions = stale_assumptions_for(
        query,
        &plan.history,
        &ids,
        &contradictions,
        plan.as_of_unix_ms,
    );
    let suggested_next_queries = suggested_queries(query.question.as_str(), &evidence);
    let answer = synthesize_answer(&evidence, &contradictions);
    let token_estimate: u32 = cost_of_evidence(estimate_tokens(answer.as_str()), &evidence);
    MemoryAnswer {
        answer,
        evidence,
        cited_spans,
        contradictions,
        stale_assumptions,
        suggested_next_queries,
        token_estimate,
        tier_used: tier,
        routing: Some(routing),
        reconstruction,
    }
}

// ---------------------------------------------------------------------------
// Stages
// ---------------------------------------------------------------------------
/// A query under way: its route, and what it sees of the graph under that route.
pub struct QueryStage {
    pub query: MemoryQuery,
    pub route: RoutingReport,
    pub plan: ReadPlan,
}

/// The time that a query reads at.
pub open spec fn read_time(query: QueryModel, now: i64) -> i64 {
    match query.scope.as_of_unix_ms {
        Some(at) => at,
        None => now,
    }
}

/// Begins a query: a request that is not valid is refused before anything is read.
pub fn begin_query(store: &MemoryStore, query: &MemoryQuery, now: i64) -> (r: MemoryResult<
    QueryStage,
>)
    ensures
        failure(r) == rejection(query@.problem()),
        r matches Ok(stage) ==> {
            let route = route_of(query@.question, query@.modes, query@.modes_explicit);
            &&& stage.query@ == query@
            &&& stage.route@ == route
            &&& stage.plan@ == store@.plan(query@, route.routed_modes, read_time(query@, now))
        },
{
    query.validate()?;
    let at: i64 = match query.scope.as_of_unix_ms {
        Some(at) => at,
        None => now,
    };
    let route = route_memory_query(
        query.question.as_str(),
        query.modes.as_slice(),
        query.modes_explicit,
    );
    let plan = plan_read(store, query, &route.routed_modes, at);
    Ok(QueryStage { query: query.clone(), route, plan })
}

/// Widens a query that found nothing to everything that is allowed, where its route was
/// narrower.
pub fn widen_query(store: &MemoryStore, stage: &QueryStage) -> (r: Option<QueryStage>)
    ensures
        match r {
            None => same_modes(stage.route@.routed_modes, stage.route@.allowed_modes),
            Some(wide) => {
                &&& !same_modes(stage.route@.routed_modes, stage.route@.allowed_modes)
                &&& wide.query@ == stage.query@
                &&& wide.route@ == widened(stage.route@)
                &&& wide.plan@ == store@.plan(
                    stage.query@,
                    stage.route@.allowed_modes,
                    stage.plan@.as_of_unix_ms,
                )
            },
        },
{
    if same_mode_set(stage.route.routed_modes.as_slice(), stage.route.allowed_modes.as_slice()) {
        return None;
    }
    let route = fallback_route_after_empty_evidence(&stage.route);
    let plan = plan_read(store, &stage.query, &route.routed_modes, stage.plan.as_of_unix_ms);
    Some(QueryStage { query: stage.query.clone(), route, plan })
}

/// Answers a query from activation alone.
pub fn answer_query(stage: &QueryStage, evidence: Vec<Evidence>) -> (r: MemoryAnswer)
    ensures
        r@ == answer_of(
            stage.query@,
            stage.plan@,
            views(evidence@),
            MemoryTier::Activation,
            stage.route@,
            None,
        ),
{
    let routing = copy_routing(&stage.route);
    compose_answer(&stage.query, &stage.plan, evidence, MemoryTier::Activation, routing, None)
}

fn copy_routing(route: &RoutingReport) -> (r: RoutingReport)
    ensures
        r@ == route@,
{
    RoutingReport {
        allowed_modes: copy_modes(&route.allowed_modes),
        routed_modes: copy_modes(&route.routed_modes),
        reconstruction_modes: match &route.reconstruction_modes {
            Some(modes) => Some(copy_modes(modes)),
            None => None,
        },
        reason: route.reason,
        confidence: route.confidence,
    }
}

// ---------------------------------------------------------------------------
// Reconstruction
// ---------------------------------------------------------------------------
/// The wording asks how things hang together.
pub open spec fn asks_connection(lowered: Seq<char>) -> bool {
    any_occurs(
        seq!["why"@, "because"@, "cause"@, "led to"@, "result of"@, "depends on"@],
        lowered,
    )
}

/// Whether a question asks how things hang together.
pub fn is_compositional(question: &str) -> (r: bool)
    ensures
        r == asks_connection(lower(question@)),
{
    let lowered = lower_text(question);
    let markers = ["why", "because", "cause", "led to", "result of", "depends on"];
    proof {
        assert(str_texts(markers@) =~= seq![
            "why"@,
            "because"@,
            "cause"@,
            "led to"@,
            "result of"@,
            "depends on"@,
        ]);
    }
    contains_any(lowered.as_str(), &markers)
}

/// Why a query escalates into reconstruction: because it is forced to, or, where it may, for
/// what its evidence or its wording lacks.
pub open spec fn escalation(
    query: QueryModel,
    found_nothing: bool,
    low_confidence: bool,
    ambiguous: bool,
) -> Option<ReconstructionReason> {
    match query.reconstruction.mode {
        ReconstructionMode::Off => None,
        ReconstructionMode::Force => Some(ReconstructionReason::Forced),
        ReconstructionMode::Auto => if found_nothing {
            Some(ReconstructionReason::EmptyEvidence)
        } else if asks_connection(lower(query.question)) {
            Some(ReconstructionReason::CompositionalQuery)
        } else if low_confidence {
            Some(ReconstructionReason::LowConfidence)
        } else if ambiguous {
            Some(ReconstructionReason::AmbiguousEvidence)
        } else {
            None
        },
    }
}

/// Why a query escalates into reconstruction, given its evidence and how its scores look.
pub fn reconstruction_reason(
    query: &MemoryQuery,
    evidence: &Vec<Evidence>,
    low_confidence: bool,
    ambiguous: bool,
) -> (r: Option<ReconstructionReason>)
    ensures
        r == escalation(query@, evidence@.len() == 0, low_confidence, ambiguous),
{
    match query.reconstruction.mode {
        ReconstructionMode::Off => None,
        ReconstructionMode::Force => Some(ReconstructionReason::Forced),
        ReconstructionMode::Auto => if evidence.len() == 0 {
            Some(ReconstructionReason::EmptyEvidence)
        } else if is_compositional(query.question.as_str()) {
            Some(ReconstructionReason::CompositionalQuery)
        } else if low_confidence {
            Some(ReconstructionReason::LowConfidence)
        } else if ambiguous {
            Some(ReconstructionReason::AmbiguousEvidence)
        } else {
            None
        },
    }
}

/// What a query sees of the graph under everything that is allowed.
pub fn plan_reconstruction(store: &MemoryStore, stage: &QueryStage) -> (r: ReadPlan)
    ensures
        r@ == store@.plan(stage.query@, stage.route@.allowed_modes, stage.plan@.as_of_unix_ms),
{
    plan_read(store, &stage.query, &stage.route.allowed_modes, stage.plan.as_of_unix_ms)
}

/// The score of a node in a walk: none counts as nothing.
pub open spec fn walk_score(scores: Seq<Option<u32>>, i: int) -> u32 {
    match score_at(scores, i) {
        Some(score) => score,
        None => 0,
    }
}

/// The active nodes that a walk may find: those that may answer and are not evidence yet.
pub open spec fn walk_pool(
    modes: Seq<MemoryMode>,
    active: Seq<NodeModel>,
    scores: Seq<Option<u32>>,
    ids: Seq<Seq<char>>,
) -> Seq<CandidateModel>
    decreases active.len(),
{
    if active.len() == 0 {
        Seq::empty()
    } else {
        let front = walk_pool(modes, active.drop_last(), scores, ids);
        let node = active.last();
        if answers(modes, node.kind) && !ids.contains(node.id) {
            front.push(
                CandidateModel {
                    node_id: node.id,
                    kind: node.kind,
                    text: node.text,
                    score: walk_score(scores, active.len() - 1),
                    token_estimate: node.token_estimate,
                },
            )
        } else {
            front
        }
    }
}

/// The edges of a walk.
pub open spec fn walk_links(edges: Seq<EdgeModel>) -> Seq<LinkModel> {
    Seq::new(
        edges.len(),
        |i: int| LinkModel { from: edges[i].from_node_id, to: edges[i].to_node_id },
    )
}

/// The active nodes that may answer and share a term with the question.
pub open spec fn relevant_ids(
    question: Seq<char>,
    modes: Seq<MemoryMode>,
    active: Seq<NodeModel>,
) -> Seq<Seq<char>>
    decreases active.len(),
{
    if active.len() == 0 {
        Seq::empty()
    } else {
        let front = relevant_ids(question, modes, active.drop_last());
        let node = active.last();
        if answers(modes, node.kind) && overlap_of(question, node.text).0 > 0 {
            front.push(node.id)
        } else {
            front
        }
    }
}

/// The walk of a query: from its evidence, or from what speaks of the question where it has
/// none.
pub open spec fn exploration_of(
    query: QueryModel,
    plan: PlanModel,
    scores: Seq<Option<u32>>,
    evidence: Seq<EvidenceModel>,
) -> ExplorationModel {
    ExplorationModel {
        question: query.question,
        pool: walk_pool(plan.modes, plan.active, scores, evidence_ids(evidence)),
        links: walk_links(plan.ranking_edges),
        start: if evidence.len() == 0 {
            relevant_ids(query.question, plan.modes, plan.active)
        } else {
            evidence_ids(evidence)
        },
        max_steps: query.reconstruction.max_steps,
        max_tokens: query.reconstruction.max_tokens,
    }
}

/// Accepted nodes as evidence.
pub open spec fn accepted_evidence(
    store: StoreModel,
    plan: PlanModel,
    scores: Seq<Option<u32>>,
    accepted: Seq<Seq<char>>,
) -> Seq<EvidenceModel>
    decreases accepted.len(),
{
    if accepted.len() == 0 {
        Seq::empty()
    } else {
        let front = accepted_evidence(store, plan, scores, accepted.drop_last());
        match first_index(plan.active, with_id(accepted.last())) {
            Some(i) => front.push(
                evidence_of(store, plan.active[i], walk_score(scores, i), plan.as_of_unix_ms),
            ),
            None => front,
        }
    }
}

/// The route with the modes of the reconstruction, where they are more than its own.
pub open spec fn reconstruction_route(route: RoutingModel) -> RoutingModel {
    RoutingModel {
        reconstruction_modes: if same_modes(route.routed_modes, route.allowed_modes) {
            None
        } else {
            Some(route.allowed_modes)
        },
        ..route
    }
}

/// The answer of a query after its walk.
pub open spec fn reconstructed_answer(
    store: StoreModel,
    query: QueryModel,
    route: RoutingModel,
    plan: PlanModel,
    scores: Seq<Option<u32>>,
    evidence: Seq<EvidenceModel>,
    reason: ReconstructionReason,
    found: Walk,
) -> AnswerModel {
    answer_of(
        query,
        plan,
        budgeted(
            evidence + accepted_evidence(store, plan, scores, texts(found.accepted@)),
            query.max_tokens,
        ),
        MemoryTier::ActiveReconstruction,
        reconstruction_route(route),
        Some(
            ReconstructionModel {
                mode: query.reconstruction.mode,
                reason,
                steps_used: found.steps,
                tokens_spent: found.spent,
                expanded_node_ids: texts(found.expanded@),
                accepted_node_ids: texts(found.accepted@),
                pruned_node_ids: texts(found.pruned@),
                metrics: found.metrics,
            },
        ),
    )
}

fn pool_for_walk(plan: &ReadPlan, scores: &Vec<Option<u32>>, ids: &Vec<String>) -> (r: Vec<
    ReconstructionCandidate,
>)
    ensures
        views(r@) == walk_pool(plan@.modes, plan@.active, scores@, texts(ids@)),
{
    let ghost all = views(plan.active@);
    let mut out: Vec<ReconstructionCandidate> = Vec::new();
    let mut i: usize = 0;
    proof {
        assert(all.take(0) =~= Seq::empty());
        assert(views(out@) =~= Seq::empty());
    }
    while i < plan.active.len()
        invariant
            i <= plan.active@.len(),
            all == views(plan.active@),
            views(out@) == walk_pool(plan.modes@, all.take(i as int), scores@, texts(ids@)),
        decreases plan.active.len() - i,
    {
        proof {
            assert(all.take(i as int + 1).drop_last() =~= all.take(i as int));
            assert(all.take(i as int + 1).last() == plan.active@[i as int]@);
        }
        let node = &plan.active[i];
        if node.kind != MemoryNodeKind::EntityCue && modes_accept_kind(&plan.modes, node.kind)
            && !list_contains(ids, node.id.as_str()) {
            let ghost before = out@;
            let candidate = ReconstructionCandidate {
                node_id: node.id.clone(),
                kind: node.kind,
                text: node.text.clone(),
                score: score_or_nothing(scores, i),
                token_estimate: node.token_estimate,
            };
            out.push(candidate);
            proof {
                lemma_views_push(before, candidate);
            }
        }
        i += 1;
    }
    proof {
        assert(all.take(i as int) =~= all);
    }
    out
}

fn score_or_nothing(scores: &Vec<Option<u32>>, i: usize) -> (r: u32)
    ensures
        r == walk_score(scores@, i as int),
{
    if i < scores.len() {
        match scores[i] {
            Some(score) => score,
            None => 0,
        }
    } else {
        0
    }
}

fn links_for_walk(edges: &Vec<MemoryEdge>) -> (r: Vec<NodeLink>)
    ensures
        views(r@) == walk_links(views(edges@)),
{
    let ghost all = walk_links(views(edges@));
    let mut out: Vec<NodeLink> = Vec::new();
    let mut i: usize = 0;
    while i < edges.len()
        invariant
            i <= edges@.len(),
            all == walk_links(views(edges@)),
            views(out@) == all.take(i as int),
        decreases edges.len() - i,
    {
        let ghost before = out@;
        let link = NodeLink {
            from: edges[i].from_node_id.clone(),
            to: edges[i].to_node_id.clone(),
        };
        out.push(link);
        proof {
            lemma_views_push(before, link);
            assert(views(out@) =~= all.take(i as int + 1));
        }
        i += 1;
    }
    proof {
        assert(all.take(i as int) =~= all);
    }
    out
}

fn relevant_nodes(question: &str, plan: &ReadPlan) -> (r: Vec<String>)
    ensures
        texts(r@) == relevant_ids(question@, plan@.modes, plan@.active),
{
    let ghost all = views(plan.active@);
    let mut out: Vec<String> = Vec::new();
    let mut i: usize = 0;
    proof {
        assert(all.take(0) =~= Seq::empty());
        assert(texts(out@) =~= Seq::empty());
    }
    while i < plan.active.len()
        invariant
            i <= plan.active@.len(),
            all == views(plan.active@),
            texts(out@) == relevant_ids(question@, plan.modes@, all.take(i as int)),
        decreases plan.active.len() - i,
    {
        proof {
            assert(all.take(i as int + 1).drop_last() =~= all.take(i as int));
            assert(all.take(i as int + 1).last() == plan.active@[i as int]@);
        }
        let node = &plan.active[i];
        if node.kind != MemoryNodeKind::EntityCue && modes_accept_kind(&plan.modes, node.kind)
            && overlap_score(question, node.text.as_str()).shared > 0 {
            let ghost before = texts(out@);
            out.push(node.id.clone());
            proof {
                assert(texts(out@) =~= before.push(plan.active@[i as int].id@));
            }
        }
        i += 1;
    }
    proof {
        assert(all.take(i as int) =~= all);
    }
    out
}

fn evidence_from_walk(
    store: &MemoryStore,
    plan: &ReadPlan,
    scores: &Vec<Option<u32>>,
    accepted: &Vec<String>,
) -> (r: Vec<Evidence>)
    ensures
        views(r@) == accepted_evidence(store@, plan@, scores@, texts(accepted@)),
{
    let ghost all = texts(accepted@);
    let mut out: Vec<Evidence> = Vec::new();
    let mut i: usize = 0;
    proof {
        assert(all.take(0) =~= Seq::empty());
        assert(views(out@) =~= Seq::empty());
    }
    while i < accepted.len()
        invariant
            i <= accepted@.len(),
            all == texts(accepted@),
            views(out@) == accepted_evidence(store@, plan@, scores@, all.take(i as int)),
        decreases accepted.len() - i,
    {
        proof {
            assert(all.take(i as int + 1).drop_last() =~= all.take(i as int));
            assert(all.take(i as int + 1).last() == accepted@[i as int]@);
        }
        if let Some(k) = find_row(&plan.active, &WithId { id: accepted[i].as_str() }) {
            let ghost before = out@;
            let node = &plan.active[k];
            let item = Evidence {
                node_id: node.id.clone(),
                kind: node.kind,
                text: node.text.clone(),
                score: score_or_nothing(scores, k),
                token_estimate: node.token_estimate,
                cited_spans: store.cited_spans_for_node_as_of(
                    node.id.as_str(),
                    Some(plan.as_of_unix_ms),
                ),
            };
            out.push(item);
            proof {
                lemma_views_push(before, item);
            }
        }
        i += 1;
    }
    proof {
        assert(all.take(i as int) =~= all);
    }
    out
}

/// The walk that a query takes from its evidence.
pub fn exploration_for(
    query: &MemoryQuery,
    plan: &ReadPlan,
    scores: &Vec<Option<u32>>,
    evidence: &Vec<Evidence>,
) -> (r: Exploration)
    ensures
        r@ == exploration_of(query@, plan@, scores@, views(evidence@)),
{
    let ids = ids_of(evidence);
    let pool = pool_for_walk(plan, scores, &ids);
    let start = if evidence.len() == 0 {
        relevant_nodes(query.question.as_str(), plan)
    } else {
        ids
    };
    Exploration {
        question: query.question.clone(),
        pool,
        links: links_for_walk(&plan.ranking_edges),
        start,
        max_steps: query.reconstruction.max_steps,
        max_tokens: query.reconstruction.max_tokens,
    }
}

/// Answers a query from its evidence and what a walk found.
pub fn answer_from_walk(
    store: &MemoryStore,
    stage: &QueryStage,
    plan: &ReadPlan,
    scores: &Vec<Option<u32>>,
    evidence: &Vec<Evidence>,
    reason: ReconstructionReason,
    found: Walk,
) -> (r: MemoryAnswer)
    ensures
        r@ == reconstructed_answer(
            store@,
            stage.query@,
            stage.route@,
            plan@,
            scores@,
            views(evidence@),
            reason,
            found,
        ),
        evidence_tokens(r@.evidence) <= stage.query@.max_tokens,
{
    let mut all = copy_rows(evidence);
    let mut more = evidence_from_walk(store, plan, scores, &found.accepted);
    let ghost first = views(all@);
    let ghost second = views(more@);
    all.append(&mut more);
    proof {
        assert(views(all@) =~= first + second);
    }
    let kept = budget_evidence(all, stage.query.max_tokens);
    let mut routing = copy_routing(&stage.route);
    routing.reconstruction_modes = if same_mode_set(
        stage.route.routed_modes.as_slice(),
        stage.route.allowed_modes.as_slice(),
    ) {
        None
    } else {
        Some(copy_modes(&stage.route.allowed_modes))
    };
    let report = ReconstructionReport {
        mode: stage.query.reconstruction.mode,
        reason,
        steps_used: found.steps,
        tokens_spent: found.spent,
        expanded_node_ids: found.expanded,
        accepted_node_ids: found.accepted,
        pruned_node_ids: found.pruned,
        metrics: found.metrics,
    };
    compose_answer(
        &stage.query,
        plan,
        kept,
        MemoryTier::ActiveReconstruction,
        routing,
        Some(report),
    )
}

/// The answer is what a walk under a policy comes to, or the walk's error.
pub open spec fn reconstruction_happened<R: ActiveReconstructor>(
    policy: R,
    store: StoreModel,
    query: QueryModel,
    route: RoutingModel,
    plan: PlanModel,
    scores: Seq<Option<u32>>,
    evidence: Seq<EvidenceModel>,
    reason: ReconstructionReason,
    r: MemoryResult<MemoryAnswer>,
    walked: MemoryResult<Walk>,
) -> bool {
    &&& some_walk(policy, exploration_of(query, plan, scores, evidence), walked)
    &&& match (r, walked) {
        (Ok(answer), Ok(found)) => answer@ == reconstructed_answer(
            store,
            query,
            route,
            plan,
            scores,
            evidence,
            reason,
            found,
        ),
        (Err(error), Err(words)) => error@ == words@,
        _ => false,
    }
}

pub open spec fn some_reconstruction<R: ActiveReconstructor>(
    policy: R,
    store: StoreModel,
    query: QueryModel,
    route: RoutingModel,
    plan: PlanModel,
    scores: Seq<Option<u32>>,
    evidence: Seq<EvidenceModel>,
    reason: ReconstructionReason,
    r: MemoryResult<MemoryAnswer>,
) -> bool {
    exists|walked: MemoryResult<Walk>|
        #[trigger] reconstruction_happened(
            policy,
            store,
            query,
            route,
            plan,
            scores,
            evidence,
            reason,
            r,
            walked,
        )
}

/// Reconstructs the answer to a query under a policy.
pub fn reconstruct_answer<R: ActiveReconstructor>(
    store: &MemoryStore,
    stage: &QueryStage,
    plan: &ReadPlan,
    scores: &Vec<Option<u32>>,
    evidence: &Vec<Evidence>,
    reason: ReconstructionReason,
    policy: &R,
) -> (r: MemoryResult<MemoryAnswer>)
    ensures
        some_reconstruction(
            *policy,
            store@,
            stage.query@,
            stage.route@,
            plan@,
            scores@,
            views(evidence@),
            reason,
            r,
        ),
{
    let input = exploration_for(&stage.query, plan, scores, evidence);
    let walked = explore(&input, policy);
    let ghost heard = walked;
    match walked {
        Ok(found) => {
            let answer = answer_from_walk(store, stage, plan, scores, evidence, reason, found);
            let result: MemoryResult<MemoryAnswer> = Ok(answer);
            proof {
                assert(reconstruction_happened(
                    *policy,
                    store@,
                    stage.query@,
                    stage.route@,
                    plan@,
                    scores@,
                    views(evidence@),
                    reason,
                    result,
                    heard,
                ));
            }
            result
        },
        Err(error) => {
            let result: MemoryResult<MemoryAnswer> = Err(error);
            proof {
                assert(reconstruction_happened(
                    *policy,
                    store@,
                    stage.query@,
                    stage.route@,
                    plan@,
                    scores@,
                    views(evidence@),
                    reason,
                    result,
                    heard,
                ));
            }
            result
        },
    }
}

} // verus!
