//! The engine end to end: projection, revision, late arrivals and queries.
use std::collections::HashMap;

use beater_memory::answer::stale_assumptions_for;
use beater_memory::distill::{
    repair_unsupported, DistillOutcome, DistillationPrompt, DistillationProvider,
    DistillationRepairPrompt, Distiller, HeuristicDistiller, ProviderDistiller, ProviderReply,
};
use beater_memory::engine::MemoryEngine;
use beater_memory::error::{MemoryError, MemoryResult};
use beater_memory::eval::{
    begin_eval_suite, build_query, default_times_fit, finish_eval_suite, report_case,
    validate_contract_version, EvalAbility, EvalCase, EvalEvent, EvalOptions, EvalReport,
    EvalScore, EvalSuite,
};
use beater_memory::graph::{edge_kind_weight, ReadPlan};
use beater_memory::inquiry::{is_close, is_weak, InquiryStep};
use beater_memory::json::JsonValue;
use beater_memory::ledger::LedgerEvent;
use beater_memory::model::{
    BeliefRevisionOp, DistilledMemory, Evidence, MemoryAnswer, MemoryEdgeKind, MemoryMode,
    MemoryNodeKind, MemoryQuery, MemoryScope, MemoryTier, ReconstructionMode,
    ReconstructionOptions, ReconstructionReason, RoutingReason,
};
use beater_memory::reconstruct::{
    ActiveReconstructor, ReconstructionDecision, ReconstructionDecisionOutcome, ReconstructionStep,
};
use beater_memory::rows::{AuditRecord, MemoryEdge, MemoryNode, StoreScope};
use beater_memory::server::{remember, RememberHttpRequest};
use beater_memory::store::MemoryStore;
use beater_memory::text::{overlap_score, terms};

fn now() -> i64 {
    let elapsed = std::time::SystemTime::now()
        .duration_since(std::time::SystemTime::UNIX_EPOCH)
        .unwrap_or_default();
    elapsed.as_millis() as i64
}

#[derive(Clone, Copy)]
struct Weights {
    ppr: f32,
    base_level: f32,
    edge_type: f32,
    freshness: f32,
}

const USUAL: Weights = Weights {
    ppr: 0.45,
    base_level: 0.30,
    edge_type: 0.15,
    freshness: 0.10,
};

const SILENT: Weights = Weights {
    ppr: 0.0,
    base_level: 0.0,
    edge_type: 0.0,
    freshness: 0.0,
};

fn lexical(question: &str, text: &str) -> f32 {
    let overlap = overlap_score(question, text);
    if overlap.total == 0 {
        0.0
    } else {
        (overlap.shared as f32 / overlap.total as f32).clamp(0.0, 1.0)
    }
}

fn edge_weight(edge: &MemoryEdge) -> f32 {
    (edge_kind_weight(edge.kind) as f32 / 100.0) * (edge.weight as f32 / 100.0)
}

fn normalize(scores: &mut HashMap<String, f32>) {
    let total = scores.values().sum::<f32>();
    if total > f32::EPSILON {
        for value in scores.values_mut() {
            *value = (*value / total).clamp(0.0, 1.0);
        }
    }
}

fn ranks(question: &str, plan: &ReadPlan) -> HashMap<String, f32> {
    let mut adjacency: HashMap<String, Vec<(String, f32)>> = HashMap::new();
    for edge in &plan.ranking_edges {
        let typed = edge_weight(edge);
        adjacency
            .entry(edge.from_node_id.clone())
            .or_default()
            .push((edge.to_node_id.clone(), typed));
        adjacency
            .entry(edge.to_node_id.clone())
            .or_default()
            .push((edge.from_node_id.clone(), typed * 0.65));
    }
    let mut seed: HashMap<String, f32> = HashMap::new();
    for node in &plan.active {
        let score = lexical(question, &node.text);
        if score > 0.0 {
            seed.insert(node.id.clone(), score.max(0.05));
        }
    }
    if seed.is_empty() {
        for node in plan.active.iter().take(32) {
            seed.insert(node.id.clone(), 1.0 / plan.active.len() as f32);
        }
    }
    normalize(&mut seed);
    let mut rank = seed.clone();
    for _ in 0..12 {
        let mut next: HashMap<String, f32> = seed
            .iter()
            .map(|(id, value)| (id.clone(), value * 0.18))
            .collect();
        for (from, neighbors) in &adjacency {
            let Some(from_rank) = rank.get(from) else {
                continue;
            };
            let total = neighbors
                .iter()
                .map(|(_, weight)| *weight)
                .sum::<f32>()
                .max(0.0001);
            for (to, weight) in neighbors {
                *next.entry(to.clone()).or_insert(0.0) += from_rank * 0.82 * (*weight / total);
            }
        }
        normalize(&mut next);
        rank = next;
    }
    rank
}

fn strengths(edges: &[MemoryEdge]) -> HashMap<String, f32> {
    let mut out: HashMap<String, f32> = HashMap::new();
    for edge in edges {
        let weight = edge_weight(edge);
        let from = out.entry(edge.from_node_id.clone()).or_insert(weight);
        *from = from.max(weight);
        let to = out.entry(edge.to_node_id.clone()).or_insert(weight * 0.8);
        *to = to.max(weight * 0.8);
    }
    out
}

fn age_days(node: &MemoryNode, at: i64) -> f32 {
    ((at - node.updated_at_unix_ms).max(0) as f32) / 86_400_000.0
}

fn scores(question: &str, plan: &ReadPlan, weights: Weights) -> Vec<Option<u32>> {
    let at = plan.as_of_unix_ms;
    let rank = ranks(question, plan);
    let strength = strengths(&plan.edges);
    let has_terms = !terms(question).is_empty();
    plan.active
        .iter()
        .map(|node| {
            let ppr = rank.get(&node.id).copied().unwrap_or(0.0);
            let words = lexical(question, &node.text);
            if ppr <= 0.001 && words <= 0.001 && has_terms {
                return None;
            }
            let count = (node.observation_count as f32 + 1.0).ln() / 4.0;
            let age = age_days(node, at);
            let base = (count / (1.0 + age).powf(0.28)).clamp(0.0, 1.0);
            let fresh = (1.0 / (1.0 + age / 45.0)).clamp(0.0, 1.0);
            let typed = strength.get(&node.id).copied().unwrap_or(0.0);
            let score = (ppr.max(words * 0.65) * weights.ppr
                + base * weights.base_level
                + typed * weights.edge_type
                + fresh * weights.freshness)
                .clamp(0.0, 1.0);
            if score <= 0.02 {
                None
            } else {
                Some((f64::from(score) * 1e9).round() as u32)
            }
        })
        .collect()
}

fn ask<D: Distiller, R: ActiveReconstructor>(
    engine: &MemoryEngine<D, R>,
    query: &MemoryQuery,
) -> MemoryResult<MemoryAnswer> {
    ask_with(engine, query, USUAL)
}

fn ask_with<D: Distiller, R: ActiveReconstructor>(
    engine: &MemoryEngine<D, R>,
    query: &MemoryQuery,
    weights: Weights,
) -> MemoryResult<MemoryAnswer> {
    let mut inquiry = engine.start_query(query)?;
    loop {
        let found = scores(&query.question, inquiry.plan(), weights);
        match engine.advance_query(inquiry, &found)? {
            InquiryStep::Score(next) => inquiry = next,
            InquiryStep::Answered(answer) => return Ok(answer),
        }
    }
}

#[derive(Clone)]
struct BadReconstructor;

impl ActiveReconstructor for BadReconstructor {
    fn decide(&self, _step: &ReconstructionStep) -> MemoryResult<ReconstructionDecisionOutcome> {
        Ok(ReconstructionDecision::Accept {
            node_id: "missing-node".to_string(),
        }
        .into_outcome())
    }
}

#[derive(Clone)]
struct BadPruneReconstructor;

impl ActiveReconstructor for BadPruneReconstructor {
    fn decide(&self, _step: &ReconstructionStep) -> MemoryResult<ReconstructionDecisionOutcome> {
        Ok(ReconstructionDecision::Prune {
            node_id: "missing-node".to_string(),
        }
        .into_outcome())
    }
}

#[test]
fn engine_projects_and_answers_e2e() -> MemoryResult<()> {
    let mut engine = MemoryEngine::in_memory();
    let event = LedgerEvent::direct_memory_write(
        "tenant",
        "project",
        MemoryNodeKind::Gotcha,
        "Checkout route fails with 500 when DATABASE_URL is missing. Fix by setting DATABASE_URL.",
    );
    engine.ingest_event(&event)?;

    let report = engine.project_pending(100)?;
    assert_eq!(report.events_seen, 1);
    assert_eq!(report.events_projected, 1);
    assert_eq!(report.events_skipped, 0);
    assert!(report.memories_added >= 2);
    assert!(report.source_token_estimate > 0);
    assert!(report.projected_memory_token_estimate > 0);
    assert!(report.stored_memories_touched >= report.memories_added);

    let answer = ask(&engine, &MemoryQuery::new(
        "How do we fix checkout database failures?",
        MemoryScope::new("tenant", "project"),
    ))?;

    assert_eq!(answer.tier_used, MemoryTier::Activation);
    assert!(answer.answer.contains("DATABASE_URL"));
    assert!(!answer.evidence.is_empty());
    assert!(!answer.cited_spans.is_empty());
    Ok(())
}

#[test]
fn default_query_routes_to_procedural_substore() -> MemoryResult<()> {
    let mut engine = MemoryEngine::in_memory();
    for index in 0..20 {
        engine.ingest_event(&event_at(
            MemoryNodeKind::Fact,
            &format!("Deploy workflow noisy fact {index}."),
            1_000 + index,
        ))?;
    }
    engine.ingest_event(&event_at(
        MemoryNodeKind::Procedure,
        "Deploy workflow steps: run migrations then restart workers.",
        2_000,
    ))?;
    engine.project_pending(100)?;

    let answer = ask(&engine, &MemoryQuery::new(
        "deploy workflow steps",
        MemoryScope::new("tenant", "project"),
    ))?;

    let routing = answer.routing.as_ref().expect("routing report");
    assert_eq!(routing.reason, RoutingReason::ProceduralIntent);
    assert_eq!(routing.routed_modes, vec![MemoryMode::Procedural]);
    assert!(
        answer
            .evidence
            .iter()
            .any(|item| item.kind == MemoryNodeKind::Procedure)
    );
    assert!(
        !answer
            .evidence
            .iter()
            .any(|item| item.kind == MemoryNodeKind::Fact)
    );
    Ok(())
}

#[test]
fn explicit_query_modes_constrain_routing() -> MemoryResult<()> {
    let mut engine = MemoryEngine::in_memory();
    engine.ingest_event(&event_at(
        MemoryNodeKind::Fact,
        "Deploy workflow fact uses the release checklist.",
        1_000,
    ))?;
    engine.ingest_event(&event_at(
        MemoryNodeKind::Procedure,
        "Deploy workflow steps: run migrations then restart workers.",
        2_000,
    ))?;
    engine.project_pending(100)?;

    let answer = ask(&engine, 
        &MemoryQuery::new(
            "deploy workflow steps",
            MemoryScope::new("tenant", "project"),
        )
        .with_modes(vec![MemoryMode::Semantic]),
    )?;

    let routing = answer.routing.as_ref().expect("routing report");
    assert_eq!(routing.routed_modes, vec![MemoryMode::Semantic]);
    assert!(
        answer
            .evidence
            .iter()
            .any(|item| item.kind == MemoryNodeKind::Fact)
    );
    assert!(
        !answer
            .evidence
            .iter()
            .any(|item| item.kind == MemoryNodeKind::Procedure)
    );
    Ok(())
}

#[test]
fn explicit_all_query_modes_are_not_narrowed() -> MemoryResult<()> {
    let mut engine = MemoryEngine::in_memory();
    engine.ingest_event(&event_at(
        MemoryNodeKind::Fact,
        "Deploy workflow fact uses the release checklist.",
        1_000,
    ))?;
    engine.ingest_event(&event_at(
        MemoryNodeKind::Procedure,
        "Deploy workflow steps: run migrations then restart workers.",
        2_000,
    ))?;
    engine.project_pending(100)?;

    let modes = MemoryNodeKind::default_modes();
    let answer = ask(&engine, 
        &MemoryQuery::new(
            "deploy workflow steps",
            MemoryScope::new("tenant", "project"),
        )
        .with_modes(modes.clone()),
    )?;

    let routing = answer.routing.as_ref().expect("routing report");
    assert_eq!(routing.routed_modes, modes);
    assert_eq!(routing.reason, RoutingReason::AmbiguousFallback);
    assert!(
        answer
            .evidence
            .iter()
            .any(|item| item.kind == MemoryNodeKind::Fact)
    );
    assert!(
        answer
            .evidence
            .iter()
            .any(|item| item.kind == MemoryNodeKind::Procedure)
    );
    Ok(())
}

#[test]
fn forced_reconstruction_can_expand_allowed_modes_outside_route() -> MemoryResult<()> {
    let mut engine = MemoryEngine::in_memory();
    engine.ingest_event(&event_at(
        MemoryNodeKind::Procedure,
        "Deploy workflow steps: restart checkout workers.",
        1_000,
    ))?;
    engine.project_pending(100)?;
    engine.ingest_event(&event_at(
        MemoryNodeKind::Fact,
        "Checkout workers require credential beta.",
        1_001,
    ))?;
    engine.project_pending(100)?;

    let nodes = engine.store().all_nodes("tenant", "project", None);
    let procedure = nodes
        .iter()
        .find(|node| node.kind == MemoryNodeKind::Procedure)
        .expect("procedure exists");
    let fact = nodes
        .iter()
        .find(|node| {
            node.kind == MemoryNodeKind::Fact
                && node.text == "Checkout workers require credential beta."
        })
        .expect("fact exists");
    engine.store.insert_edge(
        StoreScope::new("tenant", "project", None),
        &procedure.id,
        &fact.id,
        MemoryEdgeKind::Fixes,
        100,
        1_001,
    )?;

    let answer = ask(&engine, 
        &MemoryQuery::new(
            "deploy workflow steps",
            MemoryScope::new("tenant", "project"),
        )
        .with_reconstruction(ReconstructionOptions::force()),
    )?;

    let routing = answer.routing.as_ref().expect("routing report");
    let reconstruction = answer
        .reconstruction
        .as_ref()
        .expect("reconstruction report");
    assert_eq!(routing.routed_modes, vec![MemoryMode::Procedural]);
    assert_eq!(
        routing.reconstruction_modes,
        Some(MemoryNodeKind::default_modes())
    );
    assert!(reconstruction.accepted_node_ids.contains(&fact.id));
    assert!(answer.evidence.iter().any(|item| item.node_id == fact.id));
    Ok(())
}

#[test]
fn forced_reconstruction_expands_linked_evidence() -> MemoryResult<()> {
    let mut engine = MemoryEngine::in_memory();
    let (_source, target) = linked_reconstruction_fixture(&mut engine, 1_000, 1_001, 1_001)?;

    let answer = ask_with(
        &engine,
        &MemoryQuery::new("incident alpha", MemoryScope::new("tenant", "project"))
            .with_modes(vec![MemoryMode::Semantic])
            .with_reconstruction(ReconstructionOptions::force()),
        SILENT,
    )?;

    let reconstruction = answer
        .reconstruction
        .as_ref()
        .expect("forced query should run reconstruction");
    assert_eq!(answer.tier_used, MemoryTier::ActiveReconstruction);
    assert_eq!(reconstruction.reason, ReconstructionReason::Forced);
    assert!(reconstruction.accepted_node_ids.contains(&target.id));
    assert!(answer.evidence.iter().any(|item| item.node_id == target.id));
    Ok(())
}

#[test]
fn auto_reconstruction_escalates_compositional_queries() -> MemoryResult<()> {
    let mut engine = MemoryEngine::in_memory();
    linked_reconstruction_fixture(&mut engine, 1_000, 1_001, 1_001)?;

    let answer = ask(&engine, 
        &MemoryQuery::new(
            "why was incident alpha fixed",
            MemoryScope::new("tenant", "project"),
        )
        .with_modes(vec![MemoryMode::Semantic])
        .with_reconstruction(ReconstructionOptions {
            mode: ReconstructionMode::Auto,
            ..ReconstructionOptions::default()
        }),
    )?;

    assert_eq!(answer.tier_used, MemoryTier::ActiveReconstruction);
    assert_eq!(
        answer.reconstruction.as_ref().map(|report| report.reason),
        Some(ReconstructionReason::CompositionalQuery)
    );
    Ok(())
}

#[test]
fn reconstruction_respects_as_of_visibility() -> MemoryResult<()> {
    let mut engine = MemoryEngine::in_memory();
    let (_source, future_target) = linked_reconstruction_fixture(&mut engine, 1_000, 3_000, 3_000)?;

    let answer = ask(&engine, 
        &MemoryQuery::new(
            "incident alpha",
            MemoryScope::new("tenant", "project").as_of_unix_ms(1_500),
        )
        .with_modes(vec![MemoryMode::Semantic])
        .with_reconstruction(ReconstructionOptions::force()),
    )?;

    assert_eq!(answer.tier_used, MemoryTier::ActiveReconstruction);
    assert!(
        !answer
            .evidence
            .iter()
            .any(|item| item.node_id == future_target.id)
    );
    assert!(
        !answer
            .reconstruction
            .as_ref()
            .expect("forced query should run reconstruction")
            .accepted_node_ids
            .contains(&future_target.id)
    );
    Ok(())
}

#[test]
fn invalid_reconstructor_decisions_are_ignored() -> MemoryResult<()> {
    let mut engine = MemoryEngine::new_with_reconstructor(
        MemoryStore::new(),
        HeuristicDistiller::default(),
        BadReconstructor,
    );
    let (_source, target) = linked_reconstruction_fixture(&mut engine, 1_000, 1_001, 1_001)?;

    let answer = ask_with(
        &engine,
        &MemoryQuery::new("incident alpha", MemoryScope::new("tenant", "project"))
            .with_modes(vec![MemoryMode::Semantic])
            .with_reconstruction(ReconstructionOptions::force()),
        SILENT,
    )?;

    let reconstruction = answer
        .reconstruction
        .as_ref()
        .expect("forced query should run reconstruction");
    assert_eq!(answer.tier_used, MemoryTier::ActiveReconstruction);
    assert!(!answer.evidence.iter().any(|item| item.node_id == target.id));
    assert!(!reconstruction.accepted_node_ids.contains(&target.id));
    assert!(
        !reconstruction
            .pruned_node_ids
            .iter()
            .any(|node_id| node_id == "missing-node")
    );
    Ok(())
}

#[test]
fn invalid_prune_decisions_are_ignored() -> MemoryResult<()> {
    let mut engine = MemoryEngine::new_with_reconstructor(
        MemoryStore::new(),
        HeuristicDistiller::default(),
        BadPruneReconstructor,
    );
    linked_reconstruction_fixture(&mut engine, 1_000, 1_001, 1_001)?;

    let answer = ask_with(
        &engine,
        &MemoryQuery::new("incident alpha", MemoryScope::new("tenant", "project"))
            .with_modes(vec![MemoryMode::Semantic])
            .with_reconstruction(ReconstructionOptions::force()),
        SILENT,
    )?;

    let reconstruction = answer
        .reconstruction
        .as_ref()
        .expect("forced query should run reconstruction");
    assert!(
        !reconstruction
            .pruned_node_ids
            .iter()
            .any(|node_id| node_id == "missing-node")
    );
    Ok(())
}

#[test]
fn query_rejects_invalid_request_before_retrieval() -> MemoryResult<()> {
    let mut engine = MemoryEngine::in_memory();
    let query = MemoryQuery::new("what changed?", MemoryScope::new("tenant", "project"))
        .with_max_tokens(0);

    let err = ask(&engine, &query).unwrap_err();

    assert!(err.message().contains("max_tokens"));
    Ok(())
}

#[test]
fn projection_is_idempotent_after_event_is_marked() -> MemoryResult<()> {
    let mut engine = MemoryEngine::in_memory();
    engine.ingest_event(&LedgerEvent::direct_memory_write(
        "tenant",
        "project",
        MemoryNodeKind::Fact,
        "The API health route is /api/health.",
    ))?;

    let first = engine.project_pending(100)?;
    let second = engine.project_pending(100)?;

    assert_eq!(first.events_projected, 1);
    assert_eq!(second.events_seen, 0);
    assert_eq!(engine.store().stats(now()).pending_events, 0);
    Ok(())
}

#[test]
fn a_pass_counts_its_events() -> MemoryResult<()> {
    let mut engine = MemoryEngine::in_memory();
    for (at, text) in [
        (1_000, "Checkout uses DATABASE_URL."),
        (2_000, "Search uses SEARCH_URL."),
        (3_000, "Billing uses BILLING_URL."),
    ] {
        engine.ingest_event(&event_at(MemoryNodeKind::Fact, text, at))?;
    }
    let first = engine.project_pending(2)?;
    assert_eq!(first.events_seen, 2);
    assert_eq!(first.events_projected + first.events_skipped, 2);
    assert!(
        first.stored_memories_touched
            >= first.memories_added + first.memories_updated + first.memories_invalidated
    );
    assert_eq!(engine.store().stats(now()).pending_events, 1);
    let second = engine.project_pending(2)?;
    assert_eq!(second.events_projected, 1);
    assert_eq!(engine.project_pending(2)?.events_seen, 0);
    assert_eq!(engine.store().ledger.len(), 3);
    Ok(())
}

#[test]
fn answers_about_the_past_stand_over_later_passes() -> MemoryResult<()> {
    let mut engine = MemoryEngine::in_memory();
    engine.ingest_event(&event_at(
        MemoryNodeKind::Fact,
        "Use the legacy checkout token for deploys.",
        1_000,
    ))?;
    engine.project_pending(100)?;
    let asked = MemoryQuery::new(
        "legacy checkout token",
        MemoryScope::new("tenant", "project").as_of_unix_ms(1_500),
    )
    .with_modes(vec![MemoryMode::Semantic]);
    let before = ask(&engine, &asked)?;
    assert!(!before.evidence.is_empty());
    engine.ingest_event(&event_at(
        MemoryNodeKind::Fact,
        "Use the legacy checkout token for deploys.",
        2_000,
    ))?;
    engine.ingest_event(&event_at(
        MemoryNodeKind::Fact,
        "Do not use the legacy checkout token; it is deprecated.",
        3_000,
    ))?;
    engine.project_pending(100)?;
    assert_eq!(ask(&engine, &asked)?, before);
    Ok(())
}

#[test]
fn faint_overlaps_are_no_stale_premises() {
    let node = MemoryNode {
        id: "stale".to_string(),
        tenant_id: "tenant".to_string(),
        project_id: "project".to_string(),
        environment_id: None,
        kind: MemoryNodeKind::Fact,
        text: "checkout token".to_string(),
        canonical_key: "fact|checkout token".to_string(),
        created_at_unix_ms: 1,
        updated_at_unix_ms: 1,
        valid_from_unix_ms: 1,
        valid_to_unix_ms: Some(2),
        valid_to_event_id: None,
        confidence: 65,
        token_estimate: 4,
        observation_count: 1,
    };
    let shown = |fillers: usize| {
        let mut question = "checkout".to_string();
        for filler in 0..fillers {
            question.push_str(&format!(" word{filler}"));
        }
        let asked = MemoryQuery::new(&question, MemoryScope::new("tenant", "project"));
        stale_assumptions_for(&asked, &vec![node.clone()], &Vec::new(), &Vec::new(), 10).len()
    };
    assert_eq!(shown(10), 1);
    assert_eq!(shown(997), 1);
    assert_eq!(shown(998), 0);
}

#[test]
fn rebuilds_come_to_the_same_from_the_same_ledger() -> MemoryResult<()> {
    let mut once = MemoryEngine::in_memory();
    let mut apart = MemoryEngine::in_memory();
    for (at, text) in [
        (3_000, "Do not use the legacy checkout token; it is deprecated."),
        (1_000, "Use the legacy checkout token for deploys."),
        (2_000, "Checkout uses DATABASE_URL."),
    ] {
        let event = event_at(MemoryNodeKind::Fact, text, at);
        once.ingest_event(&event)?;
        apart.ingest_event(&event)?;
        apart.project_pending(100)?;
    }
    once.rebuild_projection_at(2, None, 9_000)?;
    apart.rebuild_projection_at(2, None, 9_000)?;
    assert_eq!(once.store.nodes, apart.store.nodes);
    assert_eq!(once.store.spans, apart.store.spans);
    assert_eq!(once.store.cues, apart.store.cues);
    let joined = |store: &MemoryStore| {
        store
            .edges
            .iter()
            .map(|edge| (edge.from_node_id.clone(), edge.to_node_id.clone(), edge.kind))
            .collect::<Vec<_>>()
    };
    assert_eq!(joined(&once.store), joined(&apart.store));
    Ok(())
}

#[test]
fn a_memory_that_cannot_be_applied_leaves_no_trace() {
    let mut store = MemoryStore::new();
    store.last_edge_id = i64::MAX;
    let event = event_at(MemoryNodeKind::Fact, "Checkout uses DATABASE_URL.", 1_000);
    let memory = DistilledMemory {
        op: BeliefRevisionOp::Add,
        node_kind: MemoryNodeKind::Fact,
        text: event.text.clone(),
        target_node_id: None,
        cited_spans: vec![event.cited_span()],
    };
    let outcome = store.apply_distilled(&event, &memory, &Vec::new(), 5_000);
    assert!(outcome.is_err());
    assert!(store.nodes.is_empty());
    assert!(store.spans.is_empty());
    assert!(store.cues.is_empty());
}

#[test]
fn project_pending_rejects_zero_limit() -> MemoryResult<()> {
    let mut engine = MemoryEngine::in_memory();

    let err = engine.project_pending(0).unwrap_err();

    assert!(err.message().contains("project limit"));
    Ok(())
}

#[test]
fn project_pending_rejects_invalid_distilled_memory_and_rolls_back() -> MemoryResult<()> {
    #[derive(Clone)]
    struct InvalidDistiller;

    impl Distiller for InvalidDistiller {
        fn supports_late_replay(&self) -> bool {
            false
        }

        fn distill(
            &self,
            event: &LedgerEvent,
            _neighbors: &[MemoryNode],
        ) -> MemoryResult<DistillOutcome> {
            Ok(DistillOutcome::accepted(vec![
                DistilledMemory::add(
                    MemoryNodeKind::Fact,
                    "Checkout uses DATABASE_URL.",
                    event.cited_span(),
                ),
                DistilledMemory::add(MemoryNodeKind::Fact, " ", event.cited_span()),
            ]))
        }
    }

    let mut engine = MemoryEngine::new(MemoryStore::new(), InvalidDistiller);
    engine.ingest_event(&LedgerEvent::direct_memory_write(
        "tenant",
        "project",
        MemoryNodeKind::Fact,
        "Checkout uses DATABASE_URL.",
    ))?;

    let err = engine.project_pending(100).unwrap_err();
    let stats = engine.store().stats(now());

    assert!(err.message().contains("invalid distilled memory"));
    assert_eq!(stats.pending_events, 1);
    assert_eq!(stats.nodes, 0);
    assert_eq!(stats.edges, 0);
    Ok(())
}

struct FakeProvider {
    raw: Result<ProviderReply, String>,
    repaired: Option<ProviderReply>,
}

impl DistillationProvider for FakeProvider {
    fn distill(&self, _prompt: DistillationPrompt<'_>) -> MemoryResult<ProviderReply> {
        match &self.raw {
            Ok(reply) => Ok(reply.clone()),
            Err(err) => Err(MemoryError::invalid(&format!("provider failed: {err}"))),
        }
    }

    fn repair(&self, _prompt: DistillationRepairPrompt<'_>) -> MemoryResult<ProviderReply> {
        self.repaired
            .clone()
            .ok_or_else(|| MemoryError::invalid("repair unavailable"))
    }
}

fn malformed(raw: &str) -> ProviderReply {
    ProviderReply {
        text: raw.to_string(),
        batch: Err("EOF while parsing a value".to_string()),
    }
}

fn provider_memory(
    event: &LedgerEvent,
    op: BeliefRevisionOp,
    kind: MemoryNodeKind,
    text: &str,
    target_node_id: Option<&str>,
) -> ProviderReply {
    ProviderReply {
        text: format!(
            "{{\"memories\":[{{\"op\":\"{}\",\"node_kind\":\"{}\",\"text\":\"{text}\"}}]}}",
            op.as_str(),
            kind.as_str()
        ),
        batch: Ok(vec![DistilledMemory {
            op,
            node_kind: kind,
            text: text.to_string(),
            target_node_id: target_node_id.map(str::to_string),
            cited_spans: vec![event.cited_span()],
        }]),
    }
}

#[test]
fn project_pending_provider_error_leaves_event_pending() -> MemoryResult<()> {
    let mut engine = MemoryEngine::new(
        MemoryStore::new(),
        ProviderDistiller::new(FakeProvider {
            raw: Err("timeout".to_string()),
            repaired: None,
        }),
    );
    engine.ingest_event(&LedgerEvent::direct_memory_write(
        "tenant",
        "project",
        MemoryNodeKind::Fact,
        "Checkout uses DATABASE_URL.",
    ))?;

    let report = engine.project_pending(100)?;
    let stats = engine.store().stats(now());

    assert_eq!(report.events_seen, 1);
    assert_eq!(report.events_projected, 0);
    assert_eq!(report.events_skipped, 1);
    assert_eq!(report.distillation_outputs, 0);
    assert_eq!(report.distillation_provider_calls, 1);
    assert_eq!(report.distillation_provider_errors, 1);
    assert_eq!(report.distillation_rejections, 1);
    assert_eq!(stats.pending_events, 1);
    assert_eq!(stats.nodes, 0);
    assert_eq!(stats.edges, 0);
    Ok(())
}

#[test]
fn project_pending_provider_repair_metrics_are_reported() -> MemoryResult<()> {
    let event = LedgerEvent::direct_memory_write(
        "tenant",
        "project",
        MemoryNodeKind::Fact,
        "Checkout uses DATABASE_URL.",
    );
    let repaired = provider_memory(
        &event,
        BeliefRevisionOp::Add,
        MemoryNodeKind::Fact,
        "Checkout uses DATABASE_URL.",
        None,
    );
    let mut engine = MemoryEngine::new(
        MemoryStore::new(),
        ProviderDistiller::new(FakeProvider {
            raw: Ok(malformed("{\"memories\":")),
            repaired: Some(repaired),
        }),
    );
    engine.ingest_event(&event)?;

    let report = engine.project_pending(100)?;

    assert_eq!(report.events_projected, 1);
    assert_eq!(report.distillation_outputs, 1);
    assert_eq!(report.memories_added, 1);
    assert_eq!(report.distillation_provider_calls, 2);
    assert_eq!(report.distillation_schema_errors, 1);
    assert_eq!(report.distillation_repair_attempts, 1);
    assert_eq!(report.distillation_repair_successes, 1);
    assert!(report.distillation_input_tokens > 0);
    assert!(report.distillation_output_tokens > 0);
    Ok(())
}

#[test]
fn project_pending_rejects_bogus_provider_target_and_rolls_back() -> MemoryResult<()> {
    let event = LedgerEvent::direct_memory_write(
        "tenant",
        "project",
        MemoryNodeKind::Fact,
        "Do not use the old checkout token.",
    );
    let raw = provider_memory(
        &event,
        BeliefRevisionOp::Invalidate,
        MemoryNodeKind::Fact,
        "Do not use the old checkout token.",
        Some("missing-node"),
    );
    let mut engine = MemoryEngine::new(
        MemoryStore::new(),
        ProviderDistiller::new(FakeProvider {
            raw: Ok(raw),
            repaired: None,
        }),
    );
    engine.ingest_event(&event)?;

    let err = engine.project_pending(100).unwrap_err();
    let stats = engine.store().stats(now());

    assert!(err.message().contains("target_node_id"));
    assert_eq!(stats.pending_events, 1);
    assert_eq!(stats.nodes, 0);
    assert_eq!(stats.edges, 0);
    Ok(())
}

#[test]
fn project_pending_rejects_wrong_kind_provider_target_and_rolls_back() -> MemoryResult<()> {
    let event = LedgerEvent::direct_memory_write(
        "tenant",
        "project",
        MemoryNodeKind::Fact,
        "Do not use the old checkout token.",
    );
    let mut store = MemoryStore::new();
    let (episode, _) = store.upsert_node(
        StoreScope::new("tenant", "project", None),
        MemoryNodeKind::Episode,
        "The old checkout token appeared in a trace.",
        1,
        &[event.cited_span()],
        now(),
    )?;
    let raw = provider_memory(
        &event,
        BeliefRevisionOp::Invalidate,
        MemoryNodeKind::Fact,
        "Do not use the old checkout token.",
        Some(&episode.id),
    );
    let mut engine = MemoryEngine::new(
        store,
        ProviderDistiller::new(FakeProvider {
            raw: Ok(raw),
            repaired: None,
        }),
    );
    engine.ingest_event(&event)?;

    let err = engine.project_pending(100).unwrap_err();
    let stats = engine.store().stats(now());

    assert!(err.message().contains("matching typed memory node"));
    assert_eq!(stats.pending_events, 1);
    assert_eq!(stats.nodes, 1);
    Ok(())
}

#[test]
fn project_pending_ignores_advisory_provider_add_target() -> MemoryResult<()> {
    let event = LedgerEvent::direct_memory_write(
        "tenant",
        "project",
        MemoryNodeKind::Fact,
        "Checkout uses DATABASE_URL.",
    );
    let raw = provider_memory(
        &event,
        BeliefRevisionOp::Add,
        MemoryNodeKind::Fact,
        "Checkout uses DATABASE_URL.",
        Some("provider-advisory-target"),
    );
    let mut engine = MemoryEngine::new(
        MemoryStore::new(),
        ProviderDistiller::new(FakeProvider {
            raw: Ok(raw),
            repaired: None,
        }),
    );
    engine.ingest_event(&event)?;

    let report = engine.project_pending(100)?;

    assert_eq!(report.events_projected, 1);
    assert_eq!(report.memories_added, 1);
    assert_eq!(engine.store().stats(now()).pending_events, 0);
    Ok(())
}

#[test]
fn project_pending_accepts_target_only_provider_invalidation() -> MemoryResult<()> {
    let event = LedgerEvent::direct_memory_write(
        "tenant",
        "project",
        MemoryNodeKind::Fact,
        "Do not use the old checkout token.",
    );
    let mut store = MemoryStore::new();
    let (fact, _) = store.upsert_node(
        StoreScope::new("tenant", "project", None),
        MemoryNodeKind::Fact,
        "Use the old checkout token.",
        1,
        &[event.cited_span()],
        now(),
    )?;
    let raw = provider_memory(
        &event,
        BeliefRevisionOp::Invalidate,
        MemoryNodeKind::Fact,
        "",
        Some(&fact.id),
    );
    let mut engine = MemoryEngine::new(
        store,
        ProviderDistiller::new(FakeProvider {
            raw: Ok(raw),
            repaired: None,
        }),
    );
    engine.ingest_event(&event)?;

    let report = engine.project_pending(100)?;
    let nodes = engine.store().all_nodes("tenant", "project", None);
    let fact = nodes
        .iter()
        .find(|node| node.text == "Use the old checkout token.")
        .expect("fact remains as closed history");

    assert_eq!(report.memories_invalidated, 1);
    assert_eq!(report.memories_added, 0);
    assert_eq!(fact.valid_to_unix_ms, Some(event.observed_at_unix_ms));
    assert_eq!(engine.store().stats(now()).pending_events, 0);
    Ok(())
}

#[test]
fn targetless_invalidation_without_neighbors_is_normalized_to_add() -> MemoryResult<()> {
    #[derive(Clone)]
    struct TargetlessInvalidationDistiller;

    impl Distiller for TargetlessInvalidationDistiller {
        fn supports_late_replay(&self) -> bool {
            false
        }

        fn distill(
            &self,
            event: &LedgerEvent,
            _neighbors: &[MemoryNode],
        ) -> MemoryResult<DistillOutcome> {
            Ok(DistillOutcome::accepted(vec![DistilledMemory {
                op: BeliefRevisionOp::Invalidate,
                node_kind: MemoryNodeKind::AntiMemory,
                text: "Do not use the stale checkout token.".to_string(),
                target_node_id: None,
                cited_spans: vec![event.cited_span()],
            }]))
        }
    }

    let mut engine = MemoryEngine::new(
        MemoryStore::new(),
        TargetlessInvalidationDistiller,
    );
    engine.ingest_event(&LedgerEvent::direct_memory_write(
        "tenant",
        "project",
        MemoryNodeKind::AntiMemory,
        "Do not use the stale checkout token.",
    ))?;

    let report = engine.project_pending(100)?;
    let nodes = engine.store().all_nodes("tenant", "project", None);

    assert_eq!(report.events_projected, 1);
    assert_eq!(report.distillation_outputs, 1);
    assert_eq!(report.memories_added, 1);
    assert_eq!(report.memories_invalidated, 0);
    assert_eq!(report.distillation_repair_attempts, 1);
    assert_eq!(report.distillation_repair_successes, 1);
    assert!(
        nodes
            .iter()
            .any(|node| node.kind == MemoryNodeKind::AntiMemory)
    );
    Ok(())
}

#[derive(Clone)]
struct EchoAddProvider;

impl DistillationProvider for EchoAddProvider {
    fn distill(&self, prompt: DistillationPrompt<'_>) -> MemoryResult<ProviderReply> {
        Ok(provider_memory(
            prompt.event,
            BeliefRevisionOp::Add,
            MemoryNodeKind::Fact,
            &prompt.event.text,
            None,
        ))
    }

    fn repair(&self, _prompt: DistillationRepairPrompt<'_>) -> MemoryResult<ProviderReply> {
        repair_unsupported()
    }
}

#[test]
fn provider_distiller_skips_late_replay_to_preserve_rebuild_convergence() -> MemoryResult<()> {
    let mut engine = MemoryEngine::new(
        MemoryStore::new(),
        ProviderDistiller::new(EchoAddProvider),
    );
    engine.ingest_event(&event_at(
        MemoryNodeKind::Fact,
        "Do not use late checkout token; it is deprecated.",
        2_000,
    ))?;
    let first = engine.project_pending(100)?;
    assert_eq!(first.events_projected, 1);
    assert_eq!(first.distillation_provider_calls, 1);

    engine.ingest_event(&event_at(
        MemoryNodeKind::Fact,
        "Use late checkout token.",
        1_000,
    ))?;
    let second = engine.project_pending(100)?;
    let nodes = engine.store().all_nodes("tenant", "project", None);
    let old = nodes
        .iter()
        .find(|node| node.text == "Use late checkout token.")
        .expect("old node exists");

    assert_eq!(second.events_projected, 1);
    assert_eq!(second.distillation_provider_calls, 1);
    assert_eq!(old.valid_to_unix_ms, None);

    let incremental = ask(&engine, 
        &MemoryQuery::new("late checkout token", MemoryScope::new("tenant", "project"))
            .with_modes(vec![MemoryMode::Semantic]),
    )?;
    engine.rebuild_projection(100, None)?;
    let rebuilt = ask(&engine, 
        &MemoryQuery::new("late checkout token", MemoryScope::new("tenant", "project"))
            .with_modes(vec![MemoryMode::Semantic]),
    )?;

    assert_eq!(evidence_texts(&incremental), evidence_texts(&rebuilt));
    Ok(())
}

#[test]
fn rebuild_projection_reports_incomplete_when_provider_rejects_pending_event()
-> MemoryResult<()> {
    let mut engine = MemoryEngine::new(
        MemoryStore::new(),
        ProviderDistiller::new(FakeProvider {
            raw: Err("timeout".to_string()),
            repaired: None,
        }),
    );
    engine.ingest_event(&LedgerEvent::direct_memory_write(
        "tenant",
        "project",
        MemoryNodeKind::Fact,
        "Checkout uses DATABASE_URL.",
    ))?;

    let report = engine.rebuild_projection(10, None)?;

    assert!(!report.completed);
    assert_eq!(report.project.events_seen, 1);
    assert_eq!(report.project.events_projected, 0);
    assert_eq!(report.project.events_skipped, 1);
    assert_eq!(engine.store().stats(now()).pending_events, 1);
    Ok(())
}

#[test]
fn rebuild_projection_replays_ledger_and_preserves_audit() -> MemoryResult<()> {
    let mut engine = MemoryEngine::in_memory();
    engine.store.append_audit(&AuditRecord {
        actor: "test".to_string(),
        action: "setup".to_string(),
        outcome: "success".to_string(),
        route: None,
        status_code: None,
        detail: JsonValue::Object(Vec::new()),
    }, now())?;
    engine.ingest_event(&LedgerEvent::direct_memory_write(
        "tenant",
        "project",
        MemoryNodeKind::Fact,
        "The support API health route is /api/health.",
    ))?;
    engine.ingest_event(&LedgerEvent::direct_memory_write(
        "tenant",
        "project",
        MemoryNodeKind::Gotcha,
        "Checkout requires DATABASE_URL before running migrations.",
    ))?;
    engine.project_pending(100)?;
    let before = engine.store().stats(now());
    assert_eq!(before.ledger_events, 2);
    assert_eq!(before.pending_events, 0);
    assert!(before.nodes > 0);

    let report = engine.rebuild_projection(1, None)?;

    let after = engine.store().stats(now());
    assert_eq!(report.reset.ledger_events_reset, 2);
    assert!(report.reset.nodes_removed > 0);
    assert_eq!(report.project.events_projected, 2);
    assert!(report.completed);
    assert_eq!(after.ledger_events, 2);
    assert_eq!(after.audit_events, 1);
    assert_eq!(after.pending_events, 0);
    assert!(after.nodes > 0);
    let answer = ask(&engine, &MemoryQuery::new(
        "checkout migrations database",
        MemoryScope::new("tenant", "project"),
    ))?;
    assert!(answer.answer.contains("DATABASE_URL"));
    Ok(())
}

#[test]
fn rebuild_projection_rejects_zero_max_events_before_reset() -> MemoryResult<()> {
    let mut engine = MemoryEngine::in_memory();
    engine.ingest_event(&LedgerEvent::direct_memory_write(
        "tenant",
        "project",
        MemoryNodeKind::Fact,
        "Checkout uses DATABASE_URL.",
    ))?;
    engine.project_pending(100)?;
    let before = engine.store().stats(now());

    let err = engine.rebuild_projection(10, Some(0)).unwrap_err();
    let after = engine.store().stats(now());

    assert!(err.message().contains("max_events"));
    assert_eq!(after.pending_events, before.pending_events);
    assert_eq!(after.nodes, before.nodes);
    assert_eq!(after.edges, before.edges);
    Ok(())
}

#[test]
fn rebuild_projection_can_stop_after_max_events() -> MemoryResult<()> {
    let mut engine = MemoryEngine::in_memory();
    engine.ingest_event(&LedgerEvent::direct_memory_write(
        "tenant",
        "project",
        MemoryNodeKind::Fact,
        "First deploy step sets DATABASE_URL.",
    ))?;
    engine.ingest_event(&LedgerEvent::direct_memory_write(
        "tenant",
        "project",
        MemoryNodeKind::Fact,
        "Second deploy step runs migrations.",
    ))?;
    engine.project_pending(100)?;

    let report = engine.rebuild_projection(10, Some(1))?;

    assert_eq!(report.project.events_projected, 1);
    assert!(!report.completed);
    assert_eq!(engine.store().stats(now()).pending_events, 1);
    Ok(())
}

#[test]
fn invalidation_surfaces_stale_assumptions() -> MemoryResult<()> {
    let mut engine = MemoryEngine::in_memory();
    engine.ingest_event(&LedgerEvent::direct_memory_write(
        "tenant",
        "project",
        MemoryNodeKind::Fact,
        "Use the old checkout token for deploys.",
    ))?;
    engine.project_pending(100)?;
    engine.ingest_event(&LedgerEvent::direct_memory_write(
        "tenant",
        "project",
        MemoryNodeKind::Fact,
        "Do not use the old checkout token; it is deprecated. Use the scoped deploy token.",
    ))?;
    engine.project_pending(100)?;

    let answer = ask(&engine, &MemoryQuery::new(
        "old checkout token",
        MemoryScope::new("tenant", "project"),
    ))?;

    assert!(!answer.contradictions.is_empty());
    assert!(!answer.stale_assumptions.is_empty());
    Ok(())
}

#[test]
fn targeted_update_creates_temporal_successor_without_contradiction() -> MemoryResult<()> {
    #[derive(Clone)]
    struct UpdateCheckoutApi;

    impl Distiller for UpdateCheckoutApi {
        fn supports_late_replay(&self) -> bool {
            false
        }

        fn distill(
            &self,
            event: &LedgerEvent,
            neighbors: &[MemoryNode],
        ) -> MemoryResult<DistillOutcome> {
            let op = if neighbors.iter().any(|node| {
                node.kind == MemoryNodeKind::Fact && node.text.contains("old.example")
            }) {
                BeliefRevisionOp::Update
            } else {
                BeliefRevisionOp::Add
            };
            let target_node_id = if op == BeliefRevisionOp::Update {
                neighbors
                    .iter()
                    .find(|node| {
                        node.kind == MemoryNodeKind::Fact && node.text.contains("old.example")
                    })
                    .map(|node| node.id.clone())
            } else {
                None
            };
            Ok(DistillOutcome::accepted(vec![DistilledMemory {
                op,
                node_kind: MemoryNodeKind::Fact,
                text: event.text.clone(),
                target_node_id,
                cited_spans: vec![event.cited_span()],
            }]))
        }
    }

    let mut engine = MemoryEngine::new(MemoryStore::new(), UpdateCheckoutApi);
    engine.ingest_event(&event_at(
        MemoryNodeKind::Fact,
        "Checkout API base URL is https://old.example.",
        1_000,
    ))?;
    engine.manage_pending(100)?;
    engine.ingest_event(&event_at(
        MemoryNodeKind::Fact,
        "Checkout API base URL changed from https://old.example to https://new.example.",
        2_000,
    ))?;

    let report = engine.manage_pending(100)?;

    assert_eq!(report.memories_updated, 1);
    let nodes = engine.store().all_nodes("tenant", "project", None);
    let old = nodes
        .iter()
        .find(|node| node.text == "Checkout API base URL is https://old.example.")
        .expect("old node should remain queryable historically");
    let new = nodes
        .iter()
        .find(|node| node.text.contains("https://new.example"))
        .expect("new node should be inserted");
    assert_eq!(old.valid_to_unix_ms, Some(2_000));
    assert_eq!(new.valid_to_unix_ms, None);
    assert_eq!(new.family_canonical_key(), old.family_canonical_key());

    let edges = engine.store().edges_for_scope("tenant", "project", None);
    assert!(edges.iter().any(|edge| {
        edge.kind == MemoryEdgeKind::Supersedes
            && edge.from_node_id == new.id
            && edge.to_node_id == old.id
    }));
    assert!(
        !edges
            .iter()
            .any(|edge| edge.kind == MemoryEdgeKind::Contradicts)
    );
    Ok(())
}

#[test]
fn heuristic_update_does_not_supersede_unrelated_new_fact() -> MemoryResult<()> {
    let mut engine = MemoryEngine::in_memory();
    engine.ingest_event(&event_at(
        MemoryNodeKind::Fact,
        "Checkout uses DATABASE_URL.",
        1_000,
    ))?;
    engine.manage_pending(100)?;
    engine.ingest_event(&event_at(
        MemoryNodeKind::Fact,
        "New billing service uses STRIPE_KEY.",
        2_000,
    ))?;
    let report = engine.manage_pending(100)?;

    assert_eq!(report.memories_invalidated, 0);
    let nodes = engine.store().all_nodes("tenant", "project", None);
    let checkout = nodes
        .iter()
        .find(|node| node.text == "Checkout uses DATABASE_URL.")
        .expect("checkout fact should still exist");
    assert_eq!(checkout.valid_to_unix_ms, None);

    let answer = ask(&engine, 
        &MemoryQuery::new(
            "checkout database_url",
            MemoryScope::new("tenant", "project"),
        )
        .with_modes(vec![MemoryMode::Semantic]),
    )?;

    assert!(
        answer
            .evidence
            .iter()
            .any(|item| item.text.contains("DATABASE_URL"))
    );
    Ok(())
}

#[test]
fn targeted_update_at_same_timestamp_creates_ordered_successor() -> MemoryResult<()> {
    #[derive(Clone)]
    struct UpdateCheckoutApi;

    impl Distiller for UpdateCheckoutApi {
        fn supports_late_replay(&self) -> bool {
            false
        }

        fn distill(
            &self,
            event: &LedgerEvent,
            neighbors: &[MemoryNode],
        ) -> MemoryResult<DistillOutcome> {
            let target_node_id = neighbors
                .iter()
                .find(|node| {
                    node.kind == MemoryNodeKind::Fact
                        && node.text == "Checkout API base URL is https://old.example."
                })
                .map(|node| node.id.clone());
            let op = if target_node_id.is_some() {
                BeliefRevisionOp::Update
            } else {
                BeliefRevisionOp::Add
            };
            Ok(DistillOutcome::accepted(vec![DistilledMemory {
                op,
                node_kind: MemoryNodeKind::Fact,
                text: event.text.clone(),
                target_node_id,
                cited_spans: vec![event.cited_span()],
            }]))
        }
    }

    let mut engine = MemoryEngine::new(MemoryStore::new(), UpdateCheckoutApi);
    let mut first = event_at(
        MemoryNodeKind::Fact,
        "Checkout API base URL is https://old.example.",
        1_000,
    );
    first.trace_id = "trace-1000-old".to_string();
    first.span_id = "span-1000-old".to_string();
    let mut second = event_at(
        MemoryNodeKind::Fact,
        "Checkout API base URL changed from https://old.example to https://new.example.",
        1_000,
    );
    second.trace_id = "trace-1000-new".to_string();
    second.span_id = "span-1000-new".to_string();

    engine.ingest_event(&first)?;
    engine.manage_pending(100)?;
    engine.ingest_event(&second)?;
    let report = engine.manage_pending(100)?;

    assert_eq!(report.memories_updated, 1);
    let nodes = engine.store().all_nodes("tenant", "project", None);
    let old = nodes
        .iter()
        .find(|node| node.text == "Checkout API base URL is https://old.example.")
        .expect("old node should remain as closed history");
    let new = nodes
        .iter()
        .find(|node| node.text.contains("https://new.example"))
        .expect("new node should be inserted");
    assert_ne!(old.id, new.id);
    assert_eq!(old.valid_to_unix_ms, Some(1_000));
    assert_eq!(new.valid_to_unix_ms, None);
    assert_eq!(new.family_canonical_key(), old.family_canonical_key());
    Ok(())
}

#[test]
fn late_arrival_update_closes_older_fact_incrementally() -> MemoryResult<()> {
    #[derive(Clone)]
    struct UpdateCheckoutApi;

    impl Distiller for UpdateCheckoutApi {
        fn distill(
            &self,
            event: &LedgerEvent,
            neighbors: &[MemoryNode],
        ) -> MemoryResult<DistillOutcome> {
            let target_node_id = if event.text.contains("new.example") {
                neighbors
                    .iter()
                    .find(|node| {
                        node.kind == MemoryNodeKind::Fact && node.text.contains("old.example")
                    })
                    .map(|node| node.id.clone())
            } else {
                None
            };
            let op = if target_node_id.is_some() {
                BeliefRevisionOp::Update
            } else {
                BeliefRevisionOp::Add
            };
            Ok(DistillOutcome::accepted(vec![DistilledMemory {
                op,
                node_kind: MemoryNodeKind::Fact,
                text: event.text.clone(),
                target_node_id,
                cited_spans: vec![event.cited_span()],
            }]))
        }

        fn supports_late_replay(&self) -> bool {
            true
        }
    }

    let mut engine = MemoryEngine::new(MemoryStore::new(), UpdateCheckoutApi);
    engine.ingest_event(&event_at(
        MemoryNodeKind::Fact,
        "Checkout API base URL changed from https://old.example to https://new.example.",
        2_000,
    ))?;
    engine.manage_pending(100)?;
    engine.ingest_event(&event_at(
        MemoryNodeKind::Fact,
        "Checkout API base URL is https://old.example.",
        1_000,
    ))?;

    let report = engine.manage_pending(100)?;

    assert_eq!(report.memories_updated, 1);
    let nodes = engine.store().all_nodes("tenant", "project", None);
    let old = nodes
        .iter()
        .find(|node| node.text == "Checkout API base URL is https://old.example.")
        .expect("late old node should remain as closed history");
    assert_eq!(old.valid_to_unix_ms, Some(2_000));
    let active_new = nodes
        .iter()
        .filter(|node| {
            node.text.contains("https://new.example") && node.is_active_at(Some(2_500))
        })
        .collect::<Vec<_>>();
    assert_eq!(active_new.len(), 1);
    assert_eq!(
        active_new[0].family_canonical_key(),
        old.family_canonical_key()
    );

    let answer = ask(&engine, 
        &MemoryQuery::new(
            "checkout api base url",
            MemoryScope::new("tenant", "project").as_of_unix_ms(2_500),
        )
        .with_modes(vec![MemoryMode::Semantic]),
    )?;

    assert!(
        answer
            .evidence
            .iter()
            .any(|item| item.text.contains("https://new.example"))
    );
    assert!(
        !answer
            .evidence
            .iter()
            .any(|item| item.text == "Checkout API base URL is https://old.example.")
    );
    Ok(())
}

#[test]
fn target_only_invalidation_closes_memory_without_replacement() -> MemoryResult<()> {
    #[derive(Clone)]
    struct TargetOnlyInvalidation;

    impl Distiller for TargetOnlyInvalidation {
        fn supports_late_replay(&self) -> bool {
            false
        }

        fn distill(
            &self,
            event: &LedgerEvent,
            neighbors: &[MemoryNode],
        ) -> MemoryResult<DistillOutcome> {
            let target_node_id = neighbors
                .iter()
                .find(|node| {
                    node.kind == MemoryNodeKind::Fact && node.text.contains("legacy token")
                })
                .map(|node| node.id.clone());
            let (op, text) = if target_node_id.is_some() {
                (BeliefRevisionOp::Invalidate, String::new())
            } else {
                (BeliefRevisionOp::Add, event.text.clone())
            };
            Ok(DistillOutcome::accepted(vec![DistilledMemory {
                op,
                node_kind: MemoryNodeKind::Fact,
                text,
                target_node_id,
                cited_spans: vec![event.cited_span()],
            }]))
        }
    }

    let mut engine = MemoryEngine::new(MemoryStore::new(), TargetOnlyInvalidation);
    engine.ingest_event(&event_at(
        MemoryNodeKind::Fact,
        "Use the legacy token for deploys.",
        1_000,
    ))?;
    engine.manage_pending(100)?;
    engine.ingest_event(&event_at(
        MemoryNodeKind::Fact,
        "Retire the legacy token.",
        2_000,
    ))?;

    let report = engine.manage_pending(100)?;

    assert_eq!(report.memories_invalidated, 1);
    assert_eq!(report.memories_added, 0);
    let nodes = engine.store().all_nodes("tenant", "project", None);
    let old = nodes
        .iter()
        .find(|node| node.text.contains("legacy token"))
        .expect("old node should remain available for stale assumptions");
    assert_eq!(old.valid_to_unix_ms, Some(2_000));
    assert!(
        nodes
            .iter()
            .all(|node| !node.text.contains("Retire the legacy token"))
    );
    Ok(())
}

#[test]
fn project_report_counts_actual_multi_target_invalidations() -> MemoryResult<()> {
    #[derive(Clone)]
    struct InvalidateCheckoutToken;

    impl Distiller for InvalidateCheckoutToken {
        fn supports_late_replay(&self) -> bool {
            false
        }

        fn distill(
            &self,
            event: &LedgerEvent,
            _neighbors: &[MemoryNode],
        ) -> MemoryResult<DistillOutcome> {
            Ok(DistillOutcome::accepted(vec![DistilledMemory {
                op: BeliefRevisionOp::Invalidate,
                node_kind: MemoryNodeKind::Fact,
                text: "Do not use checkout token alpha; use checkout token beta.".to_string(),
                target_node_id: None,
                cited_spans: vec![event.cited_span()],
            }]))
        }
    }

    let mut engine = MemoryEngine::new(MemoryStore::new(), InvalidateCheckoutToken);
    let scope = StoreScope::new("tenant", "project", None);
    let (first, _) = engine.store.upsert_node(
        scope,
        MemoryNodeKind::Fact,
        "Use checkout token alpha for deploys.",
        1_000,
        &[],
        now(),
    )?;
    let (second, _) = engine.store.upsert_node(
        scope,
        MemoryNodeKind::Fact,
        "Checkout token alpha unlocks deploys.",
        1_001,
        &[],
        now(),
    )?;
    engine.ingest_event(&event_at(
        MemoryNodeKind::Fact,
        "Do not use checkout token alpha; use checkout token beta.",
        2_000,
    ))?;

    let report = engine.project_pending(100)?;
    let nodes = engine.store().all_nodes("tenant", "project", None);

    assert_eq!(report.events_projected, 1);
    assert_eq!(report.memories_invalidated, 2);
    assert_eq!(report.stored_memories_touched, 3);
    assert_eq!(node_valid_to(&nodes, &first.text), Some(Some(2_000)));
    assert_eq!(node_valid_to(&nodes, &second.text), Some(Some(2_000)));
    Ok(())
}

#[test]
fn as_of_query_uses_fact_validity_windows() -> MemoryResult<()> {
    let mut engine = MemoryEngine::in_memory();
    engine.ingest_event(&event_at(
        MemoryNodeKind::Fact,
        "Use the legacy checkout token for deploys.",
        1_000,
    ))?;
    engine.project_pending(100)?;
    engine.ingest_event(&event_at(
        MemoryNodeKind::Fact,
        "Do not use the legacy checkout token; it is deprecated. Use the scoped deploy token.",
        2_000,
    ))?;
    engine.project_pending(100)?;

    let before = ask(&engine, 
        &MemoryQuery::new(
            "legacy checkout token",
            MemoryScope::new("tenant", "project").as_of_unix_ms(1_500),
        )
        .with_modes(vec![MemoryMode::Semantic]),
    )?;

    assert!(before.evidence.iter().any(|item| {
        item.text
            .contains("Use the legacy checkout token for deploys.")
    }));
    assert!(
        !before
            .evidence
            .iter()
            .any(|item| item.text.contains("scoped deploy token"))
    );
    assert!(before.contradictions.is_empty());
    assert!(before.stale_assumptions.is_empty());

    let after = ask(&engine, 
        &MemoryQuery::new(
            "legacy checkout token",
            MemoryScope::new("tenant", "project").as_of_unix_ms(2_500),
        )
        .with_modes(vec![MemoryMode::Semantic]),
    )?;

    assert!(
        after
            .evidence
            .iter()
            .any(|item| item.text.contains("scoped deploy token"))
    );
    assert!(!after.evidence.iter().any(|item| {
        item.text
            .contains("Use the legacy checkout token for deploys.")
    }));
    assert!(!after.contradictions.is_empty());
    assert!(!after.stale_assumptions.is_empty());
    Ok(())
}

fn late_news() -> MemoryResult<MemoryEngine> {
    let mut engine = MemoryEngine::in_memory();
    engine.ingest_event(&event_at(
        MemoryNodeKind::Fact,
        "Use the legacy checkout token for deploys.",
        1_000,
    ))?;
    let mut news = event_at(
        MemoryNodeKind::Fact,
        "Do not use the legacy checkout token; it is deprecated. Use the scoped deploy token.",
        2_000,
    );
    news.ingested_at_unix_ms = 5_000;
    engine.ingest_event(&news)?;
    engine.project_pending(100)?;
    Ok(engine)
}

fn asked_from(known_at_unix_ms: i64) -> MemoryQuery {
    MemoryQuery::new(
        "legacy checkout token",
        MemoryScope::new("tenant", "project")
            .as_of_unix_ms(2_500)
            .known_at_unix_ms(known_at_unix_ms),
    )
    .with_modes(vec![MemoryMode::Semantic])
}

#[test]
fn events_not_yet_known_are_not_read() -> MemoryResult<()> {
    let engine = late_news()?;
    let answer = ask(&engine, &asked_from(4_999))?;
    assert_eq!(
        evidence_texts(&answer),
        vec!["Use the legacy checkout token for deploys.".to_string()]
    );
    assert!(answer.contradictions.is_empty());
    assert!(answer.stale_assumptions.is_empty());
    assert!(ask(&engine, &asked_from(999))?.evidence.is_empty());
    Ok(())
}

#[test]
fn events_are_read_once_they_are_known() -> MemoryResult<()> {
    let engine = late_news()?;
    let answer = ask(&engine, &asked_from(5_000))?;
    assert!(answer
        .evidence
        .iter()
        .any(|item| item.text.contains("scoped deploy token")));
    assert!(!answer.contradictions.is_empty());
    assert!(!answer.stale_assumptions.is_empty());
    let mut all = asked_from(0);
    all.scope.known_at_unix_ms = None;
    assert_eq!(evidence_texts(&ask(&engine, &all)?), evidence_texts(&answer));
    Ok(())
}

#[test]
fn the_tables_as_known_keep_to_known_events() -> MemoryResult<()> {
    let engine = late_news()?;
    let before = engine.store.known_at(4_999);
    assert_eq!(before.ledger.len(), 1);
    assert!(before.nodes.iter().all(|node| node.valid_to_unix_ms.is_none()));
    assert!(before.spans.iter().all(|row| row.span.trace_id == "trace-1000"));
    let after = engine.store.known_at(5_000);
    assert_eq!(after.ledger, engine.store.ledger);
    assert_eq!(after.nodes, engine.store.nodes);
    assert_eq!(after.edges, engine.store.edges);
    assert_eq!(after.spans, engine.store.spans);
    assert_eq!(after.cues, engine.store.cues);
    Ok(())
}

#[test]
fn a_known_end_stands_until_the_event_that_moves_it_is_known() -> MemoryResult<()> {
    let mut engine = MemoryEngine::in_memory();
    let text = "Use the legacy checkout token for deploys.";
    for (observed, ingested, text) in [
        (1_000, 1_000, text),
        (3_000, 3_000, "Do not use the legacy checkout token; it is deprecated."),
        (2_000, 5_000, "Do not use the legacy checkout token for deploys; it is wrong."),
    ] {
        let mut event = event_at(MemoryNodeKind::Fact, text, observed);
        event.ingested_at_unix_ms = ingested;
        engine.ingest_event(&event)?;
        engine.project_pending(100)?;
    }
    let end = |store: &MemoryStore| {
        store
            .nodes
            .iter()
            .find(|node| node.text == text && node.kind == MemoryNodeKind::Fact)
            .map(|node| node.valid_to_unix_ms)
    };
    assert_eq!(end(&engine.store), Some(Some(2_000)));
    assert_eq!(end(&engine.store.known_at(5_000)), Some(Some(2_000)));
    assert_eq!(end(&engine.store.known_at(4_999)), Some(Some(3_000)));
    assert_eq!(end(&engine.store.known_at(2_999)), Some(None));
    Ok(())
}

#[test]
fn a_reconstruction_keeps_to_known_events() -> MemoryResult<()> {
    let engine = late_news()?;
    let forced = ReconstructionOptions {
        mode: ReconstructionMode::Force,
        max_steps: 4,
        max_tokens: 2_000,
    };
    let answer = ask(&engine, &asked_from(4_999).with_reconstruction(forced))?;
    assert!(!answer
        .evidence
        .iter()
        .any(|item| item.text.contains("scoped deploy token")));
    Ok(())
}

#[test]
fn only_the_current_fixture_version_is_taken() {
    assert!(validate_contract_version(None).is_ok());
    assert!(validate_contract_version(Some(1)).is_ok());
    let err = validate_contract_version(Some(2)).unwrap_err();
    assert!(err.message().contains("contract_version"));
}

#[test]
fn as_of_query_does_not_resurrect_restatement_before_its_valid_time() -> MemoryResult<()> {
    let mut engine = MemoryEngine::in_memory();
    engine.ingest_event(&event_at(
        MemoryNodeKind::Fact,
        "Use the legacy checkout token for deploys.",
        1_000,
    ))?;
    engine.project_pending(100)?;
    engine.ingest_event(&event_at(
        MemoryNodeKind::Fact,
        "Do not use the legacy checkout token; it is deprecated. Use the scoped deploy token.",
        2_000,
    ))?;
    engine.project_pending(100)?;
    engine.ingest_event(&event_at(
        MemoryNodeKind::Fact,
        "Use the legacy checkout token for deploys.",
        3_000,
    ))?;
    engine.project_pending(100)?;

    let during_invalidation = ask(&engine, 
        &MemoryQuery::new(
            "legacy checkout token",
            MemoryScope::new("tenant", "project").as_of_unix_ms(2_500),
        )
        .with_modes(vec![MemoryMode::Semantic]),
    )?;

    assert!(
        during_invalidation
            .evidence
            .iter()
            .any(|item| item.text.contains("scoped deploy token"))
    );
    assert!(!during_invalidation.evidence.iter().any(|item| {
        item.text
            .contains("Use the legacy checkout token for deploys.")
    }));
    assert!(!during_invalidation.stale_assumptions.is_empty());
    Ok(())
}

#[test]
fn late_older_invalidation_does_not_invalidate_future_fact() -> MemoryResult<()> {
    let mut engine = MemoryEngine::in_memory();
    engine.ingest_event(&event_at(
        MemoryNodeKind::Fact,
        "Use prod deploy key alpha.",
        2_000,
    ))?;
    engine.project_pending(100)?;
    engine.ingest_event(&event_at(
        MemoryNodeKind::Fact,
        "Do not use prod deploy key alpha; it is deprecated.",
        1_000,
    ))?;
    engine.project_pending(100)?;

    let future_fact = engine
        .store()
        .all_nodes("tenant", "project", None)
        .into_iter()
        .find(|node| node.text == "Use prod deploy key alpha.")
        .expect("future fact should exist");

    assert_eq!(future_fact.valid_from_unix_ms, 2_000);
    assert_eq!(future_fact.valid_to_unix_ms, None);
    Ok(())
}

#[test]
fn invalidation_target_lookup_filters_future_matches_before_limit() -> MemoryResult<()> {
    let mut engine = MemoryEngine::in_memory();
    engine.ingest_event(&event_at(
        MemoryNodeKind::Fact,
        "Use crowd token alpha.",
        1_000,
    ))?;
    engine.project_pending(100)?;
    for index in 0..40 {
        engine.ingest_event(&event_at(
            MemoryNodeKind::Fact,
            &format!("Use crowd token alpha future-{index}."),
            3_000 + index,
        ))?;
    }
    engine.project_pending(100)?;
    engine.ingest_event(&event_at(
        MemoryNodeKind::Fact,
        "Do not use crowd token alpha; it is deprecated. Use scoped crowd token alpha.",
        2_000,
    ))?;
    engine.project_pending(100)?;

    let answer = ask(&engine, 
        &MemoryQuery::new(
            "crowd token alpha",
            MemoryScope::new("tenant", "project").as_of_unix_ms(2_500),
        )
        .with_modes(vec![MemoryMode::Semantic]),
    )?;

    assert!(
        answer
            .evidence
            .iter()
            .any(|item| item.text.contains("scoped crowd token alpha"))
    );
    assert!(
        !answer
            .evidence
            .iter()
            .any(|item| item.text == "Use crowd token alpha.")
    );
    assert!(!answer.contradictions.is_empty());
    assert!(!answer.stale_assumptions.is_empty());
    Ok(())
}

#[test]
fn target_only_invalidation_surfaces_stale_assumption() -> MemoryResult<()> {
    let mut engine = MemoryEngine::in_memory();
    engine.ingest_event(&event_at(
        MemoryNodeKind::Fact,
        "Legacy target-only token remains active.",
        1_000,
    ))?;
    engine.project_pending(100)?;
    let target = engine
        .store()
        .all_nodes("tenant", "project", None)
        .into_iter()
        .find(|node| {
            node.kind == MemoryNodeKind::Fact
                && node.text == "Legacy target-only token remains active."
        })
        .expect("fact should exist");
    assert!(engine.store.invalidate_node(&target.id, 2_000, None));

    let answer = ask(&engine, 
        &MemoryQuery::new(
            "legacy target-only token",
            MemoryScope::new("tenant", "project").as_of_unix_ms(2_500),
        )
        .with_modes(vec![MemoryMode::Semantic]),
    )?;

    assert!(answer.evidence.is_empty());
    assert_eq!(answer.stale_assumptions.len(), 1);
    assert_eq!(answer.stale_assumptions[0].node_id, target.id);
    Ok(())
}

#[test]
fn as_of_query_filters_future_citations_on_active_memory() -> MemoryResult<()> {
    let mut engine = MemoryEngine::in_memory();
    engine.ingest_event(&event_at(
        MemoryNodeKind::Fact,
        "Checkout uses DATABASE_URL.",
        1_000,
    ))?;
    engine.project_pending(100)?;
    engine.ingest_event(&event_at(
        MemoryNodeKind::Fact,
        "Checkout uses DATABASE_URL.",
        3_000,
    ))?;
    engine.project_pending(100)?;

    let answer = ask(&engine, 
        &MemoryQuery::new(
            "checkout database_url",
            MemoryScope::new("tenant", "project").as_of_unix_ms(1_500),
        )
        .with_modes(vec![MemoryMode::Semantic]),
    )?;

    assert!(!answer.evidence.is_empty());
    assert!(
        answer
            .cited_spans
            .iter()
            .all(|span| span.trace_id == "trace-1000")
    );
    assert!(
        !answer
            .cited_spans
            .iter()
            .any(|span| span.trace_id == "trace-3000")
    );
    Ok(())
}

#[test]
fn as_of_query_score_is_stable_after_future_restatement() -> MemoryResult<()> {
    let mut engine = MemoryEngine::in_memory();
    engine.ingest_event(&event_at(
        MemoryNodeKind::Fact,
        "Checkout uses DATABASE_URL.",
        1_000,
    ))?;
    engine.project_pending(100)?;
    let before = ask(&engine, 
        &MemoryQuery::new(
            "checkout database_url",
            MemoryScope::new("tenant", "project").as_of_unix_ms(1_500),
        )
        .with_modes(vec![MemoryMode::Semantic]),
    )?;
    let before_score = before.evidence[0].score;

    engine.ingest_event(&event_at(
        MemoryNodeKind::Fact,
        "Checkout uses DATABASE_URL.",
        3_000,
    ))?;
    engine.project_pending(100)?;
    let after = ask(&engine, 
        &MemoryQuery::new(
            "checkout database_url",
            MemoryScope::new("tenant", "project").as_of_unix_ms(1_500),
        )
        .with_modes(vec![MemoryMode::Semantic]),
    )?;

    assert_eq!(after.evidence[0].node_id, before.evidence[0].node_id);
    assert!(after.evidence[0].score.abs_diff(before_score) < 120);
    Ok(())
}

#[test]
fn as_of_query_score_is_stable_before_future_invalidation() -> MemoryResult<()> {
    let mut engine = MemoryEngine::in_memory();
    engine.ingest_event(&event_at(
        MemoryNodeKind::Fact,
        "Checkout uses DATABASE_URL.",
        1_000,
    ))?;
    engine.project_pending(100)?;
    let before = ask(&engine, 
        &MemoryQuery::new(
            "checkout database_url",
            MemoryScope::new("tenant", "project").as_of_unix_ms(1_500),
        )
        .with_modes(vec![MemoryMode::Semantic]),
    )?;
    let before_score = before.evidence[0].score;

    engine.ingest_event(&event_at(
        MemoryNodeKind::Fact,
        "Do not use Checkout uses DATABASE_URL; it is deprecated.",
        900_000_000_000,
    ))?;
    engine.project_pending(100)?;
    let after = ask(&engine, 
        &MemoryQuery::new(
            "checkout database_url",
            MemoryScope::new("tenant", "project").as_of_unix_ms(1_500),
        )
        .with_modes(vec![MemoryMode::Semantic]),
    )?;

    assert_eq!(after.evidence[0].node_id, before.evidence[0].node_id);
    assert!(after.evidence[0].score.abs_diff(before_score) < 120);
    assert!(after.contradictions.is_empty());
    assert!(after.stale_assumptions.is_empty());
    Ok(())
}

#[test]
fn current_query_hides_future_invalidation_edges() -> MemoryResult<()> {
    let mut engine = MemoryEngine::in_memory();
    engine.ingest_event(&event_at(
        MemoryNodeKind::Fact,
        "Checkout uses DATABASE_URL.",
        1_000,
    ))?;
    engine.project_pending(100)?;
    engine.ingest_event(&event_at(
        MemoryNodeKind::Fact,
        "Do not use Checkout uses DATABASE_URL; it is deprecated.",
        4_000_000_000_000,
    ))?;
    engine.project_pending(100)?;

    let answer = ask(&engine, 
        &MemoryQuery::new(
            "checkout database_url",
            MemoryScope::new("tenant", "project"),
        )
        .with_modes(vec![MemoryMode::Semantic]),
    )?;

    assert!(
        answer
            .evidence
            .iter()
            .any(|item| item.text == "Checkout uses DATABASE_URL.")
    );
    assert!(answer.contradictions.is_empty());
    assert!(answer.stale_assumptions.is_empty());
    Ok(())
}

#[test]
fn current_query_filters_future_citations() -> MemoryResult<()> {
    let mut engine = MemoryEngine::in_memory();
    engine.ingest_event(&event_at(
        MemoryNodeKind::Fact,
        "Checkout uses DATABASE_URL.",
        1_000,
    ))?;
    engine.project_pending(100)?;
    engine.ingest_event(&event_at(
        MemoryNodeKind::Fact,
        "Checkout uses DATABASE_URL.",
        4_000_000_000_000,
    ))?;
    engine.project_pending(100)?;

    let answer = ask(&engine, 
        &MemoryQuery::new(
            "checkout database_url",
            MemoryScope::new("tenant", "project"),
        )
        .with_modes(vec![MemoryMode::Semantic]),
    )?;

    assert!(!answer.cited_spans.is_empty());
    assert!(
        answer
            .cited_spans
            .iter()
            .all(|span| span.trace_id == "trace-1000")
    );
    assert!(
        !answer
            .cited_spans
            .iter()
            .any(|span| span.trace_id == "trace-4000000000000")
    );
    Ok(())
}

#[test]
fn same_family_rollover_does_not_surface_false_stale_assumption() -> MemoryResult<()> {
    let mut engine = MemoryEngine::in_memory();
    engine.ingest_event(&event_at(
        MemoryNodeKind::Fact,
        "Checkout uses DATABASE_URL.",
        3_000,
    ))?;
    engine.project_pending(100)?;
    engine.ingest_event(&event_at(
        MemoryNodeKind::Fact,
        "Checkout uses DATABASE_URL.",
        1_000,
    ))?;
    engine.project_pending(100)?;

    let answer = ask(&engine, 
        &MemoryQuery::new(
            "checkout database_url",
            MemoryScope::new("tenant", "project").as_of_unix_ms(3_500),
        )
        .with_modes(vec![MemoryMode::Semantic]),
    )?;

    assert!(!answer.evidence.is_empty());
    assert!(answer.stale_assumptions.is_empty());
    assert!(answer.contradictions.is_empty());
    Ok(())
}

#[test]
fn late_arrival_versions_converge_after_rebuild() -> MemoryResult<()> {
    let mut engine = MemoryEngine::in_memory();
    engine.ingest_event(&event_at(
        MemoryNodeKind::Fact,
        "Checkout uses DATABASE_URL.",
        3_000,
    ))?;
    engine.project_pending(100)?;
    engine.ingest_event(&event_at(
        MemoryNodeKind::Fact,
        "Checkout uses DATABASE_URL.",
        1_000,
    ))?;
    engine.project_pending(100)?;

    let query = MemoryQuery::new(
        "checkout database_url",
        MemoryScope::new("tenant", "project").as_of_unix_ms(3_500),
    )
    .with_modes(vec![MemoryMode::Semantic]);
    let incremental = ask(&engine, &query)?;
    engine.rebuild_projection(100, None)?;
    let rebuilt = ask(&engine, &query)?;

    assert_eq!(evidence_texts(&incremental), evidence_texts(&rebuilt));
    assert_evidence_scores_close(&incremental, &rebuilt);
    assert_eq!(incremental.stale_assumptions, rebuilt.stale_assumptions);
    assert_eq!(incremental.contradictions, rebuilt.contradictions);
    Ok(())
}

#[test]
fn late_arrival_invalidation_target_converges_after_rebuild() -> MemoryResult<()> {
    let mut engine = MemoryEngine::in_memory();
    engine.ingest_event(&event_at(
        MemoryNodeKind::Fact,
        "Use crowd token alpha.",
        3_000,
    ))?;
    engine.project_pending(100)?;
    engine.ingest_event(&event_at(
        MemoryNodeKind::Fact,
        "Do not use crowd token alpha; it is deprecated. Use scoped crowd token alpha.",
        2_000,
    ))?;
    engine.project_pending(100)?;
    engine.ingest_event(&event_at(
        MemoryNodeKind::Fact,
        "Use crowd token alpha.",
        1_000,
    ))?;
    let late_report = engine.project_pending(100)?;
    assert_eq!(late_report.memories_invalidated, 1);
    assert_eq!(
        late_report.stored_memories_touched,
        late_report.memories_added
            + late_report.memories_updated
            + late_report.memories_invalidated
    );

    let query = MemoryQuery::new(
        "crowd token alpha",
        MemoryScope::new("tenant", "project").as_of_unix_ms(2_500),
    )
    .with_modes(vec![MemoryMode::Semantic]);
    let incremental = ask(&engine, &query)?;
    engine.rebuild_projection(100, None)?;
    let rebuilt = ask(&engine, &query)?;

    assert_eq!(evidence_texts(&incremental), evidence_texts(&rebuilt));
    assert_evidence_scores_close(&incremental, &rebuilt);
    assert_eq!(incremental.stale_assumptions, rebuilt.stale_assumptions);
    assert_eq!(incremental.contradictions, rebuilt.contradictions);
    assert!(!rebuilt.stale_assumptions.is_empty());
    assert!(!rebuilt.contradictions.is_empty());
    Ok(())
}

#[test]
fn late_invalidation_replays_replacement_against_later_invalidations() -> MemoryResult<()> {
    let mut engine = MemoryEngine::in_memory();
    let old = "Use crowd token alpha.";
    let scoped =
        "Do not use crowd token alpha; it is deprecated. Use scoped crowd token alpha.";
    let rotated =
        "Do not use scoped crowd token alpha; it is deprecated. Use rotated crowd token alpha.";
    engine.ingest_event(&event_at(MemoryNodeKind::Fact, old, 1_000))?;
    engine.project_pending(100)?;
    engine.ingest_event(&event_at(MemoryNodeKind::Fact, rotated, 3_000))?;
    engine.project_pending(100)?;
    engine.ingest_event(&event_at(MemoryNodeKind::Fact, scoped, 2_000))?;
    engine.project_pending(100)?;

    let before_later_invalidation = ask(&engine, 
        &MemoryQuery::new(
            "scoped crowd token alpha",
            MemoryScope::new("tenant", "project").as_of_unix_ms(2_500),
        )
        .with_modes(vec![MemoryMode::Semantic]),
    )?;
    assert!(
        before_later_invalidation
            .evidence
            .iter()
            .any(|item| item.text.contains(scoped))
    );

    let after_later_invalidation_query = MemoryQuery::new(
        "scoped crowd token alpha",
        MemoryScope::new("tenant", "project").as_of_unix_ms(3_500),
    )
    .with_modes(vec![MemoryMode::Semantic]);
    let incremental = ask(&engine, &after_later_invalidation_query)?;
    assert!(
        incremental
            .evidence
            .iter()
            .any(|item| item.text.contains(rotated))
    );
    assert!(
        !incremental
            .evidence
            .iter()
            .any(|item| item.text.contains(scoped))
    );

    let nodes = engine.store().all_nodes("tenant", "project", None);
    let scoped_node = nodes.iter().find(|node| node.text == scoped).unwrap();
    let rotated_node = nodes.iter().find(|node| node.text == rotated).unwrap();
    assert_eq!(scoped_node.valid_to_unix_ms, Some(3_000));
    assert!(rotated_node.is_active_at(Some(3_500)));
    let edges = engine.store().edges_for_scope("tenant", "project", None);
    assert!(edges.iter().any(|edge| {
        edge.from_node_id == rotated_node.id
            && edge.to_node_id == scoped_node.id
            && edge.kind == MemoryEdgeKind::Contradicts
            && edge.created_at_unix_ms == 3_000
    }));
    assert!(edges.iter().any(|edge| {
        edge.from_node_id == rotated_node.id
            && edge.to_node_id == scoped_node.id
            && edge.kind == MemoryEdgeKind::Supersedes
            && edge.created_at_unix_ms == 3_000
    }));

    engine.rebuild_projection(100, None)?;
    let rebuilt = ask(&engine, &after_later_invalidation_query)?;
    assert_eq!(evidence_texts(&incremental), evidence_texts(&rebuilt));
    assert_evidence_scores_close(&incremental, &rebuilt);
    Ok(())
}

#[test]
fn late_replay_uses_full_pre_event_neighbors_for_target_choice() -> MemoryResult<()> {
    let mut engine = MemoryEngine::in_memory();
    let better_target = "Use premium beta token for deploys.";
    let weak_late_node = "Use beta token.";
    let future_invalidation = "Do not use premium beta token for deploys; it is deprecated. Use gamma token for deploys.";
    engine.ingest_event(&event_at(MemoryNodeKind::Fact, better_target, 1_000))?;
    engine.project_pending(100)?;
    engine.ingest_event(&event_at(MemoryNodeKind::Fact, future_invalidation, 3_000))?;
    engine.project_pending(100)?;
    engine.ingest_event(&event_at(MemoryNodeKind::Fact, weak_late_node, 2_000))?;
    engine.project_pending(100)?;

    let incremental_nodes = engine.store().all_nodes("tenant", "project", None);
    assert_eq!(
        node_valid_to(&incremental_nodes, better_target),
        Some(Some(3_000))
    );
    assert_eq!(
        node_valid_to(&incremental_nodes, weak_late_node),
        Some(None)
    );

    engine.rebuild_projection(100, None)?;
    let rebuilt_nodes = engine.store().all_nodes("tenant", "project", None);
    assert_eq!(node_valid_to(&rebuilt_nodes, weak_late_node), Some(None));
    Ok(())
}

fn linked_reconstruction_fixture<D, R>(
    engine: &mut MemoryEngine<D, R>,
    source_observed_at_unix_ms: i64,
    target_observed_at_unix_ms: i64,
    edge_observed_at_unix_ms: i64,
) -> MemoryResult<(MemoryNode, MemoryNode)>
where
    D: Distiller,
    R: ActiveReconstructor,
{
    let source_text = "Incident alpha blocked deploys.";
    let target_text = "Credential beta rotation restored deploys.";
    engine.ingest_event(&event_at(
        MemoryNodeKind::Fact,
        source_text,
        source_observed_at_unix_ms,
    ))?;
    engine.project_pending(100)?;
    engine.ingest_event(&event_at(
        MemoryNodeKind::Fact,
        target_text,
        target_observed_at_unix_ms,
    ))?;
    engine.project_pending(100)?;

    let nodes = engine.store().all_nodes("tenant", "project", None);
    let source = nodes
        .iter()
        .find(|node| node.text == source_text && node.kind == MemoryNodeKind::Fact)
        .cloned()
        .expect("source memory should exist");
    let target = nodes
        .iter()
        .find(|node| node.text == target_text && node.kind == MemoryNodeKind::Fact)
        .cloned()
        .expect("target memory should exist");
    engine.store.insert_edge(
        StoreScope::new("tenant", "project", None),
        &source.id,
        &target.id,
        MemoryEdgeKind::Fixes,
        100,
        edge_observed_at_unix_ms,
    )?;
    Ok((source, target))
}

fn event_at(kind: MemoryNodeKind, text: &str, observed_at_unix_ms: i64) -> LedgerEvent {
    let mut event = LedgerEvent::direct_memory_write("tenant", "project", kind, text);
    event.trace_id = format!("trace-{observed_at_unix_ms}");
    event.span_id = format!("span-{observed_at_unix_ms}");
    event.observed_at_unix_ms = observed_at_unix_ms;
    event.ingested_at_unix_ms = observed_at_unix_ms;
    event
}

fn evidence_texts(answer: &MemoryAnswer) -> Vec<String> {
    answer
        .evidence
        .iter()
        .map(|item| item.text.clone())
        .collect()
}

fn evidence_scores(answer: &MemoryAnswer) -> Vec<u32> {
    answer
        .evidence
        .iter()
        .map(|item| (item.score + 500) / 1_000)
        .collect()
}

fn assert_evidence_scores_close(left: &MemoryAnswer, right: &MemoryAnswer) {
    let left = evidence_scores(left);
    let right = evidence_scores(right);
    assert_eq!(left.len(), right.len());
    for (left, right) in left.iter().zip(right.iter()) {
        assert!(
            left.abs_diff(*right) <= 1,
            "evidence score mismatch: {left} vs {right}"
        );
    }
}

fn node_valid_to(nodes: &[MemoryNode], text: &str) -> Option<Option<i64>> {
    nodes
        .iter()
        .find(|node| node.text == text)
        .map(|node| node.valid_to_unix_ms)
}


#[test]
fn query_returns_cited_evidence() -> MemoryResult<()> {
    let mut engine = MemoryEngine::in_memory();
    engine.ingest_event(&LedgerEvent::direct_memory_write(
        "tenant",
        "project",
        MemoryNodeKind::Gotcha,
        "Checkout fails with DATABASE_URL missing. Fix by setting DATABASE_URL.",
    ))?;
    engine.project_pending(100)?;

    let answer = ask(
        &engine,
        &MemoryQuery::new(
            "checkout database failure",
            MemoryScope::new("tenant", "project"),
        ),
    )?;

    assert!(!answer.evidence.is_empty());
    assert!(!answer.cited_spans.is_empty());
    assert!(answer
        .evidence
        .iter()
        .all(|item| item.kind != MemoryNodeKind::EntityCue));
    assert!(answer.answer.contains("Relevant memory"));
    Ok(())
}

fn run_eval_suite(suite: &EvalSuite, options: &EvalOptions) -> MemoryResult<EvalReport> {
    assert!(default_times_fit(suite));
    let run = begin_eval_suite(suite, options, now())?;
    let mut case_reports = Vec::new();
    for case in &suite.cases {
        let answer = ask(&run.engine, &build_query(suite, case, options))?;
        case_reports.push(report_case(case, &answer, 1));
    }
    Ok(finish_eval_suite(
        suite,
        run.project,
        run.stats,
        case_reports,
    ))
}

fn ratio(score: EvalScore) -> f32 {
    if score.total == 0 {
        0.0
    } else {
        score.matched as f32 / score.total as f32
    }
}

fn average(values: &[f32]) -> f32 {
    if values.is_empty() {
        0.0
    } else {
        values.iter().sum::<f32>() / values.len() as f32
    }
}

fn suite_score(report: &EvalReport) -> f32 {
    let values: Vec<f32> = report
        .case_reports
        .iter()
        .map(|case| ratio(case.score))
        .collect();
    average(&values)
}

fn baseline_score(report: &EvalReport) -> Option<f32> {
    if report.baselines.is_empty() {
        return None;
    }
    let values: Vec<f32> = report
        .baselines
        .iter()
        .map(|pair| pair.baseline as f32 / 1e9)
        .collect();
    Some(average(&values))
}

fn saturation_gap(report: &EvalReport) -> Option<f32> {
    let baseline = baseline_score(report)?;
    let values: Vec<f32> = report
        .baselines
        .iter()
        .map(|pair| ratio(pair.score))
        .collect();
    Some((baseline - average(&values)).max(0.0))
}

fn case_defaults() -> EvalCase {
    EvalCase {
        id: String::new(),
        ability: EvalAbility::Other,
        tenant_id: None,
        project_id: None,
        environment_id: None,
        as_of_unix_ms: None,
        require_fresh: false,
        question: String::new(),
        max_tokens: None,
        modes: None,
        reconstruction: None,
        baseline_full_context_score: None,
        events: Vec::new(),
        expected_answer_contains: Vec::new(),
        expected_evidence_contains: Vec::new(),
        expected_stale_contains: Vec::new(),
        expected_contradiction_contains: Vec::new(),
        expected_tier: None,
    }
}

fn suite_of(name: &str, cases: Vec<EvalCase>) -> EvalSuite {
    EvalSuite {
        name: name.to_string(),
        tenant_id: "tenant".to_string(),
        project_id: "project".to_string(),
        environment_id: None,
        shared_haystack: false,
        cases,
    }
}

fn eval_event(kind: MemoryNodeKind, text: &str, at: i64) -> EvalEvent {
    EvalEvent {
        kind,
        text: text.to_string(),
        observed_at_unix_ms: Some(at),
    }
}

#[test]
fn eval_suite_reports_ability_scores_and_economics() -> MemoryResult<()> {
    let suite = suite_of(
        "smoke",
        vec![
            EvalCase {
                id: "state".to_string(),
                ability: EvalAbility::StaticStateRecall,
                question: "what is the production api base url?".to_string(),
                events: vec![eval_event(
                    MemoryNodeKind::State,
                    "The production API base URL is https://api.example.test.",
                    1_000,
                )],
                modes: Some(vec![MemoryMode::State]),
                baseline_full_context_score: Some(1_000_000_000),
                expected_evidence_contains: vec!["https://api.example.test".to_string()],
                expected_tier: Some(MemoryTier::Activation),
                ..case_defaults()
            },
            EvalCase {
                id: "premise".to_string(),
                ability: EvalAbility::PremiseAwareness,
                question: "should I use the legacy api token?".to_string(),
                events: vec![
                    eval_event(MemoryNodeKind::Fact, "Use the legacy API token.", 2_000),
                    eval_event(
                        MemoryNodeKind::Fact,
                        "Do not use the legacy API token; it is deprecated. Use the scoped API token.",
                        3_000,
                    ),
                ],
                modes: Some(vec![MemoryMode::Semantic]),
                reconstruction: Some(ReconstructionOptions {
                    mode: ReconstructionMode::Auto,
                    ..ReconstructionOptions::default()
                }),
                baseline_full_context_score: Some(1_000_000_000),
                expected_evidence_contains: vec!["scoped API token".to_string()],
                expected_stale_contains: vec!["legacy API token".to_string()],
                expected_contradiction_contains: vec!["scoped API token".to_string()],
                ..case_defaults()
            },
        ],
    );

    let report = run_eval_suite(&suite, &EvalOptions::default())?;

    assert_eq!(report.cases, 2);
    assert_eq!(report.passed, 2);
    assert_eq!(report.failed, 0);
    assert_eq!(suite_score(&report), 1.0);
    assert_eq!(saturation_gap(&report), Some(0.0));
    assert!(report.project.source_token_estimate > 0);
    assert!(report.project.projected_memory_token_estimate > 0);
    assert!(report.project.stored_memories_touched > 0);
    assert_eq!(report.ability_scores.len(), 2);
    assert!(report
        .tier_metrics
        .iter()
        .any(|tier| tier.tier == MemoryTier::Activation && tier.requests >= 1));
    Ok(())
}

#[test]
fn eval_suite_rejects_cases_without_expectations() {
    let suite = suite_of(
        "invalid",
        vec![EvalCase {
            id: "missing-expectations".to_string(),
            question: "what changed?".to_string(),
            events: vec![eval_event(
                MemoryNodeKind::Fact,
                "Checkout uses DATABASE_URL.",
                1_000,
            )],
            ..case_defaults()
        }],
    );

    let err = run_eval_suite(&suite, &EvalOptions::default()).unwrap_err();

    assert!(err.message().contains("expectation"));
}

#[test]
fn eval_suite_rejects_tier_only_cases() {
    let suite = suite_of(
        "invalid",
        vec![EvalCase {
            id: "tier-only".to_string(),
            question: "what tier did this use?".to_string(),
            events: vec![eval_event(
                MemoryNodeKind::Fact,
                "Checkout uses DATABASE_URL.",
                1_000,
            )],
            expected_tier: Some(MemoryTier::Activation),
            ..case_defaults()
        }],
    );

    let err = run_eval_suite(&suite, &EvalOptions::default()).unwrap_err();

    assert!(err.message().contains("content expectation"));
}

#[test]
fn context_saturation_gap_uses_only_cases_with_baselines() -> MemoryResult<()> {
    let suite = suite_of(
        "baseline-subset",
        vec![
            EvalCase {
                id: "baseline".to_string(),
                question: "what route is healthy?".to_string(),
                events: vec![eval_event(
                    MemoryNodeKind::Fact,
                    "The health route is /livez.",
                    1_000,
                )],
                baseline_full_context_score: Some(1_000_000_000),
                expected_evidence_contains: vec!["/readyz".to_string()],
                ..case_defaults()
            },
            EvalCase {
                id: "no-baseline-pass".to_string(),
                question: "what database is configured?".to_string(),
                events: vec![eval_event(
                    MemoryNodeKind::Fact,
                    "Checkout uses DATABASE_URL.",
                    2_000,
                )],
                expected_evidence_contains: vec!["DATABASE_URL".to_string()],
                ..case_defaults()
            },
        ],
    );

    let report = run_eval_suite(&suite, &EvalOptions::default())?;

    assert_eq!(suite_score(&report), 0.5);
    assert_eq!(baseline_score(&report), Some(1.0));
    assert_eq!(saturation_gap(&report), Some(1.0));
    assert_eq!(
        report.case_reports[0].failure_reasons,
        vec!["missing evidence substring \"/readyz\""]
    );
    Ok(())
}

#[test]
fn eval_cases_are_isolated_by_default() -> MemoryResult<()> {
    let mut suite = suite_of(
        "isolation",
        vec![
            EvalCase {
                id: "first".to_string(),
                question: "where is the shared fixture token?".to_string(),
                events: vec![eval_event(
                    MemoryNodeKind::Fact,
                    "The first case only mentions alpha.",
                    1_000,
                )],
                expected_evidence_contains: vec!["shared fixture token is beta".to_string()],
                ..case_defaults()
            },
            EvalCase {
                id: "second".to_string(),
                question: "where is the shared fixture token?".to_string(),
                events: vec![eval_event(
                    MemoryNodeKind::Fact,
                    "The shared fixture token is beta.",
                    2_000,
                )],
                expected_evidence_contains: vec!["shared fixture token is beta".to_string()],
                ..case_defaults()
            },
        ],
    );

    let isolated = run_eval_suite(&suite, &EvalOptions::default())?;
    suite.shared_haystack = true;
    let shared = run_eval_suite(&suite, &EvalOptions::default())?;

    assert!(!isolated.case_reports[0].passed);
    assert!(isolated.case_reports[1].passed);
    assert!(shared.case_reports[0].passed);
    assert!(shared.case_reports[1].passed);
    Ok(())
}

#[test]
fn reconstruction_budget_override_preserves_case_mode() {
    let suite = suite_of("override", Vec::new());
    let case = EvalCase {
        id: "force".to_string(),
        question: "incident chain".to_string(),
        events: vec![eval_event(
            MemoryNodeKind::Fact,
            "Incident alpha blocked deploys.",
            1_000,
        )],
        reconstruction: Some(ReconstructionOptions {
            mode: ReconstructionMode::Force,
            max_steps: 4,
            max_tokens: 2_000,
        }),
        expected_evidence_contains: vec!["Incident alpha".to_string()],
        ..case_defaults()
    };

    let query = build_query(
        &suite,
        &case,
        &EvalOptions {
            max_tokens: None,
            reconstruction_mode: None,
            max_reconstruction_steps: Some(2),
            max_reconstruction_tokens: Some(500),
        },
    );

    assert_eq!(query.reconstruction.mode, ReconstructionMode::Force);
    assert_eq!(query.reconstruction.max_steps, 2);
    assert_eq!(query.reconstruction.max_tokens, 500);
}

#[test]
fn wrong_tiers_zero_the_score() -> MemoryResult<()> {
    let suite = suite_of(
        "gate",
        vec![EvalCase {
            id: "gate".to_string(),
            question: "what database is configured?".to_string(),
            events: vec![eval_event(
                MemoryNodeKind::Fact,
                "Checkout uses DATABASE_URL.",
                2_000,
            )],
            expected_evidence_contains: vec!["database_url".to_string()],
            expected_tier: Some(MemoryTier::ActiveReconstruction),
            ..case_defaults()
        }],
    );

    let report = run_eval_suite(&suite, &EvalOptions::default())?;

    let case = &report.case_reports[0];
    assert!(!case.passed);
    assert_eq!(case.score, EvalScore { matched: 0, total: 1 });
    assert_eq!(case.content_score, EvalScore { matched: 1, total: 1 });
    assert_eq!(
        case.failure_reasons,
        vec!["expected tier ActiveReconstruction, got Activation"]
    );
    assert_eq!(report.failed, 1);
    assert_eq!(report.tier_metrics[0].requests, 1);
    assert_eq!(report.query_latency_ms_sum, 1);
    Ok(())
}

#[test]
fn remembered_memories_are_answered() -> MemoryResult<()> {
    let mut engine = MemoryEngine::in_memory();
    let response = remember(
        &mut engine,
        RememberHttpRequest {
            tenant_id: "tenant".to_string(),
            project_id: "project".to_string(),
            environment_id: None,
            kind: MemoryNodeKind::Gotcha,
            text: "Checkout fails when DATABASE_URL is missing. Fix by setting DATABASE_URL."
                .to_string(),
            project: None,
            idempotency_key: Some("retry".to_string()),
        },
        now(),
    )
    .unwrap();
    assert!(response.ingested);
    assert_eq!(response.project.unwrap().events_projected, 1);

    let answer = ask(
        &engine,
        &MemoryQuery::new(
            "How do we fix checkout database failures?",
            MemoryScope::new("tenant", "project"),
        ),
    )?;
    assert!(answer.answer.contains("DATABASE_URL"));
    assert!(!answer.cited_spans.is_empty());
    assert!(answer.token_estimate > 0);

    let elsewhere = ask(
        &engine,
        &MemoryQuery::new(
            "How do we fix checkout database failures?",
            MemoryScope::new("tenant", "other"),
        ),
    )?;
    assert!(elsewhere.evidence.is_empty());
    assert_eq!(
        elsewhere.answer,
        "No matching memory was found for this scope."
    );
    Ok(())
}

#[test]
fn memories_can_be_kept_without_projecting() {
    let mut engine = MemoryEngine::in_memory();
    let request = RememberHttpRequest {
        tenant_id: "tenant".to_string(),
        project_id: "project".to_string(),
        environment_id: None,
        kind: MemoryNodeKind::Fact,
        text: "Append this observation without managing projections yet.".to_string(),
        project: Some(false),
        idempotency_key: Some("retry".to_string()),
    };
    let first = remember(&mut engine, request.clone(), now()).unwrap();
    let second = remember(&mut engine, request, now() + 5).unwrap();

    assert!(first.ingested);
    assert!(!second.ingested);
    assert!(first.project.is_none());
    assert_eq!(engine.store().stats(now()).pending_events, 1);
}

#[test]
fn manage_pending_rejects_zero_limit() {
    let mut engine = MemoryEngine::in_memory();
    let err = engine.manage_pending(0).unwrap_err();
    assert!(err.message().contains("manage limit"));
    let err = engine.rebuild_projection(0, None).unwrap_err();
    assert!(err.message().contains("batch_size"));
}

#[test]
fn evidence_may_be_weak_or_close() {
    let item = |score: u32| Evidence::new("node", MemoryNodeKind::Fact, "text", score);
    assert!(!is_weak(&Vec::new()));
    assert!(is_weak(&vec![item(249_999_999)]));
    assert!(!is_weak(&vec![item(250_000_000)]));
    assert!(!is_close(&vec![item(900_000_000)]));
    assert!(is_close(&vec![item(900_000_000), item(880_000_001)]));
    assert!(!is_close(&vec![item(900_000_000), item(880_000_000)]));
}

#[test]
fn inquiries_widen_before_they_give_up() -> MemoryResult<()> {
    let mut engine = MemoryEngine::in_memory();
    engine.ingest_event(&event_at(
        MemoryNodeKind::Fact,
        "Deploy workflow steps live in the handbook.",
        1_000,
    ))?;
    engine.project_pending(100)?;

    let answer = ask(
        &engine,
        &MemoryQuery::new(
            "deploy workflow steps",
            MemoryScope::new("tenant", "project"),
        ),
    )?;

    let routing = answer.routing.as_ref().expect("routing report");
    assert_eq!(routing.reason, RoutingReason::EmptyRouteFallback);
    assert_eq!(routing.routed_modes, MemoryNodeKind::default_modes());
    assert!(answer
        .evidence
        .iter()
        .any(|item| item.kind == MemoryNodeKind::Fact));
    Ok(())
}
