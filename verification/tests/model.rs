//! Queries, scopes, memories and evidence.
use std::str::FromStr;

use beater_memory::model::{
    budget_evidence, estimate_tokens, is_default_reconstruction_options, BeliefRevisionOp,
    CitedSpan, DistilledMemory, Evidence,
    MemoryAnswer, MemoryEdgeKind, MemoryMode, MemoryNodeKind, MemoryQuery, MemoryScope, MemoryTier,
    ReconstructionMode, ReconstructionOptions,
};

#[test]
fn query_defaults_to_all_modes_and_a_budget() {
    let query = MemoryQuery::new("what changed?", MemoryScope::new("tenant", "project"));

    assert_eq!(query.max_tokens, 1_200);
    assert!(query.modes.contains(&MemoryMode::Semantic));
    assert!(query.modes.contains(&MemoryMode::Gotcha));
    assert!(!query.require_fresh);
    assert!(!query.modes_explicit);
    assert_eq!(query.reconstruction, ReconstructionOptions::default());
    query.validate().unwrap_or_else(|err| panic!("{err:?}"));
}

#[test]
fn scope_validation_rejects_malformed_identifiers() {
    let err = MemoryScope::new(" tenant", "project")
        .validate()
        .unwrap_err();
    assert!(err.message().contains("tenant_id"));

    let err = MemoryScope::new("tenant", "").validate().unwrap_err();
    assert!(err.message().contains("project_id"));

    let err = MemoryScope::new("tenant", "project")
        .with_environment(" ")
        .validate()
        .unwrap_err();
    assert!(err.message().contains("environment_id"));

    let err = MemoryScope::new("tenant", "project")
        .as_of_unix_ms(-1)
        .validate()
        .unwrap_err();
    assert!(err.message().contains("as_of_unix_ms"));
}

#[test]
fn scopes_know_from_a_time_since_the_epoch() {
    let scope = MemoryScope::new("tenant", "project");
    assert!(scope.clone().known_at_unix_ms(0).validate().is_ok());
    let err = scope.known_at_unix_ms(-1).validate().unwrap_err();
    assert_eq!(
        err.message(),
        "invalid input: known_at_unix_ms must be non-negative"
    );
}

#[test]
fn query_validation_rejects_unusable_requests() {
    let scope = MemoryScope::new("tenant", "project");

    let err = MemoryQuery::new(" ", scope.clone()).validate().unwrap_err();
    assert!(err.message().contains("question"));

    let err = MemoryQuery::new("what changed?", scope.clone())
        .with_max_tokens(0)
        .validate()
        .unwrap_err();
    assert!(err.message().contains("max_tokens"));

    let err = MemoryQuery::new("what changed?", scope)
        .with_modes(Vec::new())
        .validate()
        .unwrap_err();
    assert!(err.message().contains("modes"));
}

#[test]
fn cited_span_validation_rejects_malformed_provenance() {
    let mut span = valid_span();
    span.trace_id = " trace".to_string();
    let err = span.validate().unwrap_err();
    assert!(err.message().contains("cited_span.trace_id"));

    let mut span = valid_span();
    span.seq = 0;
    let err = span.validate().unwrap_err();
    assert!(err.message().contains("cited_span.seq"));
}

#[test]
fn distilled_memory_validation_rejects_malformed_outputs() {
    DistilledMemory::add(
        MemoryNodeKind::Fact,
        "Checkout uses DATABASE_URL.",
        valid_span(),
    )
    .validate()
    .unwrap_or_else(|err| panic!("{err:?}"));

    let err = DistilledMemory::add(MemoryNodeKind::Fact, " ", valid_span())
        .validate()
        .unwrap_err();
    assert!(err.message().contains("text"));

    let err = DistilledMemory {
        op: BeliefRevisionOp::Noop,
        node_kind: MemoryNodeKind::Episode,
        text: String::new(),
        target_node_id: Some("node_1".to_string()),
        cited_spans: vec![valid_span()],
    }
    .validate()
    .unwrap_err();
    assert!(err.message().contains("target_node_id"));

    let err = DistilledMemory {
        op: BeliefRevisionOp::Invalidate,
        node_kind: MemoryNodeKind::Fact,
        text: String::new(),
        target_node_id: None,
        cited_spans: vec![valid_span()],
    }
    .validate()
    .unwrap_err();
    assert!(err.message().contains("invalidate memory"));

    let err = DistilledMemory {
        op: BeliefRevisionOp::Add,
        node_kind: MemoryNodeKind::Fact,
        text: "Checkout uses DATABASE_URL.".to_string(),
        target_node_id: None,
        cited_spans: Vec::new(),
    }
    .validate()
    .unwrap_err();
    assert!(err.message().contains("cited_spans"));
}

#[test]
fn token_estimate_is_nonzero_for_nonempty_text() {
    assert_eq!(estimate_tokens(""), 0);
    assert_eq!(estimate_tokens("abcd"), 1);
    assert_eq!(estimate_tokens("abcde"), 2);
}

#[test]
fn evidence_budget_prefers_high_score_items_that_fit() {
    let selected = budget_evidence(
        vec![
            Evidence::new("low", MemoryNodeKind::Fact, "tiny", 100_000_000),
            Evidence::new(
                "big",
                MemoryNodeKind::Procedure,
                &"x".repeat(80),
                1_000_000_000,
            ),
            Evidence::new("high", MemoryNodeKind::Gotcha, "small", 900_000_000),
        ],
        3,
    );

    let ids: Vec<&str> = selected.iter().map(|item| item.node_id.as_str()).collect();
    assert_eq!(ids, vec!["high", "low"]);
}

#[test]
fn budgets_are_kept_and_used() {
    let items = vec![
        Evidence::new("a", MemoryNodeKind::Fact, "12345678", 5),
        Evidence::new("b", MemoryNodeKind::Fact, "1234", 9),
        Evidence::new("c", MemoryNodeKind::Fact, "123456789012", 7),
    ];
    let selected = budget_evidence(items, 4);
    let spent: u32 = selected.iter().map(|item| item.token_estimate).sum();
    assert!(spent <= 4);
    let ids: Vec<&str> = selected.iter().map(|item| item.node_id.as_str()).collect();
    assert_eq!(ids, vec!["b", "c"]);
}

#[test]
fn names_are_read_back() {
    for kind in [
        MemoryNodeKind::Episode,
        MemoryNodeKind::Fact,
        MemoryNodeKind::EntityCue,
        MemoryNodeKind::Tag,
        MemoryNodeKind::Procedure,
        MemoryNodeKind::State,
        MemoryNodeKind::Gotcha,
        MemoryNodeKind::AntiMemory,
        MemoryNodeKind::Topic,
    ] {
        assert_eq!(kind.as_str().parse::<MemoryNodeKind>(), Ok(kind));
    }
    for op in [
        BeliefRevisionOp::Add,
        BeliefRevisionOp::Update,
        BeliefRevisionOp::Invalidate,
        BeliefRevisionOp::Noop,
    ] {
        assert_eq!(op.as_str().parse::<BeliefRevisionOp>(), Ok(op));
    }
    assert_eq!(
        MemoryEdgeKind::Contradicts.as_str().parse::<MemoryEdgeKind>(),
        Ok(MemoryEdgeKind::Contradicts)
    );
}

#[test]
fn unknown_names_are_quoted_in_the_error() {
    let err = "not \"a\" kind".parse::<MemoryNodeKind>().unwrap_err();
    assert!(err.contains("not \"a\" kind") || err.contains("not \\\"a\\\" kind"));
}

#[test]
fn reconstruction_options_reject_empty_bounds() {
    let mut options = ReconstructionOptions::force();
    assert_eq!(options.mode, ReconstructionMode::Force);
    options.validate().unwrap();
    options.max_steps = 0;
    assert_eq!(
        options.validate().unwrap_err().message(),
        "invalid input: max_reconstruction_steps must be greater than 0"
    );
    let mut options = ReconstructionOptions::off();
    options.max_tokens = 0;
    assert_eq!(
        options.validate().unwrap_err().message(),
        "invalid input: max_reconstruction_tokens must be greater than 0"
    );
}

#[test]
fn modes_take_their_kinds() {
    let query = MemoryQuery::new("anything", MemoryScope::new("tenant", "project"))
        .with_modes(vec![MemoryMode::Procedural])
        .requiring_fresh();
    assert!(query.require_fresh);
    assert!(query.modes_explicit);
    assert!(query.accepts_kind(MemoryNodeKind::Procedure));
    assert!(!query.accepts_kind(MemoryNodeKind::Fact));
}

#[test]
fn empty_answers_say_nothing() {
    let answer = MemoryAnswer::empty(MemoryTier::Activation);
    assert!(answer.answer.is_empty());
    assert!(answer.evidence.is_empty());
    assert!(answer.reconstruction.is_none());
    assert_eq!(answer.tier_used, MemoryTier::Activation);
}

fn valid_span() -> CitedSpan {
    CitedSpan {
        tenant_id: "tenant".to_string(),
        project_id: "project".to_string(),
        trace_id: "trace".to_string(),
        span_id: "span".to_string(),
        seq: 1,
    }
}

#[test]
fn evidence_gathers_citations() {
    let item = Evidence::new("node", MemoryNodeKind::Fact, "tiny", 1).with_cited_span(valid_span());
    assert_eq!(item.cited_spans, vec![valid_span()]);
    assert_eq!(item.token_estimate, 1);
}

#[test]
fn default_options_are_recognized() {
    assert!(is_default_reconstruction_options(
        &ReconstructionOptions::default()
    ));
    assert!(!is_default_reconstruction_options(
        &ReconstructionOptions::force()
    ));
}

#[test]
fn names_are_read_back_by_from_str() {
    let kinds = [
        MemoryEdgeKind::Mentions,
        MemoryEdgeKind::CausedBy,
        MemoryEdgeKind::Fixes,
        MemoryEdgeKind::Contradicts,
        MemoryEdgeKind::Supersedes,
        MemoryEdgeKind::Before,
        MemoryEdgeKind::After,
        MemoryEdgeKind::PartOf,
        MemoryEdgeKind::DerivedFrom,
        MemoryEdgeKind::Blocks,
        MemoryEdgeKind::Enables,
        MemoryEdgeKind::ObservedIn,
    ];
    for kind in kinds {
        assert_eq!(MemoryEdgeKind::from_str(kind.as_str()), Ok(kind));
    }
    for op in [
        BeliefRevisionOp::Add,
        BeliefRevisionOp::Update,
        BeliefRevisionOp::Invalidate,
        BeliefRevisionOp::Noop,
    ] {
        assert_eq!(BeliefRevisionOp::from_str(op.as_str()), Ok(op));
    }
    assert_eq!(MemoryNodeKind::from_str("anti-memory"), Ok(MemoryNodeKind::AntiMemory));
    assert_eq!(
        MemoryEdgeKind::from_str("near"),
        Err("unknown memory edge kind \"near\"".to_string())
    );
    assert_eq!(
        BeliefRevisionOp::from_str("drop"),
        Err("unknown belief revision op \"drop\"".to_string())
    );
    assert_eq!(
        MemoryNodeKind::from_str("thing"),
        Err("unknown memory node kind \"thing\"".to_string())
    );
}
