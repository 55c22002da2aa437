//! Routing of questions to memory substores.
use beater_memory::model::{MemoryMode, MemoryNodeKind, RoutingReason};
use beater_memory::route::{
    fallback_route_after_empty_evidence, normalized_modes, route_memory_query, same_mode_set,
    support_kinds_for_modes,
};

fn modes(question: &str) -> Vec<MemoryMode> {
    route_memory_query(question, &MemoryNodeKind::default_modes(), false).routed_modes
}

#[test]
fn routes_failure_queries_to_gotchas_and_procedures() {
    assert_eq!(
        modes("how do we fix checkout failure?"),
        vec![MemoryMode::Gotcha, MemoryMode::Procedural]
    );
}

#[test]
fn routes_workflow_queries_to_procedures() {
    assert_eq!(modes("deploy workflow steps"), vec![MemoryMode::Procedural]);
}

#[test]
fn routes_current_config_queries_to_state() {
    assert_eq!(modes("current production config"), vec![MemoryMode::State]);
}

#[test]
fn routes_timeline_queries_to_episodes_and_facts() {
    assert_eq!(
        modes("when did checkout fail in the timeline?"),
        vec![MemoryMode::Episodic, MemoryMode::Semantic]
    );
}

#[test]
fn ambiguous_queries_fall_back_to_all_allowed_modes() {
    let report = route_memory_query(
        "alpha beta",
        &[MemoryMode::Semantic, MemoryMode::Gotcha],
        true,
    );

    assert_eq!(report.reason, RoutingReason::AmbiguousFallback);
    assert_eq!(
        report.routed_modes,
        vec![MemoryMode::Semantic, MemoryMode::Gotcha]
    );
}

#[test]
fn explicit_modes_constrain_routing() {
    let report = route_memory_query("deploy workflow steps", &[MemoryMode::Semantic], true);

    assert_eq!(report.routed_modes, vec![MemoryMode::Semantic]);
    assert_eq!(report.reason, RoutingReason::AmbiguousFallback);
}

#[test]
fn explicit_multi_modes_are_preserved() {
    let report = route_memory_query(
        "deploy workflow steps",
        &[MemoryMode::Semantic, MemoryMode::Procedural],
        true,
    );

    assert_eq!(
        report.routed_modes,
        vec![MemoryMode::Semantic, MemoryMode::Procedural]
    );
    assert_eq!(report.reason, RoutingReason::AmbiguousFallback);
}

#[test]
fn explicit_all_modes_are_preserved() {
    let report = route_memory_query(
        "deploy workflow steps",
        &[
            MemoryMode::State,
            MemoryMode::Semantic,
            MemoryMode::Gotcha,
            MemoryMode::Episodic,
            MemoryMode::Procedural,
        ],
        true,
    );

    assert_eq!(
        report.routed_modes,
        vec![
            MemoryMode::State,
            MemoryMode::Semantic,
            MemoryMode::Gotcha,
            MemoryMode::Episodic,
            MemoryMode::Procedural,
        ]
    );
    assert_eq!(report.reason, RoutingReason::AmbiguousFallback);
}

#[test]
fn support_kinds_keep_entity_cues_for_graph_traversal() {
    assert_eq!(
        support_kinds_for_modes(&[MemoryMode::Procedural]),
        vec![MemoryNodeKind::EntityCue, MemoryNodeKind::Procedure]
    );
}

#[test]
fn routes_stay_within_what_is_allowed() {
    let report = route_memory_query(
        "how do we fix checkout failure?",
        &[MemoryMode::Semantic, MemoryMode::Gotcha],
        false,
    );
    assert!(report
        .routed_modes
        .iter()
        .all(|mode| report.allowed_modes.contains(mode)));
    assert!(!report.routed_modes.is_empty());
}

#[test]
fn empty_routes_fall_back_to_what_is_allowed() {
    let narrow = route_memory_query(
        "deploy workflow steps",
        &MemoryNodeKind::default_modes(),
        false,
    );
    let wide = fallback_route_after_empty_evidence(&narrow);
    assert_eq!(wide.reason, RoutingReason::EmptyRouteFallback);
    assert_eq!(wide.routed_modes, narrow.allowed_modes);
}

#[test]
fn mode_lists_are_compared_as_sets() {
    assert_eq!(
        normalized_modes(&[MemoryMode::State, MemoryMode::State, MemoryMode::Gotcha]),
        vec![MemoryMode::State, MemoryMode::Gotcha]
    );
    assert!(same_mode_set(
        &[MemoryMode::State, MemoryMode::Gotcha],
        &[MemoryMode::Gotcha, MemoryMode::State]
    ));
    assert!(!same_mode_set(&[MemoryMode::State], &[MemoryMode::Gotcha]));
}
