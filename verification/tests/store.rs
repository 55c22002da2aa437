//! The tables: ledger, nodes, edges, citations, cues and audit.
use beater_memory::error::{MemoryError, MemoryResult};
use beater_memory::json::JsonValue;
use beater_memory::ledger::LedgerEvent;
use beater_memory::model::{CitedSpan, MemoryEdgeKind, MemoryNodeKind};
use beater_memory::projection::{merge_node_text, revision_key};
use beater_memory::rows::{
    canonical_family_key, AuditEvent, AuditRecord, CueEntry, MemoryEdge, NodeSpan, StoreScope,
};
use beater_memory::store::MemoryStore;
use beater_memory::upkeep::{
    validate_database_identity, validate_schema_version, IdentityAction, MaintenanceOptions,
    SCHEMA_VERSION, SQLITE_APPLICATION_ID,
};

const NOW: i64 = 1_800_000_000_000;

fn span(trace_id: &str) -> CitedSpan {
    CitedSpan {
        tenant_id: "tenant".to_string(),
        project_id: "project".to_string(),
        trace_id: trace_id.to_string(),
        span_id: "span".to_string(),
        seq: 1,
    }
}

fn scope() -> StoreScope<'static> {
    StoreScope::new("tenant", "project", None)
}

#[test]
fn store_is_idempotent_for_same_ledger_event() -> MemoryResult<()> {
    let mut store = MemoryStore::new();
    let event = LedgerEvent::direct_memory_write(
        "tenant",
        "project",
        MemoryNodeKind::Fact,
        "Checkout uses DATABASE_URL.",
    );

    assert!(store.append_event(&event)?);
    assert!(!store.append_event(&event)?);
    assert_eq!(store.stats(NOW).ledger_events, 1);
    Ok(())
}

#[test]
fn append_event_rejects_malformed_ledger_events() -> MemoryResult<()> {
    let mut store = MemoryStore::new();

    assert_invalid_event(
        &mut store,
        |event| event.tenant_id = " ".to_string(),
        "tenant_id",
    )?;
    assert_invalid_event(
        &mut store,
        |event| event.trace_id = " trace".to_string(),
        "trace_id",
    )?;
    assert_invalid_event(
        &mut store,
        |event| event.environment_id = Some(String::new()),
        "environment_id",
    )?;
    assert_invalid_event(&mut store, |event| event.text = "\t".to_string(), "text")?;
    assert_invalid_event(&mut store, |event| event.seq = 0, "seq")?;
    assert_invalid_event(
        &mut store,
        |event| event.observed_at_unix_ms = -1,
        "observed_at_unix_ms",
    )?;
    assert_invalid_event(
        &mut store,
        |event| event.ingested_at_unix_ms = -1,
        "ingested_at_unix_ms",
    )?;
    assert_invalid_event(
        &mut store,
        |event| event.projected_at_unix_ms = Some(-1),
        "projected_at_unix_ms",
    )?;

    assert_eq!(store.stats(NOW).ledger_events, 0);
    Ok(())
}

#[test]
fn store_rejects_limits_outside_sqlite_range() -> MemoryResult<()> {
    let Some(limit) = oversized_sqlite_limit() else {
        return Ok(());
    };
    let mut store = MemoryStore::new();

    let err = store.pending_events(limit).unwrap_err();
    assert!(err.message().contains("pending_events limit"));

    let err = store
        .seed_nodes(
            "tenant",
            "project",
            None,
            &vec![String::from("checkout")],
            limit,
        )
        .unwrap_err();
    assert!(err.message().contains("seed_nodes limit"));

    let err = store
        .recent_nodes("tenant", "project", None, limit)
        .unwrap_err();
    assert!(err.message().contains("recent_nodes limit"));

    let err = store.recent_audit_events(limit).unwrap_err();
    assert!(err.message().contains("recent_audit_events limit"));

    let err = store.prune_audit_events(None, Some(limit)).unwrap_err();
    assert!(err.message().contains("retain_latest audit limit"));
    Ok(())
}

#[test]
fn direct_memory_idempotency_key_stabilizes_ledger_key() -> MemoryResult<()> {
    let mut store = MemoryStore::new();
    let mut first = LedgerEvent::direct_memory_write(
        "tenant",
        "project",
        MemoryNodeKind::Fact,
        "Checkout uses DATABASE_URL.",
    );
    first.environment_id = Some("prod".to_string());
    first.apply_idempotency_key("retry-key");
    let mut second = LedgerEvent::direct_memory_write(
        "tenant",
        "project",
        MemoryNodeKind::Fact,
        "Checkout uses DATABASE_URL.",
    );
    second.environment_id = Some("prod".to_string());
    second.apply_idempotency_key("retry-key");

    assert_eq!(first.trace_id, second.trace_id);
    assert_eq!(first.span_id, second.span_id);
    assert!(first.payload.get("idempotency_key_hash").is_some());
    assert_eq!(
        first.payload.get("idempotency_key_hash"),
        second.payload.get("idempotency_key_hash")
    );
    assert!(store.append_event(&first)?);
    assert!(!store.append_event(&second)?);
    assert_eq!(store.stats(NOW).ledger_events, 1);
    Ok(())
}

#[test]
fn nodes_are_upserted_by_canonical_key() -> MemoryResult<()> {
    let mut store = MemoryStore::new();
    let span = span("trace");

    let (_, created) = store.upsert_node(
        scope(),
        MemoryNodeKind::Fact,
        "Checkout uses DATABASE_URL.",
        1,
        std::slice::from_ref(&span),
        NOW,
    )?;
    let (node, second_created) = store.upsert_node(
        scope(),
        MemoryNodeKind::Fact,
        "Checkout uses DATABASE_URL.",
        1,
        &[span],
        NOW,
    )?;

    assert!(created);
    assert!(!second_created);
    assert_eq!(node.observation_count, 2);
    assert_eq!(store.cited_spans_for_node(&node.id).len(), 1);
    Ok(())
}

#[test]
fn stats_report_token_totals_and_active_kind_counts() -> MemoryResult<()> {
    let mut store = MemoryStore::new();
    let span = span("trace");
    let (fact, _) = store.upsert_node(
        scope(),
        MemoryNodeKind::Fact,
        "Checkout uses DATABASE_URL.",
        1,
        std::slice::from_ref(&span),
        NOW,
    )?;
    let (procedure, _) = store.upsert_node(
        scope(),
        MemoryNodeKind::Procedure,
        "Run migrations before restarting checkout workers.",
        2,
        &[span],
        NOW,
    )?;
    let (future, _) = store.upsert_node(
        scope(),
        MemoryNodeKind::Fact,
        "Future checkout token is active later.",
        NOW + 1_000_000,
        &[],
        NOW,
    )?;
    assert!(store.invalidate_node(&fact.id, 3, Some(30)));
    assert!(store.invalidate_node(&procedure.id, NOW + 1_000_000, Some(31)));

    let stats = store.stats(NOW);

    assert_eq!(stats.nodes, 3);
    assert_eq!(stats.active_nodes, 1);
    assert_eq!(stats.active_fact_nodes, 0);
    assert_eq!(stats.active_procedure_nodes, 1);
    assert_eq!(
        stats.active_node_tokens,
        i64::from(procedure.token_estimate)
    );
    assert_eq!(
        stats.total_node_tokens,
        i64::from(fact.token_estimate)
            + i64::from(procedure.token_estimate)
            + i64::from(future.token_estimate)
    );
    Ok(())
}

#[test]
fn restating_invalidated_memory_creates_new_temporal_version() -> MemoryResult<()> {
    let mut store = MemoryStore::new();
    let span = span("trace");
    let (old, created) = store.upsert_node(
        scope(),
        MemoryNodeKind::Fact,
        "Checkout uses DATABASE_URL.",
        1_000,
        std::slice::from_ref(&span),
        NOW,
    )?;
    assert!(created);
    assert!(store.invalidate_node(&old.id, 2_000, None));

    let (new, second_created) = store.upsert_node(
        scope(),
        MemoryNodeKind::Fact,
        "Checkout uses DATABASE_URL.",
        3_000,
        &[span],
        NOW,
    )?;

    assert!(second_created);
    assert_ne!(old.id, new.id);
    assert_eq!(
        store.node_by_id(&old.id).unwrap().valid_to_unix_ms,
        Some(2_000)
    );
    assert_eq!(new.valid_from_unix_ms, 3_000);
    assert_eq!(new.valid_to_unix_ms, None);
    assert_eq!(store.stats(NOW).nodes, 2);
    Ok(())
}

#[test]
fn equal_time_invalidation_can_replace_later_close_event() -> MemoryResult<()> {
    let mut store = MemoryStore::new();
    let (node, _) = store.upsert_node(
        scope(),
        MemoryNodeKind::Fact,
        "Checkout uses DATABASE_URL.",
        1_000,
        &[span("trace")],
        NOW,
    )?;

    assert!(store.invalidate_node(&node.id, 3_000, Some(30)));
    assert!(store.invalidate_node(&node.id, 3_000, Some(20)));
    assert!(!store.invalidate_node(&node.id, 3_000, Some(40)));
    let node = store.node_by_id(&node.id).unwrap();
    assert_eq!(node.valid_to_unix_ms, Some(3_000));
    assert_eq!(node.valid_to_event_id, Some(20));
    Ok(())
}

#[test]
fn observed_by_queries_filter_future_rows_before_limits() -> MemoryResult<()> {
    let mut store = MemoryStore::new();
    let (old, _) = store.upsert_node(
        scope(),
        MemoryNodeKind::Fact,
        "Checkout uses DATABASE_URL.",
        1_000,
        &[span("old")],
        NOW,
    )?;
    store.upsert_node(
        scope(),
        MemoryNodeKind::Fact,
        "Checkout uses DATABASE_URL future detail.",
        3_000,
        &[span("future")],
        NOW,
    )?;

    let recent = store.recent_nodes_observed_by("tenant", "project", None, 1, Some(1_500))?;
    let seeded = store.seed_nodes_observed_by(
        "tenant",
        "project",
        None,
        &vec![String::from("checkout")],
        1,
        Some(1_500),
    )?;

    assert_eq!(recent.len(), 1);
    assert_eq!(recent[0].id, old.id);
    assert_eq!(seeded.len(), 1);
    assert_eq!(seeded[0].id, old.id);
    Ok(())
}

#[test]
fn observed_by_kind_filter_applies_before_limits() -> MemoryResult<()> {
    let mut store = MemoryStore::new();
    for index in 0..3 {
        store.upsert_node(
            scope(),
            MemoryNodeKind::Fact,
            &format!("Deploy noisy fact {index}."),
            2_000 + i64::from(index),
            &[span(&format!("fact-{index}"))],
            NOW,
        )?;
    }
    let (procedure, _) = store.upsert_node(
        scope(),
        MemoryNodeKind::Procedure,
        "Deploy procedure: run migrations.",
        1_000,
        &[span("procedure")],
        NOW,
    )?;

    let unfiltered = store.recent_nodes_observed_by("tenant", "project", None, 1, None)?;
    let filtered = store.recent_nodes_observed_by_kinds(
        "tenant",
        "project",
        None,
        1,
        None,
        &[MemoryNodeKind::Procedure],
    )?;

    assert_eq!(unfiltered.len(), 1);
    assert_eq!(unfiltered[0].kind, MemoryNodeKind::Fact);
    assert_eq!(filtered.len(), 1);
    assert_eq!(filtered[0].id, procedure.id);
    Ok(())
}

#[test]
fn seed_kind_filter_applies_before_limits() -> MemoryResult<()> {
    let mut store = MemoryStore::new();
    for index in 0..3 {
        store.upsert_node(
            scope(),
            MemoryNodeKind::Fact,
            &format!("Deploy seed noisy fact {index}."),
            2_000 + i64::from(index),
            &[span(&format!("fact-seed-{index}"))],
            NOW,
        )?;
    }
    let (procedure, _) = store.upsert_node(
        scope(),
        MemoryNodeKind::Procedure,
        "Deploy seed procedure: run migrations.",
        1_000,
        &[span("procedure-seed")],
        NOW,
    )?;

    let filtered = store.seed_nodes_observed_by_kinds(
        scope(),
        &vec![String::from("deploy")],
        1,
        None,
        &[MemoryNodeKind::Procedure],
    )?;

    assert_eq!(filtered.len(), 1);
    assert_eq!(filtered[0].id, procedure.id);
    Ok(())
}

fn labelled_event(trace_id: &str, text: &str, at: i64) -> LedgerEvent {
    let mut event =
        LedgerEvent::direct_memory_write("tenant", "project", MemoryNodeKind::Fact, text);
    event.trace_id = trace_id.to_string();
    event.span_id = "span".to_string();
    event.observed_at_unix_ms = at;
    event.ingested_at_unix_ms = at;
    event
}

#[test]
fn projection_neighbors_respect_same_timestamp_ledger_order() -> MemoryResult<()> {
    let mut store = MemoryStore::new();
    for label in ["earlier", "current", "later"] {
        store.append_event(&labelled_event(
            label,
            &format!("{label} token alpha"),
            3_000,
        ))?;
    }
    let events = store.pending_events(10)?;
    for event in &events {
        store.upsert_node(
            scope(),
            MemoryNodeKind::Fact,
            &event.text,
            event.observed_at_unix_ms,
            &[event.cited_span()],
            NOW,
        )?;
    }
    let later = events
        .iter()
        .find(|event| event.trace_id == "later")
        .unwrap();
    store.upsert_node(
        scope(),
        MemoryNodeKind::Fact,
        "earlier token alpha",
        3_000,
        &[later.cited_span()],
        NOW,
    )?;
    let earlier_node = store
        .all_nodes("tenant", "project", None)
        .into_iter()
        .find(|node| node.text == "earlier token alpha")
        .unwrap();
    assert_eq!(earlier_node.observation_count, 1);
    let current = events
        .iter()
        .find(|event| event.trace_id == "current")
        .unwrap();
    let neighbors = store.projection_neighbors_for_event(current, "token alpha", 10)?;
    let texts: Vec<_> = neighbors.iter().map(|node| node.text.as_str()).collect();

    assert!(texts.contains(&"earlier token alpha"));
    assert!(!texts.contains(&"current token alpha"));
    assert!(!texts.contains(&"later token alpha"));
    Ok(())
}

#[test]
fn projection_neighbors_respect_same_timestamp_closure_order() -> MemoryResult<()> {
    let mut store = MemoryStore::new();
    store.append_event(&labelled_event(
        "origin",
        "origin boundary token alpha",
        1_000,
    ))?;
    for label in ["earlier", "current", "later"] {
        store.append_event(&labelled_event(label, &format!("{label} closer"), 3_000))?;
    }
    let events = store.pending_events(10)?;
    let event_for = |trace_id: &str| {
        events
            .iter()
            .find(|event| event.trace_id == trace_id)
            .unwrap()
    };
    let origin = event_for("origin");
    for label in ["earlier", "current", "later"] {
        let target_text = format!("{label} boundary token alpha");
        let closer = event_for(label);
        let (target, _) = store.upsert_node(
            scope(),
            MemoryNodeKind::Fact,
            &target_text,
            1_000,
            &[origin.cited_span()],
            NOW,
        )?;
        let (closer_node, _) = store.upsert_node(
            scope(),
            MemoryNodeKind::Fact,
            &closer.text,
            3_000,
            &[closer.cited_span()],
            NOW,
        )?;
        store.invalidate_node(&target.id, 3_000, closer.id);
        store.insert_edge(
            scope(),
            &closer_node.id,
            &target.id,
            MemoryEdgeKind::Contradicts,
            80,
            3_000,
        )?;
    }

    let current = event_for("current");
    let neighbors = store.projection_neighbors_for_event(current, "boundary token alpha", 10)?;
    let texts: Vec<_> = neighbors.iter().map(|node| node.text.as_str()).collect();

    assert!(!texts.contains(&"earlier boundary token alpha"));
    assert!(texts.contains(&"current boundary token alpha"));
    assert!(texts.contains(&"later boundary token alpha"));
    Ok(())
}

#[test]
fn late_older_version_closes_at_next_projected_version() -> MemoryResult<()> {
    let mut store = MemoryStore::new();
    let (future, _) = store.upsert_node(
        scope(),
        MemoryNodeKind::Fact,
        "Checkout uses DATABASE_URL.",
        3_000,
        &[span("future")],
        NOW,
    )?;
    let (older, created) = store.upsert_node(
        scope(),
        MemoryNodeKind::Fact,
        "Checkout uses DATABASE_URL.",
        1_000,
        &[span("older")],
        NOW,
    )?;

    assert!(created);
    assert_ne!(future.id, older.id);
    assert_eq!(older.valid_to_unix_ms, Some(3_000));
    assert!(older.is_active_at(Some(1_500)));
    assert!(!older.is_active_at(Some(3_500)));
    assert!(future.is_active_at(Some(3_500)));
    Ok(())
}

fn healthy(store: &MemoryStore) -> beater_memory::upkeep::StoreHealth {
    store.health(
        SQLITE_APPLICATION_ID,
        SCHEMA_VERSION,
        vec!["ok".to_string()],
        0,
        NOW,
    )
}

#[test]
fn health_reports_schema_and_integrity() -> MemoryResult<()> {
    let store = MemoryStore::new();
    let health = healthy(&store);

    assert_eq!(health.application_id, SQLITE_APPLICATION_ID);
    assert_eq!(health.expected_application_id, SQLITE_APPLICATION_ID);
    assert_eq!(health.schema_version, SCHEMA_VERSION);
    assert_eq!(health.expected_schema_version, SCHEMA_VERSION);
    assert!(health.integrity_ok);
    assert_eq!(health.foreign_key_violations, 0);
    assert!(health.graph_integrity_ok);
    assert!(health.graph_integrity.is_clean());
    Ok(())
}

#[test]
fn unhealthy_databases_are_reported() {
    let store = MemoryStore::new();
    let health = store.health(
        SQLITE_APPLICATION_ID,
        SCHEMA_VERSION,
        vec!["row 1 missing from index".to_string()],
        0,
        NOW,
    );
    assert!(!health.integrity_ok);
}

#[test]
fn maintenance_reports_checkpoint_state() -> MemoryResult<()> {
    let mut store = MemoryStore::new();
    let report = store.maintenance(false)?;

    assert!(report.optimized);
    assert!(!report.vacuumed);
    assert!(!report.repaired_orphans);
    assert!(report.graph_integrity_before.is_clean());
    assert!(report.graph_integrity_after.is_clean());
    assert!(report.wal_checkpoint_busy >= 0);
    Ok(())
}

#[test]
fn graph_integrity_reports_and_repairs_orphan_projection_rows() -> MemoryResult<()> {
    let mut store = MemoryStore::new();
    insert_orphan_projection_rows(&mut store);

    let health = healthy(&store);
    assert!(!health.graph_integrity_ok);
    assert_eq!(health.graph_integrity.orphan_edges_from, 2);
    assert_eq!(health.graph_integrity.orphan_edges_to, 2);
    assert_eq!(health.graph_integrity.orphan_node_spans, 1);
    assert_eq!(health.graph_integrity.orphan_cue_index_entries, 1);

    let dry_run = store.maintenance_with_options(MaintenanceOptions {
        vacuum: false,
        repair_orphans: false,
        ..MaintenanceOptions::default()
    })?;
    assert!(!dry_run.repaired_orphans);
    assert!(!dry_run.graph_integrity_after.is_clean());

    let repaired = store.maintenance_with_options(MaintenanceOptions {
        vacuum: false,
        repair_orphans: true,
        ..MaintenanceOptions::default()
    })?;

    assert!(repaired.repaired_orphans);
    assert!(!repaired.graph_integrity_before.is_clean());
    assert!(repaired.graph_integrity_after.is_clean());
    assert_eq!(repaired.graph_repair.memory_edges_removed, 2);
    assert_eq!(repaired.graph_repair.node_spans_removed, 1);
    assert_eq!(repaired.graph_repair.cue_index_entries_removed, 1);
    assert!(healthy(&store).graph_integrity_ok);
    Ok(())
}

fn text_value(text: &str) -> JsonValue {
    JsonValue::Text(text.to_string())
}

#[test]
fn audit_events_are_durable_and_recent_first() -> MemoryResult<()> {
    let mut store = MemoryStore::new();
    store.append_audit(
        &AuditRecord {
            actor: "bearer:test".to_string(),
            action: "remember".to_string(),
            outcome: "success".to_string(),
            route: Some("/v1/remember".to_string()),
            status_code: Some(200),
            detail: JsonValue::object_of("projected", JsonValue::Bool(true)),
        },
        NOW,
    )?;
    store.append_audit(
        &AuditRecord {
            actor: "bearer:test".to_string(),
            action: "query".to_string(),
            outcome: "failure".to_string(),
            route: Some("/v1/query".to_string()),
            status_code: Some(400),
            detail: JsonValue::object_of("code", text_value("bad_request")),
        },
        NOW,
    )?;

    let events = store.recent_audit_events(10)?;

    assert_eq!(store.stats(NOW).audit_events, 2);
    assert_eq!(events.len(), 2);
    assert_eq!(events[0].action, "query");
    assert_eq!(
        events[0].detail.get("code").and_then(JsonValue::as_text),
        Some("bad_request".to_string())
    );
    Ok(())
}

#[test]
fn append_audit_rejects_malformed_records() -> MemoryResult<()> {
    let mut store = MemoryStore::new();

    assert_invalid_audit(
        &mut store,
        |record| record.actor = " bearer:test".to_string(),
        "audit actor",
    )?;
    assert_invalid_audit(
        &mut store,
        |record| record.action = String::new(),
        "audit action",
    )?;
    assert_invalid_audit(
        &mut store,
        |record| record.outcome = "success ".to_string(),
        "audit outcome",
    )?;
    assert_invalid_audit(
        &mut store,
        |record| record.route = Some(" ".to_string()),
        "audit route",
    )?;
    assert_invalid_audit(
        &mut store,
        |record| record.status_code = Some(99),
        "status_code",
    )?;

    assert_eq!(store.stats(NOW).audit_events, 0);
    Ok(())
}

#[test]
fn audit_pruning_removes_old_rows_and_retains_newest() -> MemoryResult<()> {
    let mut store = MemoryStore::new();
    insert_audit_event(&mut store, 1_000, "oldest");
    insert_audit_event(&mut store, 2_000, "old");
    insert_audit_event(&mut store, 3_000, "new");
    insert_audit_event(&mut store, 4_000, "newest");

    let cutoff_report = store.prune_audit_events(Some(2_500), None)?;

    assert_eq!(cutoff_report.audit_events_removed, 2);
    assert_eq!(store.stats(NOW).audit_events, 2);
    let events = store.recent_audit_events(10)?;
    assert_eq!(events[0].action, "newest");
    assert_eq!(events[1].action, "new");

    let retain_report = store.prune_audit_events(None, Some(1))?;

    assert_eq!(retain_report.audit_events_removed, 1);
    assert_eq!(store.stats(NOW).audit_events, 1);
    let events = store.recent_audit_events(10)?;
    assert_eq!(events[0].action, "newest");

    let clear_report = store.prune_audit_events(None, Some(0))?;

    assert_eq!(clear_report.audit_events_removed, 1);
    assert_eq!(store.stats(NOW).audit_events, 0);
    Ok(())
}

#[test]
fn audit_pruning_rejects_invalid_retention_before_deleting_rows() -> MemoryResult<()> {
    let mut store = MemoryStore::new();
    insert_audit_event(&mut store, 1_000, "oldest");
    insert_audit_event(&mut store, 2_000, "newest");

    let err = store.prune_audit_events(Some(-1), Some(0)).unwrap_err();

    assert!(err.message().contains("prune_audit_before_unix_ms"));
    assert_eq!(store.stats(NOW).audit_events, 2);

    let err = store
        .maintenance_with_options(MaintenanceOptions {
            prune_audit_before_unix_ms: Some(-1),
            retain_latest_audit_events: Some(0),
            ..MaintenanceOptions::default()
        })
        .unwrap_err();

    assert!(err.message().contains("prune_audit_before_unix_ms"));
    assert_eq!(store.stats(NOW).audit_events, 2);
    Ok(())
}

#[test]
fn maintenance_reports_audit_pruning() -> MemoryResult<()> {
    let mut store = MemoryStore::new();
    insert_audit_event(&mut store, 1_000, "oldest");
    insert_audit_event(&mut store, 2_000, "old");
    insert_audit_event(&mut store, 3_000, "new");
    insert_audit_event(&mut store, 4_000, "newest");

    let report = store.maintenance_with_options(MaintenanceOptions {
        vacuum: false,
        repair_orphans: false,
        prune_audit_before_unix_ms: Some(2_500),
        retain_latest_audit_events: Some(1),
    })?;

    assert!(report.pruned_audit_events);
    assert_eq!(report.audit_prune.audit_events_removed, 3);
    assert_eq!(store.stats(NOW).audit_events, 1);
    let events = store.recent_audit_events(10)?;
    assert_eq!(events[0].action, "newest");
    Ok(())
}

#[test]
fn empty_databases_are_stamped_and_foreign_ones_refused() {
    assert_eq!(
        validate_database_identity(0, 0, true, false).unwrap(),
        IdentityAction::Stamp
    );
    assert_eq!(
        validate_database_identity(SQLITE_APPLICATION_ID, 1, true, true).unwrap(),
        IdentityAction::Accept
    );
    let err = validate_database_identity(0, 0, true, true).unwrap_err();
    assert!(err.message().contains("refusing to initialize"));
    assert!(validate_database_identity(7, 0, true, false).is_err());
}

#[test]
fn newer_schemas_are_refused() {
    validate_schema_version("database", SCHEMA_VERSION).unwrap();
    let err = validate_schema_version("database", SCHEMA_VERSION + 1).unwrap_err();
    assert!(err.message().contains("database"));
    let mut store = MemoryStore::new();
    assert!(store.migrate(SCHEMA_VERSION + 1).is_err());
    store.migrate(1).unwrap();
}

#[test]
fn migration_names_the_event_that_closed_a_node() -> MemoryResult<()> {
    let mut store = MemoryStore::new();
    store.append_event(&labelled_event("origin", "Use the old token.", 1_000))?;
    store.append_event(&labelled_event("closer", "Use the new token.", 2_000))?;
    let (old, _) = store.upsert_node(
        scope(),
        MemoryNodeKind::Fact,
        "Use the old token.",
        1_000,
        &[span("origin")],
        NOW,
    )?;
    let (new, _) = store.upsert_node(
        scope(),
        MemoryNodeKind::Fact,
        "Use the new token.",
        2_000,
        &[span("closer")],
        NOW,
    )?;
    store.invalidate_node(&old.id, 2_000, None);
    store.insert_edge(
        scope(),
        &new.id,
        &old.id,
        MemoryEdgeKind::Contradicts,
        80,
        2_000,
    )?;
    assert!(!store.projection_requires_rebuild() || old.valid_to_event_id.is_none());

    store.migrate(2)?;

    let old = store.node_by_id(&old.id).unwrap();
    assert_eq!(old.valid_to_event_id, Some(2));
    Ok(())
}

#[test]
fn edges_are_not_doubled_and_never_loop() -> MemoryResult<()> {
    let mut store = MemoryStore::new();
    assert!(store.insert_edge(scope(), "a", "b", MemoryEdgeKind::Mentions, 55, 1)?);
    assert!(!store.insert_edge(scope(), "a", "b", MemoryEdgeKind::Mentions, 99, 2)?);
    assert!(store.insert_edge(scope(), "a", "b", MemoryEdgeKind::Supersedes, 99, 2)?);
    assert!(!store.insert_edge(scope(), "a", "a", MemoryEdgeKind::Mentions, 55, 1)?);
    assert_eq!(store.edges_for_scope("tenant", "project", None).len(), 2);
    assert!(store.edges_for_scope("tenant", "other", None).is_empty());
    Ok(())
}

#[test]
fn resetting_the_projection_keeps_ledger_and_audit() -> MemoryResult<()> {
    let mut store = MemoryStore::new();
    let event = labelled_event("origin", "Use the old token.", 1_000);
    store.append_event(&event)?;
    insert_audit_event(&mut store, 1_000, "kept");
    store.upsert_node(
        scope(),
        MemoryNodeKind::Fact,
        &event.text,
        1_000,
        &[event.cited_span()],
        NOW,
    )?;
    store.mark_projected(1, NOW);
    assert!(!store.event_is_pending(1));

    let report = store.reset_projection();

    assert_eq!(report.nodes_removed, 1);
    assert_eq!(report.node_spans_removed, 1);
    assert!(store.event_is_pending(1));
    let stats = store.stats(NOW);
    assert_eq!(stats.nodes, 0);
    assert_eq!(stats.ledger_events, 1);
    assert_eq!(stats.audit_events, 1);
    Ok(())
}

#[test]
fn a_full_ledger_refuses_events() {
    let mut store = MemoryStore::new();
    store.last_event_id = i64::MAX;
    let err = store
        .append_event(&labelled_event("origin", "Use the old token.", 1_000))
        .unwrap_err();
    assert_eq!(
        err,
        MemoryError::Sqlite("database or disk is full".to_string())
    );
    assert!(store.ledger.is_empty());
}

#[test]
fn closing_a_node_twice_changes_nothing() -> MemoryResult<()> {
    let mut store = MemoryStore::new();
    let (node, _) = store.upsert_node(
        scope(),
        MemoryNodeKind::Fact,
        "Checkout uses DATABASE_URL.",
        1_000,
        &[span("trace")],
        NOW,
    )?;
    assert!(store.invalidate_node(&node.id, 2_000, Some(7)));
    let closed = store.node_by_id(&node.id).unwrap();
    assert!(!store.invalidate_node(&node.id, 2_000, Some(7)));
    assert_eq!(store.node_by_id(&node.id).unwrap(), closed);
    assert!(closed.active_at(1_999));
    assert!(!closed.active_at(2_000));
    assert!(closed.stale_at(2_000));
    Ok(())
}

#[test]
fn scopes_do_not_see_each_other() -> MemoryResult<()> {
    let mut store = MemoryStore::new();
    store.upsert_node(
        StoreScope::new("tenant", "project", Some("prod")),
        MemoryNodeKind::Fact,
        "Checkout uses DATABASE_URL.",
        1_000,
        &[span("trace")],
        NOW,
    )?;
    assert!(store.all_nodes("tenant", "project", None).is_empty());
    assert_eq!(
        store.all_nodes("tenant", "project", Some("prod")).len(),
        1
    );
    assert!(store
        .seed_nodes(
            "tenant",
            "project",
            None,
            &vec!["checkout".to_string()],
            10
        )?
        .is_empty());
    Ok(())
}

#[test]
fn keys_and_texts_of_versions() {
    let key = revision_key("fact:checkout", 7);
    assert_eq!(canonical_family_key(&key), "fact:checkout");
    assert_eq!(
        merge_node_text("Checkout uses it.", "Checkout uses it."),
        "Checkout uses it."
    );
}

fn assert_invalid_event(
    store: &mut MemoryStore,
    edit: impl FnOnce(&mut LedgerEvent),
    expected_message: &str,
) -> MemoryResult<()> {
    let mut event = LedgerEvent::direct_memory_write(
        "tenant",
        "project",
        MemoryNodeKind::Fact,
        "Checkout uses DATABASE_URL.",
    );
    edit(&mut event);
    let err = store.append_event(&event).unwrap_err();
    assert!(
        err.message().contains(expected_message),
        "expected error containing {expected_message:?}, got {err:?}"
    );
    Ok(())
}

fn assert_invalid_audit(
    store: &mut MemoryStore,
    edit: impl FnOnce(&mut AuditRecord),
    expected_message: &str,
) -> MemoryResult<()> {
    let mut record = AuditRecord {
        actor: "bearer:test".to_string(),
        action: "remember".to_string(),
        outcome: "success".to_string(),
        route: Some("/v1/remember".to_string()),
        status_code: Some(200),
        detail: JsonValue::Object(Vec::new()),
    };
    edit(&mut record);

    let err = store.append_audit(&record, NOW).unwrap_err();

    assert!(
        err.message().contains(expected_message),
        "expected error containing {expected_message:?}, got {err:?}"
    );
    Ok(())
}

fn oversized_sqlite_limit() -> Option<usize> {
    usize::try_from(i64::MAX)
        .ok()
        .and_then(|max| max.checked_add(1))
}

fn insert_audit_event(store: &mut MemoryStore, occurred_at_unix_ms: i64, action: &str) {
    store.last_audit_id += 1;
    store.audit.push(AuditEvent {
        id: store.last_audit_id,
        occurred_at_unix_ms,
        actor: "test-actor".to_string(),
        action: action.to_string(),
        outcome: "success".to_string(),
        route: Some("/test".to_string()),
        status_code: Some(200),
        detail: JsonValue::Object(Vec::new()),
    });
}

fn orphan_edge(id: i64, from: &str, to: &str, kind: MemoryEdgeKind) -> MemoryEdge {
    MemoryEdge {
        id,
        tenant_id: "tenant".to_string(),
        project_id: "project".to_string(),
        environment_id: None,
        from_node_id: from.to_string(),
        to_node_id: to.to_string(),
        kind,
        weight: 100,
        created_at_unix_ms: 1,
    }
}

fn insert_orphan_projection_rows(store: &mut MemoryStore) {
    store.edges.push(orphan_edge(
        1,
        "missing-from",
        "missing-to",
        MemoryEdgeKind::Mentions,
    ));
    store.edges.push(orphan_edge(
        2,
        "missing-from-2",
        "missing-to-2",
        MemoryEdgeKind::DerivedFrom,
    ));
    store.last_edge_id = 2;
    store.spans.push(NodeSpan {
        node_id: "missing-node".to_string(),
        span: span("trace"),
    });
    store.cues.push(CueEntry {
        term: "missing".to_string(),
        node_id: "missing-node".to_string(),
        tenant_id: "tenant".to_string(),
        project_id: "project".to_string(),
        environment_id: None,
        rank: 0,
    });
}

fn windows(store: &MemoryStore) -> Vec<(i64, Option<i64>)> {
    let mut out: Vec<(i64, Option<i64>)> = store
        .nodes
        .iter()
        .map(|node| (node.valid_from_unix_ms, node.valid_to_unix_ms))
        .collect();
    out.sort_unstable();
    out
}

#[test]
fn windows_do_not_depend_on_arrival() -> MemoryResult<()> {
    let mut stores = Vec::new();
    for order in [
        [1_000, 2_000, 3_000],
        [3_000, 1_000, 2_000],
        [2_000, 3_000, 1_000],
    ] {
        let mut store = MemoryStore::new();
        for at in order {
            store.upsert_node(
                scope(),
                MemoryNodeKind::Fact,
                "Checkout uses DATABASE_URL.",
                at,
                &[span(&format!("trace-{at}"))],
                NOW,
            )?;
        }
        stores.push(store);
    }
    let expected = vec![
        (1_000, Some(2_000)),
        (2_000, Some(3_000)),
        (3_000, None),
    ];
    for store in &stores {
        assert_eq!(windows(store), expected);
    }
    Ok(())
}

#[test]
fn later_statements_do_not_touch_earlier_reads() -> MemoryResult<()> {
    let mut store = MemoryStore::new();
    let (early, _) = store.upsert_node(
        scope(),
        MemoryNodeKind::Fact,
        "Checkout uses DATABASE_URL.",
        1_000,
        &[span("early")],
        NOW,
    )?;
    store.upsert_node(
        scope(),
        MemoryNodeKind::Fact,
        "Checkout uses DATABASE_URL.",
        3_000,
        &[span("late")],
        NOW,
    )?;
    let seen = store.all_nodes_observed_by("tenant", "project", None, 2_000);
    assert_eq!(seen.len(), 1);
    assert_eq!(seen[0].id, early.id);
    assert!(seen[0].active_at(2_000));
    Ok(())
}

#[test]
fn nodes_are_found_by_their_key() -> MemoryResult<()> {
    let mut store = MemoryStore::new();
    let (node, _) = store.upsert_node(
        scope(),
        MemoryNodeKind::Fact,
        "Checkout uses DATABASE_URL.",
        1_000,
        &[span("early")],
        NOW,
    )?;
    let found = store.node_by_scope_key(
        "tenant",
        "project",
        None,
        MemoryNodeKind::Fact,
        &node.canonical_key,
    );
    assert_eq!(found.map(|found| found.id), Some(node.id));
    assert!(store
        .node_by_scope_key("tenant", "project", None, MemoryNodeKind::Fact, "missing")
        .is_none());
    Ok(())
}

#[test]
fn future_citations_are_left_out() -> MemoryResult<()> {
    let mut store = MemoryStore::new();
    store.append_event(&labelled_event("early", "Checkout uses it.", 1_000))?;
    store.append_event(&labelled_event("late", "Checkout uses it.", 3_000))?;
    let (node, _) = store.upsert_node(
        scope(),
        MemoryNodeKind::Fact,
        "Checkout uses it.",
        1_000,
        &[span("early"), span("late")],
        NOW,
    )?;
    assert_eq!(store.cited_spans_for_node(&node.id).len(), 2);
    let by_then = store.cited_spans_for_node_as_of(&node.id, Some(2_000));
    assert_eq!(by_then.len(), 1);
    assert_eq!(by_then[0].trace_id, "early");
    Ok(())
}

#[test]
fn keyed_writes_are_the_same_event() {
    let first = LedgerEvent::direct_memory_write_with_idempotency_key(
        "tenant",
        "project",
        MemoryNodeKind::Fact,
        "Checkout uses DATABASE_URL.",
        " key ",
    );
    let second = LedgerEvent::direct_memory_write_at(
        "tenant",
        "project",
        MemoryNodeKind::Fact,
        "Checkout uses DATABASE_URL.",
        7,
    )
    .with_idempotency_key("key");
    assert_eq!(first.cited_span(), second.cited_span());
}
