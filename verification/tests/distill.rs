//! Distilling events into memories.
use beater_memory::distill::{
    best_target, check_batch, classify_op, repair_unsupported, DistillationPrompt,
    DistillationProvider, DistillationRepairPrompt, Distiller, HeuristicDistiller,
    ProviderDistiller, ProviderReply, RuntimeDistiller,
};
use beater_memory::error::{MemoryError, MemoryResult};
use beater_memory::ledger::LedgerEvent;
use beater_memory::model::{BeliefRevisionOp, CitedSpan, DistilledMemory, MemoryNodeKind};
use beater_memory::rows::MemoryNode;

fn event(kind: MemoryNodeKind, text: &str) -> LedgerEvent {
    LedgerEvent::direct_memory_write("tenant", "project", kind, text)
}

fn node(id: &str, kind: MemoryNodeKind, text: &str, canonical_key: &str) -> MemoryNode {
    MemoryNode {
        id: id.to_string(),
        tenant_id: "tenant".to_string(),
        project_id: "project".to_string(),
        environment_id: None,
        kind,
        text: text.to_string(),
        canonical_key: canonical_key.to_string(),
        created_at_unix_ms: 1,
        updated_at_unix_ms: 1,
        valid_from_unix_ms: 1,
        valid_to_unix_ms: None,
        valid_to_event_id: None,
        confidence: 70,
        token_estimate: 8,
        observation_count: 1,
    }
}

#[test]
fn emits_episode_plus_typed_memory() {
    let memories = HeuristicDistiller::default()
        .distill(
            &event(
                MemoryNodeKind::Gotcha,
                "Checkout failed with DATABASE_URL missing. Fix by setting it.",
            ),
            &[],
        )
        .unwrap_or_else(|err| panic!("{err:?}"))
        .memories;

    assert_eq!(memories.len(), 2);
    assert_eq!(memories[0].node_kind, MemoryNodeKind::Episode);
    assert_eq!(memories[1].node_kind, MemoryNodeKind::Gotcha);
}

#[test]
fn invalidations_can_target_neighbors() {
    let neighbor = node(
        "node_old",
        MemoryNodeKind::Fact,
        "Use the old checkout token.",
        "fact:old checkout token",
    );
    let memories = HeuristicDistiller::default()
        .distill(
            &event(
                MemoryNodeKind::Fact,
                "Do not use the old checkout token; it is deprecated.",
            ),
            &[neighbor],
        )
        .unwrap_or_else(|err| panic!("{err:?}"))
        .memories;

    assert_eq!(memories[1].op, BeliefRevisionOp::Invalidate);
    assert_eq!(memories[1].target_node_id.as_deref(), Some("node_old"));
}

#[test]
fn invalidations_prefer_typed_memory_over_episode_scaffolding() {
    let episode = node(
        "node_episode",
        MemoryNodeKind::Episode,
        "memory.write fact: Use the old checkout token.",
        "episode:trace:span:1",
    );
    let fact = node(
        "node_fact",
        MemoryNodeKind::Fact,
        "Use the old checkout token.",
        "fact:old checkout token",
    );

    let memories = HeuristicDistiller::default()
        .distill(
            &event(
                MemoryNodeKind::Fact,
                "Do not use the old checkout token; it is deprecated.",
            ),
            &[episode, fact],
        )
        .unwrap_or_else(|err| panic!("{err:?}"))
        .memories;

    assert_eq!(memories[1].op, BeliefRevisionOp::Invalidate);
    assert_eq!(memories[1].target_node_id.as_deref(), Some("node_fact"));
}

fn quote(text: &str) -> String {
    serde_json::Value::String(text.to_string()).to_string()
}

fn span_json(span: &CitedSpan) -> String {
    format!(
        "{{\"tenant_id\":{},\"project_id\":{},\"trace_id\":{},\"span_id\":{},\"seq\":{}}}",
        quote(&span.tenant_id),
        quote(&span.project_id),
        quote(&span.trace_id),
        quote(&span.span_id),
        span.seq
    )
}

fn provider_json(event: &LedgerEvent, text: &str) -> String {
    format!(
        "{{\"memories\":[{{\"op\":\"add\",\"node_kind\":\"fact\",\"text\":{},\"target_node_id\":null,\"cited_spans\":[{}]}}]}}",
        quote(text),
        span_json(&event.cited_span())
    )
}

fn text_field(value: &serde_json::Value, key: &str) -> Result<String, String> {
    value
        .get(key)
        .and_then(serde_json::Value::as_str)
        .map(str::to_string)
        .ok_or_else(|| format!("missing field `{key}`"))
}

fn only_fields(value: &serde_json::Value, fields: &[&str]) -> Result<(), String> {
    let object = value.as_object().ok_or("expected a map")?;
    match object.keys().find(|key| !fields.contains(&key.as_str())) {
        Some(key) => Err(format!("unknown field `{key}`")),
        None => Ok(()),
    }
}

fn decode_span(value: &serde_json::Value) -> Result<CitedSpan, String> {
    Ok(CitedSpan {
        tenant_id: text_field(value, "tenant_id")?,
        project_id: text_field(value, "project_id")?,
        trace_id: text_field(value, "trace_id")?,
        span_id: text_field(value, "span_id")?,
        seq: value
            .get("seq")
            .and_then(serde_json::Value::as_u64)
            .ok_or("missing field `seq`")?,
    })
}

fn decode_memory(value: &serde_json::Value) -> Result<DistilledMemory, String> {
    only_fields(
        value,
        &["op", "node_kind", "text", "target_node_id", "cited_spans"],
    )?;
    let spans = value
        .get("cited_spans")
        .and_then(serde_json::Value::as_array)
        .ok_or("missing field `cited_spans`")?;
    Ok(DistilledMemory {
        op: text_field(value, "op")?.parse()?,
        node_kind: text_field(value, "node_kind")?.parse()?,
        text: text_field(value, "text")?,
        target_node_id: value
            .get("target_node_id")
            .and_then(serde_json::Value::as_str)
            .map(str::to_string),
        cited_spans: spans.iter().map(decode_span).collect::<Result<_, _>>()?,
    })
}

fn decode_batch(raw: &str) -> Result<Vec<DistilledMemory>, String> {
    let value: serde_json::Value = serde_json::from_str(raw).map_err(|err| err.to_string())?;
    only_fields(&value, &["memories"])?;
    value
        .get("memories")
        .and_then(serde_json::Value::as_array)
        .ok_or("missing field `memories`")?
        .iter()
        .map(decode_memory)
        .collect()
}

fn reply(raw: String) -> ProviderReply {
    let batch = decode_batch(&raw);
    ProviderReply { text: raw, batch }
}

struct FakeProvider {
    raw: Result<String, String>,
    repaired: Option<String>,
}

impl DistillationProvider for FakeProvider {
    fn distill(&self, _prompt: DistillationPrompt<'_>) -> MemoryResult<ProviderReply> {
        self.raw
            .clone()
            .map(reply)
            .map_err(|err| MemoryError::invalid(&format!("provider failed: {err}")))
    }

    fn repair(&self, prompt: DistillationRepairPrompt<'_>) -> MemoryResult<ProviderReply> {
        assert!(!prompt.raw_output.is_empty());
        assert!(!prompt.error.is_empty());
        self.repaired
            .clone()
            .map(reply)
            .ok_or_else(|| MemoryError::invalid("repair unavailable"))
    }
}

#[test]
fn provider_distiller_accepts_valid_schema() {
    let event = event(MemoryNodeKind::Fact, "Checkout uses DATABASE_URL.");
    let distiller = ProviderDistiller::new(FakeProvider {
        raw: Ok(provider_json(&event, "Checkout uses DATABASE_URL.")),
        repaired: None,
    });

    let outcome = distiller
        .distill(&event, &[])
        .unwrap_or_else(|err| panic!("{err:?}"));

    assert!(!outcome.rejected);
    assert_eq!(outcome.memories.len(), 1);
    assert_eq!(outcome.metrics.provider_calls, 1);
    assert_eq!(outcome.metrics.repair_attempts, 0);
    assert!(outcome.metrics.input_tokens > 0);
    assert!(outcome.metrics.output_tokens > 0);
}

#[test]
fn provider_distiller_repairs_invalid_schema_once() {
    let event = event(MemoryNodeKind::Fact, "Checkout uses DATABASE_URL.");
    let distiller = ProviderDistiller::new(FakeProvider {
        raw: Ok("{\"memories\":".to_string()),
        repaired: Some(provider_json(&event, "Checkout uses DATABASE_URL.")),
    });

    let outcome = distiller
        .distill(&event, &[])
        .unwrap_or_else(|err| panic!("{err:?}"));

    assert!(!outcome.rejected);
    assert_eq!(outcome.metrics.provider_calls, 2);
    assert_eq!(outcome.metrics.schema_errors, 1);
    assert_eq!(outcome.metrics.repair_attempts, 1);
    assert_eq!(outcome.metrics.repair_successes, 1);
}

#[test]
fn provider_distiller_rejects_after_failed_repair() {
    let event = event(MemoryNodeKind::Fact, "Checkout uses DATABASE_URL.");
    let distiller = ProviderDistiller::new(FakeProvider {
        raw: Ok("{\"memories\":".to_string()),
        repaired: Some("{\"memories\":".to_string()),
    });

    let outcome = distiller
        .distill(&event, &[])
        .unwrap_or_else(|err| panic!("{err:?}"));

    assert!(outcome.rejected);
    assert!(outcome.memories.is_empty());
    assert_eq!(outcome.metrics.schema_errors, 2);
    assert_eq!(outcome.metrics.rejected_outputs, 1);
}

#[test]
fn provider_distiller_rejects_transport_failure() {
    let event = event(MemoryNodeKind::Fact, "Checkout uses DATABASE_URL.");
    let distiller = ProviderDistiller::new(FakeProvider {
        raw: Err("timeout".to_string()),
        repaired: None,
    });

    let outcome = distiller
        .distill(&event, &[])
        .unwrap_or_else(|err| panic!("{err:?}"));

    assert!(outcome.rejected);
    assert_eq!(outcome.metrics.provider_errors, 1);
    assert_eq!(outcome.metrics.rejected_outputs, 1);
}

#[test]
fn provider_distiller_rejects_unknown_fields() {
    let event = event(MemoryNodeKind::Fact, "Checkout uses DATABASE_URL.");
    let raw = format!(
        "{{\"memories\":[{{\"op\":\"add\",\"node_kind\":\"fact\",\"text\":\"Checkout uses DATABASE_URL.\",\"target_node_id\":null,\"cited_spans\":[{}],\"unexpected\":true}}]}}",
        span_json(&event.cited_span())
    );
    let distiller = ProviderDistiller::new(FakeProvider {
        raw: Ok(raw),
        repaired: None,
    });

    let outcome = distiller
        .distill(&event, &[])
        .unwrap_or_else(|err| panic!("{err:?}"));

    assert!(outcome.rejected);
    assert_eq!(outcome.metrics.schema_errors, 1);
    assert_eq!(outcome.metrics.repair_attempts, 1);
    assert_eq!(outcome.metrics.rejected_outputs, 1);
}

#[test]
fn provider_distiller_rejects_empty_batches() {
    let event = event(MemoryNodeKind::Fact, "Checkout uses DATABASE_URL.");
    let distiller = ProviderDistiller::new(FakeProvider {
        raw: Ok("{\"memories\":[]}".to_string()),
        repaired: None,
    });

    let outcome = distiller
        .distill(&event, &[])
        .unwrap_or_else(|err| panic!("{err:?}"));

    assert!(outcome.rejected);
    assert_eq!(outcome.metrics.schema_errors, 1);
    assert_eq!(outcome.metrics.rejected_outputs, 1);
}

struct TwoRepairProvider;

impl DistillationProvider for TwoRepairProvider {
    fn distill(&self, _prompt: DistillationPrompt<'_>) -> MemoryResult<ProviderReply> {
        Ok(reply("{\"memories\":".to_string()))
    }

    fn repair(&self, prompt: DistillationRepairPrompt<'_>) -> MemoryResult<ProviderReply> {
        if prompt.raw_output == "{\"memories\":" {
            Ok(reply("{\"memories\":[]}".to_string()))
        } else {
            Ok(reply(provider_json(
                prompt.event,
                "Checkout uses DATABASE_URL.",
            )))
        }
    }
}

#[test]
fn provider_distiller_honors_max_repairs() {
    let event = event(MemoryNodeKind::Fact, "Checkout uses DATABASE_URL.");
    let distiller = ProviderDistiller::new(TwoRepairProvider).with_max_repairs(2);

    let outcome = distiller
        .distill(&event, &[])
        .unwrap_or_else(|err| panic!("{err:?}"));

    assert!(!outcome.rejected);
    assert_eq!(outcome.metrics.provider_calls, 3);
    assert_eq!(outcome.metrics.schema_errors, 2);
    assert_eq!(outcome.metrics.repair_attempts, 2);
    assert_eq!(outcome.metrics.repair_successes, 1);
}

struct MalformedProvider;

impl DistillationProvider for MalformedProvider {
    fn distill(&self, _prompt: DistillationPrompt<'_>) -> MemoryResult<ProviderReply> {
        Ok(reply("not json".to_string()))
    }

    fn repair(&self, _prompt: DistillationRepairPrompt<'_>) -> MemoryResult<ProviderReply> {
        repair_unsupported()
    }
}

#[test]
fn providers_without_repair_are_rejected_once() {
    let event = event(MemoryNodeKind::Fact, "Checkout uses DATABASE_URL.");
    let outcome = ProviderDistiller::new(MalformedProvider)
        .distill(&event, &[])
        .unwrap();

    assert!(outcome.rejected);
    assert_eq!(outcome.metrics.provider_calls, 2);
    assert_eq!(outcome.metrics.provider_errors, 1);
    assert_eq!(outcome.metrics.rejected_outputs, 1);
}

#[test]
fn operations_are_read_off_the_text() {
    assert_eq!(
        classify_op("Do not use the old token; it is deprecated."),
        BeliefRevisionOp::Invalidate
    );
    assert_eq!(
        classify_op("Checkout uses DATABASE_URL."),
        BeliefRevisionOp::Add
    );
}

#[test]
fn targets_share_enough_with_the_text() {
    let near = node(
        "node_near",
        MemoryNodeKind::Fact,
        "Checkout uses DATABASE_URL.",
        "fact:checkout",
    );
    let far = node(
        "node_far",
        MemoryNodeKind::Fact,
        "Weather was pleasant yesterday.",
        "fact:weather",
    );
    assert_eq!(
        best_target(
            "Checkout no longer uses DATABASE_URL.",
            MemoryNodeKind::Fact,
            &[far.clone(), near]
        )
        .as_deref(),
        Some("node_near")
    );
    assert_eq!(
        best_target("Entirely different words", MemoryNodeKind::Fact, &[far]),
        None
    );
}

#[test]
fn batches_are_checked_memory_by_memory() {
    let span = event(MemoryNodeKind::Fact, "x").cited_span();
    assert!(check_batch(&Vec::new()).is_err());
    let good = DistilledMemory::add(MemoryNodeKind::Fact, "Checkout uses it.", span.clone());
    assert!(check_batch(&vec![good]).is_ok());
    let bad = DistilledMemory::add(MemoryNodeKind::Fact, "", span);
    assert!(check_batch(&vec![bad]).is_err());
}

struct WithoutRepair;

impl DistillationProvider for WithoutRepair {
    fn distill(&self, _prompt: DistillationPrompt<'_>) -> MemoryResult<ProviderReply> {
        Ok(reply("{\"memories\":[]}".to_string()))
    }

    fn repair(&self, _prompt: DistillationRepairPrompt<'_>) -> MemoryResult<ProviderReply> {
        repair_unsupported()
    }
}

#[test]
fn a_provider_may_refuse_to_repair() {
    let event = event(MemoryNodeKind::Fact, "Checkout uses DATABASE_URL.");
    let err = WithoutRepair
        .repair(DistillationRepairPrompt {
            event: &event,
            neighbors: &[],
            raw_output: "{}",
            error: "no memories",
        })
        .unwrap_err();
    assert_eq!(
        err.message(),
        "invalid input: distillation provider does not support repair"
    );

    let outcome = ProviderDistiller::new(WithoutRepair)
        .distill(&event, &[])
        .unwrap_or_else(|err| panic!("{err:?}"));
    assert!(outcome.rejected);
    assert_eq!(outcome.metrics.provider_calls, 2);
    assert_eq!(outcome.metrics.provider_errors, 1);
    assert_eq!(outcome.metrics.repair_successes, 0);
}

/// Replies with the text of the event that it is shown.
struct Mirror;

impl DistillationProvider for Mirror {
    fn distill(&self, prompt: DistillationPrompt<'_>) -> MemoryResult<ProviderReply> {
        Ok(reply(provider_json(prompt.event, &prompt.event.text)))
    }

    fn repair(&self, _prompt: DistillationRepairPrompt<'_>) -> MemoryResult<ProviderReply> {
        repair_unsupported()
    }
}

#[test]
fn the_distiller_of_a_program_does_as_its_kind() {
    let heuristic: RuntimeDistiller<Mirror> =
        RuntimeDistiller::Heuristic(HeuristicDistiller::default());
    let provider = RuntimeDistiller::Provider(ProviderDistiller::new(Mirror));
    assert!(heuristic.supports_late_replay());
    assert!(!provider.supports_late_replay());

    let event = event(MemoryNodeKind::Fact, "Checkout uses DATABASE_URL.");
    let heard = provider
        .distill(&event, &[])
        .unwrap_or_else(|err| panic!("{err:?}"));
    assert_eq!(heard.memories[0].text, event.text);
    assert_eq!(heard.metrics.provider_calls, 1);
    let derived = heuristic
        .distill(&event, &[])
        .unwrap_or_else(|err| panic!("{err:?}"));
    assert_eq!(derived.memories.len(), 2);
    assert_eq!(derived.metrics.provider_calls, 0);
}

#[test]
fn ties_of_fits_fall_as_their_digits_do() {
    let word = |i: usize| format!("term{i}");
    let words = |range: std::ops::Range<usize>| range.map(word).collect::<Vec<_>>().join(" ");
    let text = words(0..12);
    let same = node(
        "same",
        MemoryNodeKind::Fact,
        &format!("{} {}", words(0..6), words(100..103)),
        "fact:same",
    );
    let wider = node(
        "wider",
        MemoryNodeKind::Gotcha,
        &format!("{} {}", words(0..12), words(200..213)),
        "gotcha:wider",
    );
    assert_eq!(
        best_target(&text, MemoryNodeKind::Fact, &[same, wider]),
        Some("same".to_string())
    );
}
