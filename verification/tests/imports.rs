//! Imports of journals and of files of records.
use beater_memory::error::MemoryResult;
use beater_memory::imports::{
    import_canonical_jsonl, import_steps, is_success_beater_js_status,
    is_terminal_beater_js_status, parse_memory_kind, timestamp_value_to_unix_ms,
    whole_unix_number_to_ms, BeaterJsJournal, BeaterJsStep, JsonlLine, TimeReadings,
};
use beater_memory::json::{json_text, JsonNumber, JsonValue};
use beater_memory::model::MemoryNodeKind;
use beater_memory::store::MemoryStore;

const NOW: i64 = 1_800_000_000_000;

fn step(seq: u64, kind: &str, status: &str, request: &str, result: Option<&str>) -> BeaterJsStep {
    BeaterJsStep {
        run_id: "run-1".to_string(),
        agent: "support".to_string(),
        run_status: "completed".to_string(),
        run_input: "remember checkout".to_string(),
        run_created_at: 1,
        seq,
        kind: kind.to_string(),
        status: status.to_string(),
        request_json: request.to_string(),
        result_json: result.map(str::to_string),
        tool_name: None,
        tool_use_id: None,
        attempt: 1,
        started_at: 2,
        finished_at: Some(3),
    }
}

fn write_step(seq: u64, status: &str, request: &str, result: Option<&str>, id: &str) -> BeaterJsStep {
    BeaterJsStep {
        tool_name: Some("memory.write".to_string()),
        tool_use_id: Some(id.to_string()),
        ..step(seq, "tool_call", status, request, result)
    }
}

#[test]
fn imports_beater_js_journal_steps() -> MemoryResult<()> {
    let steps = vec![
        write_step(
            1,
            "completed",
            "{\"memory\":\"Checkout token zeta requires DATABASE_URL\"}",
            Some("{\"ok\":true}"),
            "tool-use-1",
        ),
        BeaterJsStep {
            started_at: 4,
            finished_at: None,
            ..write_step(
                2,
                "started",
                "{\"memory\":\"Started rows must not import\"}",
                None,
                "tool-use-started",
            )
        },
        BeaterJsStep {
            started_at: 5,
            finished_at: Some(6),
            ..write_step(
                3,
                "failed",
                "{\"memory\":\"Failed writes must not become facts\"}",
                Some("{\"error\":\"write failed\"}"),
                "tool-use-failed",
            )
        },
    ];

    let mut store = MemoryStore::new();
    let report = BeaterJsJournal::new("journal.db").import_into(
        &mut store,
        &steps,
        "tenant",
        "project",
        None,
        NOW,
    )?;

    assert_eq!(report.rows_seen, 3);
    assert_eq!(report.rows_skipped, 2);
    assert_eq!(report.events_inserted, 1);
    let events = store.pending_events(10)?;
    assert_eq!(events.len(), 1);
    assert_eq!(events[0].span_kind, "memory.write");
    assert_eq!(events[0].name, "fact");
    assert_eq!(events[0].text, "Checkout token zeta requires DATABASE_URL");
    assert_eq!(events[0].observed_at_unix_ms, 2_000);
    assert_eq!(events[0].span_id, "tool-use-1");
    assert_eq!(
        events[0].payload.get("agent").and_then(JsonValue::as_text),
        Some("support".to_string())
    );

    let again = import_steps(&mut store, &steps, "tenant", "project", None, NOW + 1)?;
    assert_eq!(again.events_inserted, 0);
    assert_eq!(again.events_duplicate, 1);
    assert_eq!(store.stats(NOW).ledger_events, 1);
    Ok(())
}

#[test]
fn beater_js_import_is_atomic_on_invalid_row() -> MemoryResult<()> {
    let steps = vec![
        step(
            1,
            "llm_call",
            "completed",
            "{\"messages\":[{\"role\":\"user\",\"content\":\"checkout fails\"}]}",
            Some("{\"content\":[{\"type\":\"text\",\"text\":\"Set DATABASE_URL\"}]}"),
        ),
        BeaterJsStep {
            started_at: 4,
            finished_at: None,
            ..step(2, "llm_call", "failed", "{not-json", None)
        },
    ];

    let mut store = MemoryStore::new();
    let err = import_steps(&mut store, &steps, "tenant", "project", None, NOW).unwrap_err();

    assert!(err.message().contains("run_id=run-1 seq=2"));
    assert_eq!(store.stats(NOW).ledger_events, 0);
    Ok(())
}

#[test]
fn steps_that_make_no_event_are_refused() {
    let mut bad = step(0, "llm_call", "completed", "{}", None);
    bad.run_input = "x".to_string();
    let mut store = MemoryStore::new();
    let err = import_steps(&mut store, &vec![bad], "tenant", "project", None, NOW).unwrap_err();
    assert_eq!(
        err.message(),
        "invalid input: invalid beater.js journal row run_id=run-1 seq=0: invalid input: seq must be greater than 0"
    );
    let bad = step(1, "llm_call", "completed", "{}", Some("{"));
    let err = import_steps(&mut store, &vec![bad], "tenant", "project", None, NOW).unwrap_err();
    assert!(err
        .message()
        .contains("invalid beater.js journal result JSON for run_id=run-1 seq=1"));
}

#[test]
fn model_calls_are_named_after_their_agent() -> MemoryResult<()> {
    let mut store = MemoryStore::new();
    let steps = vec![step(
        4,
        "llm_call",
        "succeeded",
        "{\"content\":\"checkout fails\"}",
        Some("{\"content\":\"Set DATABASE_URL\"}"),
    )];
    import_steps(&mut store, &steps, "tenant", "project", Some("prod"), NOW)?;
    let events = store.pending_events(10)?;
    assert_eq!(events[0].name, "support:llm_call");
    assert_eq!(events[0].span_kind, "llm.call");
    assert_eq!(events[0].span_id, "step-4");
    assert_eq!(events[0].environment_id.as_deref(), Some("prod"));
    assert!(events[0]
        .text
        .starts_with("run input: remember checkout request: "));
    Ok(())
}

fn line(text: &str) -> JsonlLine {
    JsonlLine {
        content: Ok(text.to_string()),
        readings: TimeReadings::default(),
    }
}

const WRITE: &str = "{\"tenant_id\":\"tenant\",\"project_id\":\"project\",\"trace_id\":\"trace\",\"span_id\":\"span-write\",\"seq\":7,\"attributes\":{\"beater.span.kind\":\"memory.write\",\"beater.memory.kind\":\"Workflow\"},\"name\":\"memory.write\",\"start_time\":\"2026-07-01T00:00:00Z\",\"input\":{\"memory\":\"Checkout uses DATABASE_URL\",\"kind\":\"procedure\"}}";

const READ: &str = "{\"tenant_id\":\"tenant\",\"project_id\":\"project\",\"trace_id\":\"trace\",\"span_id\":\"span-read\",\"seq\":8,\"span_kind\":\"memory.read\",\"name\":\"memory.read\",\"start_time\":\"2026-07-01T00:00:01Z\",\"input\":\"checkout env\",\"output\":\"Checkout uses DATABASE_URL\"}";

#[test]
fn canonical_jsonl_uses_beater_span_kind_attrs() -> MemoryResult<()> {
    let lines = vec![line(WRITE), line(READ)];
    let mut store = MemoryStore::new();
    let report = import_canonical_jsonl(&lines, &mut store, None, None, None, NOW)?;

    assert_eq!(report.rows_seen, 2);
    assert_eq!(report.events_inserted, 2);
    let events = store.pending_events(10)?;
    let write_event = events
        .iter()
        .find(|event| event.span_id == "span-write")
        .expect("write event");
    assert_eq!(write_event.span_kind, "memory.write");
    assert_eq!(write_event.name, "procedure");
    assert_eq!(write_event.text, "Checkout uses DATABASE_URL");
    assert_eq!(write_event.observed_at_unix_ms, 1_782_864_000_000);
    let read_event = events
        .iter()
        .find(|event| event.span_id == "span-read")
        .expect("read event");
    assert_eq!(read_event.span_kind, "memory.read");
    assert_eq!(read_event.name, "episode");
    assert!(read_event
        .text
        .contains("memory read question: checkout env"));

    let again = import_canonical_jsonl(&lines, &mut store, None, None, None, NOW + 1)?;
    assert_eq!(again.events_inserted, 0);
    assert_eq!(again.events_duplicate, 2);
    Ok(())
}

#[test]
fn canonical_jsonl_import_is_atomic_on_invalid_line() -> MemoryResult<()> {
    let valid = "{\"tenant_id\":\"tenant\",\"project_id\":\"project\",\"trace_id\":\"trace\",\"span_id\":\"span\",\"seq\":1,\"attributes\":{\"beater.span.kind\":\"memory.write\"},\"name\":\"fact\",\"output\":\"Checkout uses DATABASE_URL\"}";
    let mut store = MemoryStore::new();

    let err = import_canonical_jsonl(
        &vec![line(valid), line("{not-json")],
        &mut store,
        None,
        None,
        None,
        NOW,
    )
    .unwrap_err();

    assert!(err.message().contains("line 2"));
    assert_eq!(store.stats(NOW).ledger_events, 0);
    Ok(())
}

#[test]
fn lines_that_cannot_be_read_are_named() {
    let mut store = MemoryStore::new();
    let broken = JsonlLine {
        content: Err("stream did not contain valid UTF-8".to_string()),
        readings: TimeReadings::default(),
    };
    let err = import_canonical_jsonl(
        &vec![line("  "), broken],
        &mut store,
        None,
        None,
        None,
        NOW,
    )
    .unwrap_err();
    assert_eq!(
        err.message(),
        "invalid input: failed reading JSONL line 2: stream did not contain valid UTF-8"
    );
    let err = import_canonical_jsonl(
        &vec![line("{\"seq\":0,\"name\":\"x\"}")],
        &mut store,
        None,
        None,
        None,
        NOW,
    )
    .unwrap_err();
    assert_eq!(
        err.message(),
        "invalid input: invalid canonical JSONL line 1: invalid input: seq must be greater than 0"
    );
}

#[test]
fn records_without_names_get_defaults() -> MemoryResult<()> {
    let mut store = MemoryStore::new();
    let mut numbered = line("{\"name\":\"deploy\",\"timestamp\":1700000000.5}");
    numbered.readings.timestamp = Some(1_700_000_000_500);
    let report = import_canonical_jsonl(
        &vec![numbered],
        &mut store,
        Some("acme"),
        None,
        Some("prod"),
        NOW,
    )?;
    assert_eq!(report.events_inserted, 1);
    let event = &store.pending_events(1)?[0];
    assert_eq!(event.tenant_id, "acme");
    assert_eq!(event.project_id, "default");
    assert_eq!(event.environment_id.as_deref(), Some("prod"));
    assert_eq!(event.span_kind, "agent.step");
    assert_eq!(event.status, "ok");
    assert_eq!(event.seq, 1);
    assert!(event.trace_id.starts_with("trace_"));
    assert!(event.span_id.starts_with("span_"));
    assert_eq!(event.observed_at_unix_ms, 1_700_000_000_500);
    Ok(())
}

#[test]
fn whole_numbers_are_seconds_or_milliseconds() {
    assert_eq!(whole_unix_number_to_ms(12), 12);
    assert_eq!(whole_unix_number_to_ms(-3), -3);
    assert_eq!(whole_unix_number_to_ms(1_700_000_000), 1_700_000_000_000);
    assert_eq!(
        whole_unix_number_to_ms(1_700_000_000_123),
        1_700_000_000_123
    );
    for number in [
        9_007_199_254_740_993,
        i64::MAX,
        i64::MIN,
        -9_007_199_254_740_995,
        4_611_686_018_427_388_001,
    ] {
        assert_eq!(
            whole_unix_number_to_ms(number),
            (number as f64).round() as i64
        );
    }
}

#[test]
fn times_are_read_off_numbers_and_dates() {
    let number = JsonValue::Number(JsonNumber {
        text: "1.5".to_string(),
        signed: None,
        unsigned: None,
    });
    assert_eq!(timestamp_value_to_unix_ms(&number, None, Some(2)), Some(2));
    let dated = JsonValue::Text("2026-07-01T00:00:00Z".to_string());
    assert_eq!(
        timestamp_value_to_unix_ms(&dated, Some(7), Some(2)),
        Some(7)
    );
    assert_eq!(timestamp_value_to_unix_ms(&dated, None, Some(2)), Some(2));
    let blank = JsonValue::Text("  ".to_string());
    assert_eq!(timestamp_value_to_unix_ms(&blank, Some(7), Some(2)), None);
    assert_eq!(timestamp_value_to_unix_ms(&JsonValue::Null, Some(7), Some(2)), None);
}

#[test]
fn statuses_and_kinds_are_read_in_any_case() {
    assert!(is_terminal_beater_js_status(" Completed "));
    assert!(is_terminal_beater_js_status("cancelled"));
    assert!(!is_terminal_beater_js_status("started"));
    assert!(is_success_beater_js_status("SUCCESS"));
    assert!(!is_success_beater_js_status("failed"));
    assert_eq!(
        parse_memory_kind(&Some(" Runbook".to_string())),
        Some(MemoryNodeKind::Procedure)
    );
    assert_eq!(parse_memory_kind(&Some("nonsense".to_string())), None);
    assert_eq!(parse_memory_kind(&None), None);
}

#[test]
fn values_are_put_into_words() {
    let value = JsonValue::object_of("b", JsonValue::Text("two".to_string()));
    assert_eq!(value.get("b").and_then(JsonValue::as_text).as_deref(), Some("two"));
    assert!(value.get("c").is_none());
    assert!(json_text(&value).contains("two"));
    assert_eq!(json_text(&JsonValue::Bool(true)), "true");
    assert_eq!(json_text(&JsonValue::Null), "");
}

#[test]
fn journals_keep_their_path() {
    assert_eq!(BeaterJsJournal::new("/tmp/journal.db").path, "/tmp/journal.db");
}
