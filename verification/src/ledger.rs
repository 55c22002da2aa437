//! The append-only ledger of observations.
use vstd::prelude::*;

use crate::chars::{decimal_int, decimal_int_text, opt_text, or_empty, text_or_empty, trim, trimmed};
use crate::error::{either_problem, failure, rejection, MemoryError, MemoryResult};
use crate::json::{JsonModel, JsonValue};
use crate::model::{
    copy_opt_text, identifier_problem, opt_identifier_problem, text_problem,
    validate_optional_identifier, validate_required_identifier, validate_required_text, CitedSpan,
    MemoryNodeKind, SpanModel,
};
use crate::table::Row;
use crate::text::{now_unix_ms, stable_id, stable_id_of, str_texts};

verus! {

/// An append-only observation imported from a journal, span store, or direct write.
#[derive(Debug, PartialEq, Eq)]
pub struct LedgerEvent {
    pub id: Option<i64>,
    pub source: String,
    pub tenant_id: String,
    pub project_id: String,
    pub environment_id: Option<String>,
    pub trace_id: String,
    pub span_id: String,
    pub seq: u64,
    pub span_kind: String,
    pub name: String,
    pub status: String,
    pub text: String,
    pub payload: JsonValue,
    pub observed_at_unix_ms: i64,
    pub ingested_at_unix_ms: i64,
    pub projected_at_unix_ms: Option<i64>,
}

pub struct EventModel {
    pub id: Option<i64>,
    pub source: Seq<char>,
    pub tenant_id: Seq<char>,
    pub project_id: Seq<char>,
    pub environment_id: Option<Seq<char>>,
    pub trace_id: Seq<char>,
    pub span_id: Seq<char>,
    pub seq: u64,
    pub span_kind: Seq<char>,
    pub name: Seq<char>,
    pub status: Seq<char>,
    pub text: Seq<char>,
    pub payload: JsonModel,
    pub observed_at_unix_ms: i64,
    pub ingested_at_unix_ms: i64,
    pub projected_at_unix_ms: Option<i64>,
}

impl View for LedgerEvent {
    type V = EventModel;

    open spec fn view(&self) -> EventModel {
        EventModel {
            id: self.id,
            source: self.source@,
            tenant_id: self.tenant_id@,
            project_id: self.project_id@,
            environment_id: opt_text(self.environment_id),
            trace_id: self.trace_id@,
            span_id: self.span_id@,
            seq: self.seq,
            span_kind: self.span_kind@,
            name: self.name@,
            status: self.status@,
            text: self.text@,
            payload: self.payload@,
            observed_at_unix_ms: self.observed_at_unix_ms,
            ingested_at_unix_ms: self.ingested_at_unix_ms,
            projected_at_unix_ms: self.projected_at_unix_ms,
        }
    }
}

impl Clone for LedgerEvent {
    fn clone(&self) -> (r: Self)
        ensures
            r@ == self@,
    {
        LedgerEvent {
            id: self.id,
            source: self.source.clone(),
            tenant_id: self.tenant_id.clone(),
            project_id: self.project_id.clone(),
            environment_id: copy_opt_text(&self.environment_id),
            trace_id: self.trace_id.clone(),
            span_id: self.span_id.clone(),
            seq: self.seq,
            span_kind: self.span_kind.clone(),
            name: self.name.clone(),
            status: self.status.clone(),
            text: self.text.clone(),
            payload: self.payload.clone(),
            observed_at_unix_ms: self.observed_at_unix_ms,
            ingested_at_unix_ms: self.ingested_at_unix_ms,
            projected_at_unix_ms: self.projected_at_unix_ms,
        }
    }
}

impl Row for LedgerEvent {
    fn twin(&self) -> (r: Self) {
        self.clone()
    }
}

/// What is wrong with a time that must not lie before the epoch.
pub open spec fn time_problem(field: Seq<char>, at: Option<i64>) -> Option<Seq<char>> {
    match at {
        Some(at) => if at < 0 {
            Some(field + " must be non-negative"@)
        } else {
            None
        },
        None => None,
    }
}

fn validate_time(field: &str, at: Option<i64>) -> (r: MemoryResult<()>)
    ensures
        failure(r) == rejection(time_problem(field@, at)),
{
    if let Some(at) = at {
        if at < 0 {
            return Err(MemoryError::InvalidInput(field.to_owned().concat(" must be non-negative")));
        }
    }
    Ok(())
}

impl EventModel {
    /// The place in a trace that the event was observed at. No two events of a ledger share it.
    pub open spec fn span(self) -> SpanModel {
        SpanModel {
            tenant_id: self.tenant_id,
            project_id: self.project_id,
            trace_id: self.trace_id,
            span_id: self.span_id,
            seq: self.seq,
        }
    }

    /// What is wrong with the identifiers and the text of an event.
    pub open spec fn text_problems(self) -> Option<Seq<char>> {
        either_problem(
            either_problem(
                either_problem(
                    either_problem(
                        either_problem(
                            either_problem(
                                either_problem(
                                    either_problem(
                                        either_problem(
                                            identifier_problem("source"@, self.source),
                                            identifier_problem("tenant_id"@, self.tenant_id),
                                        ),
                                        identifier_problem("project_id"@, self.project_id),
                                    ),
                                    opt_identifier_problem("environment_id"@, self.environment_id),
                                ),
                                identifier_problem("trace_id"@, self.trace_id),
                            ),
                            identifier_problem("span_id"@, self.span_id),
                        ),
                        identifier_problem("span_kind"@, self.span_kind),
                    ),
                    identifier_problem("name"@, self.name),
                ),
                identifier_problem("status"@, self.status),
            ),
            text_problem("text"@, self.text),
        )
    }

    /// The first thing wrong with an event: a missing or padded identifier, an empty text, a
    /// sequence number of zero, a time before the epoch.
    pub open spec fn problem(self) -> Option<Seq<char>> {
        either_problem(
            either_problem(
                either_problem(
                    either_problem(
                        self.text_problems(),
                        if self.seq == 0 {
                            Some("seq must be greater than 0"@)
                        } else {
                            None
                        },
                    ),
                    time_problem("observed_at_unix_ms"@, Some(self.observed_at_unix_ms)),
                ),
                time_problem("ingested_at_unix_ms"@, Some(self.ingested_at_unix_ms)),
            ),
            time_problem("projected_at_unix_ms"@, self.projected_at_unix_ms),
        )
    }

    /// The identity that an idempotency key gives to an event.
    pub open spec fn keyed_trace_id(self, key: Seq<char>) -> Seq<char> {
        stable_id_of(
            "direct_trace_idempotent"@,
            seq![
                self.tenant_id,
                self.project_id,
                text_or_empty(self.environment_id),
                self.name,
                trim(key),
            ],
        )
    }

    /// The event under an idempotency key.
    pub open spec fn keyed(self, key: Seq<char>) -> EventModel {
        let trace_id = self.keyed_trace_id(key);
        EventModel {
            trace_id,
            span_id: stable_id_of("direct_span"@, seq![trace_id]),
            payload: self.payload.with_member(
                "idempotency_key_hash"@,
                JsonModel::Text(stable_id_of("idempotency_key"@, seq![trim(key)])),
            ),
            ..self
        }
    }
}

/// A memory written directly at a given time.
pub open spec fn direct_event(
    tenant_id: Seq<char>,
    project_id: Seq<char>,
    kind: MemoryNodeKind,
    text: Seq<char>,
    now: i64,
) -> EventModel {
    let trace_id = stable_id_of("direct_trace"@, seq![text, decimal_int(now as int)]);
    EventModel {
        id: None,
        source: "beater-memory.direct"@,
        tenant_id,
        project_id,
        environment_id: None,
        trace_id,
        span_id: stable_id_of("direct_span"@, seq![trace_id]),
        seq: 1,
        span_kind: "memory.write"@,
        name: kind.name(),
        status: "ok"@,
        text,
        payload: JsonModel::Object(seq![("kind"@, JsonModel::Text(kind.name()))]),
        observed_at_unix_ms: now,
        ingested_at_unix_ms: now,
        projected_at_unix_ms: None,
    }
}

fn id_of_one(prefix: &str, part: &str) -> (r: String)
    ensures
        r@ == stable_id_of(prefix@, seq![part@]),
{
    let parts = [part];
    proof {
        assert(str_texts(parts@) =~= seq![part@]);
    }
    stable_id(prefix, &parts)
}

impl LedgerEvent {
    /// A memory written directly at a given time.
    #[must_use]
    pub fn direct_memory_write_at(
        tenant_id: &str,
        project_id: &str,
        kind: MemoryNodeKind,
        text: &str,
        now: i64,
    ) -> (r: Self)
        ensures
            r@ == direct_event(tenant_id@, project_id@, kind, text@, now),
    {
        let stamp = decimal_int_text(now);
        let parts = [text, stamp.as_str()];
        proof {
            assert(str_texts(parts@) =~= seq![text@, stamp@]);
        }
        let trace_id = stable_id("direct_trace", &parts);
        let span_id = id_of_one("direct_span", trace_id.as_str());
        let name = kind.as_str();
        LedgerEvent {
            id: None,
            source: "beater-memory.direct".to_owned(),
            tenant_id: tenant_id.to_owned(),
            project_id: project_id.to_owned(),
            environment_id: None,
            trace_id,
            span_id,
            seq: 1,
            span_kind: "memory.write".to_owned(),
            name: name.to_owned(),
            status: "ok".to_owned(),
            text: text.to_owned(),
            payload: JsonValue::object_of("kind", JsonValue::Text(name.to_owned())),
            observed_at_unix_ms: now,
            ingested_at_unix_ms: now,
            projected_at_unix_ms: None,
        }
    }

    /// A memory written directly, now.
    #[must_use]
    pub fn direct_memory_write(
        tenant_id: &str,
        project_id: &str,
        kind: MemoryNodeKind,
        text: &str,
    ) -> (r: Self)
        ensures
            exists|now: i64| r@ == #[trigger] direct_event(tenant_id@, project_id@, kind, text@, now),
    {
        let now: i64 = now_unix_ms();
        Self::direct_memory_write_at(tenant_id, project_id, kind, text, now)
    }

    /// A memory written directly, now, under a key that makes a repeated write the same event.
    #[must_use]
    pub fn direct_memory_write_with_idempotency_key(
        tenant_id: &str,
        project_id: &str,
        kind: MemoryNodeKind,
        text: &str,
        idempotency_key: &str,
    ) -> (r: Self)
        ensures
            exists|now: i64|
                r@ == (#[trigger] direct_event(tenant_id@, project_id@, kind, text@, now)).keyed(
                    idempotency_key@,
                ),
    {
        Self::direct_memory_write(tenant_id, project_id, kind, text).with_idempotency_key(
            idempotency_key,
        )
    }

    #[must_use]
    pub fn with_idempotency_key(self, idempotency_key: &str) -> (r: Self)
        ensures
            r@ == self@.keyed(idempotency_key@),
    {
        let mut event = self;
        event.apply_idempotency_key(idempotency_key);
        event
    }

    fn keyed_trace(&self, key: &str) -> (r: String)
        ensures
            r@ == self@.keyed_trace_id(key@),
    {
        let core = trimmed(key);
        let environment = or_empty(&self.environment_id);
        let parts = [
            self.tenant_id.as_str(),
            self.project_id.as_str(),
            environment,
            self.name.as_str(),
            core.as_str(),
        ];
        proof {
            assert(str_texts(parts@) =~= seq![
                self@.tenant_id,
                self@.project_id,
                environment@,
                self@.name,
                core@,
            ]);
        }
        stable_id("direct_trace_idempotent", &parts)
    }

    /// Gives the event the identity that a key stands for in its tenant, project, environment
    /// and kind.
    pub fn apply_idempotency_key(&mut self, idempotency_key: &str)
        ensures
            final(self)@ == old(self)@.keyed(idempotency_key@),
    {
        let key = trimmed(idempotency_key);
        let trace_id = self.keyed_trace(idempotency_key);
        let span_id = id_of_one("direct_span", trace_id.as_str());
        let digest = id_of_one("idempotency_key", key.as_str());
        let marker = JsonValue::Text(digest);
        let mut payload = self.payload.clone();
        payload.set("idempotency_key_hash", marker);
        self.trace_id = trace_id;
        self.span_id = span_id;
        self.payload = payload;
    }

    pub fn validate(&self) -> (r: MemoryResult<()>)
        ensures
            failure(r) == rejection(self@.problem()),
    {
        validate_required_identifier("source", self.source.as_str())?;
        validate_required_identifier("tenant_id", self.tenant_id.as_str())?;
        validate_required_identifier("project_id", self.project_id.as_str())?;
        validate_optional_identifier("environment_id", &self.environment_id)?;
        validate_required_identifier("trace_id", self.trace_id.as_str())?;
        validate_required_identifier("span_id", self.span_id.as_str())?;
        validate_required_identifier("span_kind", self.span_kind.as_str())?;
        validate_required_identifier("name", self.name.as_str())?;
        validate_required_identifier("status", self.status.as_str())?;
        validate_required_text("text", self.text.as_str())?;
        if self.seq == 0 {
            return Err(MemoryError::invalid("seq must be greater than 0"));
        }
        validate_time("observed_at_unix_ms", Some(self.observed_at_unix_ms))?;
        validate_time("ingested_at_unix_ms", Some(self.ingested_at_unix_ms))?;
        validate_time("projected_at_unix_ms", self.projected_at_unix_ms)
    }

    /// The place in a trace that the event was observed at.
    #[must_use]
    pub fn cited_span(&self) -> (r: CitedSpan)
        ensures
            r@ == self@.span(),
    {
        CitedSpan {
            tenant_id: self.tenant_id.clone(),
            project_id: self.project_id.clone(),
            trace_id: self.trace_id.clone(),
            span_id: self.span_id.clone(),
            seq: self.seq,
        }
    }
}

/// One idempotency key stands for one event within a tenant, project, environment and kind,
/// whatever the two writes say and whenever they were made.
pub proof fn idempotency_key_fixes_the_span(a: EventModel, b: EventModel, key: Seq<char>)
    requires
        a.tenant_id == b.tenant_id,
        a.project_id == b.project_id,
        a.environment_id == b.environment_id,
        a.name == b.name,
        a.seq == b.seq,
    ensures
        a.keyed(key).span() == b.keyed(key).span(),
{
}

/// White space round an idempotency key does not matter.
pub proof fn idempotency_key_ignores_padding(event: EventModel, key: Seq<char>)
    ensures
        event.keyed(trim(key)) == event.keyed(key),
{
    crate::chars::lemma_trim_idempotent(key);
}

} // verus!
