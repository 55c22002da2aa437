//! Laws of admission: which inputs are taken, who may ask over the wire, and what becomes of a
//! request.
use vstd::prelude::*;

use crate::chars::{blank, lemma_trim_blank, lemma_trim_idempotent, opt_text, trim, white_space};
use crate::error::ErrorModel;
use crate::json::JsonModel;
use crate::ledger::{direct_event, EventModel};
use crate::model::{
    all_modes, spans_problem, BeliefRevisionOp, DistilledModel, MemoryMode, MemoryNodeKind,
    QueryModel, ReconstructionMode, ScopeModel, SpanModel,
};
use crate::provenance::members_are_found_by_key;
use crate::rows::RecordModel;
use crate::server::{
    answer_to, asked, may_pass, minute_of, outcome_of_status, provider_time_problem, query_problem,
    query_time_problem, remember_problem, remembered, token_of, ApiStatus, ConfigModel,
    QueryHttpRequest, RememberHttpRequest,
};

verus! {

// ---------------------------------------------------------------------------
// Valid inputs
// ---------------------------------------------------------------------------
/// A name that can stand in a table: it says something, and no white space stands round it.
pub open spec fn tidy(name: Seq<char>) -> bool {
    !blank(name) && trim(name) == name
}

/// A tidy name begins and ends with a character that is no white space.
pub proof fn tidy_names_have_clean_ends(name: Seq<char>)
    requires
        tidy(name),
    ensures
        name.len() > 0,
        !white_space(name[0]),
        !white_space(name.last()),
{
    crate::chars::lemma_trim_start_shape(name);
    let rest = crate::chars::trim_start(name);
    crate::chars::lemma_trim_end_shape(rest);
}

/// An event is taken if and only if its names are tidy, its text says something, it has a number
/// from one on, and none of its times lies before the epoch.
pub proof fn valid_events_are_taken(event: EventModel)
    ensures
        event.problem() is None <==> {
            &&& tidy(event.source)
            &&& tidy(event.tenant_id)
            &&& tidy(event.project_id)
            &&& event.environment_id matches Some(name) ==> tidy(name)
            &&& tidy(event.trace_id)
            &&& tidy(event.span_id)
            &&& tidy(event.span_kind)
            &&& tidy(event.name)
            &&& tidy(event.status)
            &&& !blank(event.text)
            &&& event.seq >= 1
            &&& event.observed_at_unix_ms >= 0
            &&& event.ingested_at_unix_ms >= 0
            &&& event.projected_at_unix_ms matches Some(at) ==> at >= 0
        },
{
}

/// A scope is taken if and only if its names are tidy and its times do not lie before the epoch.
pub proof fn valid_scopes_are_taken(scope: ScopeModel)
    ensures
        scope.problem() is None <==> {
            &&& tidy(scope.tenant_id)
            &&& tidy(scope.project_id)
            &&& scope.environment_id matches Some(name) ==> tidy(name)
            &&& scope.as_of_unix_ms matches Some(at) ==> at >= 0
            &&& scope.known_at_unix_ms matches Some(at) ==> at >= 0
        },
{
}

/// A query is taken if and only if its scope is, it asks something, has a budget and a mode, and
/// its bounds on reconstruction are not zero.
pub proof fn valid_queries_are_taken(query: QueryModel)
    ensures
        query.problem() is None <==> {
            &&& query.scope.problem() is None
            &&& !blank(query.question)
            &&& query.max_tokens > 0
            &&& query.modes.len() > 0
            &&& query.reconstruction.max_steps > 0
            &&& query.reconstruction.max_tokens > 0
        },
{
}

proof fn lemma_spans(spans: Seq<SpanModel>)
    ensures
        spans_problem(spans) is None <==> forall|i: int|
            0 <= i < spans.len() ==> (#[trigger] spans[i]).problem() is None,
    decreases spans.len(),
{
    if spans.len() > 0 {
        let front = spans.drop_last();
        lemma_spans(front);
        assert(spans[spans.len() - 1] == spans.last());
        if spans_problem(spans) is None {
            assert forall|i: int| 0 <= i < spans.len() implies (#[trigger] spans[i]).problem()
                is None by {
                if i < front.len() {
                    assert(front[i] == spans[i]);
                }
            }
        } else if forall|i: int| 0 <= i < spans.len() ==> (#[trigger] spans[i]).problem() is None {
            assert forall|i: int| 0 <= i < front.len() implies (#[trigger] front[i]).problem()
                is None by {
                assert(front[i] == spans[i]);
            }
        }
    }
}

/// A distilled memory is taken if and only if it cites something, each citation names a place
/// with tidy names and a number from one on, the target that it names, if any, is tidy, and it
/// has what its operation needs: something to say for one that adds or updates, something to
/// say or a target for one that invalidates, and no target for one that does nothing.
pub proof fn valid_memories_are_taken(memory: DistilledModel)
    ensures
        memory.problem() is None <==> {
            &&& memory.cited_spans.len() > 0
            &&& forall|i: int|
                0 <= i < memory.cited_spans.len() ==> {
                    let span = #[trigger] memory.cited_spans[i];
                    tidy(span.tenant_id) && tidy(span.project_id) && tidy(span.trace_id) && tidy(
                        span.span_id,
                    ) && span.seq >= 1
                }
            &&& memory.target_node_id matches Some(id) ==> tidy(id)
            &&& memory.op == BeliefRevisionOp::Add || memory.op == BeliefRevisionOp::Update
                ==> !blank(memory.text)
            &&& memory.op == BeliefRevisionOp::Invalidate ==> !blank(memory.text)
                || memory.target_node_id is Some
            &&& memory.op == BeliefRevisionOp::Noop ==> memory.target_node_id is None
        },
{
    lemma_spans(memory.cited_spans);
    assert forall|i: int| 0 <= i < memory.cited_spans.len() implies (
    #[trigger] memory.cited_spans[i]).problem() is None == {
        let span = memory.cited_spans[i];
        tidy(span.tenant_id) && tidy(span.project_id) && tidy(span.trace_id) && tidy(span.span_id)
            && span.seq >= 1
    } by {}
}

/// An audit record is taken if and only if its names are tidy and its status, if any, is one of
/// HTTP's.
pub proof fn valid_records_are_taken(record: RecordModel)
    ensures
        record.problem() is None <==> {
            &&& tidy(record.actor)
            &&& tidy(record.action)
            &&& tidy(record.outcome)
            &&& record.route matches Some(route) ==> tidy(route)
            &&& record.status_code matches Some(code) ==> 100 <= code <= 599
        },
{
}

// ---------------------------------------------------------------------------
// Kinds and modes
// ---------------------------------------------------------------------------
/// Every kind of memory is taken by exactly one mode.
pub proof fn each_kind_has_one_mode(kind: MemoryNodeKind, mode: MemoryMode)
    ensures
        ({
            let home = match kind {
                MemoryNodeKind::Fact => MemoryMode::Semantic,
                MemoryNodeKind::EntityCue => MemoryMode::Semantic,
                MemoryNodeKind::Tag => MemoryMode::Semantic,
                MemoryNodeKind::Topic => MemoryMode::Semantic,
                MemoryNodeKind::Episode => MemoryMode::Episodic,
                MemoryNodeKind::Procedure => MemoryMode::Procedural,
                MemoryNodeKind::Gotcha => MemoryMode::Gotcha,
                MemoryNodeKind::AntiMemory => MemoryMode::Gotcha,
                MemoryNodeKind::State => MemoryMode::State,
            };
            mode.takes(kind) <==> mode == home
        }),
        all_modes().contains(mode),
        all_modes().len() == 5,
{
    let all = all_modes();
    assert(exists|i: int| 0 <= i < all.len() && all[i] == mode) by {
        if mode == all[0] {
        } else if mode == all[1] {
        } else if mode == all[2] {
        } else if mode == all[3] {
        } else {
            assert(mode == all[4]);
        }
    }
}

// ---------------------------------------------------------------------------
// Memories written directly
// ---------------------------------------------------------------------------
/// A memory that is written directly keeps its scope, its kind, its words and its time, and waits
/// for projection; a key changes nothing of that.
pub proof fn direct_memories_are_kept_as_written(
    tenant_id: Seq<char>,
    project_id: Seq<char>,
    kind: MemoryNodeKind,
    text: Seq<char>,
    now: i64,
    key: Seq<char>,
)
    ensures
        ({
            let event = direct_event(tenant_id, project_id, kind, text, now);
            let keyed = event.keyed(key);
            &&& event.tenant_id == tenant_id
            &&& event.project_id == project_id
            &&& event.environment_id is None
            &&& event.text == text
            &&& event.name == kind.name()
            &&& event.payload.get("kind"@) == Some(JsonModel::Text(kind.name()))
            &&& event.span_kind == "memory.write"@
            &&& event.status == "ok"@
            &&& event.seq == 1
            &&& event.observed_at_unix_ms == now
            &&& event.ingested_at_unix_ms == now
            &&& event.projected_at_unix_ms is None
            &&& keyed.tenant_id == tenant_id
            &&& keyed.project_id == project_id
            &&& keyed.text == text
            &&& keyed.name == kind.name()
            &&& keyed.observed_at_unix_ms == now
            &&& keyed.projected_at_unix_ms is None
        }),
{
    members_are_found_by_key(seq![("kind"@, JsonModel::Text(kind.name()))], "kind"@, 0);
}

// ---------------------------------------------------------------------------
// Who may ask
// ---------------------------------------------------------------------------
/// Where a token is asked for, a request passes if and only if its header is the word `Bearer`,
/// a space and the token, to the letter; where none is asked for, every request passes.
pub proof fn only_bearers_of_the_token_pass(token: Seq<char>, header: Seq<char>)
    ensures
        may_pass(Some(token), Some(header)) <==> header == "Bearer "@ + token,
        !may_pass(Some(token), None),
        may_pass(None, Some(header)),
        may_pass(None, None),
{
    let opening = "Bearer "@;
    if may_pass(Some(token), Some(header)) {
        assert(header =~= opening + token);
    }
    if header == opening + token {
        assert(opening =~= header.subrange(0, opening.len() as int));
        assert(opening.is_prefix_of(header));
        assert(header.skip(opening.len() as int) =~= token);
    }
}

/// The token to serve with is the one that is given before the one of the environment, without
/// the white space round it; a blank one is none, even where the environment has another.
pub proof fn given_tokens_come_first(given: Option<Seq<char>>, environment: Option<Seq<char>>)
    ensures
        given matches Some(token) ==> (!blank(token) ==> token_of(given, environment) == Some(
            trim(token),
        )),
        given matches Some(token) ==> (blank(token) ==> token_of(given, environment) is None),
        given is None ==> (environment matches Some(token) ==> (!blank(token) ==> token_of(
            given,
            environment,
        ) == Some(trim(token)))),
        given is None && environment is None ==> token_of(given, environment) is None,
        token_of(given, environment) matches Some(token) ==> tidy(token),
{
    if let Some(token) = given {
        lemma_trim_blank(token);
        lemma_trim_idempotent(token);
        lemma_trim_blank(trim(token));
    }
    if let Some(token) = environment {
        lemma_trim_blank(token);
        lemma_trim_idempotent(token);
        lemma_trim_blank(trim(token));
    }
}

/// A minute lasts sixty seconds.
pub proof fn minutes_last_sixty_seconds(minute: u64, past: u64)
    requires
        past < 60_000,
        minute * 60_000 + past <= u64::MAX,
    ensures
        minute_of((minute * 60_000 + past) as u64) == minute,
{
    assert((minute * 60_000 + past) / 60_000 == minute) by (nonlinear_arith)
        requires
            past < 60_000,
            minute >= 0,
            past >= 0,
    ;
}

// ---------------------------------------------------------------------------
// Answers to requests
// ---------------------------------------------------------------------------
/// Every refusal has a status and a code of its own, and the caller's faults are told from the
/// service's by the hundred of their status.
pub proof fn refusals_are_told_apart(a: ApiStatus, b: ApiStatus)
    ensures
        a.number() == b.number() ==> a == b,
        a.word() == b.word() ==> a == b,
        400 <= a.number() < 600,
        a.number() < 500 <==> a == ApiStatus::BadRequest || a == ApiStatus::Unauthorized || a
            == ApiStatus::TooManyRequests,
        ApiStatus::BadRequest.number() == 400,
        ApiStatus::Unauthorized.number() == 401,
        ApiStatus::TooManyRequests.number() == 429,
        ApiStatus::ServiceBusy.number() == 503,
        ApiStatus::ServiceTimeout.number() == 504,
{
    reveal_strlit("bad_request");
    reveal_strlit("unauthorized");
    reveal_strlit("rate_limited");
    reveal_strlit("internal_error");
    reveal_strlit("service_busy");
    reveal_strlit("service_timeout");
    assert("bad_request"@.len() == 11);
    assert("unauthorized"@.len() == 12 && "unauthorized"@[0] == 'u');
    assert("rate_limited"@.len() == 12 && "rate_limited"@[0] == 'r');
    assert("internal_error"@.len() == 14);
    assert("service_busy"@.len() == 12 && "service_busy"@[0] == 's');
    assert("service_timeout"@.len() == 15);
}

/// Input that is not valid is answered as the caller's fault, in the words of the complaint, and
/// any other failure as the service's.
pub proof fn failures_are_answered_for(error: ErrorModel)
    ensures
        error matches ErrorModel::InvalidInput(words) ==> answer_to(error).status.number() == 400
            && answer_to(error).message == words,
        !(error is InvalidInput) ==> answer_to(error).status.number() == 500
            && answer_to(error).message == error.line(),
{
}

/// The audit tells a request that was denied from one that was throttled, one that was served
/// and any other: by the status of its answer.
pub proof fn outcomes_follow_the_status(code: u16)
    ensures
        outcome_of_status(code) == "denied"@ <==> code == ApiStatus::Unauthorized.number(),
        outcome_of_status(code) == "throttled"@ <==> code == ApiStatus::TooManyRequests.number(),
        outcome_of_status(code) == "success"@ <==> 200 <= code <= 299,
        outcome_of_status(code) == "failure"@ <==> code != 401 && code != 429 && !(200 <= code
            <= 299),
{
    reveal_strlit("denied");
    reveal_strlit("throttled");
    reveal_strlit("success");
    reveal_strlit("failure");
    assert("denied"@.len() == 6);
    assert("throttled"@.len() == 9);
    assert("success"@.len() == 7 && "success"@[0] == 's');
    assert("failure"@.len() == 7 && "failure"@[0] == 'f');
}

/// A configuration can be served with if and only if its token, if any, says something and none
/// of its limits is zero.
pub proof fn valid_configurations_are_taken(config: ConfigModel)
    ensures
        config.problem() is None <==> {
            &&& config.bearer_token matches Some(token) ==> !blank(token)
            &&& config.max_body_bytes > 0
            &&& config.max_project_limit > 0
            &&& config.max_query_tokens > 0
            &&& config.max_audit_limit > 0
        },
{
}

/// A memory that is sent is taken if and only if its scope, its words and its key, if any, say
/// something; and what is kept of it is what was sent.
pub proof fn sent_memories_are_kept(request: RememberHttpRequest, now: i64)
    ensures
        remember_problem(request) is None <==> {
            &&& !blank(request.tenant_id@)
            &&& !blank(request.project_id@)
            &&& !blank(request.text@)
            &&& request.idempotency_key matches Some(key) ==> !blank(key@)
        },
        ({
            let event = remembered(request, now);
            &&& event.tenant_id == request.tenant_id@
            &&& event.project_id == request.project_id@
            &&& event.environment_id == opt_text(request.environment_id)
            &&& event.name == request.kind.name()
            &&& event.text == request.text@
            &&& event.observed_at_unix_ms == now
            &&& event.projected_at_unix_ms is None
        }),
{
}

/// Two memories of one kind that are sent to one scope under one key, white space round it
/// aside, stand at one place, so that the ledger takes the first of them only; and two without
/// a key stand at one place when they say the same at one time.
pub proof fn resent_memories_stand_at_one_place(
    a: RememberHttpRequest,
    b: RememberHttpRequest,
    now: i64,
    later: i64,
)
    requires
        a.tenant_id@ == b.tenant_id@,
        a.project_id@ == b.project_id@,
        opt_text(a.environment_id) == opt_text(b.environment_id),
        a.kind == b.kind,
    ensures
        a.idempotency_key matches Some(first) ==> (b.idempotency_key matches Some(second) ==> (
        trim(first@) == trim(second@) ==> remembered(a, now).span() == remembered(
            b,
            later,
        ).span())),
        a.idempotency_key is None && b.idempotency_key is None && a.text@ == b.text@ ==> remembered(
            a,
            now,
        ).span() == remembered(b, now).span(),
{
}

/// A question over the wire asks what it says: in its scope, under its budget or one of twelve
/// hundred tokens, in its modes or in all, and with reconstruction off unless it says otherwise.
pub proof fn sent_questions_are_asked_as_sent(request: QueryHttpRequest)
    ensures
        ({
            let query = asked(request);
            &&& query.question == request.question@
            &&& query.scope == request.scope@
            &&& request.max_tokens matches Some(bound) ==> query.max_tokens == bound
            &&& request.max_tokens is None ==> query.max_tokens == 1_200
            &&& query.require_fresh <==> request.require_fresh == Some(true)
            &&& request.modes matches Some(modes) ==> query.modes == modes@ && query.modes_explicit
            &&& request.modes is None ==> query.modes == all_modes() && !query.modes_explicit
            &&& request.reconstruction_mode matches Some(mode) ==> query.reconstruction.mode == mode
            &&& request.reconstruction_mode is None ==> query.reconstruction.mode
                == ReconstructionMode::Off
            &&& request.max_reconstruction_steps matches Some(bound)
                ==> query.reconstruction.max_steps == bound
            &&& request.max_reconstruction_tokens matches Some(bound)
                ==> query.reconstruction.max_tokens == bound
        }),
{
}

/// A question is taken if and only if it says something, names its tenant and project, stays
/// within the budget that is configured, and is a valid query.
pub proof fn questions_within_budget_are_taken(config: ConfigModel, request: QueryHttpRequest)
    ensures
        query_problem(config, request) is None <==> {
            &&& !blank(request.question@)
            &&& !blank(request.scope@.tenant_id)
            &&& !blank(request.scope@.project_id)
            &&& asked(request).max_tokens <= config.max_query_tokens
            &&& asked(request).problem() is None
        },
{
}

/// A query under a command is taken only where all its steps together end before a database
/// task has to, and a command only where one call of it does.
pub proof fn commands_end_before_their_task(config: ConfigModel, query: QueryModel, timeout_ms: u64)
    ensures
        provider_time_problem(config, timeout_ms) is None <==> timeout_ms
            < config.db_task_timeout_ms,
        query.reconstruction.mode == ReconstructionMode::Off ==> query_time_problem(
            config,
            query,
            timeout_ms,
        ) is None,
        query.reconstruction.mode != ReconstructionMode::Off ==> (query_time_problem(
            config,
            query,
            timeout_ms,
        ) is None <==> query.reconstruction.max_steps * timeout_ms < config.db_task_timeout_ms),
{
    assert(timeout_ms * query.reconstruction.max_steps == query.reconstruction.max_steps
        * timeout_ms) by (nonlinear_arith);
}

} // verus!
