//! The rules of the HTTP service: its limits, who may call it, and what a request asks of the
//! engine.
use vstd::prelude::*;
use vstd::utf8::encode_utf8_decode_utf8;

use crate::chars::{
    blank, chars_of, decimal, decimal_text, is_blank, opt_text, same_text, text_of, trim, trimmed,
};
use crate::distill::Distiller;
use crate::engine::MemoryEngine;
use crate::error::{failure, rejection, ErrorModel, MemoryError, MemoryResult};
use crate::ledger::{direct_event, EventModel, LedgerEvent};
use crate::model::{
    all_modes, MemoryMode, MemoryNodeKind, MemoryQuery, MemoryScope, QueryModel, ReconstructionMode,
    ReconstructionOptions,
};
use crate::passes::{pass_happened, ProjectReport};
use crate::reconstruct::ActiveReconstructor;
use crate::json::{JsonModel, JsonValue};
use crate::rows::{opt_str, AuditRecord, RecordModel};
use crate::upkeep::{MaintenanceOptions, StoreHealth};

verus! {

/// HTTP server configuration.
#[derive(Clone, Debug)]
pub struct MemoryServerConfig {
    pub db_path: String,
    pub bind_addr: String,
    pub bearer_token: Option<String>,
    pub max_body_bytes: usize,
    pub max_project_limit: usize,
    pub max_query_tokens: u32,
    pub max_audit_limit: usize,
    pub max_requests_per_minute: u32,
    pub max_concurrent_db_tasks: usize,
    pub db_task_timeout_ms: u64,
}

/// What a configuration says.
pub struct ConfigModel {
    pub db_path: Seq<char>,
    pub bind_addr: Seq<char>,
    pub bearer_token: Option<Seq<char>>,
    pub max_body_bytes: usize,
    pub max_project_limit: usize,
    pub max_query_tokens: u32,
    pub max_audit_limit: usize,
    pub max_requests_per_minute: u32,
    pub max_concurrent_db_tasks: usize,
    pub db_task_timeout_ms: u64,
}

impl View for MemoryServerConfig {
    type V = ConfigModel;

    open spec fn view(&self) -> ConfigModel {
        ConfigModel {
            db_path: self.db_path@,
            bind_addr: self.bind_addr@,
            bearer_token: opt_text(self.bearer_token),
            max_body_bytes: self.max_body_bytes,
            max_project_limit: self.max_project_limit,
            max_query_tokens: self.max_query_tokens,
            max_audit_limit: self.max_audit_limit,
            max_requests_per_minute: self.max_requests_per_minute,
            max_concurrent_db_tasks: self.max_concurrent_db_tasks,
            db_task_timeout_ms: self.db_task_timeout_ms,
        }
    }
}

impl ConfigModel {
    /// The first thing wrong with a configuration: a blank token, or a limit of zero.
    pub open spec fn problem(self) -> Option<Seq<char>> {
        if self.bearer_token matches Some(token) && blank(token) {
            Some("bearer token must not be empty"@)
        } else if self.max_body_bytes == 0 {
            Some("max_body_bytes must be greater than 0"@)
        } else if self.max_project_limit == 0 {
            Some("max_project_limit must be greater than 0"@)
        } else if self.max_query_tokens == 0 {
            Some("max_query_tokens must be greater than 0"@)
        } else if self.max_audit_limit == 0 {
            Some("max_audit_limit must be greater than 0"@)
        } else {
            None
        }
    }
}

impl MemoryServerConfig {
    /// A configuration with the default limits and no token.
    #[must_use]
    pub fn new(db_path: &str, bind_addr: &str) -> (r: Self)
        ensures
            r@ == (ConfigModel {
                db_path: db_path@,
                bind_addr: bind_addr@,
                bearer_token: None,
                max_body_bytes: 1_048_576,
                max_project_limit: 10_000,
                max_query_tokens: 8_000,
                max_audit_limit: 500,
                max_requests_per_minute: 600,
                max_concurrent_db_tasks: 32,
                db_task_timeout_ms: 30_000,
            }),
    {
        MemoryServerConfig {
            db_path: db_path.to_owned(),
            bind_addr: bind_addr.to_owned(),
            bearer_token: None,
            max_body_bytes: 1_048_576,
            max_project_limit: 10_000,
            max_query_tokens: 8_000,
            max_audit_limit: 500,
            max_requests_per_minute: 600,
            max_concurrent_db_tasks: 32,
            db_task_timeout_ms: 30_000,
        }
    }

    /// The configuration with a token, which is kept without the white space around it.
    #[must_use]
    pub fn with_bearer_token(self, bearer_token: &str) -> (r: Self)
        ensures
            r@ == (ConfigModel { bearer_token: Some(trim(bearer_token@)), ..self@ }),
    {
        let mut config = self;
        config.bearer_token = Some(trimmed(bearer_token));
        config
    }

    #[must_use]
    pub fn with_limits(
        self,
        max_body_bytes: usize,
        max_project_limit: usize,
        max_query_tokens: u32,
    ) -> (r: Self)
        ensures
            r@ == (ConfigModel { max_body_bytes, max_project_limit, max_query_tokens, ..self@ }),
    {
        let mut config = self;
        config.max_body_bytes = max_body_bytes;
        config.max_project_limit = max_project_limit;
        config.max_query_tokens = max_query_tokens;
        config
    }

    #[must_use]
    pub fn with_audit_limit(self, max_audit_limit: usize) -> (r: Self)
        ensures
            r@ == (ConfigModel { max_audit_limit, ..self@ }),
    {
        let mut config = self;
        config.max_audit_limit = max_audit_limit;
        config
    }

    /// The configuration with a bound on the requests of an actor in a minute. Zero is no bound.
    #[must_use]
    pub fn with_rate_limit(self, max_requests_per_minute: u32) -> (r: Self)
        ensures
            r@ == (ConfigModel { max_requests_per_minute, ..self@ }),
    {
        let mut config = self;
        config.max_requests_per_minute = max_requests_per_minute;
        config
    }

    /// The configuration with a bound on the database tasks at one time. Zero admits none.
    #[must_use]
    pub fn with_db_concurrency_limit(self, max_concurrent_db_tasks: usize) -> (r: Self)
        ensures
            r@ == (ConfigModel { max_concurrent_db_tasks, ..self@ }),
    {
        let mut config = self;
        config.max_concurrent_db_tasks = max_concurrent_db_tasks;
        config
    }

    #[must_use]
    pub fn with_db_task_timeout_ms(self, db_task_timeout_ms: u64) -> (r: Self)
        ensures
            r@ == (ConfigModel { db_task_timeout_ms, ..self@ }),
    {
        let mut config = self;
        config.db_task_timeout_ms = db_task_timeout_ms;
        config
    }

    /// A token that is set is not blank, and the public limits are above zero.
    pub fn validate(&self) -> (r: MemoryResult<()>)
        ensures
            failure(r) == rejection(self@.problem()),
    {
        if let Some(token) = &self.bearer_token {
            if is_blank(token.as_str()) {
                return Err(MemoryError::invalid("bearer token must not be empty"));
            }
        }
        if self.max_body_bytes == 0 {
            return Err(MemoryError::invalid("max_body_bytes must be greater than 0"));
        }
        if self.max_project_limit == 0 {
            return Err(MemoryError::invalid("max_project_limit must be greater than 0"));
        }
        if self.max_query_tokens == 0 {
            return Err(MemoryError::invalid("max_query_tokens must be greater than 0"));
        }
        if self.max_audit_limit == 0 {
            return Err(MemoryError::invalid("max_audit_limit must be greater than 0"));
        }
        Ok(())
    }
}

/// The token to serve with: the one that is given, or else the one of the environment. A blank
/// token is none.
pub open spec fn token_of(given: Option<Seq<char>>, environment: Option<Seq<char>>) -> Option<
    Seq<char>,
> {
    let token = if given is Some {
        given
    } else {
        environment
    };
    match token {
        Some(text) => if blank(text) {
            None
        } else {
            Some(trim(text))
        },
        None => None,
    }
}

/// The token to serve with. Serving without one has to be allowed: the error names the variable
/// that could have held it.
pub fn serving_token(
    given: Option<&str>,
    environment: Option<&str>,
    variable: &str,
    allow_no_auth: bool,
) -> (r: MemoryResult<Option<String>>)
    ensures
        match r {
            Ok(token) => {
                &&& opt_text(token) == token_of(opt_str(given), opt_str(environment))
                &&& token is Some || allow_no_auth
            },
            Err(error) => {
                &&& token_of(opt_str(given), opt_str(environment)) is None
                &&& !allow_no_auth
                &&& error@ == ErrorModel::InvalidInput(
                    "refusing to start without auth; set --bearer-token, set "@ + variable@
                        + ", or pass --allow-no-auth"@,
                )
            },
        },
{
    let candidate = match given {
        Some(text) => Some(text),
        None => environment,
    };
    if let Some(text) = candidate {
        if !is_blank(text) {
            return Ok(Some(trimmed(text)));
        }
    }
    if allow_no_auth {
        return Ok(None);
    }
    let mut message = "refusing to start without auth; set --bearer-token, set ".to_owned();
    message.append(variable);
    message.append(", or pass --allow-no-auth");
    Err(MemoryError::InvalidInput(message))
}

// ---------------------------------------------------------------------------
// Errors
// ---------------------------------------------------------------------------
/// How a request fails.
#[derive(Clone, Copy, Debug, PartialEq, Eq, Structural)]
pub enum ApiStatus {
    BadRequest,
    Unauthorized,
    TooManyRequests,
    Internal,
    ServiceBusy,
    ServiceTimeout,
}

impl ApiStatus {
    pub open spec fn number(self) -> u16 {
        match self {
            ApiStatus::BadRequest => 400,
            ApiStatus::Unauthorized => 401,
            ApiStatus::TooManyRequests => 429,
            ApiStatus::Internal => 500,
            ApiStatus::ServiceBusy => 503,
            ApiStatus::ServiceTimeout => 504,
        }
    }

    /// The HTTP status.
    pub fn as_u16(self) -> (r: u16)
        ensures
            r == self.number(),
    {
        match self {
            ApiStatus::BadRequest => 400,
            ApiStatus::Unauthorized => 401,
            ApiStatus::TooManyRequests => 429,
            ApiStatus::Internal => 500,
            ApiStatus::ServiceBusy => 503,
            ApiStatus::ServiceTimeout => 504,
        }
    }

    pub open spec fn word(self) -> Seq<char> {
        match self {
            ApiStatus::BadRequest => "bad_request"@,
            ApiStatus::Unauthorized => "unauthorized"@,
            ApiStatus::TooManyRequests => "rate_limited"@,
            ApiStatus::Internal => "internal_error"@,
            ApiStatus::ServiceBusy => "service_busy"@,
            ApiStatus::ServiceTimeout => "service_timeout"@,
        }
    }

    /// The code in the body of the response.
    pub fn code(self) -> (r: &'static str)
        ensures
            r@ == self.word(),
    {
        match self {
            ApiStatus::BadRequest => "bad_request",
            ApiStatus::Unauthorized => "unauthorized",
            ApiStatus::TooManyRequests => "rate_limited",
            ApiStatus::Internal => "internal_error",
            ApiStatus::ServiceBusy => "service_busy",
            ApiStatus::ServiceTimeout => "service_timeout",
        }
    }
}

/// The answer to a request that is refused.
#[derive(Clone, Debug, PartialEq, Eq)]
pub struct ApiError {
    pub status: ApiStatus,
    pub message: String,
}

pub struct ApiErrorModel {
    pub status: ApiStatus,
    pub message: Seq<char>,
}

impl View for ApiError {
    type V = ApiErrorModel;

    open spec fn view(&self) -> ApiErrorModel {
        ApiErrorModel { status: self.status, message: self.message@ }
    }
}

pub open spec fn unauthorized_error() -> ApiErrorModel {
    ApiErrorModel {
        status: ApiStatus::Unauthorized,
        message: "missing or invalid bearer token"@,
    }
}

pub open spec fn bad_request_error(message: Seq<char>) -> ApiErrorModel {
    ApiErrorModel { status: ApiStatus::BadRequest, message }
}

/// The answer to a request that the engine refused: input that is not valid is the caller's
/// fault, and anything else is the service's.
pub open spec fn answer_to(error: ErrorModel) -> ApiErrorModel {
    match error {
        ErrorModel::InvalidInput(message) => bad_request_error(message),
        _ => ApiErrorModel { status: ApiStatus::Internal, message: error.line() },
    }
}

impl ApiError {
    pub fn unauthorized() -> (r: Self)
        ensures
            r@ == unauthorized_error(),
    {
        ApiError {
            status: ApiStatus::Unauthorized,
            message: "missing or invalid bearer token".to_owned(),
        }
    }

    pub fn bad_request(message: String) -> (r: Self)
        ensures
            r@ == bad_request_error(message@),
    {
        ApiError { status: ApiStatus::BadRequest, message }
    }

    pub fn internal(message: String) -> (r: Self)
        ensures
            r@ == (ApiErrorModel { status: ApiStatus::Internal, message: message@ }),
    {
        ApiError { status: ApiStatus::Internal, message }
    }

    pub fn timeout() -> (r: Self)
        ensures
            r.status == ApiStatus::ServiceTimeout,
            r.message@ == "database task timed out"@,
    {
        ApiError {
            status: ApiStatus::ServiceTimeout,
            message: "database task timed out".to_owned(),
        }
    }

    /// The answer to a request that the engine refused.
    pub fn from_memory_error(error: MemoryError) -> (r: Self)
        ensures
            r@ == answer_to(error@),
    {
        match error {
            MemoryError::InvalidInput(message) => Self::bad_request(message),
            other => Self::internal(other.message()),
        }
    }
}

/// The answer of a request that fails, where it does.
pub open spec fn refusal<T>(r: Result<T, ApiError>) -> Option<ApiErrorModel> {
    match r {
        Ok(_) => None,
        Err(error) => Some(error@),
    }
}

// ---------------------------------------------------------------------------
// Who may call
// ---------------------------------------------------------------------------
/// Compares bytes in a time that depends on their number alone.
pub fn constant_time_eq(left: &[u8], right: &[u8]) -> (r: bool)
    ensures
        r == (left@ == right@),
{
    if left.len() != right.len() {
        return false;
    }
    let mut diff: u8 = 0;
    let mut i: usize = 0;
    proof {
        assert(left@.take(0) =~= right@.take(0));
    }
    while i < left.len()
        invariant
            i <= left@.len(),
            left@.len() == right@.len(),
            diff == 0 <==> left@.take(i as int) == right@.take(i as int),
        decreases left.len() - i,
    {
        let a: u8 = left[i];
        let b: u8 = right[i];
        proof {
            assert((diff | (a ^ b)) == 0 <==> diff == 0 && a == b) by (bit_vector);
            let l = left@.take(i as int + 1);
            let r = right@.take(i as int + 1);
            assert(l.drop_last() =~= left@.take(i as int));
            assert(r.drop_last() =~= right@.take(i as int));
            assert(l =~= left@.take(i as int).push(a));
            assert(r =~= right@.take(i as int).push(b));
            if l == r {
                assert(l.last() == a && r.last() == b);
            }
        }
        diff = diff | (a ^ b);
        i += 1;
    }
    proof {
        assert(left@.take(i as int) =~= left@);
        assert(right@.take(i as int) =~= right@);
    }
    diff == 0
}

/// What follows an opening, where a text has it.
pub open spec fn after_opening(text: Seq<char>, opening: Seq<char>) -> Option<Seq<char>> {
    if opening.is_prefix_of(text) {
        Some(text.skip(opening.len() as int))
    } else {
        None
    }
}

fn strip_opening(text: &str, opening: &str) -> (r: Option<String>)
    ensures
        opt_text(r) == after_opening(text@, opening@),
{
    let cs = chars_of(text);
    let os = chars_of(opening);
    if os.len() > cs.len() {
        return None;
    }
    let mut i: usize = 0;
    while i < os.len()
        invariant
            i <= os@.len() <= cs@.len(),
            cs@ == text@,
            os@ == opening@,
            forall|k: int| 0 <= k < i ==> cs@[k] == os@[k],
        decreases os.len() - i,
    {
        if cs[i] != os[i] {
            return None;
        }
        i += 1;
    }
    proof {
        assert(opening@ =~= text@.subrange(0, opening@.len() as int));
        assert(text@.subrange(os@.len() as int, cs@.len() as int) =~= text@.skip(
            opening@.len() as int,
        ));
    }
    Some(text_of(&cs, os.len(), cs.len()))
}

/// A request may pass: no token is asked for, or the header bears it.
pub open spec fn may_pass(token: Option<Seq<char>>, header: Option<Seq<char>>) -> bool {
    match token {
        None => true,
        Some(expected) => header matches Some(value) && after_opening(value, "Bearer "@) == Some(
            expected,
        ),
    }
}

/// Whether a request with an `Authorization` header may pass. A header that is not text is
/// taken for none.
pub fn authorize(config: &MemoryServerConfig, header: Option<&str>) -> (r: Result<(), ApiError>)
    ensures
        refusal(r) == if may_pass(opt_text(config.bearer_token), opt_str(header)) {
            None
        } else {
            Some(unauthorized_error())
        },
{
    let expected = match &config.bearer_token {
        Some(token) => token,
        None => {
            return Ok(());
        },
    };
    let value = match header {
        Some(value) => value,
        None => {
            return Err(ApiError::unauthorized());
        },
    };
    let actual = match strip_opening(value, "Bearer ") {
        Some(actual) => actual,
        None => {
            return Err(ApiError::unauthorized());
        },
    };
    proof {
        encode_utf8_decode_utf8(actual@);
        encode_utf8_decode_utf8(expected@);
    }
    if constant_time_eq(actual.as_str().as_bytes(), expected.as_str().as_bytes()) {
        Ok(())
    } else {
        Err(ApiError::unauthorized())
    }
}

// ---------------------------------------------------------------------------
// How often, and how many at once
// ---------------------------------------------------------------------------
/// The requests of an actor in one minute.
#[derive(Clone, Debug, PartialEq, Eq)]
pub struct ActorWindow {
    pub actor: String,
    pub minute: u64,
    pub requests: u32,
}

/// Counts the requests of each actor in fixed windows of a minute.
#[derive(Debug)]
pub struct RequestWindows {
    pub windows: Vec<ActorWindow>,
}

/// The window of an actor.
pub open spec fn window_of(windows: Seq<ActorWindow>, actor: Seq<char>) -> Option<(u64, u32)>
    decreases windows.len(),
{
    if windows.len() == 0 {
        None
    } else if windows.last().actor@ == actor {
        Some((windows.last().minute, windows.last().requests))
    } else {
        window_of(windows.drop_last(), actor)
    }
}

/// How many requests of an actor were let through in a minute.
pub open spec fn requests_in(windows: Seq<ActorWindow>, actor: Seq<char>, minute: u64) -> u32 {
    match window_of(windows, actor) {
        Some((begun, requests)) => if begun == minute {
            requests
        } else {
            0
        },
        None => 0,
    }
}

pub open spec fn minute_of(now_ms: u64) -> u64 {
    now_ms / 60_000
}

proof fn lemma_window_updated(windows: Seq<ActorWindow>, at: int, window: ActorWindow)
    requires
        0 <= at < windows.len(),
        windows[at].actor@ == window.actor@,
        forall|k: int| at < k < windows.len() ==> #[trigger] windows[k].actor@ != window.actor@,
    ensures
        window_of(windows.update(at, window), window.actor@) == Some(
            (window.minute, window.requests),
        ),
        window_of(windows, window.actor@) == Some((windows[at].minute, windows[at].requests)),
        forall|other: Seq<char>|
            other != window.actor@ ==> #[trigger] window_of(windows.update(at, window), other)
                == window_of(windows, other),
    decreases windows.len(),
{
    let after = windows.update(at, window);
    if at == windows.len() - 1 {
        assert(after.drop_last() =~= windows.drop_last());
        assert forall|other: Seq<char>| other != window.actor@ implies #[trigger] window_of(
            after,
            other,
        ) == window_of(windows, other) by {
            assert(after.last().actor@ != other);
            assert(windows.last().actor@ != other);
        }
    } else {
        lemma_window_updated(windows.drop_last(), at, window);
        assert(after.drop_last() =~= windows.drop_last().update(at, window));
        assert(after.last() == windows.last());
        assert forall|other: Seq<char>| other != window.actor@ implies #[trigger] window_of(
            after,
            other,
        ) == window_of(windows, other) by {
            assert(window_of(after.drop_last(), other) == window_of(windows.drop_last(), other));
        }
    }
}

proof fn lemma_no_window(windows: Seq<ActorWindow>, actor: Seq<char>)
    requires
        forall|k: int| 0 <= k < windows.len() ==> #[trigger] windows[k].actor@ != actor,
    ensures
        window_of(windows, actor) is None,
    decreases windows.len(),
{
    if windows.len() > 0 {
        lemma_no_window(windows.drop_last(), actor);
    }
}

impl RequestWindows {
    pub fn new() -> (r: Self)
        ensures
            forall|actor: Seq<char>| #[trigger] window_of(r.windows@, actor) is None,
    {
        RequestWindows { windows: Vec::new() }
    }

    fn find(&self, actor: &str) -> (r: Option<usize>)
        ensures
            match r {
                Some(at) => {
                    &&& at < self.windows@.len()
                    &&& self.windows@[at as int].actor@ == actor@
                    &&& forall|k: int|
                        at < k < self.windows@.len() ==> #[trigger] self.windows@[k].actor@
                            != actor@
                },
                None => forall|k: int|
                    0 <= k < self.windows@.len() ==> #[trigger] self.windows@[k].actor@ != actor@,
            },
    {
        let mut i: usize = self.windows.len();
        while i > 0
            invariant
                i <= self.windows@.len(),
                forall|k: int|
                    i <= k < self.windows@.len() ==> #[trigger] self.windows@[k].actor@ != actor@,
            decreases i,
        {
            i -= 1;
            if same_text(self.windows[i].actor.as_str(), actor) {
                return Some(i);
            }
        }
        None
    }

    /// Lets a request of an actor through, unless as many as allowed were let through in the
    /// same minute. A limit of zero lets everything through.
    pub fn let_through(&mut self, actor: &str, max_per_minute: u32, now_ms: u64) -> (r: Result<
        (),
        ApiError,
    >)
        ensures
            refusal(r) == if max_per_minute == 0 || requests_in(
                old(self).windows@,
                actor@,
                minute_of(now_ms),
            ) < max_per_minute {
                None
            } else {
                Some(
                    ApiErrorModel {
                        status: ApiStatus::TooManyRequests,
                        message: "rate limit exceeded"@,
                    },
                )
            },
            r is Err || max_per_minute == 0 ==> final(self).windows@ == old(self).windows@,
            r is Ok && max_per_minute > 0 ==> window_of(final(self).windows@, actor@) == Some(
                (
                    minute_of(now_ms),
                    (requests_in(old(self).windows@, actor@, minute_of(now_ms)) + 1) as u32,
                ),
            ),
            forall|other: Seq<char>|
                other != actor@ ==> #[trigger] window_of(final(self).windows@, other) == window_of(
                    old(self).windows@,
                    other,
                ),
            0 < max_per_minute && requests_in(old(self).windows@, actor@, minute_of(now_ms))
                <= max_per_minute ==> requests_in(
                final(self).windows@,
                actor@,
                minute_of(now_ms),
            ) <= max_per_minute,
    {
        if max_per_minute == 0 {
            return Ok(());
        }
        let minute: u64 = now_ms / 60_000;
        let ghost before = self.windows@;
        match self.find(actor) {
            Some(at) => {
                let seen: u32 = if self.windows[at].minute == minute {
                    self.windows[at].requests
                } else {
                    0
                };
                let window = ActorWindow {
                    actor: actor.to_owned(),
                    minute,
                    requests: if seen < max_per_minute {
                        seen + 1
                    } else {
                        seen
                    },
                };
                proof {
                    lemma_window_updated(before, at as int, window);
                }
                if seen >= max_per_minute {
                    return Err(
                        ApiError {
                            status: ApiStatus::TooManyRequests,
                            message: "rate limit exceeded".to_owned(),
                        },
                    );
                }
                self.windows.set(at, window);
                Ok(())
            },
            None => {
                let window = ActorWindow { actor: actor.to_owned(), minute, requests: 1 };
                proof {
                    lemma_no_window(before, actor@);
                    let after = before.push(window);
                    assert(after.drop_last() =~= before);
                    assert forall|other: Seq<char>| other != actor@ implies #[trigger] window_of(
                        after,
                        other,
                    ) == window_of(before, other) by {
                        assert(after.last().actor@ != other);
                    }
                }
                self.windows.push(window);
                Ok(())
            },
        }
    }
}

/// Takes up one more database task beside those that run, unless as many as allowed run.
pub fn take_up_db_task(config: &MemoryServerConfig, running: usize) -> (r: Result<usize, ApiError>)
    ensures
        match r {
            Ok(now_running) => running < config.max_concurrent_db_tasks && now_running == running
                + 1,
            Err(error) => running >= config.max_concurrent_db_tasks && error@ == (ApiErrorModel {
                status: ApiStatus::ServiceBusy,
                message: "too many database tasks"@,
            }),
        },
{
    if running < config.max_concurrent_db_tasks {
        Ok(running + 1)
    } else {
        Err(
            ApiError {
                status: ApiStatus::ServiceBusy,
                message: "too many database tasks".to_owned(),
            },
        )
    }
}

// ---------------------------------------------------------------------------
// Requests
// ---------------------------------------------------------------------------
#[derive(Clone, Debug, PartialEq, Eq)]
pub struct LiveResponse {
    pub status: String,
}

impl LiveResponse {
    pub fn ok() -> (r: Self)
        ensures
            r.status@ == "ok"@,
    {
        LiveResponse { status: "ok".to_owned() }
    }
}

/// Whether a health report lets the service take traffic.
pub fn is_ready(health: &StoreHealth) -> (r: bool)
    ensures
        r == (health.integrity_ok && health.graph_integrity_ok),
{
    health.integrity_ok && health.graph_integrity_ok
}

/// What became of a request that was answered with a status.
pub open spec fn outcome_of_status(status_code: u16) -> Seq<char> {
    if status_code == 401 {
        "denied"@
    } else if status_code == 429 {
        "throttled"@
    } else if 200 <= status_code < 300 {
        "success"@
    } else {
        "failure"@
    }
}

/// The audit record of a request that was answered.
pub fn request_record(has_token: bool, route: &str, status_code: u16) -> (r: AuditRecord)
    ensures
        r@ == (RecordModel {
            actor: if has_token {
                "bearer"@
            } else {
                "anonymous"@
            },
            action: "http_request"@,
            outcome: outcome_of_status(status_code),
            route: Some(route@),
            status_code: Some(status_code),
            detail: JsonModel::Null,
        }),
{
    let actor = if has_token {
        "bearer"
    } else {
        "anonymous"
    };
    let outcome = if status_code == 401 {
        "denied"
    } else if status_code == 429 {
        "throttled"
    } else if 200 <= status_code && status_code < 300 {
        "success"
    } else {
        "failure"
    };
    AuditRecord {
        actor: actor.to_owned(),
        action: "http_request".to_owned(),
        outcome: outcome.to_owned(),
        route: Some(route.to_owned()),
        status_code: Some(status_code),
        detail: JsonValue::Null,
    }
}

#[derive(Clone, Debug, PartialEq, Eq)]
pub struct RememberHttpRequest {
    pub tenant_id: String,
    pub project_id: String,
    pub environment_id: Option<String>,
    pub kind: MemoryNodeKind,
    pub text: String,
    pub project: Option<bool>,
    pub idempotency_key: Option<String>,
}

#[derive(Clone, Debug, PartialEq, Eq)]
pub struct RememberHttpResponse {
    pub ingested: bool,
    pub project: Option<ProjectReport>,
}

#[derive(Clone, Debug, PartialEq, Eq)]
pub struct ProjectHttpRequest {
    pub limit: Option<usize>,
}

#[derive(Debug, PartialEq, Eq)]
pub struct QueryHttpRequest {
    pub question: String,
    pub scope: MemoryScope,
    pub max_tokens: Option<u32>,
    pub require_fresh: Option<bool>,
    pub modes: Option<Vec<MemoryMode>>,
    pub reconstruction_mode: Option<ReconstructionMode>,
    pub max_reconstruction_steps: Option<u8>,
    pub max_reconstruction_tokens: Option<u32>,
}

#[derive(Clone, Debug, PartialEq, Eq)]
pub struct MaintenanceHttpRequest {
    pub vacuum: Option<bool>,
    pub repair_orphans: Option<bool>,
    pub prune_audit_before_unix_ms: Option<i64>,
    pub retain_latest_audit_events: Option<usize>,
}

/// What is wrong with a field that has to say something.
pub open spec fn empty_problem(field: Seq<char>, value: Seq<char>) -> Option<Seq<char>> {
    if blank(value) {
        Some(field + " must not be empty"@)
    } else {
        None
    }
}

/// The answer to a request that something is wrong with.
pub open spec fn complaint(problem: Option<Seq<char>>) -> Option<ApiErrorModel> {
    match problem {
        Some(message) => Some(bad_request_error(message)),
        None => None,
    }
}

pub fn validate_nonempty(field: &str, value: &str) -> (r: Result<(), ApiError>)
    ensures
        refusal(r) == complaint(empty_problem(field@, value@)),
{
    if is_blank(value) {
        Err(ApiError::bad_request(field.to_owned().concat(" must not be empty")))
    } else {
        Ok(())
    }
}

/// The first thing wrong with a memory to be kept.
pub open spec fn remember_problem(request: RememberHttpRequest) -> Option<Seq<char>> {
    if blank(request.tenant_id@) {
        Some("tenant_id"@ + " must not be empty"@)
    } else if blank(request.project_id@) {
        Some("project_id"@ + " must not be empty"@)
    } else if blank(request.text@) {
        Some("text"@ + " must not be empty"@)
    } else {
        match request.idempotency_key {
            Some(key) => empty_problem("idempotency_key"@, key@),
            None => None,
        }
    }
}

/// The event of a memory to be kept.
pub open spec fn remembered(request: RememberHttpRequest, now: i64) -> EventModel {
    let event = EventModel {
        environment_id: opt_text(request.environment_id),
        ..direct_event(request.tenant_id@, request.project_id@, request.kind, request.text@, now)
    };
    match request.idempotency_key {
        Some(key) => event.keyed(key@),
        None => event,
    }
}

/// The event of a memory to be kept.
pub fn remember_event(request: RememberHttpRequest, now: i64) -> (r: Result<LedgerEvent, ApiError>)
    ensures
        refusal(r) == complaint(remember_problem(request)),
        r matches Ok(event) ==> event@ == remembered(request, now),
{
    validate_nonempty("tenant_id", request.tenant_id.as_str())?;
    validate_nonempty("project_id", request.project_id.as_str())?;
    validate_nonempty("text", request.text.as_str())?;
    if let Some(key) = &request.idempotency_key {
        validate_nonempty("idempotency_key", key.as_str())?;
    }
    let mut event = LedgerEvent::direct_memory_write_at(
        request.tenant_id.as_str(),
        request.project_id.as_str(),
        request.kind,
        request.text.as_str(),
        now,
    );
    event.environment_id = request.environment_id;
    if let Some(key) = &request.idempotency_key {
        event.apply_idempotency_key(key.as_str());
    }
    Ok(event)
}

/// A memory was kept this way: its event stands in the ledger, and unless the request says
/// otherwise a pass over the events that wait follows.
pub open spec fn kept<D: Distiller, R: ActiveReconstructor>(
    before: MemoryEngine<D, R>,
    after: MemoryEngine<D, R>,
    request: RememberHttpRequest,
    now: i64,
    r: Result<RememberHttpResponse, ApiError>,
) -> bool {
    match remember_problem(request) {
        Some(problem) => refusal(r) == Some(bad_request_error(problem)) && after.store@
            == before.store@,
        None => match before.store@.appended(remembered(request, now)) {
            Err(error) => refusal(r) == Some(answer_to(error)) && after.store@ == before.store@,
            Ok((store, added)) => if request.project == Some(false) {
                &&& after.store@ == store
                &&& r matches Ok(response) && response.ingested == added && response.project
                    is None
            } else {
                exists|projected: MemoryResult<ProjectReport>|
                    {
                        &&& #[trigger] pass_happened(
                            before.distiller,
                            store,
                            after.store@,
                            100,
                            now,
                            projected,
                        )
                        &&& match projected {
                            Ok(report) => r matches Ok(response) && response.ingested == added
                                && response.project == Some(report),
                            Err(error) => refusal(r) == Some(answer_to(error@)),
                        }
                    }
            },
        },
    }
}

/// Keeps a memory: appends it to the ledger and, unless the request says otherwise, projects
/// what waits.
pub fn remember<D: Distiller, R: ActiveReconstructor>(
    engine: &mut MemoryEngine<D, R>,
    request: RememberHttpRequest,
    now: i64,
) -> (r: Result<RememberHttpResponse, ApiError>)
    ensures
        kept(*old(engine), *final(engine), request, now, r),
        final(engine).distiller == old(engine).distiller,
        final(engine).reconstructor == old(engine).reconstructor,
{
    let wants_projection = match request.project {
        Some(project) => project,
        None => true,
    };
    let event = remember_event(request, now)?;
    let ingested = match engine.ingest_event(&event) {
        Ok(ingested) => ingested,
        Err(error) => {
            return Err(ApiError::from_memory_error(error));
        },
    };
    if !wants_projection {
        return Ok(RememberHttpResponse { ingested, project: None });
    }
    match engine.project_pending_at(100, now) {
        Ok(report) => Ok(RememberHttpResponse { ingested, project: Some(report) }),
        Err(error) => Err(ApiError::from_memory_error(error)),
    }
}

/// The words for a number that is above what is configured.
pub open spec fn above_max(opening: Seq<char>, number: nat, max: nat) -> Seq<char> {
    opening + decimal(number) + " exceeds configured max "@ + decimal(max)
}

fn above_max_error(opening: &str, number: u64, max: u64) -> (r: ApiError)
    ensures
        r@ == bad_request_error(above_max(opening@, number as nat, max as nat)),
{
    let mut message = opening.to_owned();
    let digits = decimal_text(number);
    message.append(digits.as_str());
    message.append(" exceeds configured max ");
    let most = decimal_text(max);
    message.append(most.as_str());
    ApiError::bad_request(message)
}

/// How many events a request projects.
pub fn project_limit(config: &MemoryServerConfig, request: &ProjectHttpRequest) -> (r: Result<
    usize,
    ApiError,
>)
    ensures
        ({
            let limit: usize = match request.limit {
                Some(limit) => limit,
                None => 1_000,
            };
            match r {
                Ok(n) => n == limit && limit <= config.max_project_limit,
                Err(error) => limit > config.max_project_limit && error@ == bad_request_error(
                    above_max("project limit "@, limit as nat, config.max_project_limit as nat),
                ),
            }
        }),
{
    let limit: usize = match request.limit {
        Some(limit) => limit,
        None => 1_000,
    };
    if limit > config.max_project_limit {
        return Err(
            above_max_error("project limit ", limit as u64, config.max_project_limit as u64),
        );
    }
    Ok(limit)
}

/// How many audit events a request is shown: as many as allowed, unless it says.
pub fn audit_limit(config: &MemoryServerConfig, limit: Option<usize>) -> (r: Result<
    usize,
    ApiError,
>)
    ensures
        match (limit, r) {
            (None, Ok(n)) => n == config.max_audit_limit,
            (Some(limit), Ok(n)) => n == limit && limit <= config.max_audit_limit,
            (Some(limit), Err(error)) => limit > config.max_audit_limit && error@
                == bad_request_error(
                above_max("audit limit "@, limit as nat, config.max_audit_limit as nat),
            ),
            (None, Err(_)) => false,
        },
{
    match limit {
        None => Ok(config.max_audit_limit),
        Some(limit) => if limit > config.max_audit_limit {
            Err(above_max_error("audit limit ", limit as u64, config.max_audit_limit as u64))
        } else {
            Ok(limit)
        },
    }
}

/// The token budget of a request.
pub open spec fn budget_of(request: QueryHttpRequest) -> u32 {
    match request.max_tokens {
        Some(max_tokens) => max_tokens,
        None => 1_200,
    }
}

/// The query of a request.
pub open spec fn asked(request: QueryHttpRequest) -> QueryModel {
    QueryModel {
        question: request.question@,
        scope: request.scope@,
        max_tokens: budget_of(request),
        require_fresh: request.require_fresh == Some(true),
        modes: match request.modes {
            Some(modes) => modes@,
            None => all_modes(),
        },
        modes_explicit: request.modes is Some,
        reconstruction: ReconstructionOptions {
            mode: match request.reconstruction_mode {
                Some(mode) => mode,
                None => ReconstructionMode::Off,
            },
            max_steps: match request.max_reconstruction_steps {
                Some(bound) => bound,
                None => 4,
            },
            max_tokens: match request.max_reconstruction_tokens {
                Some(bound) => bound,
                None => 2_000,
            },
        },
    }
}

/// The first thing wrong with a question.
pub open spec fn query_problem(config: ConfigModel, request: QueryHttpRequest) -> Option<
    Seq<char>,
> {
    if blank(request.question@) {
        Some("question"@ + " must not be empty"@)
    } else if blank(request.scope@.tenant_id) {
        Some("tenant_id"@ + " must not be empty"@)
    } else if blank(request.scope@.project_id) {
        Some("project_id"@ + " must not be empty"@)
    } else if budget_of(request) > config.max_query_tokens {
        Some(
            above_max(
                "query max_tokens "@,
                budget_of(request) as nat,
                config.max_query_tokens as nat,
            ),
        )
    } else {
        asked(request).problem()
    }
}

fn options_of_request(request: &QueryHttpRequest) -> (r: ReconstructionOptions)
    ensures
        r == asked(*request).reconstruction,
{
    let mut options = ReconstructionOptions::default();
    if let Some(mode) = request.reconstruction_mode {
        options.mode = mode;
    }
    if let Some(bound) = request.max_reconstruction_steps {
        options.max_steps = bound;
    }
    if let Some(bound) = request.max_reconstruction_tokens {
        options.max_tokens = bound;
    }
    options
}

/// The query of a request, checked before anything is read.
pub fn query_of_request(config: &MemoryServerConfig, request: QueryHttpRequest) -> (r: Result<
    MemoryQuery,
    ApiError,
>)
    ensures
        refusal(r) == complaint(query_problem(config@, request)),
        r matches Ok(query) ==> query@ == asked(request),
{
    validate_nonempty("question", request.question.as_str())?;
    validate_nonempty("tenant_id", request.scope.tenant_id.as_str())?;
    validate_nonempty("project_id", request.scope.project_id.as_str())?;
    let max_tokens: u32 = match request.max_tokens {
        Some(max_tokens) => max_tokens,
        None => 1_200,
    };
    if max_tokens > config.max_query_tokens {
        return Err(
            above_max_error(
                "query max_tokens ",
                max_tokens as u64,
                config.max_query_tokens as u64,
            ),
        );
    }
    let options = options_of_request(&request);
    let mut query = MemoryQuery::new(request.question.as_str(), request.scope).with_max_tokens(
        max_tokens,
    ).with_reconstruction(options);
    let wants_fresh = match request.require_fresh {
        Some(fresh) => fresh,
        None => false,
    };
    if wants_fresh {
        query = query.requiring_fresh();
    }
    if let Some(modes) = request.modes {
        query = query.with_modes(modes);
    }
    match query.validate() {
        Ok(()) => Ok(query),
        Err(error) => Err(ApiError::from_memory_error(error)),
    }
}

/// What is wrong with the time that one call of a reconstruction command may take: it has to
/// end before a database task does.
pub open spec fn provider_time_problem(config: ConfigModel, timeout_ms: u64) -> Option<Seq<char>> {
    if timeout_ms >= config.db_task_timeout_ms {
        Some("reconstruction command timeout_ms must be lower than db_task_timeout_ms"@)
    } else {
        None
    }
}

/// Checks the time that one call of a reconstruction command may take.
pub fn validate_provider_time(config: &MemoryServerConfig, timeout_ms: u64) -> (r: MemoryResult<
    (),
>)
    ensures
        failure(r) == rejection(provider_time_problem(config@, timeout_ms)),
{
    if timeout_ms >= config.db_task_timeout_ms {
        return Err(
            MemoryError::invalid(
                "reconstruction command timeout_ms must be lower than db_task_timeout_ms",
            ),
        );
    }
    Ok(())
}

/// What is wrong with the time that a query's steps may take together under a reconstruction
/// command.
pub open spec fn query_time_problem(
    config: ConfigModel,
    query: QueryModel,
    timeout_ms: u64,
) -> Option<Seq<char>> {
    if query.reconstruction.mode != ReconstructionMode::Off && timeout_ms
        * query.reconstruction.max_steps >= config.db_task_timeout_ms {
        Some("reconstruction steps may exceed db_task_timeout_ms"@)
    } else {
        None
    }
}

/// Refuses a query whose steps may take longer together than a database task.
pub fn validate_query_time(
    config: &MemoryServerConfig,
    query: &MemoryQuery,
    timeout_ms: u64,
) -> (r: Result<(), ApiError>)
    ensures
        refusal(r) == complaint(query_time_problem(config@, query@, timeout_ms)),
{
    let steps: u128 = query.reconstruction.max_steps as u128;
    let longest: u128 = timeout_ms as u128;
    proof {
        assert(longest * steps <= 0xffff_ffff_ffff_ffff * 255) by (nonlinear_arith)
            requires
                longest <= 0xffff_ffff_ffff_ffff,
                steps <= 255,
        ;
    }
    let asks = match query.reconstruction.mode {
        ReconstructionMode::Off => false,
        _ => true,
    };
    if asks && longest * steps >= config.db_task_timeout_ms as u128 {
        return Err(
            ApiError::bad_request("reconstruction steps may exceed db_task_timeout_ms".to_owned()),
        );
    }
    Ok(())
}

/// The options of a maintenance request: what it does not ask for is not done.
pub fn maintenance_options(request: &MaintenanceHttpRequest) -> (r: MaintenanceOptions)
    ensures
        r == (MaintenanceOptions {
            vacuum: request.vacuum == Some(true),
            repair_orphans: request.repair_orphans == Some(true),
            prune_audit_before_unix_ms: request.prune_audit_before_unix_ms,
            retain_latest_audit_events: request.retain_latest_audit_events,
        }),
{
    MaintenanceOptions {
        vacuum: match request.vacuum {
            Some(vacuum) => vacuum,
            None => false,
        },
        repair_orphans: match request.repair_orphans {
            Some(repair) => repair,
            None => false,
        },
        prune_audit_before_unix_ms: request.prune_audit_before_unix_ms,
        retain_latest_audit_events: request.retain_latest_audit_events,
    }
}

} // verus!
