//! Deterministic evaluation suites: their checks, the events and queries they are made of, and
//! the judging of answers.
use vstd::prelude::*;

use crate::chars::{
    blank, contains_text, decimal, decimal_text, is_blank, lower, lower_text, occurs, opt_text,
    same_text, texts,
};
use crate::distill::HeuristicDistiller;
use crate::engine::MemoryEngine;
use crate::error::{either_problem, failure, rejection, ErrorModel, MemoryError, MemoryResult};
use crate::json::{JsonModel, JsonValue};
use crate::ledger::{direct_event, EventModel, LedgerEvent};
use crate::model::{
    all_modes, copy_modes, copy_opt_text, estimate_tokens, options_with_mode, quoted, quoted_form,
    token_cost, Evidence, MemoryAnswer, MemoryMode, MemoryNodeKind, MemoryQuery, MemoryScope,
    MemoryTier, QueryModel, ReconstructionMode, ReconstructionOptions, ScopeModel,
};
use crate::order::views;
use crate::passes::{pass_happened, ProjectReport};
use crate::reconstruct::DeterministicReconstructor;
use crate::store::{empty_store, StoreModel};
use crate::text::{stable_id, stable_id_of, str_texts};
use crate::upkeep::StoreStats;

verus! {

/// LongMemEval-style ability labels for deterministic memory suites.
#[derive(Clone, Copy, Debug, PartialEq, Eq, PartialOrd, Ord, Hash, Structural)]
pub enum EvalAbility {
    StaticStateRecall,
    DynamicStateTracking,
    WorkflowKnowledge,
    EnvironmentGotcha,
    PremiseAwareness,
    CompositionalReasoning,
    Other,
}

impl Default for EvalAbility {
    fn default() -> (r: Self)
        ensures
            r == EvalAbility::Other,
    {
        EvalAbility::Other
    }
}

/// A deterministic evaluation suite run against an isolated in-memory engine.
#[derive(Debug)]
pub struct EvalSuite {
    pub name: String,
    pub tenant_id: String,
    pub project_id: String,
    pub environment_id: Option<String>,
    pub shared_haystack: bool,
    pub cases: Vec<EvalCase>,
}

/// One benchmark case with its own ledger observations and expectation checks. The baseline
/// score is in billionths.
#[derive(Debug)]
pub struct EvalCase {
    pub id: String,
    pub ability: EvalAbility,
    pub tenant_id: Option<String>,
    pub project_id: Option<String>,
    pub environment_id: Option<String>,
    pub as_of_unix_ms: Option<i64>,
    pub require_fresh: bool,
    pub question: String,
    pub max_tokens: Option<u32>,
    pub modes: Option<Vec<MemoryMode>>,
    pub reconstruction: Option<ReconstructionOptions>,
    pub baseline_full_context_score: Option<i64>,
    pub events: Vec<EvalEvent>,
    pub expected_answer_contains: Vec<String>,
    pub expected_evidence_contains: Vec<String>,
    pub expected_stale_contains: Vec<String>,
    pub expected_contradiction_contains: Vec<String>,
    pub expected_tier: Option<MemoryTier>,
}

/// One observation to append before the suite is projected and queried.
#[derive(Debug, PartialEq, Eq)]
pub struct EvalEvent {
    pub kind: MemoryNodeKind,
    pub text: String,
    pub observed_at_unix_ms: Option<i64>,
}

/// Runtime overrides applied to every case in a suite.
#[derive(Clone, Copy, Debug, PartialEq, Eq, Structural)]
pub struct EvalOptions {
    pub max_tokens: Option<u32>,
    pub reconstruction_mode: Option<ReconstructionMode>,
    pub max_reconstruction_steps: Option<u8>,
    pub max_reconstruction_tokens: Option<u32>,
}

impl Default for EvalOptions {
    fn default() -> (r: Self)
        ensures
            r.max_tokens is None,
            r.reconstruction_mode is None,
            r.max_reconstruction_steps is None,
            r.max_reconstruction_tokens is None,
    {
        EvalOptions {
            max_tokens: None,
            reconstruction_mode: None,
            max_reconstruction_steps: None,
            max_reconstruction_tokens: None,
        }
    }
}

pub fn default_eval_tenant() -> (r: String)
    ensures
        r@ == "local"@,
{
    "local".to_owned()
}

pub fn default_eval_project() -> (r: String)
    ensures
        r@ == "eval"@,
{
    "eval".to_owned()
}

// ---------------------------------------------------------------------------
// Checks
// ---------------------------------------------------------------------------
/// What is wrong with the overrides: a bound of zero.
pub open spec fn options_problem(options: EvalOptions) -> Option<Seq<char>> {
    if options.max_tokens == Some(0u32) {
        Some("eval max_tokens override must be greater than 0"@)
    } else if options.max_reconstruction_steps == Some(0u8) {
        Some("eval max_reconstruction_steps override must be greater than 0"@)
    } else if options.max_reconstruction_tokens == Some(0u32) {
        Some("eval max_reconstruction_tokens override must be greater than 0"@)
    } else {
        None
    }
}

pub fn validate_options(options: &EvalOptions) -> (r: MemoryResult<()>)
    ensures
        failure(r) == rejection(options_problem(*options)),
{
    if let Some(bound) = options.max_tokens {
        if bound == 0 {
            return Err(MemoryError::invalid("eval max_tokens override must be greater than 0"));
        }
    }
    if let Some(bound) = options.max_reconstruction_steps {
        if bound == 0 {
            return Err(
                MemoryError::invalid(
                    "eval max_reconstruction_steps override must be greater than 0",
                ),
            );
        }
    }
    if let Some(bound) = options.max_reconstruction_tokens {
        if bound == 0 {
            return Err(
                MemoryError::invalid(
                    "eval max_reconstruction_tokens override must be greater than 0",
                ),
            );
        }
    }
    Ok(())
}

/// A sentence about a case.
pub open spec fn about_case(id: Seq<char>, rest: Seq<char>) -> Seq<char> {
    "eval case "@ + quoted_form(id) + rest
}

fn case_error(id: &str, rest: &str) -> (r: MemoryError)
    ensures
        r@ == ErrorModel::InvalidInput(about_case(id@, rest@)),
{
    let mut message = "eval case ".to_owned();
    let name = quoted(id);
    message.append(name.as_str());
    message.append(rest);
    MemoryError::InvalidInput(message)
}

/// Some text of the list is blank.
pub open spec fn any_blank(values: Seq<Seq<char>>) -> bool {
    exists|i: int| 0 <= i < values.len() && blank(#[trigger] values[i])
}

pub open spec fn expectation_problem(
    id: Seq<char>,
    field: Seq<char>,
    values: Seq<Seq<char>>,
) -> Option<Seq<char>> {
    if any_blank(values) {
        Some(about_case(id, " "@ + field + " values must not be empty"@))
    } else {
        None
    }
}

/// No expectation may be blank.
pub fn validate_expectations(case_id: &str, field: &str, values: &Vec<String>) -> (r: MemoryResult<
    (),
>)
    ensures
        failure(r) == rejection(expectation_problem(case_id@, field@, texts(values@))),
{
    let mut i: usize = 0;
    while i < values.len()
        invariant
            i <= values@.len(),
            forall|k: int| 0 <= k < i ==> !blank(#[trigger] texts(values@)[k]),
        decreases values.len() - i,
    {
        if is_blank(values[i].as_str()) {
            proof {
                assert(blank(texts(values@)[i as int]));
            }
            let mut rest = " ".to_owned();
            rest.append(field);
            rest.append(" values must not be empty");
            return Err(case_error(case_id, rest.as_str()));
        }
        i += 1;
    }
    Ok(())
}

/// Some observation of a case says nothing.
pub open spec fn any_blank_event(events: Seq<EvalEvent>) -> bool {
    exists|i: int| 0 <= i < events.len() && blank(#[trigger] events[i].text@)
}

/// An earlier case has the id.
pub open spec fn id_taken(earlier: Seq<EvalCase>, id: Seq<char>) -> bool {
    exists|i: int| 0 <= i < earlier.len() && #[trigger] earlier[i].id@ == id
}

/// The first thing wrong with what a case asks and is told.
pub open spec fn content_problem(earlier: Seq<EvalCase>, case: EvalCase) -> Option<Seq<char>> {
    if blank(case.id@) {
        Some("eval case id must not be empty"@)
    } else if id_taken(earlier, case.id@) {
        Some("duplicate eval case id "@ + quoted_form(case.id@))
    } else if blank(case.question@) {
        Some(about_case(case.id@, " question must not be empty"@))
    } else if case.events@.len() == 0 {
        Some(about_case(case.id@, " must include at least one event"@))
    } else if any_blank_event(case.events@) {
        Some(about_case(case.id@, " event text must not be empty"@))
    } else {
        None
    }
}

/// The first thing wrong with what a case expects.
pub open spec fn expectations_problem(case: EvalCase) -> Option<Seq<char>> {
    either_problem(
        either_problem(
            either_problem(
                expectation_problem(
                    case.id@,
                    "expected_answer_contains"@,
                    texts(case.expected_answer_contains@),
                ),
                expectation_problem(
                    case.id@,
                    "expected_evidence_contains"@,
                    texts(case.expected_evidence_contains@),
                ),
            ),
            expectation_problem(
                case.id@,
                "expected_stale_contains"@,
                texts(case.expected_stale_contains@),
            ),
        ),
        expectation_problem(
            case.id@,
            "expected_contradiction_contains"@,
            texts(case.expected_contradiction_contains@),
        ),
    )
}

/// How many texts a case expects.
pub open spec fn expectation_count(case: EvalCase) -> nat {
    case.expected_answer_contains@.len() + case.expected_evidence_contains@.len()
        + case.expected_stale_contains@.len() + case.expected_contradiction_contains@.len()
}

/// The first thing wrong with the bounds of a case.
pub open spec fn bounds_problem(case: EvalCase) -> Option<Seq<char>> {
    if expectation_count(case) == 0 {
        Some(about_case(case.id@, " must include at least one content expectation"@))
    } else if case.max_tokens == Some(0u32) {
        Some(about_case(case.id@, " max_tokens must be greater than 0"@))
    } else {
        either_problem(
            match case.reconstruction {
                Some(reconstruction) => reconstruction.problem(),
                None => None,
            },
            match case.baseline_full_context_score {
                Some(score) => if 0 <= score <= 1_000_000_000 {
                    None
                } else {
                    Some(
                        about_case(
                            case.id@,
                            " baseline_full_context_score must be between 0 and 1"@,
                        ),
                    )
                },
                None => None,
            },
        )
    }
}

/// The first thing wrong with a case that comes after others.
pub open spec fn case_problem(earlier: Seq<EvalCase>, case: EvalCase) -> Option<Seq<char>> {
    either_problem(
        either_problem(content_problem(earlier, case), expectations_problem(case)),
        bounds_problem(case),
    )
}

/// The first thing wrong with some cases.
pub open spec fn cases_problem(cases: Seq<EvalCase>) -> Option<Seq<char>>
    decreases cases.len(),
{
    if cases.len() == 0 {
        None
    } else {
        either_problem(
            cases_problem(cases.drop_last()),
            case_problem(cases.drop_last(), cases.last()),
        )
    }
}

/// The first thing wrong with a suite.
pub open spec fn suite_problem(suite: EvalSuite) -> Option<Seq<char>> {
    if blank(suite.name@) {
        Some("eval suite name must not be empty"@)
    } else if suite.cases@.len() == 0 {
        Some("eval suite must include at least one case"@)
    } else {
        cases_problem(suite.cases@)
    }
}

/// The first problem of some cases is the first problem of the whole list.
pub proof fn lemma_cases_problem(cases: Seq<EvalCase>, k: int)
    requires
        0 <= k <= cases.len(),
        cases_problem(cases.take(k)) is Some,
    ensures
        cases_problem(cases) == cases_problem(cases.take(k)),
    decreases cases.len(),
{
    if k < cases.len() {
        assert(cases.drop_last().take(k) =~= cases.take(k));
        lemma_cases_problem(cases.drop_last(), k);
    } else {
        assert(cases.take(k) =~= cases);
    }
}

fn has_id(cases: &Vec<EvalCase>, end: usize, id: &str) -> (r: bool)
    requires
        end <= cases@.len(),
    ensures
        r == id_taken(cases@.take(end as int), id@),
{
    let mut i: usize = 0;
    while i < end
        invariant
            i <= end <= cases@.len(),
            forall|k: int| 0 <= k < i ==> #[trigger] cases@.take(end as int)[k].id@ != id@,
        decreases end - i,
    {
        if same_text(cases[i].id.as_str(), id) {
            proof {
                assert(cases@.take(end as int)[i as int].id@ == id@);
            }
            return true;
        }
        i += 1;
    }
    false
}

fn has_blank_event(events: &Vec<EvalEvent>) -> (r: bool)
    ensures
        r == any_blank_event(events@),
{
    let mut i: usize = 0;
    while i < events.len()
        invariant
            i <= events@.len(),
            forall|k: int| 0 <= k < i ==> !blank(#[trigger] events@[k].text@),
        decreases events.len() - i,
    {
        if is_blank(events[i].text.as_str()) {
            return true;
        }
        i += 1;
    }
    false
}

fn validate_content(cases: &Vec<EvalCase>, index: usize) -> (r: MemoryResult<()>)
    requires
        index < cases@.len(),
    ensures
        failure(r) == rejection(
            content_problem(cases@.take(index as int), cases@[index as int]),
        ),
{
    let case = &cases[index];
    let id = case.id.as_str();
    if is_blank(id) {
        return Err(MemoryError::invalid("eval case id must not be empty"));
    }
    if has_id(cases, index, id) {
        let mut message = "duplicate eval case id ".to_owned();
        let name = quoted(id);
        message.append(name.as_str());
        return Err(MemoryError::InvalidInput(message));
    }
    if is_blank(case.question.as_str()) {
        return Err(case_error(id, " question must not be empty"));
    }
    if case.events.len() == 0 {
        return Err(case_error(id, " must include at least one event"));
    }
    if has_blank_event(&case.events) {
        return Err(case_error(id, " event text must not be empty"));
    }
    Ok(())
}

fn validate_bounds(case: &EvalCase) -> (r: MemoryResult<()>)
    ensures
        failure(r) == rejection(bounds_problem(*case)),
{
    let id = case.id.as_str();
    if case.expected_answer_contains.len() == 0 && case.expected_evidence_contains.len() == 0
        && case.expected_stale_contains.len() == 0 && case.expected_contradiction_contains.len()
        == 0 {
        return Err(case_error(id, " must include at least one content expectation"));
    }
    if let Some(bound) = case.max_tokens {
        if bound == 0 {
            return Err(case_error(id, " max_tokens must be greater than 0"));
        }
    }
    if let Some(reconstruction) = case.reconstruction {
        reconstruction.validate()?;
    }
    if let Some(score) = case.baseline_full_context_score {
        if score < 0 || score > 1_000_000_000 {
            return Err(
                case_error(id, " baseline_full_context_score must be between 0 and 1"),
            );
        }
    }
    Ok(())
}

fn validate_case(cases: &Vec<EvalCase>, index: usize) -> (r: MemoryResult<()>)
    requires
        index < cases@.len(),
    ensures
        failure(r) == rejection(case_problem(cases@.take(index as int), cases@[index as int])),
{
    validate_content(cases, index)?;
    let case = &cases[index];
    let id = case.id.as_str();
    validate_expectations(id, "expected_answer_contains", &case.expected_answer_contains)?;
    validate_expectations(id, "expected_evidence_contains", &case.expected_evidence_contains)?;
    validate_expectations(id, "expected_stale_contains", &case.expected_stale_contains)?;
    validate_expectations(
        id,
        "expected_contradiction_contains",
        &case.expected_contradiction_contains,
    )?;
    validate_bounds(case)
}

/// The version of the fixture format that suites are written in.
pub const EVAL_CONTRACT_VERSION: u32 = 1;

/// A fixture that names a version names the current one.
pub fn validate_contract_version(version: Option<u32>) -> (r: MemoryResult<()>)
    ensures
        failure(r) == rejection(
            match version {
                Some(version) => if version == EVAL_CONTRACT_VERSION {
                    None
                } else {
                    Some("eval suite contract_version is not supported"@)
                },
                None => None,
            },
        ),
{
    match version {
        Some(version) => if version == EVAL_CONTRACT_VERSION {
            Ok(())
        } else {
            Err(MemoryError::invalid("eval suite contract_version is not supported"))
        },
        None => Ok(()),
    }
}

/// A suite has a name and cases, and each case has an id of its own, a question, observations,
/// and expectations.
pub fn validate_suite(suite: &EvalSuite) -> (r: MemoryResult<()>)
    ensures
        failure(r) == rejection(suite_problem(*suite)),
{
    if is_blank(suite.name.as_str()) {
        return Err(MemoryError::invalid("eval suite name must not be empty"));
    }
    if suite.cases.len() == 0 {
        return Err(MemoryError::invalid("eval suite must include at least one case"));
    }
    let mut i: usize = 0;
    while i < suite.cases.len()
        invariant
            i <= suite.cases@.len(),
            !blank(suite.name@),
            suite.cases@.len() > 0,
            cases_problem(suite.cases@.take(i as int)) is None,
        decreases suite.cases.len() - i,
    {
        proof {
            let front = suite.cases@.take(i as int + 1);
            assert(front.drop_last() =~= suite.cases@.take(i as int));
            assert(front.last() == suite.cases@[i as int]);
        }
        if let Err(error) = validate_case(&suite.cases, i) {
            proof {
                lemma_cases_problem(suite.cases@, i as int + 1);
            }
            return Err(error);
        }
        i += 1;
    }
    proof {
        assert(suite.cases@.take(i as int) =~= suite.cases@);
    }
    Ok(())
}

/// The cases of a suite that nothing is wrong with have ids of their own.
pub proof fn checked_suites_name_cases_apart(suite: EvalSuite, i: int, j: int)
    requires
        suite_problem(suite) is None,
        0 <= i < j < suite.cases@.len(),
    ensures
        suite.cases@[i].id@ != suite.cases@[j].id@,
{
    let front = suite.cases@.take(j + 1);
    if cases_problem(front) is Some {
        lemma_cases_problem(suite.cases@, j + 1);
    }
    assert(front.last() == suite.cases@[j]);
    assert(content_problem(front.drop_last(), front.last()) is None);
    assert(front.drop_last()[i] == suite.cases@[i]);
}

// ---------------------------------------------------------------------------
// Events and queries
// ---------------------------------------------------------------------------
/// Where the memories of a case are kept. A case has a project of its own, unless it names one
/// or the suite shares its haystack.
pub open spec fn scope_of_case(suite: EvalSuite, case: EvalCase) -> (
    Seq<char>,
    Seq<char>,
    Option<Seq<char>>,
) {
    (
        match case.tenant_id {
            Some(id) => id@,
            None => suite.tenant_id@,
        },
        match case.project_id {
            Some(id) => id@,
            None => if suite.shared_haystack {
                suite.project_id@
            } else {
                suite.project_id@ + "-"@ + stable_id_of(
                    "eval_case_project"@,
                    seq![suite.name@, case.id@],
                )
            },
        },
        match case.environment_id {
            Some(id) => Some(id@),
            None => opt_text(suite.environment_id),
        },
    )
}

/// Where the memories of a case are kept: tenant, project and environment.
pub fn case_scope(suite: &EvalSuite, case: &EvalCase) -> (r: (String, String, Option<String>))
    ensures
        (r.0@, r.1@, opt_text(r.2)) == scope_of_case(*suite, *case),
{
    let tenant_id = match &case.tenant_id {
        Some(id) => id.clone(),
        None => suite.tenant_id.clone(),
    };
    let project_id = match &case.project_id {
        Some(id) => id.clone(),
        None => if suite.shared_haystack {
            suite.project_id.clone()
        } else {
            let parts = [suite.name.as_str(), case.id.as_str()];
            proof {
                assert(str_texts(parts@) =~= seq![suite.name@, case.id@]);
            }
            let own = stable_id("eval_case_project", &parts);
            let mut id = suite.project_id.clone();
            id.append("-");
            id.append(own.as_str());
            id
        },
    };
    let environment_id = match &case.environment_id {
        Some(id) => Some(id.clone()),
        None => copy_opt_text(&suite.environment_id),
    };
    (tenant_id, project_id, environment_id)
}

/// The options of a case's reconstruction under the overrides.
pub open spec fn options_of_case(case: EvalCase, options: EvalOptions) -> ReconstructionOptions {
    let own = match case.reconstruction {
        Some(reconstruction) => reconstruction,
        None => options_with_mode(ReconstructionMode::Off),
    };
    ReconstructionOptions {
        mode: match options.reconstruction_mode {
            Some(mode) => mode,
            None => own.mode,
        },
        max_steps: match options.max_reconstruction_steps {
            Some(bound) => bound,
            None => own.max_steps,
        },
        max_tokens: match options.max_reconstruction_tokens {
            Some(bound) => bound,
            None => own.max_tokens,
        },
    }
}

/// The query of a case under the overrides.
pub open spec fn query_of_case(
    suite: EvalSuite,
    case: EvalCase,
    options: EvalOptions,
) -> QueryModel {
    let scope = scope_of_case(suite, case);
    QueryModel {
        question: case.question@,
        scope: ScopeModel {
            tenant_id: scope.0,
            project_id: scope.1,
            environment_id: scope.2,
            as_of_unix_ms: case.as_of_unix_ms,
            known_at_unix_ms: None,
        },
        max_tokens: match options.max_tokens {
            Some(bound) => bound,
            None => match case.max_tokens {
                Some(bound) => bound,
                None => 1_200,
            },
        },
        require_fresh: case.require_fresh,
        modes: match case.modes {
            Some(modes) => modes@,
            None => all_modes(),
        },
        modes_explicit: case.modes is Some,
        reconstruction: options_of_case(case, options),
    }
}

/// The query of a case. An override comes before what the case says.
pub fn build_query(suite: &EvalSuite, case: &EvalCase, options: &EvalOptions) -> (r: MemoryQuery)
    ensures
        r@ == query_of_case(*suite, *case, *options),
{
    let (tenant_id, project_id, environment_id) = case_scope(suite, case);
    let mut scope = MemoryScope::new(tenant_id.as_str(), project_id.as_str());
    if let Some(environment_id) = environment_id {
        scope = scope.with_environment(environment_id.as_str());
    }
    if let Some(as_of) = case.as_of_unix_ms {
        scope = scope.as_of_unix_ms(as_of);
    }
    let max_tokens: u32 = match options.max_tokens {
        Some(bound) => bound,
        None => match case.max_tokens {
            Some(bound) => bound,
            None => 1_200,
        },
    };
    let mut reconstruction = match case.reconstruction {
        Some(reconstruction) => reconstruction,
        None => ReconstructionOptions::default(),
    };
    if let Some(mode) = options.reconstruction_mode {
        reconstruction.mode = mode;
    }
    if let Some(bound) = options.max_reconstruction_steps {
        reconstruction.max_steps = bound;
    }
    if let Some(bound) = options.max_reconstruction_tokens {
        reconstruction.max_tokens = bound;
    }
    let mut query = MemoryQuery::new(case.question.as_str(), scope).with_max_tokens(
        max_tokens,
    ).with_reconstruction(reconstruction);
    if case.require_fresh {
        query = query.requiring_fresh();
    }
    if let Some(modes) = &case.modes {
        query = query.with_modes(copy_modes(modes));
    }
    query
}

/// When an observation was made that does not say: the cases stand ten seconds apart, and the
/// observations of a case one second.
pub open spec fn default_time(case_index: int, event_index: int) -> int {
    1_000 + case_index * 10_000 + event_index * 1_000
}

pub fn default_event_time(case_index: usize, event_index: usize) -> (r: i64)
    requires
        default_time(case_index as int, event_index as int) <= i64::MAX,
    ensures
        r == default_time(case_index as int, event_index as int),
{
    let seconds: u64 = case_index as u64 * 10 + event_index as u64;
    (1_000 + seconds * 1_000) as i64
}

/// The event of an observation.
pub open spec fn event_of_case(
    suite: EvalSuite,
    case_index: int,
    event_index: int,
) -> EventModel {
    let case = suite.cases@[case_index];
    let event = case.events@[event_index];
    let scope = scope_of_case(suite, case);
    let trace_id = stable_id_of(
        "eval_trace"@,
        seq![suite.name@, case.id@, decimal(event_index as nat)],
    );
    let at = match event.observed_at_unix_ms {
        Some(at) => at,
        None => default_time(case_index, event_index) as i64,
    };
    EventModel {
        environment_id: scope.2,
        trace_id,
        span_id: stable_id_of("eval_span"@, seq![trace_id]),
        seq: (event_index + 1) as u64,
        observed_at_unix_ms: at,
        ingested_at_unix_ms: at,
        payload: payload_of_case(event.kind, suite.name@, case.id@),
        ..direct_event(scope.0, scope.1, event.kind, event.text@, 0)
    }
}

pub open spec fn payload_of_case(
    kind: MemoryNodeKind,
    suite_name: Seq<char>,
    case_id: Seq<char>,
) -> JsonModel {
    JsonModel::Object(seq![("kind"@, JsonModel::Text(kind.name()))]).with_member(
        "eval_suite"@,
        JsonModel::Text(suite_name),
    ).with_member("eval_case_id"@, JsonModel::Text(case_id))
}

/// The times of a suite that its observations leave out fit.
pub open spec fn times_fit(suite: EvalSuite) -> bool {
    forall|i: int, j: int|
        0 <= i < suite.cases@.len() && 0 <= j < suite.cases@[i].events@.len()
            ==> #[trigger] default_time(i, j) <= i64::MAX
}

/// Whether the times that observations leave out fit.
pub fn default_times_fit(suite: &EvalSuite) -> (r: bool)
    ensures
        r ==> times_fit(*suite),
        suite.cases@.len() <= 100_000_000_000_000 && (forall|i: int|
            0 <= i < suite.cases@.len() ==> #[trigger] suite.cases@[i].events@.len()
                <= 1_000_000_000_000_000) ==> r,
{
    if suite.cases.len() as u64 > 100_000_000_000_000 {
        return false;
    }
    let mut i: usize = 0;
    while i < suite.cases.len()
        invariant
            i <= suite.cases@.len() <= 100_000_000_000_000,
            forall|k: int|
                0 <= k < i ==> #[trigger] suite.cases@[k].events@.len() <= 1_000_000_000_000_000,
        decreases suite.cases.len() - i,
    {
        if suite.cases[i].events.len() as u64 > 1_000_000_000_000_000 {
            return false;
        }
        i += 1;
    }
    true
}

fn text_value(text: &str) -> (r: JsonValue)
    ensures
        r@ == JsonModel::Text(text@),
{
    let value = JsonValue::Text(text.to_owned());
    proof {
        assert(value@ == JsonModel::Text(text@));
    }
    value
}

/// The event of an observation.
pub fn eval_event(suite: &EvalSuite, case_index: usize, event_index: usize) -> (r: LedgerEvent)
    requires
        case_index < suite.cases@.len(),
        event_index < suite.cases@[case_index as int].events@.len(),
        default_time(case_index as int, event_index as int) <= i64::MAX,
    ensures
        r@ == event_of_case(*suite, case_index as int, event_index as int),
{
    let case = &suite.cases[case_index];
    let event = &case.events[event_index];
    let (tenant_id, project_id, environment_id) = case_scope(suite, case);
    let mut ledger_event = LedgerEvent::direct_memory_write_at(
        tenant_id.as_str(),
        project_id.as_str(),
        event.kind,
        event.text.as_str(),
        0,
    );
    let number = decimal_text(event_index as u64);
    let parts = [suite.name.as_str(), case.id.as_str(), number.as_str()];
    proof {
        assert(str_texts(parts@) =~= seq![suite.name@, case.id@, number@]);
    }
    let trace_id = stable_id("eval_trace", &parts);
    let trace_parts = [trace_id.as_str()];
    proof {
        assert(str_texts(trace_parts@) =~= seq![trace_id@]);
    }
    let span_id = stable_id("eval_span", &trace_parts);
    let at: i64 = match event.observed_at_unix_ms {
        Some(at) => at,
        None => default_event_time(case_index, event_index),
    };
    let mut payload = JsonValue::object_of("kind", text_value(event.kind.as_str()));
    payload.set("eval_suite", text_value(suite.name.as_str()));
    payload.set("eval_case_id", text_value(case.id.as_str()));
    ledger_event.environment_id = environment_id;
    ledger_event.trace_id = trace_id;
    ledger_event.span_id = span_id;
    ledger_event.seq = event_index as u64 + 1;
    ledger_event.observed_at_unix_ms = at;
    ledger_event.ingested_at_unix_ms = at;
    ledger_event.payload = payload;
    ledger_event
}

/// The events of a case.
pub open spec fn events_of_case(suite: EvalSuite, case_index: int) -> Seq<EventModel> {
    Seq::new(
        suite.cases@[case_index].events@.len(),
        |j: int| event_of_case(suite, case_index, j),
    )
}

/// The events of the first cases of a suite, case by case.
pub open spec fn events_of_cases(suite: EvalSuite, cases: nat) -> Seq<EventModel>
    decreases cases,
{
    if cases == 0 {
        Seq::empty()
    } else {
        events_of_cases(suite, (cases - 1) as nat) + events_of_case(suite, cases - 1)
    }
}

/// The tables after some events, and how many of them were new.
pub open spec fn ingested(start: StoreModel, events: Seq<EventModel>) -> Result<
    (StoreModel, nat),
    ErrorModel,
>
    decreases events.len(),
{
    if events.len() == 0 {
        Ok((start, 0))
    } else {
        match ingested(start, events.drop_last()) {
            Err(error) => Err(error),
            Ok((store, count)) => match store.appended(events.last()) {
                Err(error) => Err(error),
                Ok((after, added)) => Ok(
                    (
                        after,
                        if added {
                            count + 1
                        } else {
                            count
                        },
                    ),
                ),
            },
        }
    }
}

proof fn lemma_ingested_prefix(start: StoreModel, front: Seq<EventModel>, rest: Seq<EventModel>)
    requires
        ingested(start, front) is Err,
    ensures
        ingested(start, front + rest) == ingested(start, front),
    decreases rest.len(),
{
    if rest.len() == 0 {
        assert(front + rest =~= front);
    } else {
        lemma_ingested_prefix(start, front, rest.drop_last());
        assert((front + rest).drop_last() =~= front + rest.drop_last());
    }
}

proof fn lemma_events_of_cases(suite: EvalSuite, cases: nat)
    requires
        cases < suite.cases@.len(),
    ensures
        exists|rest: Seq<EventModel>|
            events_of_cases(suite, suite.cases@.len()) == #[trigger] (events_of_cases(
                suite,
                cases + 1,
            ) + rest),
    decreases suite.cases@.len() - cases,
{
    if cases + 1 == suite.cases@.len() {
        assert(events_of_cases(suite, cases + 1) + Seq::<EventModel>::empty()
            =~= events_of_cases(suite, cases + 1));
    } else {
        lemma_events_of_cases(suite, cases + 1);
        let rest = choose|rest: Seq<EventModel>|
            events_of_cases(suite, suite.cases@.len()) == #[trigger] (events_of_cases(
                suite,
                cases + 2,
            ) + rest);
        let more = events_of_case(suite, cases as int + 1) + rest;
        assert(events_of_cases(suite, cases + 2) + rest =~= events_of_cases(suite, cases + 1)
            + more);
    }
}

/// A count up to the greatest `usize`.
pub open spec fn capped(count: nat) -> usize {
    if count > usize::MAX {
        usize::MAX
    } else {
        count as usize
    }
}

fn capped_next(count: usize) -> (r: usize)
    ensures
        forall|n: nat| count == #[trigger] capped(n) ==> r == capped(n + 1),
{
    if count == usize::MAX {
        count
    } else {
        count + 1
    }
}

/// A suite whose observations are projected: the engine to ask, what the projection did, and
/// what the store then holds.
pub struct EvalRun {
    pub engine: MemoryEngine<HeuristicDistiller, DeterministicReconstructor>,
    pub project: ProjectReport,
    pub stats: StoreStats,
}

pub open spec fn pass_limit(count: nat) -> usize {
    if count == 0 {
        1
    } else {
        capped(count)
    }
}

/// One pass projects the observations of a run.
#[verifier::opaque]
pub open spec fn run_projected(
    store: StoreModel,
    count: nat,
    now: i64,
    r: MemoryResult<EvalRun>,
) -> bool {
    let distiller = HeuristicDistiller { max_memory_chars: 900 };
    match r {
        Ok(run) => {
            &&& run.engine.distiller == distiller
            &&& pass_happened(
                distiller,
                store,
                run.engine.store@,
                pass_limit(count),
                now,
                Ok::<ProjectReport, MemoryError>(run.project),
            )
            &&& run.stats == run.engine.store@.stats(now)
        },
        Err(error) => exists|after: StoreModel|
            #[trigger] pass_happened(
                distiller,
                store,
                after,
                pass_limit(count),
                now,
                Err::<ProjectReport, MemoryError>(error),
            ),
    }
}

/// A run began this way: the suite and the overrides are checked, every observation is appended
/// to an empty ledger, and one pass projects them all.
pub open spec fn run_began(
    suite: EvalSuite,
    options: EvalOptions,
    now: i64,
    r: MemoryResult<EvalRun>,
) -> bool {
    match either_problem(suite_problem(suite), options_problem(options)) {
        Some(problem) => failure(r) == Some(ErrorModel::InvalidInput(problem)),
        None => match ingested(empty_store(), events_of_cases(suite, suite.cases@.len())) {
            Err(error) => failure(r) == Some(error),
            Ok((store, count)) => run_projected(store, count, now, r),
        },
    }
}

fn ingest_case(
    engine: &mut MemoryEngine<HeuristicDistiller, DeterministicReconstructor>,
    suite: &EvalSuite,
    index: usize,
    count: usize,
    total: Ghost<nat>,
) -> (r: MemoryResult<(usize, Ghost<nat>)>)
    requires
        index < suite.cases@.len(),
        times_fit(*suite),
        ingested(empty_store(), events_of_cases(*suite, index as nat)) == Ok::<
            (StoreModel, nat),
            ErrorModel,
        >((old(engine).store@, total@)),
        count == capped(total@),
    ensures
        final(engine).distiller == old(engine).distiller,
        match (r, ingested(empty_store(), events_of_cases(*suite, index as nat + 1))) {
            (Ok((counted, now_total)), Ok((store, total_after))) => {
                &&& final(engine).store@ == store
                &&& now_total@ == total_after
                &&& counted == capped(total_after)
            },
            (Err(error), Err(words)) => error@ == words,
            _ => false,
        },
{
    let ghost before = events_of_cases(*suite, index as nat);
    let ghost own = events_of_case(*suite, index as int);
    let mut counted: usize = count;
    let ghost mut sum: nat = total@;
    let mut j: usize = 0;
    proof {
        assert(before + own.take(0) =~= before);
    }
    while j < suite.cases[index].events.len()
        invariant
            index < suite.cases@.len(),
            j <= suite.cases@[index as int].events@.len(),
            times_fit(*suite),
            before == events_of_cases(*suite, index as nat),
            own == events_of_case(*suite, index as int),
            engine.distiller == old(engine).distiller,
            ingested(empty_store(), before + own.take(j as int)) == Ok::<
                (StoreModel, nat),
                ErrorModel,
            >((engine.store@, sum)),
            counted == capped(sum),
        decreases suite.cases@[index as int].events@.len() - j,
    {
        proof {
            assert(default_time(index as int, j as int) <= i64::MAX);
            let next = before + own.take(j as int + 1);
            assert(next.drop_last() =~= before + own.take(j as int));
            assert(next.last() == own[j as int]);
        }
        let event = eval_event(suite, index, j);
        match engine.ingest_event(&event) {
            Ok(added) => {
                if added {
                    counted = capped_next(counted);
                    proof {
                        sum = sum + 1;
                    }
                }
            },
            Err(error) => {
                proof {
                    let next = before + own.take(j as int + 1);
                    lemma_ingested_prefix(empty_store(), next, own.skip(j as int + 1));
                    assert(next + own.skip(j as int + 1) =~= before + own);
                }
                return Err(error);
            },
        }
        j += 1;
    }
    proof {
        assert(own.take(j as int) =~= own);
    }
    Ok((counted, Ghost(sum)))
}

/// Appends the observations of every case, and counts those that are new.
fn ingest_suite(
    engine: &mut MemoryEngine<HeuristicDistiller, DeterministicReconstructor>,
    suite: &EvalSuite,
) -> (r: MemoryResult<usize>)
    requires
        times_fit(*suite),
        old(engine).store@ == empty_store(),
    ensures
        final(engine).distiller == old(engine).distiller,
        match (r, ingested(empty_store(), events_of_cases(*suite, suite.cases@.len()))) {
            (Ok(counted), Ok((store, total))) => final(engine).store@ == store && counted == capped(
                total,
            ),
            (Err(error), Err(words)) => error@ == words,
            _ => false,
        },
{
    let mut count: usize = 0;
    let mut total: Ghost<nat> = Ghost(0);
    let mut i: usize = 0;
    while i < suite.cases.len()
        invariant
            i <= suite.cases@.len(),
            times_fit(*suite),
            engine.distiller == old(engine).distiller,
            ingested(empty_store(), events_of_cases(*suite, i as nat)) == Ok::<
                (StoreModel, nat),
                ErrorModel,
            >((engine.store@, total@)),
            count == capped(total@),
        decreases suite.cases.len() - i,
    {
        match ingest_case(engine, suite, i, count, total) {
            Ok((counted, total_after)) => {
                count = counted;
                total = total_after;
            },
            Err(error) => {
                proof {
                    lemma_events_of_cases(*suite, i as nat);
                    let rest = choose|rest: Seq<EventModel>|
                        events_of_cases(*suite, suite.cases@.len()) == #[trigger] (events_of_cases(
                            *suite,
                            i as nat + 1,
                        ) + rest);
                    lemma_ingested_prefix(
                        empty_store(),
                        events_of_cases(*suite, i as nat + 1),
                        rest,
                    );
                }
                return Err(error);
            },
        }
        i += 1;
    }
    Ok(count)
}

fn project_run(
    engine: MemoryEngine<HeuristicDistiller, DeterministicReconstructor>,
    count: usize,
    total: Ghost<nat>,
    now: i64,
) -> (r: MemoryResult<EvalRun>)
    requires
        engine.distiller == (HeuristicDistiller { max_memory_chars: 900 }),
        count == capped(total@),
    ensures
        run_projected(engine.store@, total@, now, r),
{
    let mut engine = engine;
    let limit: usize = if count == 0 {
        1
    } else {
        count
    };
    let ghost start = engine.store@;
    proof {
        reveal(run_projected);
    }
    let projected = engine.project_pending_at(limit, now);
    match projected {
        Ok(project) => {
            let stats = engine.store.stats(now);
            Ok(EvalRun { engine, project, stats })
        },
        Err(error) => {
            proof {
                assert(pass_happened(
                    HeuristicDistiller { max_memory_chars: 900 },
                    start,
                    engine.store@,
                    pass_limit(total@),
                    now,
                    Err::<ProjectReport, MemoryError>(error),
                ));
            }
            Err(error)
        },
    }
}

/// Begins a run of a suite: checks it, and projects its observations in an engine of its own.
pub fn begin_eval_suite(suite: &EvalSuite, options: &EvalOptions, now: i64) -> (r: MemoryResult<
    EvalRun,
>)
    requires
        times_fit(*suite),
    ensures
        run_began(*suite, *options, now, r),
{
    validate_suite(suite)?;
    validate_options(options)?;
    let mut engine = MemoryEngine::in_memory();
    let count: usize = ingest_suite(&mut engine, suite)?;
    let ghost total = ingested(
        empty_store(),
        events_of_cases(*suite, suite.cases@.len()),
    )->Ok_0.1;
    project_run(engine, count, Ghost(total), now)
}

// ---------------------------------------------------------------------------
// Judging
// ---------------------------------------------------------------------------
/// How many of the expected texts were found.
#[derive(Clone, Copy, Debug, PartialEq, Eq, Structural)]
pub struct EvalScore {
    pub matched: usize,
    pub total: usize,
}

/// A text stands in another, letter case aside.
pub open spec fn occurs_in_any_case(needle: Seq<char>, hay: Seq<char>) -> bool {
    occurs(lower(needle), lower(hay))
}

pub fn contains_case_insensitive(haystack: &str, needle: &str) -> (r: bool)
    ensures
        r == occurs_in_any_case(needle@, haystack@),
{
    let hay = lower_text(haystack);
    let word = lower_text(needle);
    contains_text(hay.as_str(), word.as_str())
}

/// A text stands in one of some others.
pub open spec fn found(needle: Seq<char>, hays: Seq<Seq<char>>) -> bool {
    exists|i: int| 0 <= i < hays.len() && occurs_in_any_case(needle, #[trigger] hays[i])
}

/// How many of some expected texts are found.
pub open spec fn found_count(expected: Seq<Seq<char>>, hays: Seq<Seq<char>>) -> nat
    decreases expected.len(),
{
    if expected.len() == 0 {
        0
    } else {
        let front = found_count(expected.drop_last(), hays);
        if found(expected.last(), hays) {
            front + 1
        } else {
            front
        }
    }
}

pub open spec fn missing_line(label: Seq<char>, expected: Seq<char>) -> Seq<char> {
    "missing "@ + label + " substring "@ + quoted_form(expected)
}

/// A line for each expected text that is not found.
pub open spec fn missing_lines(
    label: Seq<char>,
    expected: Seq<Seq<char>>,
    hays: Seq<Seq<char>>,
) -> Seq<Seq<char>>
    decreases expected.len(),
{
    if expected.len() == 0 {
        Seq::empty()
    } else {
        let front = missing_lines(label, expected.drop_last(), hays);
        if found(expected.last(), hays) {
            front
        } else {
            front.push(missing_line(label, expected.last()))
        }
    }
}

fn is_found(needle: &str, hays: &Vec<String>) -> (r: bool)
    ensures
        r == found(needle@, texts(hays@)),
{
    let mut i: usize = 0;
    while i < hays.len()
        invariant
            i <= hays@.len(),
            forall|k: int|
                0 <= k < i ==> !occurs_in_any_case(needle@, #[trigger] texts(hays@)[k]),
        decreases hays.len() - i,
    {
        if contains_case_insensitive(hays[i].as_str(), needle) {
            proof {
                assert(occurs_in_any_case(needle@, texts(hays@)[i as int]));
            }
            return true;
        }
        i += 1;
    }
    false
}

/// Counts the expected texts that are found, and notes each that is not.
pub fn check_expected(
    label: &str,
    expected: &Vec<String>,
    haystacks: &Vec<String>,
    matched: &mut usize,
    total: &mut usize,
    failures: &mut Vec<String>,
)
    ensures
        forall|n: nat| *old(matched) == #[trigger] capped(n) ==> *final(matched) == capped(
            n + found_count(texts(expected@), texts(haystacks@)),
        ),
        forall|n: nat| *old(total) == #[trigger] capped(n) ==> *final(total) == capped(
            n + expected@.len(),
        ),
        texts(final(failures)@) == texts(old(failures)@) + missing_lines(
            label@,
            texts(expected@),
            texts(haystacks@),
        ),
{
    let ghost all = texts(expected@);
    let ghost hays = texts(haystacks@);
    let ghost noted = texts(failures@);
    let mut i: usize = 0;
    proof {
        assert(all.take(0) =~= Seq::empty());
        assert(noted + missing_lines(label@, all.take(0), hays) =~= noted);
    }
    while i < expected.len()
        invariant
            i <= expected@.len(),
            all == texts(expected@),
            hays == texts(haystacks@),
            noted == texts(old(failures)@),
            forall|n: nat| *old(matched) == #[trigger] capped(n) ==> *matched == capped(
                n + found_count(all.take(i as int), hays),
            ),
            forall|n: nat| *old(total) == #[trigger] capped(n) ==> *total == capped(n + i as nat),
            texts(failures@) == noted + missing_lines(label@, all.take(i as int), hays),
        decreases expected.len() - i,
    {
        let ghost front = all.take(i as int);
        let ghost lines = texts(failures@);
        proof {
            assert(all.take(i as int + 1).drop_last() =~= front);
            assert(all.take(i as int + 1).last() == expected@[i as int]@);
        }
        *total = capped_next(*total);
        if is_found(expected[i].as_str(), haystacks) {
            *matched = capped_next(*matched);
        } else {
            let mut line = "missing ".to_owned();
            line.append(label);
            line.append(" substring ");
            let word = quoted(expected[i].as_str());
            line.append(word.as_str());
            failures.push(line);
            proof {
                assert(texts(failures@) =~= lines.push(line@));
                assert(lines.push(line@) =~= noted + missing_lines(
                    label@,
                    all.take(i as int + 1),
                    hays,
                ));
            }
        }
        i += 1;
    }
    proof {
        assert(all.take(i as int) =~= all);
    }
}

/// The texts that an answer's evidence says.
pub open spec fn evidence_texts(evidence: Seq<Evidence>) -> Seq<Seq<char>> {
    Seq::new(evidence.len(), |i: int| evidence[i].text@)
}

pub open spec fn stale_texts(answer: MemoryAnswer) -> Seq<Seq<char>> {
    Seq::new(answer.stale_assumptions@.len(), |i: int| answer.stale_assumptions@[i].summary@)
}

pub open spec fn contradiction_texts(answer: MemoryAnswer) -> Seq<Seq<char>> {
    Seq::new(answer.contradictions@.len(), |i: int| answer.contradictions@[i].summary@)
}

fn texts_of_evidence(answer: &MemoryAnswer) -> (r: Vec<String>)
    ensures
        texts(r@) == evidence_texts(answer.evidence@),
{
    let mut out: Vec<String> = Vec::new();
    let mut i: usize = 0;
    while i < answer.evidence.len()
        invariant
            i <= answer.evidence@.len(),
            texts(out@) =~= evidence_texts(answer.evidence@).take(i as int),
        decreases answer.evidence.len() - i,
    {
        let ghost before = texts(out@);
        out.push(answer.evidence[i].text.clone());
        proof {
            assert(texts(out@) =~= before.push(answer.evidence@[i as int].text@));
        }
        i += 1;
    }
    proof {
        assert(texts(out@) =~= evidence_texts(answer.evidence@));
    }
    out
}

fn texts_of_stale(answer: &MemoryAnswer) -> (r: Vec<String>)
    ensures
        texts(r@) == stale_texts(*answer),
{
    let mut out: Vec<String> = Vec::new();
    let mut i: usize = 0;
    while i < answer.stale_assumptions.len()
        invariant
            i <= answer.stale_assumptions@.len(),
            texts(out@) =~= stale_texts(*answer).take(i as int),
        decreases answer.stale_assumptions.len() - i,
    {
        let ghost before = texts(out@);
        out.push(answer.stale_assumptions[i].summary.clone());
        proof {
            assert(texts(out@) =~= before.push(answer.stale_assumptions@[i as int].summary@));
        }
        i += 1;
    }
    proof {
        assert(texts(out@) =~= stale_texts(*answer));
    }
    out
}

fn texts_of_contradictions(answer: &MemoryAnswer) -> (r: Vec<String>)
    ensures
        texts(r@) == contradiction_texts(*answer),
{
    let mut out: Vec<String> = Vec::new();
    let mut i: usize = 0;
    while i < answer.contradictions.len()
        invariant
            i <= answer.contradictions@.len(),
            texts(out@) =~= contradiction_texts(*answer).take(i as int),
        decreases answer.contradictions.len() - i,
    {
        let ghost before = texts(out@);
        out.push(answer.contradictions[i].summary.clone());
        proof {
            assert(texts(out@) =~= before.push(answer.contradictions@[i as int].summary@));
        }
        i += 1;
    }
    proof {
        assert(texts(out@) =~= contradiction_texts(*answer));
    }
    out
}

/// How many of the texts that a case expects an answer holds.
pub open spec fn matched_count(case: EvalCase, answer: MemoryAnswer) -> nat {
    found_count(texts(case.expected_answer_contains@), seq![answer.answer@]) + found_count(
        texts(case.expected_evidence_contains@),
        evidence_texts(answer.evidence@),
    ) + found_count(texts(case.expected_stale_contains@), stale_texts(answer)) + found_count(
        texts(case.expected_contradiction_contains@),
        contradiction_texts(answer),
    )
}

/// The name of a tier in a judge's line.
pub open spec fn tier_word(tier: MemoryTier) -> Seq<char> {
    match tier {
        MemoryTier::CueSeed => "CueSeed"@,
        MemoryTier::Activation => "Activation"@,
        MemoryTier::ActiveReconstruction => "ActiveReconstruction"@,
    }
}

fn tier_label(tier: MemoryTier) -> (r: &'static str)
    ensures
        r@ == tier_word(tier),
{
    match tier {
        MemoryTier::CueSeed => "CueSeed",
        MemoryTier::Activation => "Activation",
        MemoryTier::ActiveReconstruction => "ActiveReconstruction",
    }
}

/// What an answer lacks of the texts that a case expects.
pub open spec fn content_failures(case: EvalCase, answer: MemoryAnswer) -> Seq<Seq<char>> {
    missing_lines("answer"@, texts(case.expected_answer_contains@), seq![answer.answer@])
        + missing_lines(
        "evidence"@,
        texts(case.expected_evidence_contains@),
        evidence_texts(answer.evidence@),
    ) + missing_lines(
        "stale assumption"@,
        texts(case.expected_stale_contains@),
        stale_texts(answer),
    ) + missing_lines(
        "contradiction"@,
        texts(case.expected_contradiction_contains@),
        contradiction_texts(answer),
    )
}

/// The line for an answer that came from another tier than the one expected.
pub open spec fn tier_failures(case: EvalCase, answer: MemoryAnswer) -> Seq<Seq<char>> {
    match case.expected_tier {
        Some(tier) => if tier == answer.tier_used {
            Seq::empty()
        } else {
            seq!["expected tier "@ + tier_word(tier) + ", got "@ + tier_word(answer.tier_used)]
        },
        None => Seq::empty(),
    }
}

/// The judgement of an answer.
pub struct JudgementModel {
    pub score: EvalScore,
    pub content_score: EvalScore,
    pub failures: Seq<Seq<char>>,
}

/// How much of what a case expects an answer holds.
pub open spec fn content_score_of(case: EvalCase, answer: MemoryAnswer) -> EvalScore {
    EvalScore {
        matched: capped(matched_count(case, answer)),
        total: capped(expectation_count(case)),
    }
}

/// The score of an answer and what it lacks. An answer from another tier than the one expected
/// scores nothing, whatever it holds.
pub open spec fn judgement(case: EvalCase, answer: MemoryAnswer) -> JudgementModel {
    let content_score = content_score_of(case, answer);
    if expectation_count(case) == 0 {
        JudgementModel {
            score: content_score,
            content_score,
            failures: seq!["case has no expectations"@],
        }
    } else {
        JudgementModel {
            score: if tier_failures(case, answer).len() == 0 {
                content_score
            } else {
                EvalScore { matched: 0, total: content_score.total }
            },
            content_score,
            failures: content_failures(case, answer) + tier_failures(case, answer),
        }
    }
}

/// The judgement of an answer: its score, the share of the expected texts that it holds, and
/// what is wrong with it.
#[derive(Debug, PartialEq, Eq)]
pub struct EvalJudgement {
    pub score: EvalScore,
    pub content_score: EvalScore,
    pub failures: Vec<String>,
}

impl View for EvalJudgement {
    type V = JudgementModel;

    open spec fn view(&self) -> JudgementModel {
        JudgementModel {
            score: self.score,
            content_score: self.content_score,
            failures: texts(self.failures@),
        }
    }
}

fn judge_content(case: &EvalCase, answer: &MemoryAnswer) -> (r: (EvalScore, Vec<String>))
    ensures
        r.0 == content_score_of(*case, *answer),
        texts(r.1@) == content_failures(*case, *answer),
{
    let mut matched: usize = 0;
    let mut total: usize = 0;
    let mut failures: Vec<String> = Vec::new();
    let mut answers: Vec<String> = Vec::new();
    answers.push(answer.answer.clone());
    let evidence = texts_of_evidence(answer);
    let stale = texts_of_stale(answer);
    let contradictions = texts_of_contradictions(answer);
    proof {
        assert(texts(failures@) =~= Seq::empty());
        assert(texts(answers@) =~= seq![answer.answer@]);
        assert(matched == capped(0));
    }
    check_expected(
        "answer",
        &case.expected_answer_contains,
        &answers,
        &mut matched,
        &mut total,
        &mut failures,
    );
    check_expected(
        "evidence",
        &case.expected_evidence_contains,
        &evidence,
        &mut matched,
        &mut total,
        &mut failures,
    );
    check_expected(
        "stale assumption",
        &case.expected_stale_contains,
        &stale,
        &mut matched,
        &mut total,
        &mut failures,
    );
    check_expected(
        "contradiction",
        &case.expected_contradiction_contains,
        &contradictions,
        &mut matched,
        &mut total,
        &mut failures,
    );
    proof {
        assert(texts(failures@) =~= content_failures(*case, *answer));
        assert(matched == capped(matched_count(*case, *answer)));
        assert(total == capped(expectation_count(*case)));
    }
    (EvalScore { matched, total }, failures)
}

fn judge_tier(case: &EvalCase, answer: &MemoryAnswer) -> (r: Option<String>)
    ensures
        match r {
            Some(line) => tier_failures(*case, *answer) == seq![line@],
            None => tier_failures(*case, *answer).len() == 0,
        },
{
    if let Some(expected_tier) = case.expected_tier {
        if expected_tier != answer.tier_used {
            let mut line = "expected tier ".to_owned();
            line.append(tier_label(expected_tier));
            line.append(", got ");
            line.append(tier_label(answer.tier_used));
            return Some(line);
        }
    }
    None
}

/// Judges an answer by what a case expects: how much of it was found, and what is missing.
pub fn judge_case(case: &EvalCase, answer: &MemoryAnswer) -> (r: EvalJudgement)
    ensures
        r@ == judgement(*case, *answer),
{
    let (content_score, found_missing) = judge_content(case, answer);
    if content_score.total == 0 {
        let mut only: Vec<String> = Vec::new();
        only.push("case has no expectations".to_owned());
        proof {
            assert(texts(only@) =~= seq!["case has no expectations"@]);
        }
        return EvalJudgement { score: content_score, content_score, failures: only };
    }
    let mut score = content_score;
    let mut failures = found_missing;
    let ghost lines = texts(failures@);
    match judge_tier(case, answer) {
        Some(line) => {
            score.matched = 0;
            failures.push(line);
            proof {
                assert(texts(failures@) =~= lines + seq![line@]);
            }
        },
        None => {
            proof {
                assert(lines + tier_failures(*case, *answer) =~= lines);
            }
        },
    }
    EvalJudgement { score, content_score, failures }
}

proof fn lemma_found_or_missing(
    label: Seq<char>,
    expected: Seq<Seq<char>>,
    hays: Seq<Seq<char>>,
)
    ensures
        found_count(expected, hays) + missing_lines(label, expected, hays).len() == expected.len(),
    decreases expected.len(),
{
    if expected.len() > 0 {
        lemma_found_or_missing(label, expected.drop_last(), hays);
    }
}

/// Every expected text is found or noted as missing: what is found and what the lines about
/// content note make up what a case expects.
pub proof fn expectations_are_found_or_noted(case: EvalCase, answer: MemoryAnswer)
    ensures
        matched_count(case, answer) + content_failures(case, answer).len() == expectation_count(
            case,
        ),
{
    lemma_found_or_missing(
        "answer"@,
        texts(case.expected_answer_contains@),
        seq![answer.answer@],
    );
    lemma_found_or_missing(
        "evidence"@,
        texts(case.expected_evidence_contains@),
        evidence_texts(answer.evidence@),
    );
    lemma_found_or_missing(
        "stale assumption"@,
        texts(case.expected_stale_contains@),
        stale_texts(answer),
    );
    lemma_found_or_missing(
        "contradiction"@,
        texts(case.expected_contradiction_contains@),
        contradiction_texts(answer),
    );
}

/// A case passes if and only if it has the full score, and no score is above the full one.
pub proof fn passing_is_the_full_score(case: EvalCase, answer: MemoryAnswer)
    requires
        0 < expectation_count(case) <= usize::MAX,
    ensures
        judgement(case, answer).failures.len() == 0 <==> judgement(case, answer).score.matched
            == judgement(case, answer).score.total,
        judgement(case, answer).score.matched <= judgement(case, answer).score.total,
{
    expectations_are_found_or_noted(case, answer);
}

/// An answer from another tier than the one expected scores nothing.
pub proof fn tiers_are_a_gate(case: EvalCase, answer: MemoryAnswer)
    requires
        0 < expectation_count(case) <= usize::MAX,
        case.expected_tier matches Some(tier) && tier != answer.tier_used,
    ensures
        judgement(case, answer).score.matched == 0,
        judgement(case, answer).failures.len() > 0,
{
}

// ---------------------------------------------------------------------------
// Reports
// ---------------------------------------------------------------------------
/// Per-case deterministic judge output and query telemetry.
#[derive(Debug, PartialEq, Eq)]
pub struct EvalCaseReport {
    pub id: String,
    pub ability: EvalAbility,
    pub passed: bool,
    pub score: EvalScore,
    pub content_score: EvalScore,
    pub tier_used: MemoryTier,
    pub latency_ms: u64,
    pub token_estimate: u32,
    pub answer_tokens: u32,
    pub evidence_tokens: u32,
    pub reconstruction_tokens: u32,
    pub evidence_count: usize,
    pub stale_assumption_count: usize,
    pub contradiction_count: usize,
    pub failure_reasons: Vec<String>,
}

pub struct CaseReportModel {
    pub id: Seq<char>,
    pub ability: EvalAbility,
    pub passed: bool,
    pub score: EvalScore,
    pub content_score: EvalScore,
    pub tier_used: MemoryTier,
    pub latency_ms: u64,
    pub token_estimate: u32,
    pub answer_tokens: u32,
    pub evidence_tokens: u32,
    pub reconstruction_tokens: u32,
    pub evidence_count: nat,
    pub stale_assumption_count: nat,
    pub contradiction_count: nat,
    pub failure_reasons: Seq<Seq<char>>,
}

impl View for EvalCaseReport {
    type V = CaseReportModel;

    open spec fn view(&self) -> CaseReportModel {
        CaseReportModel {
            id: self.id@,
            ability: self.ability,
            passed: self.passed,
            score: self.score,
            content_score: self.content_score,
            tier_used: self.tier_used,
            latency_ms: self.latency_ms,
            token_estimate: self.token_estimate,
            answer_tokens: self.answer_tokens,
            evidence_tokens: self.evidence_tokens,
            reconstruction_tokens: self.reconstruction_tokens,
            evidence_count: self.evidence_count as nat,
            stale_assumption_count: self.stale_assumption_count as nat,
            contradiction_count: self.contradiction_count as nat,
            failure_reasons: texts(self.failure_reasons@),
        }
    }
}

/// A sum of tokens up to the greatest `u32`.
pub open spec fn capped_tokens(sum: nat) -> u32 {
    if sum > u32::MAX {
        u32::MAX
    } else {
        sum as u32
    }
}

/// A sum of milliseconds up to the greatest `u64`.
pub open spec fn capped_ms(sum: nat) -> u64 {
    if sum > u64::MAX {
        u64::MAX
    } else {
        sum as u64
    }
}

/// The tokens of some evidence.
pub open spec fn evidence_cost(evidence: Seq<Evidence>) -> nat
    decreases evidence.len(),
{
    if evidence.len() == 0 {
        0
    } else {
        evidence_cost(evidence.drop_last()) + evidence.last().token_estimate as nat
    }
}

fn add_tokens(sum: u32, more: u32) -> (r: u32)
    ensures
        forall|n: nat| sum == #[trigger] capped_tokens(n) ==> r == capped_tokens(n + more as nat),
{
    if sum > u32::MAX - more {
        u32::MAX
    } else {
        sum + more
    }
}

fn add_ms(sum: u64, more: u64) -> (r: u64)
    ensures
        forall|n: nat| sum == #[trigger] capped_ms(n) ==> r == capped_ms(n + more as nat),
{
    if sum > u64::MAX - more {
        u64::MAX
    } else {
        sum + more
    }
}

fn tokens_of_evidence(evidence: &Vec<Evidence>) -> (r: u32)
    ensures
        r == capped_tokens(evidence_cost(evidence@)),
{
    let mut sum: u32 = 0;
    let mut i: usize = 0;
    proof {
        assert(evidence@.take(0) =~= Seq::empty());
        assert(sum == capped_tokens(0));
    }
    while i < evidence.len()
        invariant
            i <= evidence@.len(),
            sum == capped_tokens(evidence_cost(evidence@.take(i as int))),
        decreases evidence.len() - i,
    {
        proof {
            assert(evidence@.take(i as int + 1).drop_last() =~= evidence@.take(i as int));
        }
        sum = add_tokens(sum, evidence[i].token_estimate);
        i += 1;
    }
    proof {
        assert(evidence@.take(i as int) =~= evidence@);
    }
    sum
}

/// The report on a case that was answered.
pub open spec fn report_of_case(
    case: EvalCase,
    answer: MemoryAnswer,
    latency_ms: u64,
) -> CaseReportModel {
    let judged = judgement(case, answer);
    CaseReportModel {
        id: case.id@,
        ability: case.ability,
        passed: judged.failures.len() == 0,
        score: judged.score,
        content_score: judged.content_score,
        tier_used: answer.tier_used,
        latency_ms,
        token_estimate: answer.token_estimate,
        answer_tokens: token_cost(answer.answer@),
        evidence_tokens: capped_tokens(evidence_cost(answer.evidence@)),
        reconstruction_tokens: match answer.reconstruction {
            Some(report) => report.tokens_spent,
            None => 0,
        },
        evidence_count: answer.evidence@.len(),
        stale_assumption_count: answer.stale_assumptions@.len(),
        contradiction_count: answer.contradictions@.len(),
        failure_reasons: judged.failures,
    }
}

/// The report on a case that was answered.
pub fn report_case(case: &EvalCase, answer: &MemoryAnswer, latency_ms: u64) -> (r: EvalCaseReport)
    ensures
        r@ == report_of_case(*case, *answer, latency_ms),
{
    let judged = judge_case(case, answer);
    let reconstruction_tokens: u32 = match &answer.reconstruction {
        Some(report) => report.tokens_spent,
        None => 0,
    };
    EvalCaseReport {
        id: case.id.clone(),
        ability: case.ability,
        passed: judged.failures.len() == 0,
        score: judged.score,
        content_score: judged.content_score,
        tier_used: answer.tier_used,
        latency_ms,
        token_estimate: answer.token_estimate,
        answer_tokens: estimate_tokens(answer.answer.as_str()),
        evidence_tokens: tokens_of_evidence(&answer.evidence),
        reconstruction_tokens,
        evidence_count: answer.evidence.len(),
        stale_assumption_count: answer.stale_assumptions.len(),
        contradiction_count: answer.contradictions.len(),
        failure_reasons: judged.failures,
    }
}

/// Results of a LongMemEval-style ability bucket: its cases, how many passed, and their scores.
#[derive(Debug, PartialEq, Eq)]
pub struct EvalAbilitySummary {
    pub ability: EvalAbility,
    pub cases: usize,
    pub passed: usize,
    pub scores: Vec<EvalScore>,
}

pub struct AbilityModel {
    pub ability: EvalAbility,
    pub cases: nat,
    pub passed: nat,
    pub scores: Seq<EvalScore>,
}

impl View for EvalAbilitySummary {
    type V = AbilityModel;

    open spec fn view(&self) -> AbilityModel {
        AbilityModel {
            ability: self.ability,
            cases: self.cases as nat,
            passed: self.passed as nat,
            scores: self.scores@,
        }
    }
}

/// Query economics summarized by retrieval tier.
#[derive(Clone, Copy, Debug, PartialEq, Eq, Structural)]
pub struct EvalTierSummary {
    pub tier: MemoryTier,
    pub requests: usize,
    pub latency_ms_sum: u64,
    pub tokens_into_context: u32,
}

pub open spec fn has_ability(ability: EvalAbility) -> spec_fn(CaseReportModel) -> bool {
    |report: CaseReportModel| report.ability == ability
}

pub open spec fn has_tier(tier: MemoryTier) -> spec_fn(CaseReportModel) -> bool {
    |report: CaseReportModel| report.tier_used == tier
}

pub open spec fn has_passed() -> spec_fn(CaseReportModel) -> bool {
    |report: CaseReportModel| report.passed
}

pub open spec fn scores_of(reports: Seq<CaseReportModel>) -> Seq<EvalScore> {
    Seq::new(reports.len(), |i: int| reports[i].score)
}

/// A sum over some reports.
pub open spec fn total_of(
    reports: Seq<CaseReportModel>,
    amount: spec_fn(CaseReportModel) -> nat,
) -> nat
    decreases reports.len(),
{
    if reports.len() == 0 {
        0
    } else {
        total_of(reports.drop_last(), amount) + amount(reports.last())
    }
}

pub open spec fn latency_of() -> spec_fn(CaseReportModel) -> nat {
    |report: CaseReportModel| report.latency_ms as nat
}

pub open spec fn evidence_of() -> spec_fn(CaseReportModel) -> nat {
    |report: CaseReportModel| report.evidence_tokens as nat
}

pub open spec fn answer_of() -> spec_fn(CaseReportModel) -> nat {
    |report: CaseReportModel| report.answer_tokens as nat
}

pub open spec fn reconstruction_of() -> spec_fn(CaseReportModel) -> nat {
    |report: CaseReportModel| report.reconstruction_tokens as nat
}

/// The bucket of an ability.
pub open spec fn bucket_of(reports: Seq<CaseReportModel>, ability: EvalAbility) -> AbilityModel {
    let bucket = reports.filter(has_ability(ability));
    AbilityModel {
        ability,
        cases: bucket.len(),
        passed: bucket.filter(has_passed()).len(),
        scores: scores_of(bucket),
    }
}

/// The abilities in the order in which they are reported.
pub open spec fn ability_order() -> Seq<EvalAbility> {
    seq![
        EvalAbility::StaticStateRecall,
        EvalAbility::DynamicStateTracking,
        EvalAbility::WorkflowKnowledge,
        EvalAbility::EnvironmentGotcha,
        EvalAbility::PremiseAwareness,
        EvalAbility::CompositionalReasoning,
        EvalAbility::Other,
    ]
}

/// The buckets of some abilities that hold a case.
pub open spec fn buckets_of(
    reports: Seq<CaseReportModel>,
    order: Seq<EvalAbility>,
) -> Seq<AbilityModel>
    decreases order.len(),
{
    if order.len() == 0 {
        Seq::empty()
    } else {
        let front = buckets_of(reports, order.drop_last());
        let last = bucket_of(reports, order.last());
        if last.cases == 0 {
            front
        } else {
            front.push(last)
        }
    }
}

/// The economics of a tier.
pub open spec fn economics_of(reports: Seq<CaseReportModel>, tier: MemoryTier) -> EvalTierSummary {
    let bucket = reports.filter(has_tier(tier));
    EvalTierSummary {
        tier,
        requests: bucket.len() as usize,
        latency_ms_sum: capped_ms(total_of(bucket, latency_of())),
        tokens_into_context: capped_tokens(total_of(bucket, evidence_of())),
    }
}

/// The economics of the tiers that answered a case.
pub open spec fn tiers_of(
    reports: Seq<CaseReportModel>,
    order: Seq<MemoryTier>,
) -> Seq<EvalTierSummary>
    decreases order.len(),
{
    if order.len() == 0 {
        Seq::empty()
    } else {
        let front = tiers_of(reports, order.drop_last());
        if reports.filter(has_tier(order.last())).len() == 0 {
            front
        } else {
            front.push(economics_of(reports, order.last()))
        }
    }
}

/// The tiers in the order in which they are reported.
pub open spec fn tier_order() -> Seq<MemoryTier> {
    seq![MemoryTier::CueSeed, MemoryTier::Activation, MemoryTier::ActiveReconstruction]
}

fn ability_summary(reports: &Vec<EvalCaseReport>, ability: EvalAbility) -> (r: EvalAbilitySummary)
    ensures
        r@ == bucket_of(views(reports@), ability),
{
    let ghost all = views(reports@);
    let ghost test = has_ability(ability);
    let mut cases: usize = 0;
    let mut passed: usize = 0;
    let mut scores: Vec<EvalScore> = Vec::new();
    let mut i: usize = 0;
    proof {
        reveal(Seq::filter);
        assert(all.take(0) =~= Seq::empty());
        assert(scores@ =~= scores_of(all.take(0).filter(test)));
    }
    while i < reports.len()
        invariant
            i <= reports@.len(),
            all == views(reports@),
            test == has_ability(ability),
            cases == all.take(i as int).filter(test).len(),
            cases <= i,
            passed == all.take(i as int).filter(test).filter(has_passed()).len(),
            passed <= i,
            scores@ == scores_of(all.take(i as int).filter(test)),
        decreases reports.len() - i,
    {
        let report = &reports[i];
        let ghost bucket = all.take(i as int).filter(test);
        proof {
            reveal(Seq::filter);
            let next = all.take(i as int + 1);
            assert(next.drop_last() =~= all.take(i as int));
            assert(next.last() == report@);
            assert(bucket.push(report@).drop_last() =~= bucket);
            assert(scores_of(bucket.push(report@)) =~= scores_of(bucket).push(report.score));
        }
        if report.ability == ability {
            cases = cases + 1;
            if report.passed {
                passed = passed + 1;
            }
            scores.push(report.score);
        }
        i += 1;
    }
    proof {
        assert(all.take(i as int) =~= all);
    }
    EvalAbilitySummary { ability, cases, passed, scores }
}

fn add_bucket(
    reports: &Vec<EvalCaseReport>,
    out: &mut Vec<EvalAbilitySummary>,
    ability: EvalAbility,
    order: Ghost<Seq<EvalAbility>>,
)
    requires
        views(old(out)@) == buckets_of(views(reports@), order@),
    ensures
        views(final(out)@) == buckets_of(views(reports@), order@.push(ability)),
{
    let summary = ability_summary(reports, ability);
    let ghost before = views(out@);
    proof {
        assert(order@.push(ability).drop_last() =~= order@);
    }
    if summary.cases > 0 {
        out.push(summary);
        proof {
            assert(views(out@) =~= before.push(summary@));
        }
    }
}

/// The buckets of the abilities that some case has, in the order of the abilities.
pub fn ability_summaries(case_reports: &Vec<EvalCaseReport>) -> (r: Vec<EvalAbilitySummary>)
    ensures
        views(r@) == buckets_of(views(case_reports@), ability_order()),
{
    let mut out: Vec<EvalAbilitySummary> = Vec::new();
    let ghost mut order: Seq<EvalAbility> = Seq::empty();
    proof {
        assert(views(out@) =~= Seq::empty());
    }
    let all = [
        EvalAbility::StaticStateRecall,
        EvalAbility::DynamicStateTracking,
        EvalAbility::WorkflowKnowledge,
        EvalAbility::EnvironmentGotcha,
        EvalAbility::PremiseAwareness,
        EvalAbility::CompositionalReasoning,
        EvalAbility::Other,
    ];
    let mut i: usize = 0;
    while i < 7
        invariant
            i <= 7,
            all@ == ability_order(),
            order == all@.take(i as int),
            views(out@) == buckets_of(views(case_reports@), order),
        decreases 7 - i,
    {
        add_bucket(case_reports, &mut out, all[i], Ghost(order));
        proof {
            order = order.push(all@[i as int]);
            assert(order =~= all@.take(i as int + 1));
        }
        i += 1;
    }
    proof {
        assert(order =~= ability_order());
    }
    out
}

fn tier_summary(reports: &Vec<EvalCaseReport>, tier: MemoryTier) -> (r: Option<EvalTierSummary>)
    ensures
        r == if views(reports@).filter(has_tier(tier)).len() == 0 {
            None
        } else {
            Some(economics_of(views(reports@), tier))
        },
{
    let ghost all = views(reports@);
    let ghost test = has_tier(tier);
    let mut requests: usize = 0;
    let mut latency: u64 = 0;
    let mut tokens: u32 = 0;
    let mut i: usize = 0;
    proof {
        reveal(Seq::filter);
        assert(all.take(0) =~= Seq::empty());
        assert(latency == capped_ms(0));
        assert(tokens == capped_tokens(0));
    }
    while i < reports.len()
        invariant
            i <= reports@.len(),
            all == views(reports@),
            test == has_tier(tier),
            requests == all.take(i as int).filter(test).len(),
            requests <= i,
            latency == capped_ms(total_of(all.take(i as int).filter(test), latency_of())),
            tokens == capped_tokens(total_of(all.take(i as int).filter(test), evidence_of())),
        decreases reports.len() - i,
    {
        let report = &reports[i];
        let ghost bucket = all.take(i as int).filter(test);
        proof {
            reveal(Seq::filter);
            let next = all.take(i as int + 1);
            assert(next.drop_last() =~= all.take(i as int));
            assert(next.last() == report@);
            assert(bucket.push(report@).drop_last() =~= bucket);
        }
        if report.tier_used == tier {
            requests = requests + 1;
            latency = add_ms(latency, report.latency_ms);
            tokens = add_tokens(tokens, report.evidence_tokens);
        }
        i += 1;
    }
    proof {
        assert(all.take(i as int) =~= all);
    }
    if requests == 0 {
        None
    } else {
        Some(
            EvalTierSummary {
                tier,
                requests,
                latency_ms_sum: latency,
                tokens_into_context: tokens,
            },
        )
    }
}

/// The economics of the tiers that answered a case, in the order of the tiers.
pub fn tier_summaries(case_reports: &Vec<EvalCaseReport>) -> (r: Vec<EvalTierSummary>)
    ensures
        r@ == tiers_of(views(case_reports@), tier_order()),
{
    let mut out: Vec<EvalTierSummary> = Vec::new();
    let all = [MemoryTier::CueSeed, MemoryTier::Activation, MemoryTier::ActiveReconstruction];
    let mut i: usize = 0;
    proof {
        assert(all@.take(0) =~= Seq::empty());
    }
    while i < 3
        invariant
            i <= 3,
            all@ == tier_order(),
            out@ == tiers_of(views(case_reports@), all@.take(i as int)),
        decreases 3 - i,
    {
        proof {
            let next = all@.take(i as int + 1);
            assert(next.drop_last() =~= all@.take(i as int));
        }
        if let Some(summary) = tier_summary(case_reports, all[i]) {
            out.push(summary);
        }
        i += 1;
    }
    proof {
        assert(all@.take(3) =~= tier_order());
    }
    out
}

/// The score of a case beside its baseline, in billionths.
#[derive(Clone, Copy, Debug, PartialEq, Eq, Structural)]
pub struct EvalBaseline {
    pub score: EvalScore,
    pub baseline: i64,
}

/// Aggregate result of one deterministic suite run.
#[derive(Debug)]
pub struct EvalReport {
    pub suite: String,
    pub cases: usize,
    pub passed: usize,
    pub failed: usize,
    pub baselines: Vec<EvalBaseline>,
    pub query_latency_ms_sum: u64,
    pub tokens_into_context_total: u32,
    pub answer_tokens_total: u32,
    pub evidence_tokens_total: u32,
    pub reconstruction_tokens_total: u32,
    pub project: ProjectReport,
    pub stats: StoreStats,
    pub ability_scores: Vec<EvalAbilitySummary>,
    pub tier_metrics: Vec<EvalTierSummary>,
    pub case_reports: Vec<EvalCaseReport>,
}

/// The scores of the first cases that have a baseline, beside it.
pub open spec fn baselines_of(
    cases: Seq<EvalCase>,
    reports: Seq<CaseReportModel>,
    end: int,
) -> Seq<EvalBaseline>
    decreases end,
{
    if end <= 0 {
        Seq::empty()
    } else {
        let front = baselines_of(cases, reports, end - 1);
        match cases[end - 1].baseline_full_context_score {
            Some(baseline) => front.push(
                EvalBaseline { score: reports[end - 1].score, baseline },
            ),
            None => front,
        }
    }
}

fn baseline_pairs(suite: &EvalSuite, reports: &Vec<EvalCaseReport>) -> (r: Vec<EvalBaseline>)
    requires
        reports@.len() == suite.cases@.len(),
    ensures
        r@ == baselines_of(suite.cases@, views(reports@), reports@.len() as int),
{
    let mut out: Vec<EvalBaseline> = Vec::new();
    let mut i: usize = 0;
    while i < reports.len()
        invariant
            i <= reports@.len(),
            reports@.len() == suite.cases@.len(),
            out@ == baselines_of(suite.cases@, views(reports@), i as int),
        decreases reports.len() - i,
    {
        if let Some(baseline) = suite.cases[i].baseline_full_context_score {
            out.push(EvalBaseline { score: reports[i].score, baseline });
        }
        i += 1;
    }
    out
}

fn count_passed(reports: &Vec<EvalCaseReport>) -> (r: usize)
    ensures
        r == views(reports@).filter(has_passed()).len(),
        r <= reports@.len(),
{
    let ghost all = views(reports@);
    let mut passed: usize = 0;
    let mut i: usize = 0;
    proof {
        reveal(Seq::filter);
        assert(all.take(0) =~= Seq::empty());
    }
    while i < reports.len()
        invariant
            i <= reports@.len(),
            all == views(reports@),
            passed == all.take(i as int).filter(has_passed()).len(),
            passed <= i,
        decreases reports.len() - i,
    {
        proof {
            reveal(Seq::filter);
            assert(all.take(i as int + 1).drop_last() =~= all.take(i as int));
            assert(all.take(i as int + 1).last() == reports@[i as int]@);
        }
        if reports[i].passed {
            passed = passed + 1;
        }
        i += 1;
    }
    proof {
        assert(all.take(i as int) =~= all);
    }
    passed
}

/// The sums of a run: milliseconds, and tokens of evidence, answers and reconstruction.
pub open spec fn sums_of(reports: Seq<CaseReportModel>) -> (u64, u32, u32, u32) {
    (
        capped_ms(total_of(reports, latency_of())),
        capped_tokens(total_of(reports, evidence_of())),
        capped_tokens(total_of(reports, answer_of())),
        capped_tokens(total_of(reports, reconstruction_of())),
    )
}

fn run_sums(reports: &Vec<EvalCaseReport>) -> (r: (u64, u32, u32, u32))
    ensures
        r == sums_of(views(reports@)),
{
    let ghost all = views(reports@);
    let mut latency: u64 = 0;
    let mut evidence: u32 = 0;
    let mut answers: u32 = 0;
    let mut reconstruction: u32 = 0;
    let mut i: usize = 0;
    proof {
        assert(all.take(0) =~= Seq::empty());
        assert(latency == capped_ms(0));
        assert(evidence == capped_tokens(0));
    }
    while i < reports.len()
        invariant
            i <= reports@.len(),
            all == views(reports@),
            (latency, evidence, answers, reconstruction) == sums_of(all.take(i as int)),
        decreases reports.len() - i,
    {
        let report = &reports[i];
        proof {
            assert(all.take(i as int + 1).drop_last() =~= all.take(i as int));
            assert(all.take(i as int + 1).last() == report@);
        }
        latency = add_ms(latency, report.latency_ms);
        evidence = add_tokens(evidence, report.evidence_tokens);
        answers = add_tokens(answers, report.answer_tokens);
        reconstruction = add_tokens(reconstruction, report.reconstruction_tokens);
        i += 1;
    }
    proof {
        assert(all.take(i as int) =~= all);
    }
    (latency, evidence, answers, reconstruction)
}

/// A report sums up a run.
pub open spec fn sums_up(
    r: EvalReport,
    suite: EvalSuite,
    project: ProjectReport,
    stats: StoreStats,
    reports: Seq<CaseReportModel>,
) -> bool {
    let sums = sums_of(reports);
    let passed = reports.filter(has_passed()).len();
    &&& r.suite@ == suite.name@
    &&& r.cases == reports.len()
    &&& r.passed == passed
    &&& r.failed == reports.len() - passed
    &&& r.baselines@ == baselines_of(suite.cases@, reports, reports.len() as int)
    &&& r.query_latency_ms_sum == sums.0
    &&& r.tokens_into_context_total == sums.1
    &&& r.answer_tokens_total == sums.2
    &&& r.evidence_tokens_total == sums.1
    &&& r.reconstruction_tokens_total == sums.3
    &&& r.project == project
    &&& r.stats == stats
    &&& views(r.ability_scores@) == buckets_of(reports, ability_order())
    &&& r.tier_metrics@ == tiers_of(reports, tier_order())
    &&& views(r.case_reports@) == reports
}

/// Sums up a run whose cases are all reported on.
pub fn finish_eval_suite(
    suite: &EvalSuite,
    project: ProjectReport,
    stats: StoreStats,
    case_reports: Vec<EvalCaseReport>,
) -> (r: EvalReport)
    requires
        case_reports@.len() == suite.cases@.len(),
    ensures
        sums_up(r, *suite, project, stats, views(case_reports@)),
{
    let passed: usize = count_passed(&case_reports);
    let cases: usize = case_reports.len();
    let baselines = baseline_pairs(suite, &case_reports);
    let (latency, evidence, answers, reconstruction) = run_sums(&case_reports);
    EvalReport {
        suite: suite.name.clone(),
        cases,
        passed,
        failed: cases - passed,
        baselines,
        query_latency_ms_sum: latency,
        tokens_into_context_total: evidence,
        answer_tokens_total: answers,
        evidence_tokens_total: evidence,
        reconstruction_tokens_total: reconstruction,
        project,
        stats,
        ability_scores: ability_summaries(&case_reports),
        tier_metrics: tier_summaries(&case_reports),
        case_reports,
    }
}

/// How many cases some buckets hold.
pub open spec fn cases_in(buckets: Seq<AbilityModel>) -> nat
    decreases buckets.len(),
{
    if buckets.len() == 0 {
        0
    } else {
        cases_in(buckets.drop_last()) + buckets.last().cases
    }
}

/// How many reports have one of some abilities.
spec fn with_abilities(reports: Seq<CaseReportModel>, order: Seq<EvalAbility>) -> nat
    decreases order.len(),
{
    if order.len() == 0 {
        0
    } else {
        with_abilities(reports, order.drop_last()) + reports.filter(
            has_ability(order.last()),
        ).len()
    }
}

proof fn lemma_bucket_cases(reports: Seq<CaseReportModel>, order: Seq<EvalAbility>)
    ensures
        cases_in(buckets_of(reports, order)) == with_abilities(reports, order),
    decreases order.len(),
{
    if order.len() > 0 {
        lemma_bucket_cases(reports, order.drop_last());
        let front = buckets_of(reports, order.drop_last());
        let last = bucket_of(reports, order.last());
        assert(front.push(last).drop_last() =~= front);
    }
}

/// Every case stands in one bucket: the buckets of all abilities hold as many cases as were
/// reported.
pub proof fn buckets_hold_every_case(reports: Seq<CaseReportModel>)
    ensures
        cases_in(buckets_of(reports, ability_order())) == reports.len(),
    decreases reports.len(),
{
    let order = ability_order();
    lemma_bucket_cases(reports, order);
    reveal(Seq::filter);
    reveal_with_fuel(with_abilities, 9);
    assert(order.drop_last() =~= order.take(6));
    assert(order.take(6).drop_last() =~= order.take(5));
    assert(order.take(5).drop_last() =~= order.take(4));
    assert(order.take(4).drop_last() =~= order.take(3));
    assert(order.take(3).drop_last() =~= order.take(2));
    assert(order.take(2).drop_last() =~= order.take(1));
    assert(order.take(1).drop_last() =~= order.take(0));
    if reports.len() > 0 {
        buckets_hold_every_case(reports.drop_last());
        lemma_bucket_cases(reports.drop_last(), order);
    }
}

} // verus!
