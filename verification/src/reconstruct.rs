//! Read-time active reconstruction: bounded exploration of the graph around the evidence.
use vstd::prelude::*;

use crate::chars::{decimal, decimal_text, opt_text, same_text, texts};
use crate::distill::{
    add_count, add_ms, add_tokens, clock, elapsed_ms, plus_count, plus_ms, plus_tokens,
};
use crate::error::{failure, rejection, ErrorModel, MemoryError, MemoryResult};
use crate::model::{estimate_tokens, quoted, quoted_form, token_cost, MemoryNodeKind};
use crate::order::views;
use crate::table::{has_row, some_row, Row, Rule};

verus! {

// ---------------------------------------------------------------------------
// Steps and decisions
// ---------------------------------------------------------------------------
/// Candidate visible to a read-time active reconstruction policy. The score is in billionths.
#[derive(Debug, PartialEq, Eq)]
pub struct ReconstructionCandidate {
    pub node_id: String,
    pub kind: MemoryNodeKind,
    pub text: String,
    pub score: u32,
    pub token_estimate: u32,
}

pub struct CandidateModel {
    pub node_id: Seq<char>,
    pub kind: MemoryNodeKind,
    pub text: Seq<char>,
    pub score: u32,
    pub token_estimate: u32,
}

impl View for ReconstructionCandidate {
    type V = CandidateModel;

    open spec fn view(&self) -> CandidateModel {
        CandidateModel {
            node_id: self.node_id@,
            kind: self.kind,
            text: self.text@,
            score: self.score,
            token_estimate: self.token_estimate,
        }
    }
}

impl Clone for ReconstructionCandidate {
    fn clone(&self) -> (r: Self)
        ensures
            r@ == self@,
    {
        ReconstructionCandidate {
            node_id: self.node_id.clone(),
            kind: self.kind,
            text: self.text.clone(),
            score: self.score,
            token_estimate: self.token_estimate,
        }
    }
}

impl Row for ReconstructionCandidate {
    fn twin(&self) -> (r: Self) {
        self.clone()
    }
}

/// One bounded reconstruction step.
#[derive(Debug, PartialEq, Eq)]
pub struct ReconstructionStep {
    pub question: String,
    pub step_index: u8,
    pub expanded_node_id: String,
    pub remaining_tokens: u32,
    pub candidates: Vec<ReconstructionCandidate>,
}

pub struct StepModel {
    pub question: Seq<char>,
    pub step_index: u8,
    pub expanded_node_id: Seq<char>,
    pub remaining_tokens: u32,
    pub candidates: Seq<CandidateModel>,
}

impl View for ReconstructionStep {
    type V = StepModel;

    open spec fn view(&self) -> StepModel {
        StepModel {
            question: self.question@,
            step_index: self.step_index,
            expanded_node_id: self.expanded_node_id@,
            remaining_tokens: self.remaining_tokens,
            candidates: views(self.candidates@),
        }
    }
}

/// Validated action returned by an active reconstruction policy.
#[derive(Clone, Debug, PartialEq, Eq)]
pub enum ReconstructionDecision {
    Accept { node_id: String },
    Prune { node_id: String },
    Stop,
}

pub enum DecisionModel {
    Accept(Seq<char>),
    Prune(Seq<char>),
    Stop,
}

impl View for ReconstructionDecision {
    type V = DecisionModel;

    open spec fn view(&self) -> DecisionModel {
        match self {
            ReconstructionDecision::Accept { node_id } => DecisionModel::Accept(node_id@),
            ReconstructionDecision::Prune { node_id } => DecisionModel::Prune(node_id@),
            ReconstructionDecision::Stop => DecisionModel::Stop,
        }
    }
}

/// Provider counters from one active reconstruction decision.
#[derive(Clone, Copy, Debug, PartialEq, Eq, Structural)]
pub struct ReconstructionMetrics {
    pub provider_calls: usize,
    pub provider_errors: usize,
    pub schema_errors: usize,
    pub input_tokens: u32,
    pub output_tokens: u32,
    pub elapsed_ms: u64,
}

/// Counters of a decision that asked no provider.
pub open spec fn no_reconstruction_metrics() -> ReconstructionMetrics {
    ReconstructionMetrics {
        provider_calls: 0,
        provider_errors: 0,
        schema_errors: 0,
        input_tokens: 0,
        output_tokens: 0,
        elapsed_ms: 0,
    }
}

impl ReconstructionMetrics {
    /// The counters of two decisions together.
    pub open spec fn plus(self, other: ReconstructionMetrics) -> ReconstructionMetrics {
        ReconstructionMetrics {
            provider_calls: plus_count(self.provider_calls, other.provider_calls),
            provider_errors: plus_count(self.provider_errors, other.provider_errors),
            schema_errors: plus_count(self.schema_errors, other.schema_errors),
            input_tokens: plus_tokens(self.input_tokens, other.input_tokens),
            output_tokens: plus_tokens(self.output_tokens, other.output_tokens),
            elapsed_ms: plus_ms(self.elapsed_ms, other.elapsed_ms),
        }
    }

    /// Counts another decision in.
    pub fn absorb(&mut self, other: ReconstructionMetrics)
        ensures
            *final(self) == old(self).plus(other),
    {
        self.provider_calls = add_count(self.provider_calls, other.provider_calls);
        self.provider_errors = add_count(self.provider_errors, other.provider_errors);
        self.schema_errors = add_count(self.schema_errors, other.schema_errors);
        self.input_tokens = add_tokens(self.input_tokens, other.input_tokens);
        self.output_tokens = add_tokens(self.output_tokens, other.output_tokens);
        self.elapsed_ms = add_ms(self.elapsed_ms, other.elapsed_ms);
    }
}

impl Default for ReconstructionMetrics {
    fn default() -> (r: Self)
        ensures
            r == no_reconstruction_metrics(),
    {
        ReconstructionMetrics {
            provider_calls: 0,
            provider_errors: 0,
            schema_errors: 0,
            input_tokens: 0,
            output_tokens: 0,
            elapsed_ms: 0,
        }
    }
}

/// Validated reconstruction decision plus provider/economics counters.
#[derive(Clone, Debug, PartialEq, Eq)]
pub struct ReconstructionDecisionOutcome {
    pub decision: ReconstructionDecision,
    pub metrics: ReconstructionMetrics,
}

impl ReconstructionDecision {
    #[must_use]
    pub fn into_outcome(self) -> (r: ReconstructionDecisionOutcome)
        ensures
            r.decision == self,
            r.metrics == no_reconstruction_metrics(),
    {
        ReconstructionDecisionOutcome { decision: self, metrics: ReconstructionMetrics::default() }
    }
}

/// What a policy replied to a step.
pub enum Verdict {
    Decided(DecisionModel, ReconstructionMetrics),
    Failed(ErrorModel),
}

pub open spec fn verdict_of(result: MemoryResult<ReconstructionDecisionOutcome>) -> Verdict {
    match result {
        Ok(outcome) => Verdict::Decided(outcome.decision@, outcome.metrics),
        Err(error) => Verdict::Failed(error@),
    }
}

/// Provider-neutral hook for read-time graph exploration.
pub trait ActiveReconstructor {
    /// What the policy may reply to a step: anything, unless it says otherwise.
    open spec fn may_decide(&self, step: StepModel, verdict: Verdict) -> bool {
        true
    }

    fn decide(&self, step: &ReconstructionStep) -> (r: MemoryResult<ReconstructionDecisionOutcome>)
        ensures
            self.may_decide(step@, verdict_of(r)),
    ;
}

// ---------------------------------------------------------------------------
// The deterministic policy
// ---------------------------------------------------------------------------
/// Deterministic, token-free reconstruction policy used by the local engine.
#[derive(Clone, Copy, Debug)]
pub struct DeterministicReconstructor;

/// The best-scored candidate that fits into a budget; among equals the last.
pub open spec fn best_candidate(candidates: Seq<CandidateModel>, budget: u32) -> Option<
    CandidateModel,
>
    decreases candidates.len(),
{
    if candidates.len() == 0 {
        None
    } else {
        let best = best_candidate(candidates.drop_last(), budget);
        let last = candidates.last();
        if last.token_estimate > budget {
            best
        } else {
            match best {
                Some(other) => if last.score < other.score {
                    best
                } else {
                    Some(last)
                },
                None => Some(last),
            }
        }
    }
}

/// The decision of the deterministic policy: the best candidate that fits, or to stop.
pub open spec fn deterministic_decision(step: StepModel) -> DecisionModel {
    match best_candidate(step.candidates, step.remaining_tokens) {
        Some(candidate) => DecisionModel::Accept(candidate.node_id),
        None => DecisionModel::Stop,
    }
}

impl DeterministicReconstructor {
    /// Picks the best candidate that fits, or stops.
    pub fn pick(&self, step: &ReconstructionStep) -> (r: ReconstructionDecision)
        ensures
            r@ == deterministic_decision(step@),
    {
        let ghost all = views(step.candidates@);
        let mut best: Option<usize> = None;
        let mut i: usize = 0;
        proof {
            assert(all.take(0) =~= Seq::empty());
        }
        while i < step.candidates.len()
            invariant
                i <= step.candidates@.len(),
                all == views(step.candidates@),
                match (best, best_candidate(all.take(i as int), step.remaining_tokens)) {
                    (Some(k), Some(model)) => k < step.candidates@.len()
                        && step.candidates@[k as int]@ == model,
                    (None, None) => true,
                    _ => false,
                },
            decreases step.candidates.len() - i,
        {
            proof {
                assert(all.take(i as int + 1).drop_last() =~= all.take(i as int));
                assert(all.take(i as int + 1).last() == step.candidates@[i as int]@);
            }
            if step.candidates[i].token_estimate <= step.remaining_tokens {
                let better = match best {
                    Some(k) => step.candidates[i].score >= step.candidates[k].score,
                    None => true,
                };
                if better {
                    best = Some(i);
                }
            }
            i += 1;
        }
        proof {
            assert(all.take(i as int) =~= all);
        }
        match best {
            Some(k) => ReconstructionDecision::Accept {
                node_id: step.candidates[k].node_id.clone(),
            },
            None => ReconstructionDecision::Stop,
        }
    }
}

impl ActiveReconstructor for DeterministicReconstructor {
    open spec fn may_decide(&self, step: StepModel, verdict: Verdict) -> bool {
        verdict == Verdict::Decided(deterministic_decision(step), no_reconstruction_metrics())
    }

    fn decide(&self, step: &ReconstructionStep) -> (r: MemoryResult<
        ReconstructionDecisionOutcome,
    >) {
        Ok(self.pick(step).into_outcome())
    }
}

// ---------------------------------------------------------------------------
// Provider-backed decisions
// ---------------------------------------------------------------------------
/// The action that a provider names.
#[derive(Clone, Copy, Debug, PartialEq, Eq, Structural)]
pub enum ProviderAction {
    Accept,
    Prune,
    Stop,
}

/// A provider's decision as it wrote it.
#[derive(Clone, Debug, PartialEq, Eq)]
pub struct ProviderDecision {
    pub decision: ProviderAction,
    pub node_id: Option<String>,
}

/// What a provider wrote, and the decision that its text stands for or the words in which it
/// is malformed.
#[derive(Debug, PartialEq, Eq)]
pub struct ReconstructionReply {
    pub text: String,
    pub output: Result<ProviderDecision, String>,
}

/// Provider interface for constrained active-reconstruction decisions.
pub trait ReconstructionProvider {
    /// What the provider may reply to a step: anything, unless it says otherwise.
    open spec fn may_reply(&self, step: StepModel, reply: MemoryResult<ReconstructionReply>) -> bool {
        true
    }

    fn decide(&self, step: &ReconstructionStep) -> (r: MemoryResult<ReconstructionReply>)
        ensures
            self.may_reply(step@, r),
    ;
}

/// Candidates with an identifier.
pub open spec fn candidate_is(node_id: Seq<char>) -> spec_fn(CandidateModel) -> bool {
    |candidate: CandidateModel| candidate.node_id == node_id
}

pub struct CandidateIs<'a> {
    pub node_id: &'a str,
}

impl<'a> Rule<ReconstructionCandidate> for CandidateIs<'a> {
    open spec fn test(&self) -> spec_fn(CandidateModel) -> bool {
        candidate_is(self.node_id@)
    }

    fn admits(&self, row: &ReconstructionCandidate) -> (r: bool) {
        same_text(row.node_id.as_str(), self.node_id)
    }
}

/// The node that an accepting or pruning decision names: it must name one, and one of the
/// candidates.
pub open spec fn named_candidate(
    node_id: Option<Seq<char>>,
    candidates: Seq<CandidateModel>,
    decision: Seq<char>,
) -> Result<Seq<char>, Seq<char>> {
    match node_id {
        None => Err(decision + " decision requires node_id"@),
        Some(id) => if some_row(candidates, candidate_is(id)) {
            Ok(id)
        } else {
            Err(decision + " decision node_id "@ + quoted_form(id) + " is not in candidates"@)
        },
    }
}

/// The decision that a provider's output stands for, or what is wrong with it.
pub open spec fn checked_decision(
    action: ProviderAction,
    node_id: Option<Seq<char>>,
    candidates: Seq<CandidateModel>,
) -> Result<DecisionModel, Seq<char>> {
    match action {
        ProviderAction::Accept => match named_candidate(node_id, candidates, "accept"@) {
            Ok(id) => Ok(DecisionModel::Accept(id)),
            Err(problem) => Err(problem),
        },
        ProviderAction::Prune => match named_candidate(node_id, candidates, "prune"@) {
            Ok(id) => Ok(DecisionModel::Prune(id)),
            Err(problem) => Err(problem),
        },
        ProviderAction::Stop => if node_id is Some {
            Err("stop decision must not include node_id"@)
        } else {
            Ok(DecisionModel::Stop)
        },
    }
}

/// The node that an accepting or pruning decision names.
pub fn required_candidate_id(
    node_id: &Option<String>,
    step: &ReconstructionStep,
    decision: &str,
) -> (r: Result<String, String>)
    ensures
        match (r, named_candidate(opt_text(*node_id), step@.candidates, decision@)) {
            (Ok(id), Ok(model)) => id@ == model,
            (Err(words), Err(model)) => words@ == model,
            _ => false,
        },
{
    match node_id {
        None => Err(decision.to_owned().concat(" decision requires node_id")),
        Some(id) => if has_row(&step.candidates, &CandidateIs { node_id: id.as_str() }) {
            Ok(id.clone())
        } else {
            let mut words = decision.to_owned();
            words.append(" decision node_id ");
            let name = quoted(id.as_str());
            words.append(name.as_str());
            words.append(" is not in candidates");
            Err(words)
        },
    }
}

/// Checks a provider's output against the step it answers.
pub fn check_decision(output: &ProviderDecision, step: &ReconstructionStep) -> (r: Result<
    ReconstructionDecision,
    String,
>)
    ensures
        match (
            r,
            checked_decision(output.decision, opt_text(output.node_id), step@.candidates),
        ) {
            (Ok(decision), Ok(model)) => decision@ == model,
            (Err(words), Err(model)) => words@ == model,
            _ => false,
        },
{
    match output.decision {
        ProviderAction::Accept => match required_candidate_id(&output.node_id, step, "accept") {
            Ok(node_id) => Ok(ReconstructionDecision::Accept { node_id }),
            Err(words) => Err(words),
        },
        ProviderAction::Prune => match required_candidate_id(&output.node_id, step, "prune") {
            Ok(node_id) => Ok(ReconstructionDecision::Prune { node_id }),
            Err(words) => Err(words),
        },
        ProviderAction::Stop => if output.node_id.is_some() {
            Err("stop decision must not include node_id".to_owned())
        } else {
            Ok(ReconstructionDecision::Stop)
        },
    }
}

/// The tokens of the texts of some candidates.
pub open spec fn candidates_cost(start: u32, candidates: Seq<CandidateModel>) -> u32
    decreases candidates.len(),
{
    if candidates.len() == 0 {
        start
    } else {
        plus_tokens(
            candidates_cost(start, candidates.drop_last()),
            token_cost(candidates.last().text),
        )
    }
}

/// The tokens that a step costs a provider: those of the question and of the candidates.
pub fn estimate_reconstruction_input_tokens(step: &ReconstructionStep) -> (r: u32)
    ensures
        r == candidates_cost(token_cost(step@.question), step@.candidates),
{
    let ghost all = views(step.candidates@);
    let mut total: u32 = estimate_tokens(step.question.as_str());
    let ghost start = total;
    let mut i: usize = 0;
    proof {
        assert(all.take(0) =~= Seq::empty());
    }
    while i < step.candidates.len()
        invariant
            i <= step.candidates@.len(),
            all == views(step.candidates@),
            total == candidates_cost(start, all.take(i as int)),
        decreases step.candidates.len() - i,
    {
        proof {
            assert(all.take(i as int + 1).drop_last() =~= all.take(i as int));
            assert(all.take(i as int + 1).last() == step.candidates@[i as int]@);
        }
        total = add_tokens(total, estimate_tokens(step.candidates[i].text.as_str()));
        i += 1;
    }
    proof {
        assert(all.take(i as int) =~= all);
    }
    total
}

/// What is made of a provider's reply: its decision where it is valid; otherwise to stop.
/// Failures are counted, by their kind.
pub open spec fn decided(step: StepModel, reply: MemoryResult<ReconstructionReply>) -> (
    DecisionModel,
    ReconstructionMetrics,
) {
    let asked = ReconstructionMetrics {
        provider_calls: 1,
        input_tokens: candidates_cost(token_cost(step.question), step.candidates),
        ..no_reconstruction_metrics()
    };
    match reply {
        Err(_) => (
            DecisionModel::Stop,
            ReconstructionMetrics { provider_errors: 1, ..asked },
        ),
        Ok(said) => {
            let heard = ReconstructionMetrics { output_tokens: token_cost(said.text@), ..asked };
            let malformed = (
                DecisionModel::Stop,
                ReconstructionMetrics { schema_errors: 1, ..heard },
            );
            match said.output {
                Err(_) => malformed,
                Ok(output) => match checked_decision(
                    output.decision,
                    opt_text(output.node_id),
                    step.candidates,
                ) {
                    Ok(decision) => (decision, heard),
                    Err(_) => malformed,
                },
            }
        },
    }
}

/// Takes a provider's reply to a step into account.
pub fn take_decision(step: &ReconstructionStep, reply: MemoryResult<ReconstructionReply>) -> (r:
    ReconstructionDecisionOutcome)
    ensures
        (r.decision@, r.metrics) == decided(step@, reply),
{
    let mut metrics = ReconstructionMetrics::default();
    metrics.provider_calls = 1;
    metrics.input_tokens = estimate_reconstruction_input_tokens(step);
    let said = match reply {
        Ok(said) => said,
        Err(_) => {
            metrics.provider_errors = 1;
            return ReconstructionDecisionOutcome {
                decision: ReconstructionDecision::Stop,
                metrics,
            };
        },
    };
    metrics.output_tokens = estimate_tokens(said.text.as_str());
    let checked = match &said.output {
        Ok(output) => match check_decision(output, step) {
            Ok(decision) => Some(decision),
            Err(_) => None,
        },
        Err(_) => None,
    };
    match checked {
        Some(decision) => ReconstructionDecisionOutcome { decision, metrics },
        None => {
            metrics.schema_errors = 1;
            ReconstructionDecisionOutcome { decision: ReconstructionDecision::Stop, metrics }
        },
    }
}

/// Provider-backed active reconstructor with schema validation.
#[derive(Clone, Debug)]
pub struct ProviderReconstructor<P> {
    pub provider: P,
}

impl<P> ProviderReconstructor<P> {
    #[must_use]
    pub fn new(provider: P) -> (r: Self)
        ensures
            r.provider == provider,
    {
        ProviderReconstructor { provider }
    }
}

/// A decision and its counters are what some reply of a provider to a step comes to, the time
/// that it took aside.
pub open spec fn some_reply_decides<P: ReconstructionProvider>(
    provider: P,
    step: StepModel,
    decision: DecisionModel,
    metrics: ReconstructionMetrics,
) -> bool {
    exists|reply: MemoryResult<ReconstructionReply>|
        #[trigger] decided(step, reply) == (
            decision,
            ReconstructionMetrics { elapsed_ms: 0, ..metrics },
        ) && provider.may_reply(step, reply)
}

/// A provider's accepting or pruning decision always names a candidate of its step.
pub proof fn provider_decisions_name_candidates<P: ReconstructionProvider>(
    provider: P,
    step: StepModel,
    decision: DecisionModel,
    metrics: ReconstructionMetrics,
)
    requires
        some_reply_decides(provider, step, decision, metrics),
    ensures
        decision matches DecisionModel::Accept(id) ==> some_row(step.candidates, candidate_is(id)),
        decision matches DecisionModel::Prune(id) ==> some_row(step.candidates, candidate_is(id)),
{
}

impl<P: ReconstructionProvider> ProviderReconstructor<P> {
    fn ask(&self, step: &ReconstructionStep) -> (r: ReconstructionDecisionOutcome)
        ensures
            some_reply_decides(self.provider, step@, r.decision@, r.metrics),
    {
        let started = clock();
        let reply = self.provider.decide(step);
        let ghost heard = reply;
        let mut outcome = take_decision(step, reply);
        outcome.metrics.elapsed_ms = elapsed_ms(started);
        proof {
            assert(decided(step@, heard) == (
                outcome.decision@,
                ReconstructionMetrics { elapsed_ms: 0, ..outcome.metrics },
            ));
        }
        outcome
    }
}

impl<P: ReconstructionProvider> ActiveReconstructor for ProviderReconstructor<P> {
    open spec fn may_decide(&self, step: StepModel, verdict: Verdict) -> bool {
        match verdict {
            Verdict::Decided(decision, metrics) => some_reply_decides(
                self.provider,
                step,
                decision,
                metrics,
            ),
            Verdict::Failed(_) => false,
        }
    }

    fn decide(&self, step: &ReconstructionStep) -> (r: MemoryResult<
        ReconstructionDecisionOutcome,
    >) {
        Ok(self.ask(step))
    }
}

// ---------------------------------------------------------------------------
// Command providers
// ---------------------------------------------------------------------------
pub fn default_command_reconstructor_timeout_ms() -> (r: u64)
    ensures
        r == 25_000,
{
    25_000
}

/// Command provider configuration for read-time active reconstruction.
///
/// The command receives one reconstruction step as JSON on stdin and must write a decision
/// JSON object on stdout.
#[derive(Clone, Debug, PartialEq, Eq)]
pub struct CommandReconstructionProviderConfig {
    pub command: String,
    pub args: Vec<String>,
    pub timeout_ms: u64,
}

/// What the file system says of a command.
pub enum CommandLookup {
    /// A path was given, and an executable file stands there.
    Executable,
    /// A path was given, and something other than a file stands there.
    NotAFile,
    /// A path was given, and a file that cannot be executed stands there.
    NotExecutable,
    /// A path was given that cannot be read, for this reason.
    NotAccessible(String),
    /// A bare name was given, and the search path has or has not an executable of that name.
    Searched(bool),
    /// A bare name was given, and there is no search path.
    NoSearchPath,
}

/// What is wrong with the place of a command.
pub open spec fn lookup_problem(command: Seq<char>, found: CommandLookup) -> Option<Seq<char>> {
    let named = "reconstruction command "@ + quoted_form(command);
    match found {
        CommandLookup::Executable => None,
        CommandLookup::NotAFile => Some(named + " is not a file"@),
        CommandLookup::NotExecutable => Some(named + " is not executable"@),
        CommandLookup::NotAccessible(reason) => Some(named + " is not accessible: "@ + reason@),
        CommandLookup::Searched(true) => None,
        CommandLookup::Searched(false) => Some(
            named + " was not found in PATH or is not executable"@,
        ),
        CommandLookup::NoSearchPath => Some(named + " was not found because PATH is unset"@),
    }
}

impl CommandReconstructionProviderConfig {
    #[must_use]
    pub fn new(command: &str) -> (r: Self)
        ensures
            r.command@ == command@,
            r.args@.len() == 0,
            r.timeout_ms == 25_000,
    {
        CommandReconstructionProviderConfig {
            command: command.to_owned(),
            args: Vec::new(),
            timeout_ms: default_command_reconstructor_timeout_ms(),
        }
    }

    #[must_use]
    pub fn with_arg(self, arg: &str) -> (r: Self)
        ensures
            r.command@ == self.command@,
            texts(r.args@) == texts(self.args@).push(arg@),
            r.timeout_ms == self.timeout_ms,
    {
        let mut config = self;
        let ghost before = texts(config.args@);
        config.args.push(arg.to_owned());
        proof {
            assert(texts(config.args@) =~= before.push(arg@));
        }
        config
    }

    #[must_use]
    pub fn with_args(self, args: Vec<String>) -> (r: Self)
        ensures
            r.command@ == self.command@,
            texts(r.args@) == texts(self.args@) + texts(args@),
            r.timeout_ms == self.timeout_ms,
    {
        let mut config = self;
        let mut more = args;
        let ghost before = texts(config.args@);
        let ghost added = texts(more@);
        config.args.append(&mut more);
        proof {
            assert(texts(config.args@) =~= before + added);
        }
        config
    }

    #[must_use]
    pub fn with_timeout_ms(self, timeout_ms: u64) -> (r: Self)
        ensures
            r.command@ == self.command@,
            texts(r.args@) == texts(self.args@),
            r.timeout_ms == timeout_ms,
    {
        let mut config = self;
        config.timeout_ms = timeout_ms;
        config
    }

    /// The first thing wrong with the configuration, given what the file system says.
    pub open spec fn problem(self, found: CommandLookup) -> Option<Seq<char>> {
        if self.command@.len() == 0 {
            Some("reconstruction command must not be empty"@)
        } else if self.timeout_ms == 0 {
            Some("reconstruction command timeout_ms must be greater than 0"@)
        } else {
            lookup_problem(self.command@, found)
        }
    }

    /// Checks the configuration, given what the file system says of the command.
    pub fn validate(&self, found: &CommandLookup) -> (r: MemoryResult<()>)
        ensures
            failure(r) == rejection(self.problem(*found)),
    {
        if self.command.as_str().is_empty() {
            return Err(MemoryError::invalid("reconstruction command must not be empty"));
        }
        if self.timeout_ms == 0 {
            return Err(
                MemoryError::invalid("reconstruction command timeout_ms must be greater than 0"),
            );
        }
        let mut words = "reconstruction command ".to_owned();
        let name = quoted(self.command.as_str());
        words.append(name.as_str());
        match found {
            CommandLookup::Executable => {
                return Ok(());
            },
            CommandLookup::Searched(there) => {
                if *there {
                    return Ok(());
                }
                words.append(" was not found in PATH or is not executable");
            },
            CommandLookup::NotAFile => {
                words.append(" is not a file");
            },
            CommandLookup::NotExecutable => {
                words.append(" is not executable");
            },
            CommandLookup::NotAccessible(reason) => {
                words.append(" is not accessible: ");
                words.append(reason.as_str());
            },
            CommandLookup::NoSearchPath => {
                words.append(" was not found because PATH is unset");
            },
        }
        Err(MemoryError::InvalidInput(words))
    }
}

/// What to do next with a running command.
#[derive(Clone, Copy, Debug, PartialEq, Eq, Structural)]
pub enum CommandAction {
    /// It has ended and taken its input: read what it wrote.
    Finish,
    /// Its time is up: end it and report so.
    TimeOut,
    /// Look again in a moment.
    Wait,
}

/// A command is finished once it has ended and its input is written; short of that it is ended
/// when its time is up.
pub open spec fn command_action(ended: bool, input_written: bool, late: bool) -> CommandAction {
    if ended && input_written {
        CommandAction::Finish
    } else if late {
        CommandAction::TimeOut
    } else {
        CommandAction::Wait
    }
}

/// What to do next with a running command.
pub fn next_command_action(ended: bool, input_written: bool, late: bool) -> (r: CommandAction)
    ensures
        r == command_action(ended, input_written, late),
{
    if ended && input_written {
        CommandAction::Finish
    } else if late {
        CommandAction::TimeOut
    } else {
        CommandAction::Wait
    }
}

/// The error of a command whose time was up.
pub fn command_timeout_error(timeout_ms: u64) -> (r: MemoryError)
    ensures
        r@ == ErrorModel::InvalidInput(
            "reconstruction command exceeded timeout_ms "@ + decimal(timeout_ms as nat),
        ),
{
    let mut words = "reconstruction command exceeded timeout_ms ".to_owned();
    let number = decimal_text(timeout_ms);
    words.append(number.as_str());
    MemoryError::InvalidInput(words)
}

/// What a finished command comes to: what it wrote, where it succeeded and wrote text.
pub fn command_result(
    success: bool,
    status: &str,
    stdout: Result<String, String>,
    stderr: &str,
) -> (r: MemoryResult<String>)
    ensures
        match (success, stdout) {
            (false, _) => failure(r) == rejection(
                Some("reconstruction command exited with status "@ + status@ + ": "@ + stderr@),
            ),
            (true, Ok(text)) => r matches Ok(out) && out@ == text@,
            (true, Err(reason)) => failure(r) == rejection(
                Some("reconstruction output is not UTF-8: "@ + reason@),
            ),
        },
{
    if !success {
        let mut words = "reconstruction command exited with status ".to_owned();
        words.append(status);
        words.append(": ");
        words.append(stderr);
        return Err(MemoryError::InvalidInput(words));
    }
    match stdout {
        Ok(text) => Ok(text),
        Err(reason) => Err(
            MemoryError::InvalidInput(
                "reconstruction output is not UTF-8: ".to_owned().concat(reason.as_str()),
            ),
        ),
    }
}

/// Command-backed reconstruction provider.
#[derive(Clone, Debug)]
pub struct CommandReconstructionProvider {
    pub config: CommandReconstructionProviderConfig,
}

impl CommandReconstructionProvider {
    #[must_use]
    pub fn new(config: CommandReconstructionProviderConfig) -> (r: Self)
        ensures
            r.config == config,
    {
        CommandReconstructionProvider { config }
    }
}

/// Runtime active reconstruction selection used by CLI/server entrypoints.
#[derive(Clone, Debug, PartialEq, Eq)]
pub enum ReconstructorConfig {
    Deterministic,
    Command(CommandReconstructionProviderConfig),
}

impl Default for ReconstructorConfig {
    fn default() -> (r: Self)
        ensures
            r is Deterministic,
    {
        ReconstructorConfig::Deterministic
    }
}

/// Runtime reconstructor built from `ReconstructorConfig`.
#[derive(Clone, Debug)]
pub enum RuntimeReconstructor<P> {
    Deterministic(DeterministicReconstructor),
    Command(ProviderReconstructor<P>),
}

impl<P: ReconstructionProvider> ActiveReconstructor for RuntimeReconstructor<P> {
    open spec fn may_decide(&self, step: StepModel, verdict: Verdict) -> bool {
        match self {
            RuntimeReconstructor::Deterministic(policy) => policy.may_decide(step, verdict),
            RuntimeReconstructor::Command(policy) => policy.may_decide(step, verdict),
        }
    }

    fn decide(&self, step: &ReconstructionStep) -> (r: MemoryResult<
        ReconstructionDecisionOutcome,
    >) {
        match self {
            RuntimeReconstructor::Deterministic(policy) => policy.decide(step),
            RuntimeReconstructor::Command(policy) => policy.decide(step),
        }
    }
}

impl ReconstructorConfig {
    #[must_use]
    pub fn command(command: &str) -> (r: Self)
        ensures
            r matches ReconstructorConfig::Command(config) && config.command@ == command@
                && config.args@.len() == 0 && config.timeout_ms == 25_000,
    {
        ReconstructorConfig::Command(CommandReconstructionProviderConfig::new(command))
    }

    /// The first thing wrong with the configuration, given what the file system says.
    pub open spec fn problem(self, found: CommandLookup) -> Option<Seq<char>> {
        match self {
            ReconstructorConfig::Deterministic => None,
            ReconstructorConfig::Command(config) => config.problem(found),
        }
    }

    /// Checks the configuration, given what the file system says of its command.
    pub fn validate(&self, found: &CommandLookup) -> (r: MemoryResult<()>)
        ensures
            failure(r) == rejection(self.problem(*found)),
    {
        match self {
            ReconstructorConfig::Deterministic => Ok(()),
            ReconstructorConfig::Command(config) => config.validate(found),
        }
    }

    /// Builds the reconstructor that the configuration asks for; a command is run by the given
    /// provider.
    pub fn build<P>(&self, found: &CommandLookup, provider: P) -> (r: MemoryResult<
        RuntimeReconstructor<P>,
    >)
        ensures
            failure(r) == rejection(self.problem(*found)),
            r matches Ok(built) ==> match self {
                ReconstructorConfig::Deterministic => built is Deterministic,
                ReconstructorConfig::Command(_) => built matches RuntimeReconstructor::Command(
                    policy,
                ) && policy.provider == provider,
            },
    {
        self.validate(found)?;
        match self {
            ReconstructorConfig::Deterministic => Ok(
                RuntimeReconstructor::Deterministic(DeterministicReconstructor),
            ),
            ReconstructorConfig::Command(_) => Ok(
                RuntimeReconstructor::Command(ProviderReconstructor::new(provider)),
            ),
        }
    }
}

} // verus!
