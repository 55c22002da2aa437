//! Distillation of ledger events into typed memories.
use vstd::prelude::*;

use crate::chars::{
    any_occurs, blank, decimal, decimal_text, is_blank, lower, lower_text, same_text,
};
use crate::error::{ErrorModel, MemoryError, MemoryResult};
use crate::ledger::{EventModel, LedgerEvent};
use crate::model::{
    estimate_tokens, token_cost, BeliefRevisionOp, CitedSpan, DistilledMemory, DistilledModel,
    MemoryNodeKind,
};
use crate::order::views;
use crate::route::contains_any;
use crate::rows::{MemoryNode, NodeModel};
use crate::table::{copy_rows, Row};
use crate::digits::{fraction_in_24_digits, in_24_digits, nearest, nearest_whole, DIGITS_24};
use crate::text::{concise, concise_form, overlap_score, overlap_share, str_texts};

verus! {

// ---------------------------------------------------------------------------
// Outcomes
// ---------------------------------------------------------------------------
/// Provider/economics counters from one distillation attempt.
#[derive(Clone, Copy, Debug, PartialEq, Eq, Structural)]
pub struct DistillMetrics {
    pub provider_calls: usize,
    pub provider_errors: usize,
    pub schema_errors: usize,
    pub repair_attempts: usize,
    pub repair_successes: usize,
    pub rejected_outputs: usize,
    pub input_tokens: u32,
    pub output_tokens: u32,
    pub elapsed_ms: u64,
}

/// Counters of an attempt that asked no provider.
pub open spec fn no_metrics() -> DistillMetrics {
    DistillMetrics {
        provider_calls: 0,
        provider_errors: 0,
        schema_errors: 0,
        repair_attempts: 0,
        repair_successes: 0,
        rejected_outputs: 0,
        input_tokens: 0,
        output_tokens: 0,
        elapsed_ms: 0,
    }
}

impl Default for DistillMetrics {
    fn default() -> (r: Self)
        ensures
            r == no_metrics(),
    {
        DistillMetrics {
            provider_calls: 0,
            provider_errors: 0,
            schema_errors: 0,
            repair_attempts: 0,
            repair_successes: 0,
            rejected_outputs: 0,
            input_tokens: 0,
            output_tokens: 0,
            elapsed_ms: 0,
        }
    }
}

/// Distilled memory bundle plus counters. Rejected outcomes are not projected.
#[derive(Debug, PartialEq, Eq)]
pub struct DistillOutcome {
    pub memories: Vec<DistilledMemory>,
    pub metrics: DistillMetrics,
    pub rejected: bool,
}

pub struct OutcomeModel {
    pub memories: Seq<DistilledModel>,
    pub metrics: DistillMetrics,
    pub rejected: bool,
}

impl View for DistillOutcome {
    type V = OutcomeModel;

    open spec fn view(&self) -> OutcomeModel {
        OutcomeModel {
            memories: views(self.memories@),
            metrics: self.metrics,
            rejected: self.rejected,
        }
    }
}

impl Clone for DistillOutcome {
    fn clone(&self) -> (r: Self)
        ensures
            r@ == self@,
    {
        DistillOutcome {
            memories: copy_rows(&self.memories),
            metrics: self.metrics,
            rejected: self.rejected,
        }
    }
}

impl DistillOutcome {
    #[must_use]
    pub fn accepted(memories: Vec<DistilledMemory>) -> (r: Self)
        ensures
            r@ == (OutcomeModel {
                memories: views(memories@),
                metrics: no_metrics(),
                rejected: false,
            }),
    {
        DistillOutcome { memories, metrics: DistillMetrics::default(), rejected: false }
    }

    #[must_use]
    pub fn rejected(metrics: DistillMetrics) -> (r: Self)
        ensures
            r@ == (OutcomeModel { memories: Seq::empty(), metrics, rejected: true }),
    {
        let memories: Vec<DistilledMemory> = Vec::new();
        proof {
            assert(views(memories@) =~= Seq::<DistilledModel>::empty());
        }
        DistillOutcome { memories, metrics, rejected: true }
    }
}

/// The model of a distiller's reply.
pub open spec fn distill_reply(result: MemoryResult<DistillOutcome>) -> Result<
    OutcomeModel,
    ErrorModel,
> {
    match result {
        Ok(outcome) => Ok(outcome@),
        Err(error) => Err(error@),
    }
}

/// Offline/sleep-time distillation boundary.
///
/// Implementations should return only typed, validated output. The engine revalidates this
/// boundary before applying projection writes.
pub trait Distiller {
    /// What the distiller may reply to an event and its neighbors: anything, unless it says
    /// otherwise.
    open spec fn may_give(
        &self,
        event: EventModel,
        neighbors: Seq<NodeModel>,
        reply: Result<OutcomeModel, ErrorModel>,
    ) -> bool {
        true
    }

    fn distill(&self, event: &LedgerEvent, neighbors: &[MemoryNode]) -> (r: MemoryResult<
        DistillOutcome,
    >)
        ensures
            self.may_give(event@, views(neighbors@), distill_reply(r)),
    ;

    /// The same event and neighbors always give the same outcome, so that an event can be
    /// distilled again when an older one arrives late. Left open, unless the distiller says it.
    open spec fn replays_late(&self) -> bool {
        arbitrary()
    }

    /// Whether an event can be distilled again when an older one arrives late.
    fn supports_late_replay(&self) -> (r: bool)
        ensures
            r == self.replays_late(),
    ;
}

// ---------------------------------------------------------------------------
// Reading a text
// ---------------------------------------------------------------------------
/// The kind that an event's name declares.
pub open spec fn declared_kind(name: Seq<char>) -> Option<MemoryNodeKind> {
    let declared = lower(name);
    if declared == "fact"@ || declared == "semantic"@ {
        Some(MemoryNodeKind::Fact)
    } else if declared == "episode"@ || declared == "episodic"@ {
        Some(MemoryNodeKind::Episode)
    } else if declared == "procedure"@ || declared == "runbook"@ || declared == "workflow"@ {
        Some(MemoryNodeKind::Procedure)
    } else if declared == "state"@ {
        Some(MemoryNodeKind::State)
    } else if declared == "gotcha"@ || declared == "failure"@ {
        Some(MemoryNodeKind::Gotcha)
    } else if declared == "anti_memory"@ || declared == "anti-memory"@ {
        Some(MemoryNodeKind::AntiMemory)
    } else {
        None
    }
}

/// The text warns against something that misleads.
pub open spec fn warns_off(lowered: Seq<char>) -> bool {
    any_occurs(
        seq!["do not use"@, "looked relevant"@, "misleading"@, "red herring"@],
        lowered,
    )
}

/// The text tells of something that goes wrong.
pub open spec fn tells_failure(lowered: Seq<char>) -> bool {
    any_occurs(
        seq![
            "error"@,
            "failed"@,
            "failure"@,
            "panic"@,
            "regression"@,
            "gotcha"@,
            "blocked"@,
        ],
        lowered,
    )
}

/// The text tells how something is done.
pub open spec fn tells_procedure(lowered: Seq<char>) -> bool {
    any_occurs(
        seq!["run "@, "command"@, "step"@, "fix by"@, "workaround"@, "procedure"@],
        lowered,
    )
}

/// The text tells how things stand.
pub open spec fn tells_state(lowered: Seq<char>) -> bool {
    any_occurs(
        seq!["current "@, "configured"@, "environment"@, "state"@, "uses "@],
        lowered,
    )
}

/// The text says that something no longer holds.
pub open spec fn takes_back(lowered: Seq<char>) -> bool {
    any_occurs(
        seq![
            "no longer"@,
            "deprecated"@,
            "invalidated"@,
            "stale"@,
            "not true"@,
            "replace "@,
            "instead of"@,
            "do not use"@,
        ],
        lowered,
    )
}

/// The text says that something holds anew.
pub open spec fn brings_up_to_date(lowered: Seq<char>) -> bool {
    any_occurs(seq!["update"@, "changed"@, "now "@, "new "@], lowered)
}

/// The kind of memory that an event holds: the declared one, or what its text reads like.
pub open spec fn memory_kind(name: Seq<char>, text: Seq<char>) -> MemoryNodeKind {
    let lowered = lower(text);
    match declared_kind(name) {
        Some(kind) => kind,
        None => if warns_off(lowered) {
            MemoryNodeKind::AntiMemory
        } else if tells_failure(lowered) {
            MemoryNodeKind::Gotcha
        } else if tells_procedure(lowered) {
            MemoryNodeKind::Procedure
        } else if tells_state(lowered) {
            MemoryNodeKind::State
        } else {
            MemoryNodeKind::Fact
        },
    }
}

/// What a text does to earlier memories.
pub open spec fn revision_op(text: Seq<char>) -> BeliefRevisionOp {
    let lowered = lower(text);
    if takes_back(lowered) {
        BeliefRevisionOp::Invalidate
    } else if brings_up_to_date(lowered) {
        BeliefRevisionOp::Update
    } else {
        BeliefRevisionOp::Add
    }
}

fn reads_warning(lowered: &str) -> (r: bool)
    ensures
        r == warns_off(lowered@),
{
    let markers = ["do not use", "looked relevant", "misleading", "red herring"];
    proof {
        assert(str_texts(markers@) =~= seq![
            "do not use"@,
            "looked relevant"@,
            "misleading"@,
            "red herring"@,
        ]);
    }
    contains_any(lowered, &markers)
}

fn reads_failure(lowered: &str) -> (r: bool)
    ensures
        r == tells_failure(lowered@),
{
    let markers = ["error", "failed", "failure", "panic", "regression", "gotcha", "blocked"];
    proof {
        assert(str_texts(markers@) =~= seq![
            "error"@,
            "failed"@,
            "failure"@,
            "panic"@,
            "regression"@,
            "gotcha"@,
            "blocked"@,
        ]);
    }
    contains_any(lowered, &markers)
}

fn reads_procedure(lowered: &str) -> (r: bool)
    ensures
        r == tells_procedure(lowered@),
{
    let markers = ["run ", "command", "step", "fix by", "workaround", "procedure"];
    proof {
        assert(str_texts(markers@) =~= seq![
            "run "@,
            "command"@,
            "step"@,
            "fix by"@,
            "workaround"@,
            "procedure"@,
        ]);
    }
    contains_any(lowered, &markers)
}

fn reads_state(lowered: &str) -> (r: bool)
    ensures
        r == tells_state(lowered@),
{
    let markers = ["current ", "configured", "environment", "state", "uses "];
    proof {
        assert(str_texts(markers@) =~= seq![
            "current "@,
            "configured"@,
            "environment"@,
            "state"@,
            "uses "@,
        ]);
    }
    contains_any(lowered, &markers)
}

fn reads_retraction(lowered: &str) -> (r: bool)
    ensures
        r == takes_back(lowered@),
{
    let markers = [
        "no longer",
        "deprecated",
        "invalidated",
        "stale",
        "not true",
        "replace ",
        "instead of",
        "do not use",
    ];
    proof {
        assert(str_texts(markers@) =~= seq![
            "no longer"@,
            "deprecated"@,
            "invalidated"@,
            "stale"@,
            "not true"@,
            "replace "@,
            "instead of"@,
            "do not use"@,
        ]);
    }
    contains_any(lowered, &markers)
}

fn reads_update(lowered: &str) -> (r: bool)
    ensures
        r == brings_up_to_date(lowered@),
{
    let markers = ["update", "changed", "now ", "new "];
    proof {
        assert(str_texts(markers@) =~= seq!["update"@, "changed"@, "now "@, "new "@]);
    }
    contains_any(lowered, &markers)
}

fn kind_declared_by(name: &str) -> (r: Option<MemoryNodeKind>)
    ensures
        r == declared_kind(name@),
{
    let declared_text = lower_text(name);
    let declared = declared_text.as_str();
    if same_text(declared, "fact") || same_text(declared, "semantic") {
        Some(MemoryNodeKind::Fact)
    } else if same_text(declared, "episode") || same_text(declared, "episodic") {
        Some(MemoryNodeKind::Episode)
    } else if same_text(declared, "procedure") || same_text(declared, "runbook") || same_text(
        declared,
        "workflow",
    ) {
        Some(MemoryNodeKind::Procedure)
    } else if same_text(declared, "state") {
        Some(MemoryNodeKind::State)
    } else if same_text(declared, "gotcha") || same_text(declared, "failure") {
        Some(MemoryNodeKind::Gotcha)
    } else if same_text(declared, "anti_memory") || same_text(declared, "anti-memory") {
        Some(MemoryNodeKind::AntiMemory)
    } else {
        None
    }
}

/// The kind of memory that an event holds.
pub fn classify_memory_kind(event: &LedgerEvent, text: &str) -> (r: MemoryNodeKind)
    ensures
        r == memory_kind(event@.name, text@),
{
    if let Some(kind) = kind_declared_by(event.name.as_str()) {
        return kind;
    }
    let lowered_text = lower_text(text);
    let lowered = lowered_text.as_str();
    if reads_warning(lowered) {
        MemoryNodeKind::AntiMemory
    } else if reads_failure(lowered) {
        MemoryNodeKind::Gotcha
    } else if reads_procedure(lowered) {
        MemoryNodeKind::Procedure
    } else if reads_state(lowered) {
        MemoryNodeKind::State
    } else {
        MemoryNodeKind::Fact
    }
}

/// What a text does to earlier memories.
pub fn classify_op(text: &str) -> (r: BeliefRevisionOp)
    ensures
        r == revision_op(text@),
{
    let lowered_text = lower_text(text);
    let lowered = lowered_text.as_str();
    if reads_retraction(lowered) {
        BeliefRevisionOp::Invalidate
    } else if reads_update(lowered) {
        BeliefRevisionOp::Update
    } else {
        BeliefRevisionOp::Add
    }
}

// ---------------------------------------------------------------------------
// The memory that a text takes back
// ---------------------------------------------------------------------------
/// How well a node fits a text as the memory it takes back: the share of common terms, and eight
/// hundredths more where it is of the same kind, worked out in 24 binary digits.
pub open spec fn fit(text: Seq<char>, kind: MemoryNodeKind, node: NodeModel) -> nat {
    let share = overlap_share(text, node.text);
    if node.kind == kind {
        nearest(DIGITS_24 as nat, share + in_24_digits(8, 100), 1)
    } else {
        share
    }
}

/// A node that a text can take back: a typed memory whose fit is at least twelve hundredths.
pub open spec fn fits(text: Seq<char>, kind: MemoryNodeKind, node: NodeModel) -> bool {
    &&& node.kind != MemoryNodeKind::Episode
    &&& node.kind != MemoryNodeKind::EntityCue
    &&& fit(text, kind, node) >= in_24_digits(12, 100)
}

/// The best fitting node; among equals the last.
pub open spec fn best_fit(text: Seq<char>, kind: MemoryNodeKind, nodes: Seq<NodeModel>) -> Option<
    NodeModel,
>
    decreases nodes.len(),
{
    if nodes.len() == 0 {
        None
    } else {
        let best = best_fit(text, kind, nodes.drop_last());
        let last = nodes.last();
        if !fits(text, kind, last) {
            best
        } else {
            match best {
                Some(node) => if fit(text, kind, last) < fit(text, kind, node) {
                    best
                } else {
                    Some(last)
                },
                None => Some(last),
            }
        }
    }
}

fn fit_of(text: &str, kind: MemoryNodeKind, node: &MemoryNode) -> (r: u128)
    ensures
        r == fit(text@, kind, node@),
{
    let share: u128 = overlap_score(text, node.text.as_str()).share();
    if node.kind == kind {
        let bonus: u128 = fraction_in_24_digits(8, 100);
        nearest_whole(DIGITS_24, share + bonus)
    } else {
        share
    }
}

/// The identifier of the best fitting node.
pub fn best_target(text: &str, kind: MemoryNodeKind, neighbors: &[MemoryNode]) -> (r: Option<
    String,
>)
    ensures
        match (r, best_fit(text@, kind, views(neighbors@))) {
            (Some(id), Some(node)) => id@ == node.id,
            (None, None) => true,
            _ => false,
        },
{
    let ghost all = views(neighbors@);
    let least: u128 = fraction_in_24_digits(12, 100);
    let mut best: Option<usize> = None;
    let mut best_fits: u128 = 0;
    let mut i: usize = 0;
    proof {
        assert(all.take(0) =~= Seq::empty());
    }
    while i < neighbors.len()
        invariant
            i <= neighbors@.len(),
            all == views(neighbors@),
            least == in_24_digits(12, 100),
            match (best, best_fit(text@, kind, all.take(i as int))) {
                (Some(k), Some(node)) => {
                    &&& k < neighbors@.len()
                    &&& neighbors@[k as int]@ == node
                    &&& best_fits == fit(text@, kind, node)
                },
                (None, None) => true,
                _ => false,
            },
        decreases neighbors.len() - i,
    {
        proof {
            assert(all.take(i as int + 1).drop_last() =~= all.take(i as int));
            assert(all.take(i as int + 1).last() == neighbors@[i as int]@);
        }
        let node = &neighbors[i];
        if node.kind != MemoryNodeKind::Episode && node.kind != MemoryNodeKind::EntityCue {
            let here: u128 = fit_of(text, kind, node);
            if here >= least && (best.is_none() || here >= best_fits) {
                best = Some(i);
                best_fits = here;
            }
        }
        i += 1;
    }
    proof {
        assert(all.take(i as int) =~= all);
    }
    match best {
        Some(k) => Some(neighbors[k].id.clone()),
        None => None,
    }
}

// ---------------------------------------------------------------------------
// The heuristic distiller
// ---------------------------------------------------------------------------
/// Deterministic first-principles distiller.
#[derive(Clone, Debug)]
pub struct HeuristicDistiller {
    pub max_memory_chars: usize,
}

impl Default for HeuristicDistiller {
    fn default() -> (r: Self)
        ensures
            r.max_memory_chars == 900,
    {
        HeuristicDistiller { max_memory_chars: 900 }
    }
}

impl HeuristicDistiller {
    #[must_use]
    pub fn new(max_memory_chars: usize) -> (r: Self)
        ensures
            r.max_memory_chars == max_memory_chars,
    {
        HeuristicDistiller { max_memory_chars }
    }
}

/// What an event says, as a typed memory.
pub open spec fn typed_memory(
    body: Seq<char>,
    event: EventModel,
    neighbors: Seq<NodeModel>,
) -> DistilledModel {
    let kind = memory_kind(event.name, body);
    let op = revision_op(body);
    DistilledModel {
        op,
        node_kind: kind,
        text: body,
        target_node_id: if op == BeliefRevisionOp::Invalidate {
            match best_fit(body, kind, neighbors) {
                Some(node) => Some(node.id),
                None => None,
            }
        } else {
            None
        },
        cited_spans: seq![event.span()],
    }
}

/// The memories of an event: nothing where it says nothing; otherwise the episode and what it
/// says as a typed memory.
pub open spec fn heuristic_memories(
    max_memory_chars: usize,
    event: EventModel,
    neighbors: Seq<NodeModel>,
) -> Seq<DistilledModel> {
    let body = concise_form(event.text, max_memory_chars as int);
    if blank(body) {
        seq![
            DistilledModel {
                op: BeliefRevisionOp::Noop,
                node_kind: MemoryNodeKind::Episode,
                text: Seq::empty(),
                target_node_id: None,
                cited_spans: seq![event.span()],
            },
        ]
    } else {
        seq![
            DistilledModel {
                op: BeliefRevisionOp::Add,
                node_kind: MemoryNodeKind::Episode,
                text: event.span_kind + " "@ + event.name + ": "@ + body,
                target_node_id: None,
                cited_spans: seq![event.span()],
            },
            typed_memory(body, event, neighbors),
        ]
    }
}

fn one_span(event: &LedgerEvent) -> (r: Vec<CitedSpan>)
    ensures
        views(r@) == seq![event@.span()],
{
    let mut spans: Vec<CitedSpan> = Vec::new();
    let span = event.cited_span();
    spans.push(span);
    proof {
        assert(views(spans@) =~= seq![event@.span()]);
    }
    spans
}

impl Distiller for HeuristicDistiller {
    open spec fn may_give(
        &self,
        event: EventModel,
        neighbors: Seq<NodeModel>,
        reply: Result<OutcomeModel, ErrorModel>,
    ) -> bool {
        reply == Ok::<OutcomeModel, ErrorModel>(
            OutcomeModel {
                memories: heuristic_memories(self.max_memory_chars, event, neighbors),
                metrics: no_metrics(),
                rejected: false,
            },
        )
    }

    fn distill(&self, event: &LedgerEvent, neighbors: &[MemoryNode]) -> (r: MemoryResult<
        DistillOutcome,
    >) {
        let body = concise(event.text.as_str(), self.max_memory_chars);
        let mut out: Vec<DistilledMemory> = Vec::new();
        if is_blank(body.as_str()) {
            let empty = String::new();
            proof {
                assert(empty@ =~= Seq::empty());
            }
            let nothing = DistilledMemory {
                op: BeliefRevisionOp::Noop,
                node_kind: MemoryNodeKind::Episode,
                text: empty,
                target_node_id: None,
                cited_spans: one_span(event),
            };
            out.push(nothing);
            proof {
                assert(views(out@) =~= heuristic_memories(
                    self.max_memory_chars,
                    event@,
                    views(neighbors@),
                ));
            }
            return Ok(DistillOutcome::accepted(out));
        }
        let mut episode_text = event.span_kind.clone();
        episode_text.append(" ");
        episode_text.append(event.name.as_str());
        episode_text.append(": ");
        episode_text.append(body.as_str());
        let episode = DistilledMemory::add(
            MemoryNodeKind::Episode,
            episode_text.as_str(),
            event.cited_span(),
        );
        let kind = classify_memory_kind(event, body.as_str());
        let op = classify_op(body.as_str());
        let target_node_id = if op == BeliefRevisionOp::Invalidate {
            best_target(body.as_str(), kind, neighbors)
        } else {
            None
        };
        let memory = DistilledMemory {
            op,
            node_kind: kind,
            text: body,
            target_node_id,
            cited_spans: one_span(event),
        };
        out.push(episode);
        out.push(memory);
        proof {
            assert(views(out@) =~= heuristic_memories(
                self.max_memory_chars,
                event@,
                views(neighbors@),
            ));
        }
        Ok(DistillOutcome::accepted(out))
    }

    open spec fn replays_late(&self) -> bool {
        true
    }

    fn supports_late_replay(&self) -> (r: bool) {
        true
    }
}

// ---------------------------------------------------------------------------
// Provider-backed distillation
// ---------------------------------------------------------------------------
/// What a provider wrote, and the batch of memories that its text stands for or the words in
/// which it is malformed.
#[derive(Debug, PartialEq, Eq)]
pub struct ProviderReply {
    pub text: String,
    pub batch: Result<Vec<DistilledMemory>, String>,
}

impl Row for DistilledMemory {
    fn twin(&self) -> (r: Self) {
        self.clone()
    }
}

impl Clone for ProviderReply {
    fn clone(&self) -> (r: Self)
        ensures
            r.text@ == self.text@,
            match (r.batch, self.batch) {
                (Ok(copies), Ok(memories)) => views(copies@) == views(memories@),
                (Err(copy), Err(words)) => copy@ == words@,
                _ => false,
            },
    {
        let batch = match &self.batch {
            Ok(memories) => Ok(copy_rows(memories)),
            Err(words) => Err(words.clone()),
        };
        ProviderReply { text: self.text.clone(), batch }
    }
}

/// Input passed to a provider-backed distiller.
#[derive(Clone, Copy)]
pub struct DistillationPrompt<'a> {
    pub event: &'a LedgerEvent,
    pub neighbors: &'a [MemoryNode],
}

/// Repair request for malformed provider output.
#[derive(Clone, Copy)]
pub struct DistillationRepairPrompt<'a> {
    pub event: &'a LedgerEvent,
    pub neighbors: &'a [MemoryNode],
    pub raw_output: &'a str,
    pub error: &'a str,
}

/// What a provider replies that makes no repairs.
pub fn repair_unsupported() -> (r: MemoryResult<ProviderReply>)
    ensures
        r matches Err(error) && error@ == ErrorModel::InvalidInput(
            "distillation provider does not support repair"@,
        ),
{
    Err(MemoryError::invalid("distillation provider does not support repair"))
}

/// Synchronous provider interface for constrained distillation.
pub trait DistillationProvider {
    /// What the provider may reply to an event and its neighbors: anything, unless it says
    /// otherwise.
    open spec fn may_reply(
        &self,
        event: EventModel,
        neighbors: Seq<NodeModel>,
        reply: MemoryResult<ProviderReply>,
    ) -> bool {
        true
    }

    /// What the provider may reply when it is shown its malformed output and what is wrong with
    /// it: anything, unless it says otherwise.
    open spec fn may_repair(
        &self,
        event: EventModel,
        neighbors: Seq<NodeModel>,
        raw_output: Seq<char>,
        error: Seq<char>,
        reply: MemoryResult<ProviderReply>,
    ) -> bool {
        true
    }

    fn distill(&self, prompt: DistillationPrompt<'_>) -> (r: MemoryResult<ProviderReply>)
        ensures
            self.may_reply(prompt.event@, views(prompt.neighbors@), r),
    ;

    /// A provider that makes no repairs replies `repair_unsupported()`.
    fn repair(&self, prompt: DistillationRepairPrompt<'_>) -> (r: MemoryResult<ProviderReply>)
        ensures
            self.may_repair(
                prompt.event@,
                views(prompt.neighbors@),
                prompt.raw_output@,
                prompt.error@,
                r,
            ),
    ;
}

/// `std::time::Instant`, a reading of the monotonic clock.
#[verifier::external_type_specification]
#[verifier::external_body]
pub struct ExInstant(std::time::Instant);

/// Reads the monotonic clock with `std::time::Instant::now`. Nothing is claimed of the reading.
#[verifier::external_body]
pub(crate) fn clock() -> std::time::Instant {
    std::time::Instant::now()
}

/// The milliseconds since a reading of the monotonic clock, by `Instant::elapsed`, or the
/// greatest `u64` where there are more. Nothing is claimed of the count.
#[verifier::external_body]
pub(crate) fn elapsed_ms(started: std::time::Instant) -> u64 {
    started.elapsed().as_millis().try_into().unwrap_or(u64::MAX)
}

/// Adds to a token count, up to the greatest `u32`.
pub open spec fn plus_tokens(count: u32, more: u32) -> u32 {
    if count + more > u32::MAX {
        u32::MAX
    } else {
        (count + more) as u32
    }
}

pub fn add_tokens(count: u32, more: u32) -> (r: u32)
    ensures
        r == plus_tokens(count, more),
{
    if more > u32::MAX - count {
        u32::MAX
    } else {
        count + more
    }
}

/// Adds to a count, up to the greatest `usize`.
pub open spec fn plus_count(count: usize, more: usize) -> usize {
    if count + more > usize::MAX {
        usize::MAX
    } else {
        (count + more) as usize
    }
}

pub fn add_count(count: usize, more: usize) -> (r: usize)
    ensures
        r == plus_count(count, more),
{
    if more > usize::MAX - count {
        usize::MAX
    } else {
        count + more
    }
}

/// Adds to a count of milliseconds, up to the greatest `u64`.
pub open spec fn plus_ms(count: u64, more: u64) -> u64 {
    if count + more > u64::MAX {
        u64::MAX
    } else {
        (count + more) as u64
    }
}

pub fn add_ms(count: u64, more: u64) -> (r: u64)
    ensures
        r == plus_ms(count, more),
{
    if more > u64::MAX - count {
        u64::MAX
    } else {
        count + more
    }
}

/// The tokens of the texts of some nodes.
pub open spec fn nodes_cost(start: u32, nodes: Seq<NodeModel>) -> u32
    decreases nodes.len(),
{
    if nodes.len() == 0 {
        start
    } else {
        plus_tokens(nodes_cost(start, nodes.drop_last()), token_cost(nodes.last().text))
    }
}

/// The tokens that a distillation prompt costs: those of the event and of its neighbors.
pub fn estimate_distillation_input_tokens(event: &LedgerEvent, neighbors: &[MemoryNode]) -> (r: u32)
    ensures
        r == nodes_cost(token_cost(event@.text), views(neighbors@)),
{
    let ghost all = views(neighbors@);
    let mut total: u32 = estimate_tokens(event.text.as_str());
    let ghost start = total;
    let mut i: usize = 0;
    proof {
        assert(all.take(0) =~= Seq::empty());
    }
    while i < neighbors.len()
        invariant
            i <= neighbors@.len(),
            all == views(neighbors@),
            total == nodes_cost(start, all.take(i as int)),
        decreases neighbors.len() - i,
    {
        proof {
            assert(all.take(i as int + 1).drop_last() =~= all.take(i as int));
            assert(all.take(i as int + 1).last() == neighbors@[i as int]@);
        }
        total = add_tokens(total, estimate_tokens(neighbors[i].text.as_str()));
        i += 1;
    }
    proof {
        assert(all.take(i as int) =~= all);
    }
    total
}

/// The first thing wrong with the memories of a batch, with its place.
pub open spec fn memories_problem(memories: Seq<DistilledModel>) -> Option<Seq<char>>
    decreases memories.len(),
{
    if memories.len() == 0 {
        None
    } else {
        match memories_problem(memories.drop_last()) {
            Some(problem) => Some(problem),
            None => match memories.last().problem() {
                Some(problem) => Some(
                    "invalid memory at index "@ + decimal((memories.len() - 1) as nat) + ": "@
                        + ErrorModel::InvalidInput(problem).line(),
                ),
                None => None,
            },
        }
    }
}

/// What is wrong with a batch: it is empty, or one of its memories is not valid.
pub open spec fn batch_problem(memories: Seq<DistilledModel>) -> Option<Seq<char>> {
    if memories.len() == 0 {
        Some("provider output must include at least one memory"@)
    } else {
        memories_problem(memories)
    }
}

/// What a provider did with a request.
pub enum ReplyModel {
    /// It failed.
    Failed,
    /// It wrote a text of so many tokens that holds no valid batch.
    Malformed { tokens: u32 },
    /// It wrote a text of so many tokens that holds a valid batch.
    Valid { tokens: u32, memories: Seq<DistilledModel> },
}

/// What a reply comes to, once its batch is checked.
pub open spec fn reply_model(reply: MemoryResult<ProviderReply>) -> ReplyModel {
    match reply {
        Err(_) => ReplyModel::Failed,
        Ok(reply) => {
            let tokens = token_cost(reply.text@);
            match reply.batch {
                Err(_) => ReplyModel::Malformed { tokens },
                Ok(memories) => if batch_problem(views(memories@)) is Some {
                    ReplyModel::Malformed { tokens }
                } else {
                    ReplyModel::Valid { tokens, memories: views(memories@) }
                },
            }
        },
    }
}

/// Checks a batch: it holds a memory, and each of its memories is valid.
pub fn check_batch(memories: &Vec<DistilledMemory>) -> (r: Result<(), String>)
    ensures
        match batch_problem(views(memories@)) {
            Some(problem) => r matches Err(words) && words@ == problem,
            None => r is Ok,
        },
{
    if memories.len() == 0 {
        return Err("provider output must include at least one memory".to_owned());
    }
    let ghost all = views(memories@);
    let mut i: usize = 0;
    proof {
        assert(all.take(0) =~= Seq::empty());
    }
    while i < memories.len()
        invariant
            i <= memories@.len(),
            memories@.len() > 0,
            all == views(memories@),
            memories_problem(all.take(i as int)) is None,
        decreases memories.len() - i,
    {
        proof {
            assert(all.take(i as int + 1).drop_last() =~= all.take(i as int));
            assert(all.take(i as int + 1).last() == memories@[i as int]@);
        }
        match memories[i].validate() {
            Ok(_) => {},
            Err(error) => {
                let mut words = "invalid memory at index ".to_owned();
                let number = decimal_text(i as u64);
                words.append(number.as_str());
                words.append(": ");
                let line = error.message();
                words.append(line.as_str());
                proof {
                    lemma_memories_problem_prefix(all, i as int + 1);
                }
                return Err(words);
            },
        }
        i += 1;
    }
    proof {
        assert(all.take(i as int) =~= all);
    }
    Ok(())
}

proof fn lemma_memories_problem_prefix(memories: Seq<DistilledModel>, k: int)
    requires
        0 <= k <= memories.len(),
        memories_problem(memories.take(k)) is Some,
    ensures
        memories_problem(memories) == memories_problem(memories.take(k)),
    decreases memories.len(),
{
    if k < memories.len() {
        assert(memories.drop_last().take(k) =~= memories.take(k));
        lemma_memories_problem_prefix(memories.drop_last(), k);
    } else {
        assert(memories.take(k) =~= memories);
    }
}

/// How far a provider-backed distillation has come.
pub enum Progress {
    /// The provider is to be asked again.
    Asking,
    /// The provider's batch is taken.
    Accepted(Seq<DistilledModel>),
    /// The provider is given up.
    Rejected,
}

pub struct RunModel {
    pub metrics: DistillMetrics,
    pub progress: Progress,
}

/// The counters after a request is sent.
pub open spec fn asked(metrics: DistillMetrics, repair: bool) -> DistillMetrics {
    DistillMetrics {
        provider_calls: plus_count(metrics.provider_calls, 1),
        repair_attempts: if repair {
            plus_count(metrics.repair_attempts, 1)
        } else {
            metrics.repair_attempts
        },
        ..metrics
    }
}

/// One reply, after `repairs` earlier ones were malformed. A failed provider is given up; a
/// valid batch is taken; a malformed one may be repaired a bounded number of times.
pub open spec fn after_reply(
    metrics: DistillMetrics,
    repairs: nat,
    max_repairs: nat,
    reply: ReplyModel,
) -> RunModel {
    let sent = asked(metrics, repairs > 0);
    match reply {
        ReplyModel::Failed => RunModel {
            metrics: DistillMetrics {
                provider_errors: plus_count(sent.provider_errors, 1),
                rejected_outputs: plus_count(sent.rejected_outputs, 1),
                ..sent
            },
            progress: Progress::Rejected,
        },
        ReplyModel::Valid { tokens, memories } => RunModel {
            metrics: DistillMetrics {
                output_tokens: plus_tokens(sent.output_tokens, tokens),
                repair_successes: if repairs > 0 {
                    plus_count(sent.repair_successes, 1)
                } else {
                    sent.repair_successes
                },
                ..sent
            },
            progress: Progress::Accepted(memories),
        },
        ReplyModel::Malformed { tokens } => {
            let read = DistillMetrics {
                output_tokens: plus_tokens(sent.output_tokens, tokens),
                schema_errors: plus_count(sent.schema_errors, 1),
                ..sent
            };
            if repairs >= max_repairs {
                RunModel {
                    metrics: DistillMetrics {
                        rejected_outputs: plus_count(read.rejected_outputs, 1),
                        ..read
                    },
                    progress: Progress::Rejected,
                }
            } else {
                RunModel { metrics: read, progress: Progress::Asking }
            }
        },
    }
}

/// The state after some replies, the first to the prompt and each later one to a repair.
pub open spec fn provider_run(
    input_tokens: u32,
    max_repairs: nat,
    replies: Seq<ReplyModel>,
) -> RunModel
    decreases replies.len(),
{
    if replies.len() == 0 {
        RunModel {
            metrics: DistillMetrics { input_tokens, ..no_metrics() },
            progress: Progress::Asking,
        }
    } else {
        after_reply(
            provider_run(input_tokens, max_repairs, replies.drop_last()).metrics,
            (replies.len() - 1) as nat,
            max_repairs,
            replies.last(),
        )
    }
}

/// The outcome of a run that has ended.
pub open spec fn run_outcome(run: RunModel, elapsed_ms: u64) -> OutcomeModel {
    let metrics = DistillMetrics { elapsed_ms, ..run.metrics };
    match run.progress {
        Progress::Accepted(memories) => OutcomeModel { memories, metrics, rejected: false },
        _ => OutcomeModel { memories: Seq::empty(), metrics, rejected: true },
    }
}

/// What some replies come to, once their batches are checked.
pub open spec fn reply_models(replies: Seq<MemoryResult<ProviderReply>>) -> Seq<ReplyModel> {
    Seq::new(replies.len(), |i: int| reply_model(replies[i]))
}

/// What is wrong with what a provider wrote: that it cannot be read, or that its batch is not
/// valid.
pub open spec fn complaint(said: ProviderReply) -> Seq<char> {
    match said.batch {
        Err(words) => words@,
        Ok(memories) => match batch_problem(views(memories@)) {
            Some(problem) => problem,
            None => Seq::empty(),
        },
    }
}

/// A provider gave a reply: the first to an event and its neighbors, and each later one to these,
/// to what it wrote before, and to what is wrong with that.
pub open spec fn reply_given<P: DistillationProvider>(
    provider: P,
    event: EventModel,
    neighbors: Seq<NodeModel>,
    replies: Seq<MemoryResult<ProviderReply>>,
    i: int,
) -> bool {
    if i == 0 {
        provider.may_reply(event, neighbors, replies[0])
    } else {
        replies[i - 1] matches Ok(said) && provider.may_repair(
            event,
            neighbors,
            said.text@,
            complaint(said),
            replies[i],
        )
    }
}

/// The outcome is what some replies of a provider to an event and its neighbors come to: each
/// but the last was malformed, and there were no more of them than repairs are allowed for.
pub open spec fn outcome_of_replies<P: DistillationProvider>(
    provider: P,
    event: EventModel,
    neighbors: Seq<NodeModel>,
    max_repairs: nat,
    replies: Seq<MemoryResult<ProviderReply>>,
    outcome: OutcomeModel,
) -> bool {
    let models = reply_models(replies);
    let run = provider_run(nodes_cost(token_cost(event.text), neighbors), max_repairs, models);
    &&& 1 <= replies.len() <= max_repairs + 1
    &&& forall|i: int|
        0 <= i < replies.len() ==> #[trigger] reply_given(provider, event, neighbors, replies, i)
    &&& forall|i: int| 0 <= i < models.len() - 1 ==> #[trigger] models[i] is Malformed
    &&& run.progress !is Asking
    &&& outcome == run_outcome(run, outcome.metrics.elapsed_ms)
}

/// The outcome is what some replies of a provider to an event and its neighbors come to.
pub open spec fn some_replies_give<P: DistillationProvider>(
    provider: P,
    event: EventModel,
    neighbors: Seq<NodeModel>,
    max_repairs: nat,
    outcome: OutcomeModel,
) -> bool {
    exists|replies: Seq<MemoryResult<ProviderReply>>|
        #[trigger] outcome_of_replies(provider, event, neighbors, max_repairs, replies, outcome)
}

/// The counters of a run in which every reply but the last was malformed.
proof fn lemma_run_counts(input_tokens: u32, max_repairs: nat, models: Seq<ReplyModel>)
    requires
        1 <= models.len() <= max_repairs + 1,
        max_repairs < usize::MAX,
        forall|i: int| 0 <= i < models.len() - 1 ==> #[trigger] models[i] is Malformed,
    ensures
        ({
            let metrics = provider_run(input_tokens, max_repairs, models).metrics;
            &&& metrics.provider_calls == models.len()
            &&& metrics.repair_attempts == models.len() - 1
            &&& metrics.rejected_outputs == (if provider_run(
                input_tokens,
                max_repairs,
                models,
            ).progress is Rejected {
                1int
            } else {
                0
            })
            &&& metrics.repair_successes == (if models.last() is Valid && models.len() > 1 {
                1int
            } else {
                0
            })
        }),
    decreases models.len(),
{
    let front = models.drop_last();
    if front.len() > 0 {
        assert forall|i: int| 0 <= i < front.len() - 1 implies #[trigger] front[i] is Malformed by {
            assert(front[i] == models[i]);
        }
        lemma_run_counts(input_tokens, max_repairs, front);
        assert(front.last() == models[front.len() - 1]);
    } else {
        assert(provider_run(input_tokens, max_repairs, front).metrics == (DistillMetrics {
            input_tokens,
            ..no_metrics()
        }));
    }
}

/// A rejected outcome holds no memory, and one that is not rejected holds a valid batch of at
/// least one. The provider is asked once and for each repair, of which there are no more than
/// allowed. An outcome is rejected or not as its counters say, and a repair succeeded just if
/// one was asked for and the outcome is not rejected.
pub proof fn provider_outcomes_are_checked<P: DistillationProvider>(
    provider: P,
    event: EventModel,
    neighbors: Seq<NodeModel>,
    max_repairs: nat,
    outcome: OutcomeModel,
)
    requires
        max_repairs < usize::MAX,
        some_replies_give(provider, event, neighbors, max_repairs, outcome),
    ensures
        outcome.rejected ==> outcome.memories.len() == 0,
        !outcome.rejected ==> {
            &&& outcome.memories.len() > 0
            &&& batch_problem(outcome.memories) is None
        },
        outcome.metrics.repair_attempts <= max_repairs,
        outcome.metrics.provider_calls == 1 + outcome.metrics.repair_attempts,
        outcome.metrics.rejected_outputs <= 1,
        outcome.rejected <==> outcome.metrics.rejected_outputs == 1,
        outcome.metrics.repair_successes <= 1,
        outcome.metrics.repair_successes == 1 <==> !outcome.rejected
            && outcome.metrics.repair_attempts > 0,
{
    let replies = choose|replies: Seq<MemoryResult<ProviderReply>>|
        #[trigger] outcome_of_replies(provider, event, neighbors, max_repairs, replies, outcome);
    let models = reply_models(replies);
    lemma_run_counts(nodes_cost(token_cost(event.text), neighbors), max_repairs, models);
    assert(models.last() == reply_model(replies[replies.len() - 1]));
}

/// What a verified step does with a reply.
pub enum ProviderStep {
    Accept(Vec<DistilledMemory>),
    Reject,
    Repair { raw: String, error: String },
}

pub open spec fn step_progress(step: ProviderStep) -> Progress {
    match step {
        ProviderStep::Accept(memories) => Progress::Accepted(views(memories@)),
        ProviderStep::Reject => Progress::Rejected,
        ProviderStep::Repair { .. } => Progress::Asking,
    }
}

/// Takes one reply of a provider into account, after `repairs` earlier ones were malformed.
pub fn take_reply(
    metrics: DistillMetrics,
    repairs: usize,
    max_repairs: usize,
    reply: MemoryResult<ProviderReply>,
) -> (r: (DistillMetrics, ProviderStep))
    ensures
        (RunModel { metrics: r.0, progress: step_progress(r.1) }) == after_reply(
            metrics,
            repairs as nat,
            max_repairs as nat,
            reply_model(reply),
        ),
        match (reply, r.1) {
            (Ok(said), ProviderStep::Repair { raw, error }) => raw@ == said.text@ && (match
            said.batch {
                Err(words) => error@ == words@,
                Ok(memories) => Some(error@) == batch_problem(views(memories@)),
            }),
            _ => true,
        },
{
    let mut out = metrics;
    out.provider_calls = add_count(out.provider_calls, 1);
    if repairs > 0 {
        out.repair_attempts = add_count(out.repair_attempts, 1);
    }
    match reply {
        Err(_) => {
            out.provider_errors = add_count(out.provider_errors, 1);
            out.rejected_outputs = add_count(out.rejected_outputs, 1);
            (out, ProviderStep::Reject)
        },
        Ok(said) => {
            out.output_tokens = add_tokens(out.output_tokens, estimate_tokens(said.text.as_str()));
            let checked: Result<Vec<DistilledMemory>, String> = match said.batch {
                Err(words) => Err(words),
                Ok(memories) => match check_batch(&memories) {
                    Ok(_) => Ok(memories),
                    Err(words) => Err(words),
                },
            };
            match checked {
                Ok(memories) => {
                    if repairs > 0 {
                        out.repair_successes = add_count(out.repair_successes, 1);
                    }
                    (out, ProviderStep::Accept(memories))
                },
                Err(words) => {
                    out.schema_errors = add_count(out.schema_errors, 1);
                    if repairs >= max_repairs {
                        out.rejected_outputs = add_count(out.rejected_outputs, 1);
                        (out, ProviderStep::Reject)
                    } else {
                        (out, ProviderStep::Repair { raw: said.text, error: words })
                    }
                },
            }
        },
    }
}

/// Provider-backed distiller with schema validation and bounded repair.
#[derive(Clone, Debug)]
pub struct ProviderDistiller<P> {
    pub provider: P,
    pub max_repairs: usize,
}

impl<P> ProviderDistiller<P> {
    #[must_use]
    pub fn new(provider: P) -> (r: Self)
        ensures
            r.provider == provider,
            r.max_repairs == 1,
    {
        ProviderDistiller { provider, max_repairs: 1 }
    }

    #[must_use]
    pub fn with_max_repairs(self, max_repairs: usize) -> (r: Self)
        ensures
            r.provider == self.provider,
            r.max_repairs == max_repairs,
    {
        ProviderDistiller { provider: self.provider, max_repairs }
    }
}

impl<P: DistillationProvider> ProviderDistiller<P> {
    /// Asks the provider until its batch is valid or it is given up.
    fn ask(&self, event: &LedgerEvent, neighbors: &[MemoryNode]) -> (outcome: DistillOutcome)
        ensures
            some_replies_give(
                self.provider,
                event@,
                views(neighbors@),
                self.max_repairs as nat,
                outcome@,
            ),
    {
        let started = clock();
        let input_tokens: u32 = estimate_distillation_input_tokens(event, neighbors);
        let mut metrics = DistillMetrics::default();
        metrics.input_tokens = input_tokens;
        let ghost near = views(neighbors@);
        let ghost mut replies: Seq<MemoryResult<ProviderReply>> = Seq::empty();
        let mut repairs: usize = 0;
        let mut reply = self.provider.distill(DistillationPrompt { event, neighbors });
        loop
            invariant
                repairs <= self.max_repairs,
                replies.len() == repairs,
                near == views(neighbors@),
                input_tokens == nodes_cost(token_cost(event@.text), near),
                metrics == provider_run(
                    input_tokens,
                    self.max_repairs as nat,
                    reply_models(replies),
                ).metrics,
                forall|i: int|
                    0 <= i <= replies.len() ==> #[trigger] reply_given(
                        self.provider,
                        event@,
                        near,
                        replies.push(reply),
                        i,
                    ),
                forall|i: int|
                    0 <= i < replies.len() ==> #[trigger] reply_models(replies)[i] is Malformed,
            decreases self.max_repairs - repairs,
        {
            let ghost before = replies;
            let ghost heard = reply;
            let ghost model = reply_model(reply);
            let (counted, step) = take_reply(metrics, repairs, self.max_repairs, reply);
            proof {
                replies = before.push(heard);
                let models = reply_models(replies);
                assert(models.drop_last() =~= reply_models(before));
                assert(models.last() == model);
                assert forall|i: int| 0 <= i < models.len() - 1 implies #[trigger] models[i]
                    is Malformed by {
                    assert(models[i] == reply_models(before)[i]);
                }
            }
            metrics = counted;
            match step {
                ProviderStep::Accept(memories) => {
                    metrics.elapsed_ms = elapsed_ms(started);
                    let outcome = DistillOutcome { memories, metrics, rejected: false };
                    proof {
                        assert(outcome_of_replies(
                            self.provider,
                            event@,
                            near,
                            self.max_repairs as nat,
                            replies,
                            outcome@,
                        ));
                    }
                    return outcome;
                },
                ProviderStep::Reject => {
                    metrics.elapsed_ms = elapsed_ms(started);
                    let outcome = DistillOutcome::rejected(metrics);
                    proof {
                        assert(outcome_of_replies(
                            self.provider,
                            event@,
                            near,
                            self.max_repairs as nat,
                            replies,
                            outcome@,
                        ));
                    }
                    return outcome;
                },
                ProviderStep::Repair { raw, error } => {
                    proof {
                        assert(model is Malformed);
                        assert(repairs < self.max_repairs);
                    }
                    reply = self.provider.repair(
                        DistillationRepairPrompt {
                            event,
                            neighbors,
                            raw_output: raw.as_str(),
                            error: error.as_str(),
                        },
                    );
                    repairs += 1;
                    proof {
                        let longer = replies.push(reply);
                        assert forall|i: int| 0 <= i <= replies.len() implies #[trigger] reply_given(
                            self.provider,
                            event@,
                            near,
                            longer,
                            i,
                        ) by {
                            if i < replies.len() {
                                assert(reply_given(self.provider, event@, near, replies, i));
                            } else {
                                assert(longer[i - 1] == heard);
                            }
                        }
                        assert forall|i: int| 0 <= i < replies.len() implies
                            #[trigger] reply_models(replies)[i] is Malformed by {
                            if i == replies.len() - 1 {
                                assert(reply_models(replies)[i] == model);
                            }
                        }
                    }
                },
            }
        }
    }
}

impl<P: DistillationProvider> Distiller for ProviderDistiller<P> {
    open spec fn may_give(
        &self,
        event: EventModel,
        neighbors: Seq<NodeModel>,
        reply: Result<OutcomeModel, ErrorModel>,
    ) -> bool {
        match reply {
            Ok(outcome) => some_replies_give(
                self.provider,
                event,
                neighbors,
                self.max_repairs as nat,
                outcome,
            ),
            Err(_) => false,
        }
    }

    open spec fn replays_late(&self) -> bool {
        false
    }

    fn distill(&self, event: &LedgerEvent, neighbors: &[MemoryNode]) -> (r: MemoryResult<
        DistillOutcome,
    >) {
        Ok(self.ask(event, neighbors))
    }

    fn supports_late_replay(&self) -> (r: bool) {
        false
    }
}

/// The distiller that a program is set up with.
#[derive(Clone, Debug)]
pub enum RuntimeDistiller<P> {
    Heuristic(HeuristicDistiller),
    Provider(ProviderDistiller<P>),
}

impl<P: DistillationProvider> Distiller for RuntimeDistiller<P> {
    open spec fn may_give(
        &self,
        event: EventModel,
        neighbors: Seq<NodeModel>,
        reply: Result<OutcomeModel, ErrorModel>,
    ) -> bool {
        match self {
            RuntimeDistiller::Heuristic(distiller) => distiller.may_give(event, neighbors, reply),
            RuntimeDistiller::Provider(distiller) => distiller.may_give(event, neighbors, reply),
        }
    }

    open spec fn replays_late(&self) -> bool {
        self is Heuristic
    }

    fn distill(&self, event: &LedgerEvent, neighbors: &[MemoryNode]) -> (r: MemoryResult<
        DistillOutcome,
    >) {
        match self {
            RuntimeDistiller::Heuristic(distiller) => distiller.distill(event, neighbors),
            RuntimeDistiller::Provider(distiller) => distiller.distill(event, neighbors),
        }
    }

    fn supports_late_replay(&self) -> (r: bool) {
        match self {
            RuntimeDistiller::Heuristic(distiller) => distiller.supports_late_replay(),
            RuntimeDistiller::Provider(distiller) => distiller.supports_late_replay(),
        }
    }
}

} // verus!
