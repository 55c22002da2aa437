//! Laws of asking: when an answer is looked for further, where a walk goes from the evidence,
//! and what it may take up on the way.
use vstd::prelude::*;

use crate::belief::{found_words_split_the_text, says};
use crate::chars::{lower, occurs, opt_text, texts};
use crate::error::MemoryResult;
use crate::explore::{
    joins, lemma_open_place, open_next_to, walk, walk_start, ExplorationModel, Walk, WalkModel,
};
use crate::graph::{evidence_among, kind_weight, selected_evidence, PlanModel};
use crate::inquiry::{next_step, went_on, InquiryModel, InquiryStep, InquiryStepModel, PhaseModel};
use crate::model::{
    budgeted, budgeted_within_budget, evidence_tokens, modes_take, options_with_mode, token_cost,
    EvidenceModel, MemoryEdgeKind, MemoryMode, MemoryNodeKind, MemoryTier, QueryModel,
    ReconstructionMode, ReconstructionReason, RoutingModel,
};
use crate::query::{
    accepted_evidence, answer_of, asks_connection, escalation, evidence_cost, exploration_of,
    read_time, reconstructed_answer, relevant_ids, walk_pool, ReconstructionModel,
};
use crate::reconstruct::{
    best_candidate, candidate_is, candidates_cost, checked_decision, deterministic_decision,
    no_reconstruction_metrics, ActiveReconstructor, CandidateModel, DecisionModel, ProviderAction,
    ReconstructionMetrics, ReconstructionReply, StepModel, Verdict,
};
use crate::rows::NodeModel;
use crate::store::{with_id, StoreModel};
use crate::table::{first_index, lemma_filter_contains, lemma_first_index, some_row};
use crate::text::overlap_of;

verus! {

// ---------------------------------------------------------------------------
// When an answer is looked for further
// ---------------------------------------------------------------------------
/// A query reads at the time that it asks about, and now where it asks about none.
pub proof fn queries_read_at_their_time(query: QueryModel, now: i64)
    ensures
        query.scope.as_of_unix_ms matches Some(at) ==> read_time(query, now) == at,
        query.scope.as_of_unix_ms is None ==> read_time(query, now) == now,
{
}

/// A question asks how things hang together if and only if it says one of the words for it, in
/// any case.
pub proof fn connections_are_asked_for_in_words(question: Seq<char>)
    ensures
        asks_connection(lower(question)) <==> says(question, "why"@) || says(question, "because"@)
            || says(question, "cause"@) || says(question, "led to"@) || says(
            question,
            "result of"@,
        ) || says(question, "depends on"@),
{
    let markers = seq!["why"@, "because"@, "cause"@, "led to"@, "result of"@, "depends on"@];
    let text = lower(question);
    assert forall|k: int| 0 <= k < markers.len() implies occurs(#[trigger] markers[k], text)
        == says(question, markers[k]) by {
        found_words_split_the_text(markers[k], text);
    }
    if says(question, "why"@) {
        assert(occurs(markers[0], text));
    }
    if says(question, "because"@) {
        assert(occurs(markers[1], text));
    }
    if says(question, "cause"@) {
        assert(occurs(markers[2], text));
    }
    if says(question, "led to"@) {
        assert(occurs(markers[3], text));
    }
    if says(question, "result of"@) {
        assert(occurs(markers[4], text));
    }
    if says(question, "depends on"@) {
        assert(occurs(markers[5], text));
    }
    if asks_connection(text) {
        let k = choose|k: int| 0 <= k < markers.len() && occurs(#[trigger] markers[k], text);
        assert(says(question, markers[k]));
    }
}

/// Nothing escalates where reconstruction is off, and everything where it is forced. Where it
/// may happen it does for want of evidence, for a question about how things hang together, for
/// doubtful evidence and for evidence that does not decide, named in this order, and for
/// nothing else.
pub proof fn escalations_have_their_reason(
    query: QueryModel,
    nothing: bool,
    doubtful: bool,
    undecided: bool,
)
    ensures
        ({
            let reason = escalation(query, nothing, doubtful, undecided);
            let connects = asks_connection(lower(query.question));
            &&& query.reconstruction.mode == ReconstructionMode::Off ==> reason is None
            &&& query.reconstruction.mode == ReconstructionMode::Force ==> reason == Some(
                ReconstructionReason::Forced,
            )
            &&& query.reconstruction.mode == ReconstructionMode::Auto ==> {
                &&& reason is Some <==> nothing || connects || doubtful || undecided
                &&& reason == Some(ReconstructionReason::EmptyEvidence) <==> nothing
                &&& reason == Some(ReconstructionReason::CompositionalQuery) <==> connects
                    && !nothing
                &&& reason == Some(ReconstructionReason::LowConfidence) <==> doubtful && !connects
                    && !nothing
                &&& reason == Some(ReconstructionReason::AmbiguousEvidence) <==> undecided
                    && !doubtful && !connects && !nothing
            }
        }),
{
}

/// An inquiry that finds evidence is answered from it where nothing calls for more: the best
/// scores a quarter or more and stands out from the next by two hundredths or more, and the
/// question does not ask how things hang together. Where the best scores less than a quarter,
/// or the next comes closer than two hundredths, a reconstruction is called for if it may be.
pub proof fn clear_evidence_is_answered_from(
    store: StoreModel,
    inquiry: InquiryModel,
    evidence: Seq<EvidenceModel>,
)
    requires
        evidence.len() > 0,
        forall|i: int, j: int|
            0 <= i < j < evidence.len() ==> (#[trigger] evidence[i]).score >= (
            #[trigger] evidence[j]).score,
    ensures
        ({
            let step = next_step(store, inquiry, evidence);
            let mode = inquiry.query.reconstruction.mode;
            let best = evidence[0].score;
            let apart = evidence.len() == 1 || evidence[0].score >= evidence[1].score
                + 20_000_000;
            let connects = asks_connection(lower(inquiry.query.question));
            &&& mode == ReconstructionMode::Off || (mode == ReconstructionMode::Auto && best
                >= 250_000_000 && apart && !connects) ==> step == InquiryStepModel::Answered(
                answer_of(
                    inquiry.query,
                    inquiry.plan,
                    evidence,
                    MemoryTier::Activation,
                    inquiry.route,
                    None,
                ),
            )
            &&& mode == ReconstructionMode::Force || (mode == ReconstructionMode::Auto && (best
                < 250_000_000 || !apart || connects)) ==> {
                &&& step matches InquiryStepModel::Score(next) && next.phase
                    matches PhaseModel::Reconstructing { plan, evidence: kept, reason }
                    && kept == evidence && plan == store.plan(
                    inquiry.query,
                    inquiry.route.allowed_modes,
                    inquiry.plan.as_of_unix_ms,
                )
            }
        }),
{
    if evidence.len() > 1 {
        assert(evidence[0].score >= evidence[1].score);
    }
}

/// An inquiry whose route finds nothing tries everything that is allowed, at the same time, as
/// long as that is more; one that has tried it does not try it again.
pub proof fn empty_handed_inquiries_widen(store: StoreModel, inquiry: InquiryModel)
    ensures
        ({
            let step = next_step(store, inquiry, Seq::empty());
            &&& inquiry.phase is Routed && inquiry.route.routed_modes.len()
                != inquiry.route.allowed_modes.len() ==> {
                &&& step matches InquiryStepModel::Score(next) && next.phase is Widened
                    && next.plan == store.plan(
                    inquiry.query,
                    inquiry.route.allowed_modes,
                    inquiry.plan.as_of_unix_ms,
                ) && next.query == inquiry.query && next.route.routed_modes
                    == inquiry.route.allowed_modes
            }
            &&& step matches InquiryStepModel::Score(next) ==> (next.phase is Widened
                ==> inquiry.phase is Routed)
        }),
{
}

// ---------------------------------------------------------------------------
// Evidence
// ---------------------------------------------------------------------------
/// A memory that holds, has a score and is of a kind that the modes take is evidence, with its
/// own text, score, cost and citations: none is passed over but entity cues.
pub proof fn scored_memories_are_evidence(
    store: StoreModel,
    modes: Seq<MemoryMode>,
    at: i64,
    active: Seq<NodeModel>,
    scores: Seq<Option<u32>>,
    i: int,
) -> (k: int)
    requires
        0 <= i < active.len(),
        i < scores.len(),
        scores[i] is Some,
        modes_take(modes, active[i].kind),
        active[i].kind != MemoryNodeKind::EntityCue,
    ensures
        ({
            let found = evidence_among(store, modes, at, active, scores);
            &&& 0 <= k < found.len()
            &&& found[k].node_id == active[i].id
            &&& found[k].kind == active[i].kind
            &&& found[k].text == active[i].text
            &&& found[k].score == scores[i]->0
            &&& found[k].token_estimate == active[i].token_estimate
            &&& found[k].cited_spans == store.citations(active[i].id, Some(at))
        }),
    decreases active.len(),
{
    let front = active.drop_last();
    let found = evidence_among(store, modes, at, front, scores);
    if i < front.len() {
        assert(front[i] == active[i]);
        scored_memories_are_evidence(store, modes, at, front, scores, i)
    } else {
        found.len() as int
    }
}

/// The cost of an answer is that of its text and of each item of its evidence; what two lists
/// of items cost is added up.
pub proof fn answers_cost_what_they_hold(
    start: u32,
    items: Seq<EvidenceModel>,
    item: EvidenceModel,
    query: QueryModel,
    plan: PlanModel,
    tier: MemoryTier,
    routing: RoutingModel,
    reconstruction: Option<ReconstructionModel>,
)
    ensures
        evidence_cost(start, Seq::empty()) == start,
        evidence_cost(start, items) + item.token_estimate <= u32::MAX ==> evidence_cost(
            start,
            items.push(item),
        ) == evidence_cost(start, items) + item.token_estimate,
        start <= evidence_cost(start, items),
        ({
            let r = answer_of(query, plan, items, tier, routing, reconstruction);
            &&& r.evidence == items
            &&& r.tier_used == tier
            &&& r.routing == Some(routing)
            &&& r.reconstruction == reconstruction
            &&& r.token_estimate == evidence_cost(token_cost(r.answer), items)
        }),
    decreases items.len(),
{
    assert(items.push(item).drop_last() =~= items);
    if items.len() > 0 {
        answers_cost_what_they_hold(
            start,
            items.drop_last(),
            item,
            query,
            plan,
            tier,
            routing,
            reconstruction,
        );
    }
}

// ---------------------------------------------------------------------------
// What a walk may find
// ---------------------------------------------------------------------------
/// A walk may find a memory exactly if it holds, may answer under the modes and is not evidence
/// yet. This says that what it may find is such a memory.
pub proof fn walks_find_memories_that_may_answer(
    modes: Seq<MemoryMode>,
    active: Seq<NodeModel>,
    scores: Seq<Option<u32>>,
    ids: Seq<Seq<char>>,
    k: int,
) -> (i: int)
    requires
        0 <= k < walk_pool(modes, active, scores, ids).len(),
    ensures
        ({
            let found = walk_pool(modes, active, scores, ids)[k];
            &&& 0 <= i < active.len()
            &&& found.node_id == active[i].id
            &&& found.kind == active[i].kind
            &&& found.text == active[i].text
            &&& found.token_estimate == active[i].token_estimate
            &&& found.kind != MemoryNodeKind::EntityCue
            &&& modes_take(modes, found.kind)
            &&& !ids.contains(found.node_id)
            &&& i < scores.len() && scores[i] is Some ==> found.score == scores[i]->0
            &&& i >= scores.len() || scores[i] is None ==> found.score == 0
        }),
    decreases active.len(),
{
    let front = active.drop_last();
    if k < walk_pool(modes, front, scores, ids).len() {
        let i = walks_find_memories_that_may_answer(modes, front, scores, ids, k);
        assert(front[i] == active[i]);
        i
    } else {
        active.len() - 1
    }
}

/// A memory that holds, may answer and is not evidence yet may be found.
pub proof fn walks_may_find_any_other_memory(
    modes: Seq<MemoryMode>,
    active: Seq<NodeModel>,
    scores: Seq<Option<u32>>,
    ids: Seq<Seq<char>>,
    i: int,
) -> (k: int)
    requires
        0 <= i < active.len(),
        active[i].kind != MemoryNodeKind::EntityCue,
        modes_take(modes, active[i].kind),
        !ids.contains(active[i].id),
    ensures
        0 <= k < walk_pool(modes, active, scores, ids).len(),
        walk_pool(modes, active, scores, ids)[k].node_id == active[i].id,
    decreases active.len(),
{
    let front = active.drop_last();
    if i < front.len() {
        assert(front[i] == active[i]);
        walks_may_find_any_other_memory(modes, front, scores, ids, i)
    } else {
        walk_pool(modes, front, scores, ids).len() as int
    }
}

proof fn lemma_relevant(question: Seq<char>, modes: Seq<MemoryMode>, active: Seq<NodeModel>, i: int)
    requires
        0 <= i < active.len(),
        active[i].kind != MemoryNodeKind::EntityCue,
        modes_take(modes, active[i].kind),
        overlap_of(question, active[i].text).0 > 0,
    ensures
        relevant_ids(question, modes, active).contains(active[i].id),
    decreases active.len(),
{
    let front = active.drop_last();
    let found = relevant_ids(question, modes, front);
    let all = relevant_ids(question, modes, active);
    if i < front.len() {
        assert(front[i] == active[i]);
        lemma_relevant(question, modes, front, i);
        let k = choose|k: int| 0 <= k < found.len() && found[k] == active[i].id;
        assert(all[k] == active[i].id);
    } else {
        assert(all[all.len() - 1] == active[i].id);
    }
}

/// A walk starts from the evidence where there is any; where there is none it starts from every
/// memory that holds, may answer and shares a term with the question.
pub proof fn walks_start_from_what_is_relevant(
    query: QueryModel,
    plan: PlanModel,
    scores: Seq<Option<u32>>,
    evidence: Seq<EvidenceModel>,
    i: int,
)
    ensures
        ({
            let input = exploration_of(query, plan, scores, evidence);
            &&& input.question == query.question
            &&& input.max_steps == query.reconstruction.max_steps
            &&& input.max_tokens == query.reconstruction.max_tokens
            &&& evidence.len() > 0 ==> input.start.len() == evidence.len()
            &&& 0 <= i < evidence.len() ==> input.start[i] == evidence[i].node_id
            &&& evidence.len() == 0 && 0 <= i < plan.active.len() && plan.active[i].kind
                != MemoryNodeKind::EntityCue && modes_take(plan.modes, plan.active[i].kind)
                && overlap_of(query.question, plan.active[i].text).0 > 0 ==> input.start.contains(
                plan.active[i].id,
            )
            &&& input.links.len() == plan.ranking_edges.len()
            &&& 0 <= i < input.links.len() ==> input.links[i].from
                == plan.ranking_edges[i].from_node_id && input.links[i].to
                == plan.ranking_edges[i].to_node_id
        }),
{
    if evidence.len() == 0 && 0 <= i < plan.active.len() && plan.active[i].kind
        != MemoryNodeKind::EntityCue && modes_take(plan.modes, plan.active[i].kind) && overlap_of(
        query.question,
        plan.active[i].text,
    ).0 > 0 {
        lemma_relevant(query.question, plan.modes, plan.active, i);
    }
}

/// What a walk accepted becomes evidence: each accepted memory that holds, in the order in which
/// they were accepted.
pub proof fn accepted_memories_become_evidence(
    store: StoreModel,
    plan: PlanModel,
    scores: Seq<Option<u32>>,
    accepted: Seq<Seq<char>>,
    a: int,
)
    requires
        0 <= a < accepted.len(),
        forall|k: int|
            0 <= k < accepted.len() ==> some_row(plan.active, with_id(#[trigger] accepted[k])),
    ensures
        accepted_evidence(store, plan, scores, accepted).len() == accepted.len(),
        accepted_evidence(store, plan, scores, accepted)[a].node_id == accepted[a],
        accepted_evidence(store, plan, scores, accepted)[a].cited_spans == store.citations(
            accepted[a],
            Some(plan.as_of_unix_ms),
        ),
    decreases accepted.len(),
{
    let front = accepted.drop_last();
    assert forall|k: int| 0 <= k < front.len() implies some_row(
        plan.active,
        with_id(#[trigger] front[k]),
    ) by {
        assert(front[k] == accepted[k]);
    }
    lemma_first_index(plan.active, with_id(accepted.last()));
    assert(some_row(plan.active, with_id(accepted[accepted.len() - 1])));
    if front.len() > 0 {
        let b = if a < front.len() {
            a
        } else {
            0
        };
        accepted_memories_become_evidence(store, plan, scores, front, b);
        assert(front[b] == accepted[b]);
    }
}

// ---------------------------------------------------------------------------
// Decisions
// ---------------------------------------------------------------------------
proof fn lemma_best(candidates: Seq<CandidateModel>, budget: u32) -> (k: int)
    ensures
        best_candidate(candidates, budget) is None <==> forall|i: int|
            0 <= i < candidates.len() ==> (#[trigger] candidates[i]).token_estimate > budget,
        best_candidate(candidates, budget) matches Some(best) ==> {
            &&& 0 <= k < candidates.len()
            &&& candidates[k] == best
            &&& best.token_estimate <= budget
            &&& forall|i: int|
                0 <= i < candidates.len() && (#[trigger] candidates[i]).token_estimate <= budget
                    ==> candidates[i].score <= best.score
        },
    decreases candidates.len(),
{
    if candidates.len() == 0 {
        0
    } else {
        let front = candidates.drop_last();
        let j = lemma_best(front, budget);
        let last = candidates.len() - 1;
        assert(candidates[last] == candidates.last());
        assert forall|i: int| 0 <= i < last implies front[i] == #[trigger] candidates[i] by {}
        let best = best_candidate(candidates, budget);
        if best is None {
            assert forall|i: int| 0 <= i < candidates.len() implies (
            #[trigger] candidates[i]).token_estimate > budget by {
                if i < last {
                    assert(front[i].token_estimate > budget);
                }
            }
            0
        } else if candidates.last().token_estimate <= budget && best == Some(candidates.last()) {
            assert forall|i: int|
                0 <= i < candidates.len() && (#[trigger] candidates[i]).token_estimate
                    <= budget implies candidates[i].score <= best->0.score by {
                if i < last {
                    assert(front[i].token_estimate <= budget);
                }
            }
            last
        } else {
            assert(candidates[j] == front[j]);
            assert forall|i: int|
                0 <= i < candidates.len() && (#[trigger] candidates[i]).token_estimate
                    <= budget implies candidates[i].score <= best->0.score by {
                if i < last {
                    assert(front[i].token_estimate <= budget);
                }
            }
            j
        }
    }
}

/// The policy without a provider accepts a candidate that fits into what is left to spend and
/// scores no less than any other that fits, and stops only where none fits. It prunes nothing.
pub proof fn the_best_candidate_that_fits_is_accepted(step: StepModel) -> (k: int)
    ensures
        match deterministic_decision(step) {
            DecisionModel::Accept(id) => {
                &&& 0 <= k < step.candidates.len()
                &&& step.candidates[k].node_id == id
                &&& step.candidates[k].token_estimate <= step.remaining_tokens
                &&& forall|i: int|
                    0 <= i < step.candidates.len() && (
                    #[trigger] step.candidates[i]).token_estimate <= step.remaining_tokens
                        ==> step.candidates[i].score <= step.candidates[k].score
            },
            DecisionModel::Stop => forall|i: int|
                0 <= i < step.candidates.len() ==> (#[trigger] step.candidates[i]).token_estimate
                    > step.remaining_tokens,
            DecisionModel::Prune(_) => false,
        },
{
    lemma_best(step.candidates, step.remaining_tokens)
}

/// A provider's decision is taken at its word where it names one of the candidates, and to stop
/// where it names none; anything else is refused.
pub proof fn provider_decisions_are_taken_at_their_word(
    candidates: Seq<CandidateModel>,
    node_id: Option<Seq<char>>,
)
    ensures
        ({
            let named = node_id is Some && exists|i: int|
                0 <= i < candidates.len() && (#[trigger] candidates[i]).node_id == node_id->0;
            let accept = checked_decision(ProviderAction::Accept, node_id, candidates);
            let prune = checked_decision(ProviderAction::Prune, node_id, candidates);
            let stop = checked_decision(ProviderAction::Stop, node_id, candidates);
            &&& named ==> accept == Ok::<DecisionModel, Seq<char>>(
                DecisionModel::Accept(node_id->0),
            ) && prune == Ok::<DecisionModel, Seq<char>>(DecisionModel::Prune(node_id->0))
            &&& !named ==> accept is Err && prune is Err
            &&& node_id is None ==> stop == Ok::<DecisionModel, Seq<char>>(DecisionModel::Stop)
            &&& node_id is Some ==> stop is Err
        }),
{
    if let Some(id) = node_id {
        let test = candidate_is(id);
        if some_row(candidates, test) {
            let i = choose|i: int| 0 <= i < candidates.len() && test(#[trigger] candidates[i]);
            assert(candidates[i].node_id == id);
        }
        if exists|i: int| 0 <= i < candidates.len() && (#[trigger] candidates[i]).node_id == id {
            let i = choose|i: int|
                0 <= i < candidates.len() && (#[trigger] candidates[i]).node_id == id;
            assert(test(candidates[i]));
        }
    }
}

/// Counters are added one by one, and counters of nothing change nothing.
pub proof fn counters_add_up(a: ReconstructionMetrics, b: ReconstructionMetrics)
    ensures
        a.plus(no_reconstruction_metrics()) == a,
        no_reconstruction_metrics().plus(a) == a,
        a.plus(b) == b.plus(a),
        a.provider_calls + b.provider_calls <= usize::MAX ==> a.plus(b).provider_calls
            == a.provider_calls + b.provider_calls,
        a.provider_errors + b.provider_errors <= usize::MAX ==> a.plus(b).provider_errors
            == a.provider_errors + b.provider_errors,
        a.schema_errors + b.schema_errors <= usize::MAX ==> a.plus(b).schema_errors
            == a.schema_errors + b.schema_errors,
        a.input_tokens + b.input_tokens <= u32::MAX ==> a.plus(b).input_tokens == a.input_tokens
            + b.input_tokens,
        a.output_tokens + b.output_tokens <= u32::MAX ==> a.plus(b).output_tokens
            == a.output_tokens + b.output_tokens,
        a.elapsed_ms + b.elapsed_ms <= u64::MAX ==> a.plus(b).elapsed_ms == a.elapsed_ms
            + b.elapsed_ms,
{
}

// ---------------------------------------------------------------------------
// Walks
// ---------------------------------------------------------------------------
/// What some memories of a pool cost together.
pub open spec fn cost_together(pool: Seq<CandidateModel>, ids: Seq<Seq<char>>) -> int
    decreases ids.len(),
{
    if ids.len() == 0 {
        0
    } else {
        cost_together(pool, ids.drop_last()) + match first_index(pool, candidate_is(ids.last())) {
            Some(i) => pool[i].token_estimate as int,
            None => 0,
        }
    }
}

proof fn lemma_one_cost(pool: Seq<CandidateModel>, i: int)
    requires
        forall|a: int, b: int|
            0 <= a < b < pool.len() ==> (#[trigger] pool[a]).node_id != (#[trigger] pool[b]).node_id,
        0 <= i < pool.len(),
    ensures
        first_index(pool, candidate_is(pool[i].node_id)) == Some(i),
{
    let test = candidate_is(pool[i].node_id);
    lemma_first_index(pool, test);
    assert(test(pool[i]));
    assert(some_row(pool, test));
    let j = first_index(pool, test)->0;
    if j < i {
        assert(pool[j].node_id != pool[i].node_id);
    } else if i < j {
        assert(pool[i].node_id != pool[j].node_id);
    }
}

/// What a walk has spent is what the memories that it accepted cost, together; its frontier is
/// where it started and then what it accepted; and it has taken as many steps as it has asked
/// for decisions.
pub proof fn walks_pay_for_what_they_accept(input: ExplorationModel, verdicts: Seq<Verdict>)
    requires
        forall|a: int, b: int|
            0 <= a < b < input.pool.len() ==> (#[trigger] input.pool[a]).node_id != (
            #[trigger] input.pool[b]).node_id,
    ensures
        ({
            let w = walk(input, verdicts);
            &&& w.spent == cost_together(input.pool, w.accepted)
            &&& w.spent <= input.max_tokens
            &&& w.frontier == input.start + w.accepted
            &&& w.steps == w.asked.len()
            &&& w.at >= 0
        }),
    decreases verdicts.len(),
{
    if verdicts.len() == 0 {
        assert(walk_start(input).frontier =~= input.start + walk_start(input).accepted);
    } else {
        let before = walk(input, verdicts.drop_last());
        walks_pay_for_what_they_accept(input, verdicts.drop_last());
        if !before.ended(input) {
            let after = before.after(input, verdicts.last());
            let place = before.open_place(input, before.at)->0;
            let step = before.next_step(input, place);
            lemma_open_place(input, before, before.at);
            if let Verdict::Decided(DecisionModel::Accept(id), _) = verdicts.last() {
                lemma_first_index(step.candidates, candidate_is(id));
                if let Some(i) = first_index(step.candidates, candidate_is(id)) {
                    let test = open_next_to(
                        input.links,
                        before.accepted,
                        before.pruned,
                        before.frontier[place],
                    );
                    assert(step.candidates.contains(step.candidates[i]));
                    lemma_filter_contains(input.pool, test, step.candidates[i]);
                    let k = choose|k: int|
                        0 <= k < input.pool.len() && input.pool[k] == step.candidates[i];
                    lemma_one_cost(input.pool, k);
                    assert(before.accepted.push(id).drop_last() =~= before.accepted);
                    assert((input.start + before.accepted).push(id) =~= input.start
                        + before.accepted.push(id));
                }
            }
        }
    }
}

/// A walk goes along the edges: each memory that it accepts is joined by an edge, in either
/// direction, to one that it started from or had accepted before.
pub proof fn walks_follow_edges(
    input: ExplorationModel,
    verdicts: Seq<Verdict>,
    k: int,
) -> (r: (int, int))
    requires
        0 <= k < walk(input, verdicts).accepted.len(),
    ensures
        ({
            let w = walk(input, verdicts);
            let (f, l) = r;
            &&& w.frontier.len() == input.start.len() + w.accepted.len()
            &&& 0 <= f < input.start.len() + k
            &&& 0 <= l < input.links.len()
            &&& (input.links[l].from == w.frontier[f] && input.links[l].to == w.accepted[k]) || (
            input.links[l].to == w.frontier[f] && input.links[l].from == w.accepted[k])
        }),
    decreases verdicts.len(),
{
    let before = walk(input, verdicts.drop_last());
    let after = walk(input, verdicts);
    lemma_frontier(input, verdicts.drop_last());
    lemma_frontier(input, verdicts);
    if k < before.accepted.len() {
        let (f, l) = walks_follow_edges(input, verdicts.drop_last(), k);
        assert(after.frontier[f] == before.frontier[f]);
        assert(after.accepted[k] == before.accepted[k]);
        (f, l)
    } else {
        let place = before.open_place(input, before.at)->0;
        let step = before.next_step(input, place);
        lemma_open_place(input, before, before.at);
        let id = after.accepted[k];
        lemma_first_index(step.candidates, candidate_is(id));
        let i = first_index(step.candidates, candidate_is(id))->0;
        let test = open_next_to(
            input.links,
            before.accepted,
            before.pruned,
            before.frontier[place],
        );
        assert(step.candidates.contains(step.candidates[i]));
        lemma_filter_contains(input.pool, test, step.candidates[i]);
        assert(test(step.candidates[i]));
        let joined = joins(before.frontier[place], id);
        let l = choose|l: int| 0 <= l < input.links.len() && joined(#[trigger] input.links[l]);
        assert(after.frontier[place] == before.frontier[place]);
        (place, l)
    }
}

proof fn lemma_frontier(input: ExplorationModel, verdicts: Seq<Verdict>)
    ensures
        walk(input, verdicts).frontier.len() == input.start.len() + walk(
            input,
            verdicts,
        ).accepted.len(),
        walk(input, verdicts).at >= 0,
    decreases verdicts.len(),
{
    if verdicts.len() > 0 {
        let before = walk(input, verdicts.drop_last());
        lemma_frontier(input, verdicts.drop_last());
        if !before.ended(input) {
            lemma_open_place(input, before, before.at);
        }
    }
}

/// A walk asks for a decision only with something to decide: each step is numbered, carries the
/// question and what is left to spend, and offers memories of the pool that have been neither
/// accepted nor pruned and are joined by an edge to the one that is expanded.
pub proof fn walks_offer_open_neighbors(
    input: ExplorationModel,
    w: WalkModel,
    verdict: Verdict,
    c: int,
)
    requires
        !w.ended(input),
        w.at >= 0,
        w.spent <= input.max_tokens,
    ensures
        ({
            let after = w.after(input, verdict);
            let step = after.asked.last().0;
            &&& after.asked.len() == w.asked.len() + 1
            &&& after.steps == w.steps + 1
            &&& step.question == input.question
            &&& step.step_index == w.steps as u8
            &&& step.remaining_tokens == input.max_tokens - w.spent
            &&& w.frontier.contains(step.expanded_node_id)
            &&& after.expanded.contains(step.expanded_node_id)
            &&& step.candidates.len() > 0
            &&& 0 <= c < step.candidates.len() ==> {
                let candidate = step.candidates[c];
                &&& input.pool.contains(candidate)
                &&& !w.accepted.contains(candidate.node_id)
                &&& !w.pruned.contains(candidate.node_id)
                &&& some_row(input.links, joins(step.expanded_node_id, candidate.node_id))
            }
            &&& verdict matches Verdict::Decided(DecisionModel::Stop, _) ==> after.stopped
            &&& verdict matches Verdict::Failed(error) ==> after.error == Some(error)
            &&& verdict matches Verdict::Decided(_, metrics) ==> after.metrics == w.metrics.plus(
                metrics,
            )
        }),
{
    let place = w.open_place(input, w.at)->0;
    lemma_open_place(input, w, w.at);
    let step = w.next_step(input, place);
    let after = w.after(input, verdict);
    assert(after.asked.last().0 == step);
    assert(w.frontier.contains(w.frontier[place]));
    if !w.expanded.contains(w.frontier[place]) {
        let pushed = w.expanded.push(w.frontier[place]);
        assert(pushed[w.expanded.len() as int] == w.frontier[place]);
    }
    if 0 <= c < step.candidates.len() {
        let test = open_next_to(input.links, w.accepted, w.pruned, w.frontier[place]);
        assert(step.candidates.contains(step.candidates[c]));
        lemma_filter_contains(input.pool, test, step.candidates[c]);
        assert(test(step.candidates[c]));
    }
}

// ---------------------------------------------------------------------------
// Edge weights
// ---------------------------------------------------------------------------
/// Causes and fixes carry activation in full; a replacement carries more than a contradiction,
/// which carries as much as what blocks or enables, and so on down to what merely came before
/// or after. No kind carries nothing.
pub proof fn edges_carry_by_their_kind(kind: MemoryEdgeKind)
    ensures
        kind_weight(MemoryEdgeKind::CausedBy) == 100,
        kind_weight(MemoryEdgeKind::Fixes) == 100,
        kind_weight(MemoryEdgeKind::Supersedes) == 95,
        kind_weight(MemoryEdgeKind::Contradicts) == 90,
        kind_weight(MemoryEdgeKind::Blocks) == kind_weight(MemoryEdgeKind::Contradicts),
        kind_weight(MemoryEdgeKind::Enables) == kind_weight(MemoryEdgeKind::Contradicts),
        kind_weight(MemoryEdgeKind::PartOf) == 80,
        kind_weight(MemoryEdgeKind::DerivedFrom) == 75,
        kind_weight(MemoryEdgeKind::Mentions) == 70,
        kind_weight(MemoryEdgeKind::ObservedIn) == 60,
        kind_weight(MemoryEdgeKind::Before) == 55,
        kind_weight(MemoryEdgeKind::After) == kind_weight(MemoryEdgeKind::Before),
        55 <= kind_weight(kind) <= 100,
{
}

// ---------------------------------------------------------------------------
// Answers after a walk
// ---------------------------------------------------------------------------
/// The answer after a walk rests on the evidence before it and on what the walk accepted, as far
/// as both fit the budget; it tells why the walk was taken and what became of it, and which modes
/// it went through where they are more than the route's own.
pub proof fn walked_answers_rest_on_what_was_accepted(
    store: StoreModel,
    query: QueryModel,
    route: RoutingModel,
    plan: PlanModel,
    scores: Seq<Option<u32>>,
    evidence: Seq<EvidenceModel>,
    reason: ReconstructionReason,
    found: Walk,
)
    ensures
        ({
            let r = reconstructed_answer(
                store,
                query,
                route,
                plan,
                scores,
                evidence,
                reason,
                found,
            );
            &&& r.evidence == budgeted(
                evidence + accepted_evidence(store, plan, scores, texts(found.accepted@)),
                query.max_tokens,
            )
            &&& r.tier_used == MemoryTier::ActiveReconstruction
            &&& r.reconstruction matches Some(told) && told.reason == reason && told.mode
                == query.reconstruction.mode && told.steps_used == found.steps && told.tokens_spent
                == found.spent && told.accepted_node_ids == texts(found.accepted@)
                && told.pruned_node_ids == texts(found.pruned@) && told.expanded_node_ids == texts(
                found.expanded@,
            )
            &&& r.routing matches Some(taken) && taken.routed_modes == route.routed_modes
                && taken.allowed_modes == route.allowed_modes && taken.reason == route.reason
            &&& route.routed_modes.len() != route.allowed_modes.len() ==> r.routing->0.reconstruction_modes
                == Some(route.allowed_modes)
            &&& route.routed_modes == route.allowed_modes ==> r.routing->0.reconstruction_modes
                is None
        }),
{
    assert forall|i: int| 0 <= i < route.routed_modes.len() implies route.routed_modes.contains(
        #[trigger] route.routed_modes[i],
    ) by {}
}

/// A provider that fails stops the walk and is charged with an error; one whose words hold no
/// valid decision stops it and is charged with a malformed reply; any other is taken at its word.
/// Each time it was called once.
pub proof fn provider_replies_are_heard(step: StepModel, reply: MemoryResult<ReconstructionReply>)
    ensures
        ({
            let (decision, metrics) = crate::reconstruct::decided(step, reply);
            &&& metrics.provider_calls == 1
            &&& metrics.input_tokens == candidates_cost(
                token_cost(step.question),
                step.candidates,
            )
            &&& metrics.elapsed_ms == 0
            &&& reply is Err ==> decision is Stop && metrics.provider_errors == 1
                && metrics.schema_errors == 0 && metrics.output_tokens == 0
            &&& reply matches Ok(said) ==> metrics.provider_errors == 0 && metrics.output_tokens
                == token_cost(said.text@) && match said.output {
                Err(_) => decision is Stop && metrics.schema_errors == 1,
                Ok(output) => match checked_decision(
                    output.decision,
                    opt_text(output.node_id),
                    step.candidates,
                ) {
                    Ok(meant) => decision == meant && metrics.schema_errors == 0,
                    Err(_) => decision is Stop && metrics.schema_errors == 1,
                },
            }
        }),
{
}

/// A step costs a provider the tokens of the question and of each candidate.
pub proof fn steps_cost_what_they_offer(
    start: u32,
    candidates: Seq<CandidateModel>,
    candidate: CandidateModel,
)
    ensures
        candidates_cost(start, Seq::empty()) == start,
        candidates_cost(start, candidates) + token_cost(candidate.text) <= u32::MAX
            ==> candidates_cost(start, candidates.push(candidate)) == candidates_cost(
            start,
            candidates,
        ) + token_cost(candidate.text),
        start <= candidates_cost(start, candidates),
    decreases candidates.len(),
{
    assert(candidates.push(candidate).drop_last() =~= candidates);
    if candidates.len() > 0 {
        steps_cost_what_they_offer(start, candidates.drop_last(), candidate);
    }
}

/// Unless a query says otherwise, a walk takes four steps and two thousand tokens at most.
pub proof fn walks_are_short_unless_asked(mode: ReconstructionMode)
    ensures
        options_with_mode(mode).mode == mode,
        options_with_mode(mode).max_steps == 4,
        options_with_mode(mode).max_tokens == 2_000,
{
}

/// A walk expands the first memory of its frontier, from where it stands on, that has anything
/// next to it: those that it passes over have nothing.
pub proof fn walks_expand_the_first_open_place(
    input: ExplorationModel,
    w: WalkModel,
    verdict: Verdict,
) -> (place: int)
    requires
        !w.ended(input),
        w.at >= 0,
    ensures
        ({
            let after = w.after(input, verdict);
            &&& w.at <= place < w.frontier.len()
            &&& after.asked.last().0.expanded_node_id == w.frontier[place]
            &&& after.at == place
            &&& forall|p: int|
                w.at <= p < place ==> w.candidates(input, #[trigger] w.frontier[p]).len() == 0
        }),
{
    let place = w.open_place(input, w.at)->0;
    lemma_open_place(input, w, w.at);
    lemma_passed_over(input, w, w.at);
    place
}

proof fn lemma_passed_over(input: ExplorationModel, w: WalkModel, from: int)
    requires
        from >= 0,
    ensures
        w.open_place(input, from) matches Some(place) ==> forall|p: int|
            from <= p < place ==> w.candidates(input, #[trigger] w.frontier[p]).len() == 0,
    decreases w.frontier.len() - from,
{
    if from < w.frontier.len() && w.candidates(input, w.frontier[from]).len() == 0 {
        lemma_passed_over(input, w, from + 1);
    }
}

/// A walk ends when it is told to stop, when something failed, when its steps are used up, and
/// when no memory of its frontier from where it stands on has anything next to it; and for no
/// other reason.
pub proof fn walks_end_when_nothing_is_left(input: ExplorationModel, w: WalkModel)
    requires
        w.at >= 0,
    ensures
        w.ended(input) <==> w.stopped || w.error is Some || w.steps >= input.max_steps || forall|
            p: int,
        |
            w.at <= p < w.frontier.len() ==> w.candidates(input, #[trigger] w.frontier[p]).len()
                == 0,
{
    lemma_open_place(input, w, w.at);
    if w.open_place(input, w.at) is None {
        lemma_none_open(input, w, w.at);
    }
}

proof fn lemma_none_open(input: ExplorationModel, w: WalkModel, from: int)
    requires
        from >= 0,
        w.open_place(input, from) is None,
    ensures
        forall|p: int|
            from <= p < w.frontier.len() ==> w.candidates(input, #[trigger] w.frontier[p]).len()
                == 0,
    decreases w.frontier.len() - from,
{
    if from < w.frontier.len() {
        lemma_none_open(input, w, from + 1);
    }
}

/// A decision does what it says of a candidate: one that is accepted and fits is accepted, costs
/// its tokens and is walked on from; one that is pruned is pruned. Accepting what does not fit,
/// and naming what is no candidate, changes nothing.
pub proof fn decisions_do_what_they_say(
    input: ExplorationModel,
    w: WalkModel,
    step: StepModel,
    id: Seq<char>,
    i: int,
)
    requires
        0 <= i < step.candidates.len(),
        step.candidates[i].node_id == id,
        forall|k: int| 0 <= k < i ==> (#[trigger] step.candidates[k]).node_id != id,
        w.spent + step.candidates[i].token_estimate <= u32::MAX,
    ensures
        ({
            let cost = step.candidates[i].token_estimate;
            let accepted = w.decided(input, step, DecisionModel::Accept(id));
            let pruned = w.decided(input, step, DecisionModel::Prune(id));
            let stopped = w.decided(input, step, DecisionModel::Stop);
            &&& cost <= step.remaining_tokens ==> accepted.accepted == w.accepted.push(id)
                && accepted.frontier == w.frontier.push(id) && accepted.spent == w.spent + cost
                && accepted.pruned == w.pruned
            &&& cost > step.remaining_tokens ==> accepted == w
            &&& pruned.pruned == w.pruned.push(id) && pruned.accepted == w.accepted && pruned.spent
                == w.spent
            &&& stopped.stopped && stopped.accepted == w.accepted && stopped.pruned == w.pruned
        }),
{
    let test = candidate_is(id);
    lemma_first_index(step.candidates, test);
    assert(test(step.candidates[i]));
    assert(some_row(step.candidates, test));
    let f = first_index(step.candidates, test)->0;
    if f < i {
        assert(step.candidates[f].node_id != id);
    } else if i < f {
        assert(!test(step.candidates[i]));
    }
}

/// Of the candidates that fit and score best the last is accepted.
pub proof fn the_last_of_the_best_is_accepted(candidates: Seq<CandidateModel>, budget: u32) -> (k:
    int)
    ensures
        best_candidate(candidates, budget) matches Some(best) ==> {
            &&& 0 <= k < candidates.len()
            &&& candidates[k] == best
            &&& forall|i: int|
                k < i < candidates.len() && (#[trigger] candidates[i]).token_estimate <= budget
                    ==> candidates[i].score < best.score
        },
    decreases candidates.len(),
{
    if candidates.len() == 0 {
        0
    } else {
        let front = candidates.drop_last();
        let last = candidates.len() - 1;
        let j = the_last_of_the_best_is_accepted(front, budget);
        let best = best_candidate(candidates, budget);
        assert(candidates[last] == candidates.last());
        if candidates.last().token_estimate <= budget && (best_candidate(front, budget) is None
            || best_candidate(front, budget)->0.score <= candidates.last().score) {
            last
        } else {
            if best is Some {
                assert(front[j] == candidates[j]);
                assert forall|i: int|
                    j < i < candidates.len() && (#[trigger] candidates[i]).token_estimate
                        <= budget implies candidates[i].score < best->0.score by {
                    if i < last {
                        assert(front[i] == candidates[i]);
                    }
                }
            }
            j
        }
    }
}

/// An inquiry answers from the evidence that the scores of its plan select within the budget of
/// its query, over what was known to it.
pub proof fn inquiries_answer_from_scored_evidence<R: ActiveReconstructor>(
    policy: R,
    store: StoreModel,
    inquiry: InquiryModel,
    scores: Seq<Option<u32>>,
    r: MemoryResult<InquiryStep>,
)
    requires
        went_on(policy, store, inquiry, scores, r),
        !(inquiry.phase is Reconstructing),
    ensures
        r is Ok,
        r->Ok_0@ matches InquiryStepModel::Answered(answer) ==> {
            &&& answer.evidence == selected_evidence(
                store.known_to(inquiry.query),
                inquiry.plan,
                scores,
                inquiry.query.max_tokens,
            )
            &&& evidence_tokens(answer.evidence) <= inquiry.query.max_tokens
            &&& answer.tier_used == MemoryTier::Activation
            &&& answer.reconstruction is None
        },
{
    budgeted_within_budget(
        evidence_among(
            store.known_to(inquiry.query),
            inquiry.plan.modes,
            inquiry.plan.as_of_unix_ms,
            inquiry.plan.active,
            scores,
        ),
        inquiry.query.max_tokens,
    );
}

} // verus!
