//! A question under way.
//!
//! Answering alternates between planning what to score and scoring it, which happens outside. An
//! inquiry asks for the scores of a plan; given them it goes on: to a wider plan where it found
//! nothing, to a reconstruction where the query calls for one, and else to the answer.
use vstd::prelude::*;

use crate::error::{failure, rejection, MemoryResult};
use crate::graph::{select_evidence, selected_evidence, PlanModel, ReadPlan};
use crate::model::{
    Evidence, EvidenceModel, MemoryAnswer, MemoryQuery, MemoryTier, QueryModel,
    ReconstructionReason, RoutingModel,
};
use crate::order::views;
use crate::query::{
    answer_of, answer_query, begin_query, escalation, plan_reconstruction, read_time,
    reconstruct_answer, reconstruction_reason, some_reconstruction, widen_query, AnswerModel,
    QueryStage,
};
use crate::reconstruct::ActiveReconstructor;
use crate::route::{route_of, same_modes, widened};
use crate::store::{MemoryStore, StoreModel};

verus! {

/// How far an inquiry has come.
pub enum InquiryPhase {
    /// The routed plan is to be scored.
    Routed,
    /// The routed plan gave nothing, and the wider one is to be scored.
    Widened,
    /// Some evidence is to be built on, and the plan of everything allowed is to be scored.
    Reconstructing { plan: ReadPlan, evidence: Vec<Evidence>, reason: ReconstructionReason },
}

/// A question under way, waiting for the scores of a plan.
pub struct Inquiry {
    pub stage: QueryStage,
    pub phase: InquiryPhase,
}

pub enum PhaseModel {
    Routed,
    Widened,
    Reconstructing { plan: PlanModel, evidence: Seq<EvidenceModel>, reason: ReconstructionReason },
}

pub struct InquiryModel {
    pub query: QueryModel,
    pub route: RoutingModel,
    pub plan: PlanModel,
    pub phase: PhaseModel,
}

impl View for Inquiry {
    type V = InquiryModel;

    open spec fn view(&self) -> InquiryModel {
        InquiryModel {
            query: self.stage.query@,
            route: self.stage.route@,
            plan: self.stage.plan@,
            phase: match self.phase {
                InquiryPhase::Routed => PhaseModel::Routed,
                InquiryPhase::Widened => PhaseModel::Widened,
                InquiryPhase::Reconstructing { plan, evidence, reason } => {
                    PhaseModel::Reconstructing { plan: plan@, evidence: views(evidence@), reason }
                },
            },
        }
    }
}

/// Where an inquiry goes once a plan is scored.
pub enum InquiryStep {
    /// The scores of another plan are needed.
    Score(Inquiry),
    /// This is the answer.
    Answered(MemoryAnswer),
}

pub enum InquiryStepModel {
    Score(InquiryModel),
    Answered(AnswerModel),
}

impl View for InquiryStep {
    type V = InquiryStepModel;

    open spec fn view(&self) -> InquiryStepModel {
        match self {
            InquiryStep::Score(inquiry) => InquiryStepModel::Score(inquiry@),
            InquiryStep::Answered(answer) => InquiryStepModel::Answered(answer@),
        }
    }
}

// ---------------------------------------------------------------------------
// Doubts
// ---------------------------------------------------------------------------
/// The best of some evidence scores less than a quarter.
pub open spec fn weak_evidence(evidence: Seq<EvidenceModel>) -> bool {
    evidence.len() > 0 && evidence[0].score < 250_000_000
}

/// The two best of some evidence score less than two hundredths apart.
pub open spec fn close_evidence(evidence: Seq<EvidenceModel>) -> bool {
    evidence.len() > 1 && evidence[0].score - evidence[1].score < 20_000_000 && evidence[1].score
        - evidence[0].score < 20_000_000
}

/// Whether the best of some evidence scores less than a quarter.
pub fn is_weak(evidence: &Vec<Evidence>) -> (r: bool)
    ensures
        r == weak_evidence(views(evidence@)),
{
    evidence.len() > 0 && evidence[0].score < 250_000_000
}

/// Whether the two best of some evidence score less than two hundredths apart.
pub fn is_close(evidence: &Vec<Evidence>) -> (r: bool)
    ensures
        r == close_evidence(views(evidence@)),
{
    if evidence.len() < 2 {
        return false;
    }
    let first: u32 = evidence[0].score;
    let second: u32 = evidence[1].score;
    if first < second {
        second - first < 20_000_000
    } else {
        first - second < 20_000_000
    }
}

// ---------------------------------------------------------------------------
// Steps
// ---------------------------------------------------------------------------
/// Where an inquiry goes from the evidence that it selected: to a wider plan where there is none
/// and a wider one is allowed, to a reconstruction where the query calls for one, and else to
/// the answer.
pub open spec fn next_step(
    store: StoreModel,
    inquiry: InquiryModel,
    evidence: Seq<EvidenceModel>,
) -> InquiryStepModel {
    let at = inquiry.plan.as_of_unix_ms;
    if evidence.len() == 0 && inquiry.phase is Routed && !same_modes(
        inquiry.route.routed_modes,
        inquiry.route.allowed_modes,
    ) {
        InquiryStepModel::Score(
            InquiryModel {
                query: inquiry.query,
                route: widened(inquiry.route),
                plan: store.plan(inquiry.query, inquiry.route.allowed_modes, at),
                phase: PhaseModel::Widened,
            },
        )
    } else {
        match escalation(
            inquiry.query,
            evidence.len() == 0,
            weak_evidence(evidence),
            close_evidence(evidence),
        ) {
            None => InquiryStepModel::Answered(
                answer_of(
                    inquiry.query,
                    inquiry.plan,
                    evidence,
                    MemoryTier::Activation,
                    inquiry.route,
                    None,
                ),
            ),
            Some(reason) => InquiryStepModel::Score(
                InquiryModel {
                    phase: PhaseModel::Reconstructing {
                        plan: store.plan(inquiry.query, inquiry.route.allowed_modes, at),
                        evidence,
                        reason,
                    },
                    ..inquiry
                },
            ),
        }
    }
}

/// The answer that a step came to, or its error.
pub open spec fn step_answer(r: MemoryResult<InquiryStep>) -> MemoryResult<MemoryAnswer> {
    match r {
        Ok(InquiryStep::Answered(answer)) => Ok(answer),
        Ok(InquiryStep::Score(_)) => arbitrary(),
        Err(error) => Err(error),
    }
}

/// An inquiry went on this way, over the tables as far as its query knows them.
pub open spec fn went_on<R: ActiveReconstructor>(
    policy: R,
    store: StoreModel,
    inquiry: InquiryModel,
    scores: Seq<Option<u32>>,
    r: MemoryResult<InquiryStep>,
) -> bool {
    let known = store.known_to(inquiry.query);
    match inquiry.phase {
        PhaseModel::Reconstructing { plan, evidence, reason } => {
            &&& !(r matches Ok(InquiryStep::Score(_)))
            &&& some_reconstruction(
                policy,
                known,
                inquiry.query,
                inquiry.route,
                plan,
                scores,
                evidence,
                reason,
                step_answer(r),
            )
        },
        _ => r matches Ok(step) && step@ == next_step(
            known,
            inquiry,
            selected_evidence(known, inquiry.plan, scores, inquiry.query.max_tokens),
        ),
    }
}

/// Begins an inquiry at a given time, over the tables as far as the query knows them. A query
/// that is not valid is refused before anything is read.
pub fn start_inquiry(store: &MemoryStore, query: &MemoryQuery, now: i64) -> (r: MemoryResult<
    Inquiry,
>)
    ensures
        failure(r) == rejection(query@.problem()),
        r matches Ok(inquiry) ==> inquiry@ == ({
            let route = route_of(query@.question, query@.modes, query@.modes_explicit);
            InquiryModel {
                query: query@,
                route,
                plan: store@.known_to(query@).plan(
                    query@,
                    route.routed_modes,
                    read_time(query@, now),
                ),
                phase: PhaseModel::Routed,
            }
        }),
{
    query.validate()?;
    let stage = match store.narrowed_for(query) {
        Some(known) => begin_query(&known, query, now)?,
        None => begin_query(store, query, now)?,
    };
    Ok(Inquiry { stage, phase: InquiryPhase::Routed })
}

impl Inquiry {
    /// The plan whose scores are needed.
    pub fn plan(&self) -> (r: &ReadPlan)
        ensures
            r@ == match self@.phase {
                PhaseModel::Reconstructing { plan, .. } => plan,
                _ => self@.plan,
            },
    {
        match &self.phase {
            InquiryPhase::Reconstructing { plan, .. } => plan,
            _ => &self.stage.plan,
        }
    }

    fn with_evidence(self, store: &MemoryStore, evidence: Vec<Evidence>) -> (r: InquiryStep)
        requires
            !(self@.phase is Reconstructing),
        ensures
            r@ == next_step(store@, self@, views(evidence@)),
    {
        let may_widen = match &self.phase {
            InquiryPhase::Routed => true,
            _ => false,
        };
        if evidence.len() == 0 && may_widen {
            if let Some(stage) = widen_query(store, &self.stage) {
                return InquiryStep::Score(Inquiry { stage, phase: InquiryPhase::Widened });
            }
        }
        match reconstruction_reason(
            &self.stage.query,
            &evidence,
            is_weak(&evidence),
            is_close(&evidence),
        ) {
            None => InquiryStep::Answered(answer_query(&self.stage, evidence)),
            Some(reason) => {
                let plan = plan_reconstruction(store, &self.stage);
                InquiryStep::Score(
                    Inquiry {
                        stage: self.stage,
                        phase: InquiryPhase::Reconstructing { plan, evidence, reason },
                    },
                )
            },
        }
    }

    /// Goes on with the scores of the plan, in billionths: none for a node that is not activated.
    pub fn advance<R: ActiveReconstructor>(
        self,
        store: &MemoryStore,
        scores: &Vec<Option<u32>>,
        policy: &R,
    ) -> (r: MemoryResult<InquiryStep>)
        ensures
            went_on(*policy, store@, self@, scores@, r),
    {
        match store.narrowed_for(&self.stage.query) {
            Some(known) => self.advance_over(&known, Ghost(store@), scores, policy),
            None => self.advance_over(store, Ghost(store@), scores, policy),
        }
    }

    /// Goes on over the tables as far as the query knows them.
    fn advance_over<R: ActiveReconstructor>(
        self,
        store: &MemoryStore,
        Ghost(whole): Ghost<StoreModel>,
        scores: &Vec<Option<u32>>,
        policy: &R,
    ) -> (r: MemoryResult<InquiryStep>)
        requires
            store@ == whole.known_to(self@.query),
        ensures
            went_on(*policy, whole, self@, scores@, r),
    {
        if let InquiryPhase::Reconstructing { plan, evidence, reason } = &self.phase {
            let answer = reconstruct_answer(
                store,
                &self.stage,
                plan,
                scores,
                evidence,
                *reason,
                policy,
            );
            return match answer {
                Ok(answer) => Ok(InquiryStep::Answered(answer)),
                Err(error) => Err(error),
            };
        }
        let evidence = select_evidence(
            store,
            &self.stage.plan,
            scores,
            self.stage.query.max_tokens,
        );
        Ok(self.with_evidence(store, evidence))
    }
}

// ---------------------------------------------------------------------------
// Laws
// ---------------------------------------------------------------------------
/// How many plans an inquiry may still have scored.
pub open spec fn plans_left(phase: PhaseModel) -> nat {
    match phase {
        PhaseModel::Routed => 3,
        PhaseModel::Widened => 2,
        PhaseModel::Reconstructing { .. } => 1,
    }
}

/// An inquiry ends: with every plan that is scored it comes closer to its answer, which it has
/// after three at most.
pub proof fn inquiries_end<R: ActiveReconstructor>(
    policy: R,
    store: StoreModel,
    inquiry: InquiryModel,
    scores: Seq<Option<u32>>,
    r: MemoryResult<InquiryStep>,
)
    requires
        went_on(policy, store, inquiry, scores, r),
    ensures
        1 <= plans_left(inquiry.phase) <= 3,
        r matches Ok(InquiryStep::Score(next)) ==> plans_left(next@.phase) < plans_left(
            inquiry.phase,
        ) && next@.query == inquiry.query,
{
    if let Ok(step) = r {
        if let InquiryStep::Score(next) = step {
            assert(step@ == InquiryStepModel::Score(next@));
        }
    }
}

/// A query that turns reconstruction off is answered by activation, and one that forces it is
/// not.
pub proof fn reconstruction_follows_its_mode(
    store: StoreModel,
    inquiry: InquiryModel,
    evidence: Seq<EvidenceModel>,
)
    requires
        !(inquiry.phase is Reconstructing),
    ensures
        inquiry.query.reconstruction.mode == crate::model::ReconstructionMode::Off ==> !(next_step(
            store,
            inquiry,
            evidence,
        ) matches InquiryStepModel::Score(next) && next.phase is Reconstructing),
        inquiry.query.reconstruction.mode == crate::model::ReconstructionMode::Force ==> next_step(
            store,
            inquiry,
            evidence,
        ) is Score,
{
}

} // verus!
