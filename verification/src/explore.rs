//! The walk of active reconstruction: from the evidence along the edges of the graph, one
//! decision of the policy at a time, within a bound of steps and of tokens.
use vstd::prelude::*;

use crate::chars::{list_contains, same_text, texts};
use crate::error::{ErrorModel, MemoryError, MemoryResult};
use crate::order::views;
use crate::reconstruct::{
    candidate_is, no_reconstruction_metrics, verdict_of, ActiveReconstructor, CandidateIs,
    CandidateModel, DecisionModel, ReconstructionCandidate, ReconstructionDecision,
    ReconstructionMetrics, ReconstructionStep, StepModel, Verdict,
};
use crate::table::{
    find_row, first_index, has_row, lemma_filter_contains, lemma_first_index, lemma_push_contains,
    select, some_row, Rule,
};

verus! {

/// Two nodes that an edge joins.
#[derive(Debug, PartialEq, Eq)]
pub struct NodeLink {
    pub from: String,
    pub to: String,
}

pub struct LinkModel {
    pub from: Seq<char>,
    pub to: Seq<char>,
}

impl View for NodeLink {
    type V = LinkModel;

    open spec fn view(&self) -> LinkModel {
        LinkModel { from: self.from@, to: self.to@ }
    }
}

/// What a walk explores: the nodes that may be found, how they are joined, where it starts and
/// how far it may go.
pub struct Exploration {
    pub question: String,
    pub pool: Vec<ReconstructionCandidate>,
    pub links: Vec<NodeLink>,
    pub start: Vec<String>,
    pub max_steps: u8,
    pub max_tokens: u32,
}

pub struct ExplorationModel {
    pub question: Seq<char>,
    pub pool: Seq<CandidateModel>,
    pub links: Seq<LinkModel>,
    pub start: Seq<Seq<char>>,
    pub max_steps: u8,
    pub max_tokens: u32,
}

impl View for Exploration {
    type V = ExplorationModel;

    open spec fn view(&self) -> ExplorationModel {
        ExplorationModel {
            question: self.question@,
            pool: views(self.pool@),
            links: views(self.links@),
            start: texts(self.start@),
            max_steps: self.max_steps,
            max_tokens: self.max_tokens,
        }
    }
}

/// Edges between two nodes, in either direction.
pub open spec fn joins(a: Seq<char>, b: Seq<char>) -> spec_fn(LinkModel) -> bool {
    |link: LinkModel| (link.from == a && link.to == b) || (link.from == b && link.to == a)
}

pub struct Joins<'a> {
    pub a: &'a str,
    pub b: &'a str,
}

impl<'a> Rule<NodeLink> for Joins<'a> {
    open spec fn test(&self) -> spec_fn(LinkModel) -> bool {
        joins(self.a@, self.b@)
    }

    fn admits(&self, row: &NodeLink) -> (r: bool) {
        (same_text(row.from.as_str(), self.a) && same_text(row.to.as_str(), self.b)) || (same_text(
            row.from.as_str(),
            self.b,
        ) && same_text(row.to.as_str(), self.a))
    }
}

/// Candidates next to a node that have been neither accepted nor pruned.
pub open spec fn open_next_to(
    links: Seq<LinkModel>,
    accepted: Seq<Seq<char>>,
    pruned: Seq<Seq<char>>,
    id: Seq<char>,
) -> spec_fn(CandidateModel) -> bool {
    |candidate: CandidateModel|
        some_row(links, joins(id, candidate.node_id)) && !accepted.contains(candidate.node_id)
            && !pruned.contains(candidate.node_id)
}

pub struct OpenNextTo<'a> {
    pub links: &'a Vec<NodeLink>,
    pub accepted: &'a Vec<String>,
    pub pruned: &'a Vec<String>,
    pub id: &'a str,
}

impl<'a> Rule<ReconstructionCandidate> for OpenNextTo<'a> {
    open spec fn test(&self) -> spec_fn(CandidateModel) -> bool {
        open_next_to(views(self.links@), texts(self.accepted@), texts(self.pruned@), self.id@)
    }

    fn admits(&self, row: &ReconstructionCandidate) -> (r: bool) {
        has_row(self.links, &Joins { a: self.id, b: row.node_id.as_str() }) && !list_contains(
            self.accepted,
            row.node_id.as_str(),
        ) && !list_contains(self.pruned, row.node_id.as_str())
    }
}

/// How far a walk has come.
pub struct WalkModel {
    pub frontier: Seq<Seq<char>>,
    pub at: int,
    pub accepted: Seq<Seq<char>>,
    pub pruned: Seq<Seq<char>>,
    pub expanded: Seq<Seq<char>>,
    pub spent: u32,
    pub steps: nat,
    pub metrics: ReconstructionMetrics,
    pub stopped: bool,
    pub error: Option<ErrorModel>,
    pub asked: Seq<(StepModel, Verdict)>,
}

impl WalkModel {
    /// The candidates next to a node.
    pub open spec fn candidates(self, input: ExplorationModel, id: Seq<char>) -> Seq<
        CandidateModel,
    > {
        input.pool.filter(open_next_to(input.links, self.accepted, self.pruned, id))
    }

    /// The first place of the frontier, from one on, that has candidates next to it.
    pub open spec fn open_place(self, input: ExplorationModel, from: int) -> Option<int>
        decreases self.frontier.len() - from,
    {
        if from < 0 || from >= self.frontier.len() {
            None
        } else if self.candidates(input, self.frontier[from]).len() > 0 {
            Some(from)
        } else {
            self.open_place(input, from + 1)
        }
    }

    /// Nothing is left to decide.
    pub open spec fn ended(self, input: ExplorationModel) -> bool {
        self.stopped || self.error is Some || self.steps >= input.max_steps || self.open_place(
            input,
            self.at,
        ) is None
    }

    /// The step that the policy decides next.
    pub open spec fn next_step(self, input: ExplorationModel, place: int) -> StepModel {
        StepModel {
            question: input.question,
            step_index: self.steps as u8,
            expanded_node_id: self.frontier[place],
            remaining_tokens: (input.max_tokens - self.spent) as u32,
            candidates: self.candidates(input, self.frontier[place]),
        }
    }

    /// The walk after a decision. An accepted candidate must fit into what is left of the
    /// budget, and joins the frontier. A decision that names no candidate changes nothing but
    /// uses up its step.
    pub open spec fn decided(
        self,
        input: ExplorationModel,
        step: StepModel,
        decision: DecisionModel,
    ) -> WalkModel {
        match decision {
            DecisionModel::Stop => WalkModel { stopped: true, ..self },
            DecisionModel::Prune(id) => if some_row(step.candidates, candidate_is(id)) {
                WalkModel { pruned: self.pruned.push(id), ..self }
            } else {
                self
            },
            DecisionModel::Accept(id) => match first_index(step.candidates, candidate_is(id)) {
                Some(i) => if step.candidates[i].token_estimate <= step.remaining_tokens {
                    WalkModel {
                        accepted: self.accepted.push(id),
                        frontier: self.frontier.push(id),
                        spent: (self.spent + step.candidates[i].token_estimate) as u32,
                        ..self
                    }
                } else {
                    self
                },
                None => self,
            },
        }
    }

    /// The walk after the policy replied to its next step.
    pub open spec fn after(self, input: ExplorationModel, verdict: Verdict) -> WalkModel {
        let place = self.open_place(input, self.at)->0;
        let step = self.next_step(input, place);
        let moved = WalkModel {
            at: place,
            steps: self.steps + 1,
            expanded: if self.expanded.contains(self.frontier[place]) {
                self.expanded
            } else {
                self.expanded.push(self.frontier[place])
            },
            asked: self.asked.push((step, verdict)),
            ..self
        };
        match verdict {
            Verdict::Failed(error) => WalkModel { error: Some(error), ..moved },
            Verdict::Decided(decision, metrics) => WalkModel {
                metrics: self.metrics.plus(metrics),
                ..moved
            }.decided(input, step, decision),
        }
    }
}

/// A walk that has not begun.
pub open spec fn walk_start(input: ExplorationModel) -> WalkModel {
    WalkModel {
        frontier: input.start,
        at: 0,
        accepted: Seq::empty(),
        pruned: Seq::empty(),
        expanded: Seq::empty(),
        spent: 0,
        steps: 0,
        metrics: no_reconstruction_metrics(),
        stopped: false,
        error: None,
        asked: Seq::empty(),
    }
}

/// The walk after some replies of the policy; it takes no reply once it has ended.
pub open spec fn walk(input: ExplorationModel, verdicts: Seq<Verdict>) -> WalkModel
    decreases verdicts.len(),
{
    if verdicts.len() == 0 {
        walk_start(input)
    } else {
        let before = walk(input, verdicts.drop_last());
        if before.ended(input) {
            before
        } else {
            before.after(input, verdicts.last())
        }
    }
}

/// Every reply is one that the policy may give.
pub open spec fn allowed_verdicts<R: ActiveReconstructor>(
    policy: R,
    asked: Seq<(StepModel, Verdict)>,
) -> bool {
    forall|k: int|
        0 <= k < asked.len() ==> policy.may_decide((#[trigger] asked[k]).0, asked[k].1)
}

/// What a walk found.
#[derive(Debug, PartialEq, Eq)]
pub struct Walk {
    pub accepted: Vec<String>,
    pub pruned: Vec<String>,
    pub expanded: Vec<String>,
    pub spent: u32,
    pub steps: u8,
    pub metrics: ReconstructionMetrics,
}

/// The walk is what some replies of the policy come to.
pub open spec fn walk_happened<R: ActiveReconstructor>(
    policy: R,
    input: ExplorationModel,
    r: MemoryResult<Walk>,
    verdicts: Seq<Verdict>,
) -> bool {
    let done = walk(input, verdicts);
    &&& done.ended(input)
    &&& allowed_verdicts(policy, done.asked)
    &&& match (r, done.error) {
        (Ok(found), None) => {
            &&& texts(found.accepted@) == done.accepted
            &&& texts(found.pruned@) == done.pruned
            &&& texts(found.expanded@) == done.expanded
            &&& found.spent == done.spent
            &&& found.steps == done.steps
            &&& found.metrics == done.metrics
        },
        (Err(error), Some(words)) => error@ == words,
        _ => false,
    }
}

pub open spec fn some_walk<R: ActiveReconstructor>(
    policy: R,
    input: ExplorationModel,
    r: MemoryResult<Walk>,
) -> bool {
    exists|verdicts: Seq<Verdict>| #[trigger] walk_happened(policy, input, r, verdicts)
}

/// The budget and step bounds of a walk hold, and what was accepted or pruned was a candidate.
pub open spec fn within_bounds(input: ExplorationModel, w: WalkModel) -> bool {
    &&& w.spent <= input.max_tokens
    &&& w.steps <= input.max_steps
    &&& w.at >= 0
    &&& forall|id: Seq<char>| #[trigger]
        w.accepted.contains(id) ==> some_row(input.pool, candidate_is(id)) && !w.pruned.contains(id)
    &&& forall|id: Seq<char>| #[trigger]
        w.pruned.contains(id) ==> some_row(input.pool, candidate_is(id))
    &&& w.accepted.no_duplicates()
    &&& w.pruned.no_duplicates()
}

pub proof fn lemma_candidate_facts(
    input: ExplorationModel,
    w: WalkModel,
    id: Seq<char>,
    found: Seq<char>,
)
    requires
        some_row(w.candidates(input, id), candidate_is(found)),
    ensures
        some_row(input.pool, candidate_is(found)),
        !w.accepted.contains(found),
        !w.pruned.contains(found),
{
    let list = w.candidates(input, id);
    let test = open_next_to(input.links, w.accepted, w.pruned, id);
    let i = choose|i: int| 0 <= i < list.len() && (candidate_is(found))(#[trigger] list[i]);
    lemma_filter_contains(input.pool, test, list[i]);
    assert(list.contains(list[i]));
    let k = choose|k: int| 0 <= k < input.pool.len() && input.pool[k] == list[i];
    assert((candidate_is(found))(input.pool[k]));
    assert(test(list[i]));
}

proof fn lemma_push_distinct(s: Seq<Seq<char>>, x: Seq<char>)
    requires
        s.no_duplicates(),
        !s.contains(x),
    ensures
        s.push(x).no_duplicates(),
{
    let out = s.push(x);
    assert forall|i: int, j: int| 0 <= i < out.len() && 0 <= j < out.len() && i != j implies out[i]
        != out[j] by {
        if i < s.len() && j < s.len() {
            assert(out[i] == s[i] && out[j] == s[j]);
        } else if i < s.len() {
            assert(s.contains(s[i]));
        } else if j < s.len() {
            assert(s.contains(s[j]));
        }
    }
}

proof fn lemma_after_within_bounds(input: ExplorationModel, w: WalkModel, verdict: Verdict)
    requires
        within_bounds(input, w),
        !w.ended(input),
    ensures
        within_bounds(input, w.after(input, verdict)),
{
    let place = w.open_place(input, w.at)->0;
    lemma_open_place(input, w, w.at);
    let step = w.next_step(input, place);
    let out = w.after(input, verdict);
    if let Verdict::Decided(decision, _) = verdict {
        match decision {
            DecisionModel::Stop => {},
            DecisionModel::Prune(id) => {
                if some_row(step.candidates, candidate_is(id)) {
                    lemma_candidate_facts(input, w, w.frontier[place], id);
                    lemma_push_distinct(w.pruned, id);
                    assert forall|x: Seq<char>| #[trigger] out.pruned.contains(x) implies some_row(
                        input.pool,
                        candidate_is(x),
                    ) by {
                        lemma_push_contains(w.pruned, id, x);
                    }
                    assert forall|x: Seq<char>| #[trigger] out.accepted.contains(x) implies some_row(
                        input.pool,
                        candidate_is(x),
                    ) && !out.pruned.contains(x) by {
                        lemma_push_contains(w.pruned, id, x);
                        assert(w.accepted.contains(x));
                    }
                }
            },
            DecisionModel::Accept(id) => {
                lemma_first_index(step.candidates, candidate_is(id));
                if let Some(i) = first_index(step.candidates, candidate_is(id)) {
                    if step.candidates[i].token_estimate <= step.remaining_tokens {
                        assert((candidate_is(id))(step.candidates[i]));
                        lemma_candidate_facts(input, w, w.frontier[place], id);
                        lemma_push_distinct(w.accepted, id);
                        assert forall|x: Seq<char>| #[trigger]
                            out.accepted.contains(x) implies some_row(input.pool, candidate_is(x))
                            && !out.pruned.contains(x) by {
                            lemma_push_contains(w.accepted, id, x);
                        }
                    }
                }
            },
        }
    }
}

pub proof fn lemma_open_place(input: ExplorationModel, w: WalkModel, from: int)
    requires
        from >= 0,
    ensures
        match w.open_place(input, from) {
            Some(place) => from <= place < w.frontier.len() && w.candidates(
                input,
                w.frontier[place],
            ).len() > 0,
            None => true,
        },
    decreases w.frontier.len() - from,
{
    if from < w.frontier.len() && w.candidates(input, w.frontier[from]).len() == 0 {
        lemma_open_place(input, w, from + 1);
    }
}

/// A walk never takes more steps or tokens than it may; what it accepts or prunes was found in
/// the pool, once, and is never both.
pub proof fn walks_stay_within_bounds(input: ExplorationModel, verdicts: Seq<Verdict>)
    ensures
        within_bounds(input, walk(input, verdicts)),
    decreases verdicts.len(),
{
    if verdicts.len() == 0 {
        assert(walk_start(input).accepted.no_duplicates());
    } else {
        walks_stay_within_bounds(input, verdicts.drop_last());
        let before = walk(input, verdicts.drop_last());
        if !before.ended(input) {
            lemma_after_within_bounds(input, before, verdicts.last());
        }
    }
}

/// The first place of the frontier, from one on, that has candidates next to it.
fn first_open_place(input: &Exploration, frontier: &Vec<String>, found: &Walk, from: usize) -> (r:
    Option<usize>)
    requires
        from <= frontier@.len(),
    ensures
        forall|w: WalkModel|
            w.frontier == texts(frontier@) && w.accepted == texts(found.accepted@) && w.pruned
                == texts(found.pruned@) ==> (match r {
                Some(place) => #[trigger] w.open_place(input@, from as int) == Some(place as int)
                    && place < frontier@.len(),
                None => w.open_place(input@, from as int) is None,
            }),
{
    let mut place: usize = from;
    let ghost names = texts(frontier@);
    while place < frontier.len()
        invariant
            from <= place <= frontier@.len(),
            names == texts(frontier@),
            forall|w: WalkModel|
                w.frontier == names && w.accepted == texts(found.accepted@) && w.pruned == texts(
                    found.pruned@,
                ) ==> #[trigger] w.open_place(input@, from as int) == w.open_place(
                    input@,
                    place as int,
                ),
        decreases frontier.len() - place,
    {
        let list = select(
            &input.pool,
            &OpenNextTo {
                links: &input.links,
                accepted: &found.accepted,
                pruned: &found.pruned,
                id: frontier[place].as_str(),
            },
        );
        if list.len() > 0 {
            return Some(place);
        }
        place += 1;
    }
    None
}

/// Explores the graph under a policy.
pub fn explore<R: ActiveReconstructor>(input: &Exploration, policy: &R) -> (r: MemoryResult<Walk>)
    ensures
        some_walk(*policy, input@, r),
{
    let mut frontier = crate::chars::copy_texts(&input.start);
    let mut found = Walk {
        accepted: Vec::new(),
        pruned: Vec::new(),
        expanded: Vec::new(),
        spent: 0,
        steps: 0,
        metrics: ReconstructionMetrics::default(),
    };
    let mut at: usize = 0;
    let mut stopped = false;
    let ghost mut verdicts: Seq<Verdict> = Seq::empty();
    let ghost model = input@;
    proof {
        assert(texts(found.accepted@) =~= Seq::empty());
        assert(texts(found.pruned@) =~= Seq::empty());
        assert(texts(found.expanded@) =~= Seq::empty());
    }
    while !stopped && found.steps < input.max_steps
        invariant
            model == input@,
            found.steps <= input.max_steps,
            verdicts.len() == found.steps,
            at <= frontier@.len(),
            found.spent <= input.max_tokens,
            allowed_verdicts(*policy, walk(model, verdicts).asked),
            ({
                let w = walk(model, verdicts);
                &&& w.frontier == texts(frontier@)
                &&& w.at == at
                &&& w.accepted == texts(found.accepted@)
                &&& w.pruned == texts(found.pruned@)
                &&& w.expanded == texts(found.expanded@)
                &&& w.spent == found.spent
                &&& w.steps == found.steps
                &&& w.metrics == found.metrics
                &&& w.stopped == stopped
                &&& w.error is None
            }),
        decreases input.max_steps - found.steps,
    {
        let ghost w = walk(model, verdicts);
        let place = match first_open_place(input, &frontier, &found, at) {
            Some(place) => place,
            None => {
                proof {
                    assert(w.open_place(model, at as int) is None);
                    assert(walk_happened(*policy, model, Ok::<Walk, MemoryError>(found), verdicts));
                }
                return Ok(found);
            },
        };
        proof {
            assert(w.open_place(model, at as int) == Some(place as int));
        }
        let step = ReconstructionStep {
            question: input.question.clone(),
            step_index: found.steps,
            expanded_node_id: frontier[place].clone(),
            remaining_tokens: input.max_tokens - found.spent,
            candidates: select(
                &input.pool,
                &OpenNextTo {
                    links: &input.links,
                    accepted: &found.accepted,
                    pruned: &found.pruned,
                    id: frontier[place].as_str(),
                },
            ),
        };
        proof {
            assert(step@ == w.next_step(model, place as int));
        }
        at = place;
        found.steps += 1;
        if !list_contains(&found.expanded, frontier[place].as_str()) {
            let ghost before = texts(found.expanded@);
            found.expanded.push(frontier[place].clone());
            proof {
                assert(texts(found.expanded@) =~= before.push(texts(frontier@)[place as int]));
            }
        }
        let reply = policy.decide(&step);
        let ghost verdict = verdict_of(reply);
        proof {
            let longer = verdicts.push(verdict);
            assert(longer.drop_last() =~= verdicts);
            let asked = w.asked.push((step@, verdict));
            assert forall|k: int| 0 <= k < asked.len() implies policy.may_decide(
                (#[trigger] asked[k]).0,
                asked[k].1,
            ) by {
                if k < w.asked.len() {
                    assert(asked[k] == w.asked[k]);
                }
            }
            verdicts = longer;
        }
        let outcome = match reply {
            Ok(outcome) => outcome,
            Err(error) => {
                proof {
                    assert(walk_happened(
                        *policy,
                        model,
                        Err::<Walk, MemoryError>(error),
                        verdicts,
                    ));
                }
                return Err(error);
            },
        };
        found.metrics.absorb(outcome.metrics);
        match outcome.decision {
            ReconstructionDecision::Stop => {
                stopped = true;
            },
            ReconstructionDecision::Prune { node_id } => {
                if has_row(&step.candidates, &CandidateIs { node_id: node_id.as_str() }) {
                    let ghost before = texts(found.pruned@);
                    let ghost name = node_id@;
                    found.pruned.push(node_id);
                    proof {
                        assert(texts(found.pruned@) =~= before.push(name));
                    }
                }
            },
            ReconstructionDecision::Accept { node_id } => {
                if let Some(i) = find_row(
                    &step.candidates,
                    &CandidateIs { node_id: node_id.as_str() },
                ) {
                    let cost: u32 = step.candidates[i].token_estimate;
                    if cost <= step.remaining_tokens {
                        let ghost before = texts(found.accepted@);
                        let ghost places = texts(frontier@);
                        let ghost name = node_id@;
                        found.spent += cost;
                        frontier.push(node_id.clone());
                        found.accepted.push(node_id);
                        proof {
                            assert(texts(found.accepted@) =~= before.push(name));
                            assert(texts(frontier@) =~= places.push(name));
                        }
                    }
                }
            },
        }
    }
    proof {
        assert(walk(model, verdicts).ended(model));
        assert(walk_happened(*policy, model, Ok::<Walk, MemoryError>(found), verdicts));
    }
    Ok(found)
}

} // verus!
