//! Routing of a query to the memory substores that its wording asks for.
use vstd::prelude::*;

use crate::chars::{any_occurs, contains_text, lower, lower_text, occurs};
use crate::model::{
    all_modes, copy_modes, modes_take, MemoryMode, MemoryNodeKind, RoutingModel, RoutingReason,
    RoutingReport,
};
use crate::table::lemma_push_contains;
use crate::text::str_texts;

verus! {

// ---------------------------------------------------------------------------
// Lists of modes
// ---------------------------------------------------------------------------
/// The list with `mode` at its end, unless it is in it.
pub open spec fn with_mode(modes: Seq<MemoryMode>, mode: MemoryMode) -> Seq<MemoryMode> {
    if modes.contains(mode) {
        modes
    } else {
        modes.push(mode)
    }
}

/// The modes of a list, each where it came first.
pub open spec fn distinct_modes(modes: Seq<MemoryMode>) -> Seq<MemoryMode>
    decreases modes.len(),
{
    if modes.len() == 0 {
        Seq::empty()
    } else {
        with_mode(distinct_modes(modes.drop_last()), modes.last())
    }
}

/// The modes that a list allows: each once, and all modes where it names none.
pub open spec fn normal_modes(modes: Seq<MemoryMode>) -> Seq<MemoryMode> {
    if modes.len() == 0 {
        all_modes()
    } else {
        distinct_modes(modes)
    }
}

/// Two lists of one length, the modes of the first all in the second.
pub open spec fn same_modes(left: Seq<MemoryMode>, right: Seq<MemoryMode>) -> bool {
    left.len() == right.len() && forall|i: int|
        0 <= i < left.len() ==> right.contains(#[trigger] left[i])
}

fn has_mode(modes: &[MemoryMode], mode: MemoryMode) -> (r: bool)
    ensures
        r == modes@.contains(mode),
{
    let mut i: usize = 0;
    while i < modes.len()
        invariant
            i <= modes@.len(),
            forall|k: int| 0 <= k < i ==> modes@[k] != mode,
        decreases modes.len() - i,
    {
        if modes[i] == mode {
            return true;
        }
        i += 1;
    }
    false
}

/// Puts a mode at the end of a list that does not hold it.
pub fn push_mode(modes: &mut Vec<MemoryMode>, mode: MemoryMode)
    ensures
        final(modes)@ == with_mode(old(modes)@, mode),
{
    if !has_mode(modes.as_slice(), mode) {
        modes.push(mode);
    }
}

pub proof fn lemma_distinct_modes(modes: Seq<MemoryMode>)
    ensures
        distinct_modes(modes).no_duplicates(),
        distinct_modes(modes).len() <= modes.len(),
        modes.len() > 0 ==> distinct_modes(modes).len() > 0,
        forall|m: MemoryMode| #[trigger] distinct_modes(modes).contains(m) == modes.contains(m),
    decreases modes.len(),
{
    if modes.len() > 0 {
        let front = modes.drop_last();
        lemma_distinct_modes(front);
        let last = modes.last();
        let done = distinct_modes(front);
        let out = distinct_modes(modes);
        assert forall|m: MemoryMode| #[trigger] out.contains(m) == modes.contains(m) by {
            assert(done.contains(m) == front.contains(m));
            lemma_push_contains(front, last, m);
            assert(modes =~= front.push(last));
            lemma_push_contains(done, last, m);
        }
        assert(out.contains(last)) by {
            lemma_push_contains(done, last, last);
        }
    }
}

/// The modes that a list allows: each once, and all modes where it names none.
pub fn normalized_modes(modes: &[MemoryMode]) -> (r: Vec<MemoryMode>)
    ensures
        r@ == normal_modes(modes@),
{
    let mut out: Vec<MemoryMode> = Vec::new();
    let mut i: usize = 0;
    proof {
        assert(modes@.take(0) =~= Seq::empty());
        assert(out@ =~= Seq::empty());
    }
    while i < modes.len()
        invariant
            i <= modes@.len(),
            out@ == distinct_modes(modes@.take(i as int)),
        decreases modes.len() - i,
    {
        proof {
            assert(modes@.take(i as int + 1).drop_last() =~= modes@.take(i as int));
            assert(modes@.take(i as int + 1).last() == modes@[i as int]);
        }
        push_mode(&mut out, modes[i]);
        i += 1;
    }
    proof {
        assert(modes@.take(i as int) =~= modes@);
        lemma_distinct_modes(modes@);
    }
    if out.len() == 0 {
        MemoryNodeKind::default_modes()
    } else {
        out
    }
}

/// Whether two lists have one length and the modes of the first are all in the second.
pub fn same_mode_set(left: &[MemoryMode], right: &[MemoryMode]) -> (r: bool)
    ensures
        r == same_modes(left@, right@),
{
    if left.len() != right.len() {
        return false;
    }
    let mut i: usize = 0;
    while i < left.len()
        invariant
            i <= left@.len(),
            left@.len() == right@.len(),
            forall|k: int| 0 <= k < i ==> right@.contains(#[trigger] left@[k]),
        decreases left.len() - i,
    {
        if !has_mode(right, left[i]) {
            proof {
                assert(!right@.contains(left@[i as int]));
            }
            return false;
        }
        i += 1;
    }
    true
}

/// The modes of `preferred` that are allowed, each once.
pub open spec fn allowed_part(
    preferred: Seq<MemoryMode>,
    allowed: Seq<MemoryMode>,
) -> Seq<MemoryMode>
    decreases preferred.len(),
{
    if preferred.len() == 0 {
        Seq::empty()
    } else {
        let front = allowed_part(preferred.drop_last(), allowed);
        if allowed.contains(preferred.last()) {
            with_mode(front, preferred.last())
        } else {
            front
        }
    }
}

/// The allowed part of a preference, or everything allowed where that is nothing; and whether
/// a preference was lost that way.
pub open spec fn constrained(preferred: Seq<MemoryMode>, allowed: Seq<MemoryMode>) -> (
    Seq<MemoryMode>,
    bool,
) {
    if preferred.len() == 0 {
        (allowed, false)
    } else if allowed_part(preferred, allowed).len() == 0 {
        (allowed, true)
    } else {
        (allowed_part(preferred, allowed), false)
    }
}

fn copy_of_modes(modes: &[MemoryMode]) -> (r: Vec<MemoryMode>)
    ensures
        r@ == modes@,
{
    let mut out: Vec<MemoryMode> = Vec::new();
    let mut i: usize = 0;
    while i < modes.len()
        invariant
            i <= modes@.len(),
            out@ == modes@.take(i as int),
        decreases modes.len() - i,
    {
        out.push(modes[i]);
        i += 1;
        proof {
            assert(out@ =~= modes@.take(i as int));
        }
    }
    proof {
        assert(modes@.take(i as int) =~= modes@);
    }
    out
}

/// The allowed part of a preference, or everything allowed where that is nothing; and whether
/// a preference was lost that way.
pub fn constrain_modes(preferred: Vec<MemoryMode>, allowed_modes: &[MemoryMode]) -> (r: (
    Vec<MemoryMode>,
    bool,
))
    ensures
        (r.0@, r.1) == constrained(preferred@, allowed_modes@),
{
    if preferred.len() == 0 {
        return (copy_of_modes(allowed_modes), false);
    }
    let mut routed: Vec<MemoryMode> = Vec::new();
    let mut i: usize = 0;
    proof {
        assert(preferred@.take(0) =~= Seq::empty());
        assert(routed@ =~= Seq::empty());
    }
    while i < preferred.len()
        invariant
            i <= preferred@.len(),
            routed@ == allowed_part(preferred@.take(i as int), allowed_modes@),
        decreases preferred.len() - i,
    {
        proof {
            assert(preferred@.take(i as int + 1).drop_last() =~= preferred@.take(i as int));
            assert(preferred@.take(i as int + 1).last() == preferred@[i as int]);
        }
        if has_mode(allowed_modes, preferred[i]) {
            push_mode(&mut routed, preferred[i]);
        }
        i += 1;
    }
    proof {
        assert(preferred@.take(i as int) =~= preferred@);
    }
    if routed.len() == 0 {
        (copy_of_modes(allowed_modes), true)
    } else {
        (routed, false)
    }
}

pub proof fn lemma_allowed_part(preferred: Seq<MemoryMode>, allowed: Seq<MemoryMode>)
    ensures
        allowed_part(preferred, allowed).no_duplicates(),
        forall|m: MemoryMode|
            #[trigger] allowed_part(preferred, allowed).contains(m) == (preferred.contains(m)
                && allowed.contains(m)),
    decreases preferred.len(),
{
    if preferred.len() > 0 {
        let front = preferred.drop_last();
        let last = preferred.last();
        lemma_allowed_part(front, allowed);
        let done = allowed_part(front, allowed);
        let out = allowed_part(preferred, allowed);
        assert forall|m: MemoryMode|
            #[trigger] out.contains(m) == (preferred.contains(m) && allowed.contains(m)) by {
            assert(done.contains(m) == (front.contains(m) && allowed.contains(m)));
            assert(preferred =~= front.push(last));
            lemma_push_contains(front, last, m);
            lemma_push_contains(done, last, m);
        }
    }
}

// ---------------------------------------------------------------------------
// Markers in the wording
// ---------------------------------------------------------------------------
/// Whether one of the markers stands in the text.
pub fn contains_any(value: &str, markers: &[&str]) -> (r: bool)
    ensures
        r == any_occurs(str_texts(markers@), value@),
{
    let mut i: usize = 0;
    while i < markers.len()
        invariant
            i <= markers@.len(),
            forall|k: int| 0 <= k < i ==> !occurs(#[trigger] str_texts(markers@)[k], value@),
        decreases markers.len() - i,
    {
        if contains_text(value, markers[i]) {
            proof {
                assert(occurs(str_texts(markers@)[i as int], value@));
            }
            return true;
        }
        i += 1;
    }
    false
}

/// The wording asks for how things stand.
pub open spec fn asks_state(lowered: Seq<char>) -> bool {
    any_occurs(
        seq!["current"@, "state"@, "config"@, "setting"@, "environment"@, "now"@],
        lowered,
    )
}

/// The wording asks for what goes wrong.
pub open spec fn asks_gotcha(lowered: Seq<char>) -> bool {
    any_occurs(
        seq![
            "fix"@,
            "failure"@,
            "fails"@,
            "error"@,
            "bug"@,
            "gotcha"@,
            "blocked"@,
            "broken"@,
        ],
        lowered,
    )
}

/// The wording asks for how something is done.
pub open spec fn asks_procedure(lowered: Seq<char>) -> bool {
    any_occurs(
        seq!["procedure"@, "runbook"@, "workflow"@, "steps"@, "step-by-step"@, "how to"@],
        lowered,
    )
}

/// The wording asks for what happened.
pub open spec fn asks_episode(lowered: Seq<char>) -> bool {
    any_occurs(
        seq!["when"@, "timeline"@, "history"@, "episode"@, "trace"@, "span"@, "happened"@],
        lowered,
    )
}

/// The wording asks for what is known.
pub open spec fn asks_fact(lowered: Seq<char>) -> bool {
    any_occurs(
        seq!["what"@, "which"@, "where"@, "who"@, "fact"@, "token"@, "remember about"@],
        lowered,
    )
}

/// What a wording asks for, in the fixed order in which the router looks.
pub open spec fn intents(lowered: Seq<char>) -> Seq<RoutingReason> {
    let none = Seq::<RoutingReason>::empty();
    let a = if asks_state(lowered) {
        none.push(RoutingReason::StateIntent)
    } else {
        none
    };
    let b = if asks_gotcha(lowered) {
        a.push(RoutingReason::GotchaIntent)
    } else {
        a
    };
    let c = if asks_procedure(lowered) {
        b.push(RoutingReason::ProceduralIntent)
    } else {
        b
    };
    let d = if asks_episode(lowered) {
        c.push(RoutingReason::EpisodicIntent)
    } else {
        c
    };
    if asks_fact(lowered) {
        d.push(RoutingReason::SemanticIntent)
    } else {
        d
    }
}

/// The modes that an intent is served from.
pub open spec fn served_by(intent: RoutingReason) -> Seq<MemoryMode> {
    match intent {
        RoutingReason::StateIntent => seq![MemoryMode::State],
        RoutingReason::GotchaIntent => seq![MemoryMode::Gotcha, MemoryMode::Procedural],
        RoutingReason::ProceduralIntent => seq![MemoryMode::Procedural],
        RoutingReason::EpisodicIntent => seq![MemoryMode::Episodic, MemoryMode::Semantic],
        RoutingReason::SemanticIntent => seq![MemoryMode::Semantic],
        _ => Seq::empty(),
    }
}

/// The modes of a list of modes added to another, each once.
pub open spec fn with_modes(modes: Seq<MemoryMode>, more: Seq<MemoryMode>) -> Seq<MemoryMode>
    decreases more.len(),
{
    if more.len() == 0 {
        modes
    } else {
        with_mode(with_modes(modes, more.drop_last()), more.last())
    }
}

/// The modes that serve some intents, in order, each once.
pub open spec fn preferred_modes(found: Seq<RoutingReason>) -> Seq<MemoryMode>
    decreases found.len(),
{
    if found.len() == 0 {
        Seq::empty()
    } else {
        with_modes(preferred_modes(found.drop_last()), served_by(found.last()))
    }
}

/// How sure the router is of a single intent, in hundredths.
pub open spec fn intent_confidence(intent: RoutingReason) -> u8 {
    match intent {
        RoutingReason::StateIntent => 85,
        RoutingReason::ProceduralIntent => 85,
        RoutingReason::GotchaIntent => 75,
        RoutingReason::EpisodicIntent => 75,
        RoutingReason::SemanticIntent => 65,
        RoutingReason::AmbiguousFallback => 20,
        RoutingReason::EmptyRouteFallback => 20,
    }
}

/// The reason and confidence reported for some intents.
pub open spec fn verdict(found: Seq<RoutingReason>, lost_preference: bool) -> (RoutingReason, u8) {
    if found.len() == 0 || lost_preference {
        (RoutingReason::AmbiguousFallback, 20)
    } else if found.len() > 1 {
        (RoutingReason::AmbiguousFallback, 55)
    } else {
        (found[0], intent_confidence(found[0]))
    }
}

/// The route of a query. Modes that the caller chose are the route; otherwise the wording
/// decides.
pub open spec fn route_of(
    question: Seq<char>,
    allowed: Seq<MemoryMode>,
    explicit: bool,
) -> RoutingModel {
    let modes = normal_modes(allowed);
    if explicit || !same_modes(modes, all_modes()) {
        RoutingModel {
            allowed_modes: modes,
            routed_modes: modes,
            reconstruction_modes: None,
            reason: RoutingReason::AmbiguousFallback,
            confidence: 20,
        }
    } else {
        let found = intents(lower(question));
        let (routed, lost) = constrained(preferred_modes(found), modes);
        let (reason, confidence) = verdict(found, lost);
        RoutingModel {
            allowed_modes: modes,
            routed_modes: routed,
            reconstruction_modes: None,
            reason,
            confidence,
        }
    }
}

fn finds_state(lowered: &str) -> (r: bool)
    ensures
        r == asks_state(lowered@),
{
    let markers = ["current", "state", "config", "setting", "environment", "now"];
    proof {
        assert(str_texts(markers@) =~= seq![
            "current"@,
            "state"@,
            "config"@,
            "setting"@,
            "environment"@,
            "now"@,
        ]);
    }
    contains_any(lowered, &markers)
}

fn finds_gotcha(lowered: &str) -> (r: bool)
    ensures
        r == asks_gotcha(lowered@),
{
    let markers = ["fix", "failure", "fails", "error", "bug", "gotcha", "blocked", "broken"];
    proof {
        assert(str_texts(markers@) =~= seq![
            "fix"@,
            "failure"@,
            "fails"@,
            "error"@,
            "bug"@,
            "gotcha"@,
            "blocked"@,
            "broken"@,
        ]);
    }
    contains_any(lowered, &markers)
}

fn finds_procedure(lowered: &str) -> (r: bool)
    ensures
        r == asks_procedure(lowered@),
{
    let markers = ["procedure", "runbook", "workflow", "steps", "step-by-step", "how to"];
    proof {
        assert(str_texts(markers@) =~= seq![
            "procedure"@,
            "runbook"@,
            "workflow"@,
            "steps"@,
            "step-by-step"@,
            "how to"@,
        ]);
    }
    contains_any(lowered, &markers)
}

fn finds_episode(lowered: &str) -> (r: bool)
    ensures
        r == asks_episode(lowered@),
{
    let markers = ["when", "timeline", "history", "episode", "trace", "span", "happened"];
    proof {
        assert(str_texts(markers@) =~= seq![
            "when"@,
            "timeline"@,
            "history"@,
            "episode"@,
            "trace"@,
            "span"@,
            "happened"@,
        ]);
    }
    contains_any(lowered, &markers)
}

fn finds_fact(lowered: &str) -> (r: bool)
    ensures
        r == asks_fact(lowered@),
{
    let markers = ["what", "which", "where", "who", "fact", "token", "remember about"];
    proof {
        assert(str_texts(markers@) =~= seq![
            "what"@,
            "which"@,
            "where"@,
            "who"@,
            "fact"@,
            "token"@,
            "remember about"@,
        ]);
    }
    contains_any(lowered, &markers)
}

/// Adds an intent and the modes that serve it.
fn add_intent(
    preferred: &mut Vec<MemoryMode>,
    found: &mut Vec<RoutingReason>,
    intent: RoutingReason,
    first: MemoryMode,
    second: Option<MemoryMode>,
)
    requires
        old(preferred)@ == preferred_modes(old(found)@),
        served_by(intent) == (match second {
            Some(mode) => seq![first, mode],
            None => seq![first],
        }),
    ensures
        final(found)@ == old(found)@.push(intent),
        final(preferred)@ == preferred_modes(final(found)@),
{
    let ghost start = preferred@;
    push_mode(preferred, first);
    if let Some(mode) = second {
        push_mode(preferred, mode);
    }
    found.push(intent);
    proof {
        assert(found@.drop_last() =~= old(found)@);
        reveal_with_fuel(with_modes, 3);
        match second {
            Some(mode) => {
                let pair = seq![first, mode];
                assert(pair.drop_last() =~= seq![first]);
                assert(seq![first].drop_last() =~= Seq::empty());
            },
            None => {
                assert(seq![first].drop_last() =~= Seq::empty());
            },
        }
    }
}

/// Chooses the memory substores that a query is answered from.
pub fn route_memory_query(
    question: &str,
    allowed_modes: &[MemoryMode],
    modes_explicit: bool,
) -> (r: RoutingReport)
    ensures
        r@ == route_of(question@, allowed_modes@, modes_explicit),
{
    let allowed = normalized_modes(allowed_modes);
    let default_modes = MemoryNodeKind::default_modes();
    if modes_explicit || !same_mode_set(allowed.as_slice(), default_modes.as_slice()) {
        return RoutingReport {
            allowed_modes: copy_modes(&allowed),
            routed_modes: allowed,
            reconstruction_modes: None,
            reason: RoutingReason::AmbiguousFallback,
            confidence: 20,
        };
    }
    let lowered_text = lower_text(question);
    let lowered = lowered_text.as_str();
    let mut preferred: Vec<MemoryMode> = Vec::new();
    let mut found: Vec<RoutingReason> = Vec::new();
    proof {
        assert(found@ =~= Seq::empty());
        assert(preferred@ =~= Seq::empty());
    }
    if finds_state(lowered) {
        add_intent(
            &mut preferred,
            &mut found,
            RoutingReason::StateIntent,
            MemoryMode::State,
            None,
        );
    }
    if finds_gotcha(lowered) {
        add_intent(
            &mut preferred,
            &mut found,
            RoutingReason::GotchaIntent,
            MemoryMode::Gotcha,
            Some(MemoryMode::Procedural),
        );
    }
    if finds_procedure(lowered) {
        add_intent(
            &mut preferred,
            &mut found,
            RoutingReason::ProceduralIntent,
            MemoryMode::Procedural,
            None,
        );
    }
    if finds_episode(lowered) {
        add_intent(
            &mut preferred,
            &mut found,
            RoutingReason::EpisodicIntent,
            MemoryMode::Episodic,
            Some(MemoryMode::Semantic),
        );
    }
    if finds_fact(lowered) {
        add_intent(
            &mut preferred,
            &mut found,
            RoutingReason::SemanticIntent,
            MemoryMode::Semantic,
            None,
        );
    }
    let (routed_modes, lost_preference) = constrain_modes(preferred, allowed.as_slice());
    let (reason, confidence) = if found.len() == 0 || lost_preference {
        (RoutingReason::AmbiguousFallback, 20u8)
    } else if found.len() > 1 {
        (RoutingReason::AmbiguousFallback, 55u8)
    } else {
        let reason = found[0];
        let confidence: u8 = match reason {
            RoutingReason::StateIntent | RoutingReason::ProceduralIntent => 85,
            RoutingReason::GotchaIntent | RoutingReason::EpisodicIntent => 75,
            RoutingReason::SemanticIntent => 65,
            RoutingReason::AmbiguousFallback | RoutingReason::EmptyRouteFallback => 20,
        };
        (reason, confidence)
    };
    RoutingReport {
        allowed_modes: allowed,
        routed_modes,
        reconstruction_modes: None,
        reason,
        confidence,
    }
}

/// The route taken when a narrower one found nothing: everything that is allowed.
pub open spec fn widened(report: RoutingModel) -> RoutingModel {
    RoutingModel {
        routed_modes: report.allowed_modes,
        reason: RoutingReason::EmptyRouteFallback,
        confidence: 0,
        ..report
    }
}

/// The route taken when a narrower one found nothing: everything that is allowed.
pub fn fallback_route_after_empty_evidence(report: &RoutingReport) -> (r: RoutingReport)
    ensures
        r@ == widened(report@),
{
    RoutingReport {
        allowed_modes: copy_modes(&report.allowed_modes),
        routed_modes: copy_modes(&report.allowed_modes),
        reconstruction_modes: match &report.reconstruction_modes {
            Some(modes) => Some(copy_modes(modes)),
            None => None,
        },
        reason: RoutingReason::EmptyRouteFallback,
        confidence: 0,
    }
}

// ---------------------------------------------------------------------------
// Kinds behind modes
// ---------------------------------------------------------------------------
/// The kinds of node that hold the evidence of a mode.
pub open spec fn mode_kinds(mode: MemoryMode) -> Seq<MemoryNodeKind> {
    match mode {
        MemoryMode::Semantic => seq![
            MemoryNodeKind::Fact,
            MemoryNodeKind::Tag,
            MemoryNodeKind::Topic,
        ],
        MemoryMode::Episodic => seq![MemoryNodeKind::Episode],
        MemoryMode::Procedural => seq![MemoryNodeKind::Procedure],
        MemoryMode::Gotcha => seq![MemoryNodeKind::Gotcha, MemoryNodeKind::AntiMemory],
        MemoryMode::State => seq![MemoryNodeKind::State],
    }
}

pub fn kinds_for_mode(mode: MemoryMode) -> (r: Vec<MemoryNodeKind>)
    ensures
        r@ == mode_kinds(mode),
{
    let kinds = match mode {
        MemoryMode::Semantic => vec![
            MemoryNodeKind::Fact,
            MemoryNodeKind::Tag,
            MemoryNodeKind::Topic,
        ],
        MemoryMode::Episodic => vec![MemoryNodeKind::Episode],
        MemoryMode::Procedural => vec![MemoryNodeKind::Procedure],
        MemoryMode::Gotcha => vec![MemoryNodeKind::Gotcha, MemoryNodeKind::AntiMemory],
        MemoryMode::State => vec![MemoryNodeKind::State],
    };
    proof {
        assert(kinds@ =~= mode_kinds(mode));
    }
    kinds
}

/// Kinds added to a list of kinds, each once.
pub open spec fn with_kinds(
    kinds: Seq<MemoryNodeKind>,
    more: Seq<MemoryNodeKind>,
) -> Seq<MemoryNodeKind>
    decreases more.len(),
{
    if more.len() == 0 {
        kinds
    } else {
        let front = with_kinds(kinds, more.drop_last());
        if front.contains(more.last()) {
            front
        } else {
            front.push(more.last())
        }
    }
}

/// The kinds that a read under some modes loads: entity cues, which carry the graph, and the
/// kinds of each mode.
pub open spec fn support_kinds(modes: Seq<MemoryMode>) -> Seq<MemoryNodeKind>
    decreases modes.len(),
{
    if modes.len() == 0 {
        seq![MemoryNodeKind::EntityCue]
    } else {
        with_kinds(support_kinds(modes.drop_last()), mode_kinds(modes.last()))
    }
}

fn has_kind(kinds: &Vec<MemoryNodeKind>, kind: MemoryNodeKind) -> (r: bool)
    ensures
        r == kinds@.contains(kind),
{
    let mut i: usize = 0;
    while i < kinds.len()
        invariant
            i <= kinds@.len(),
            forall|k: int| 0 <= k < i ==> kinds@[k] != kind,
        decreases kinds.len() - i,
    {
        if kinds[i] == kind {
            return true;
        }
        i += 1;
    }
    false
}

/// The kinds that a read under some modes loads.
pub fn support_kinds_for_modes(modes: &[MemoryMode]) -> (r: Vec<MemoryNodeKind>)
    ensures
        r@ == support_kinds(modes@),
{
    let mut kinds = vec![MemoryNodeKind::EntityCue];
    let mut i: usize = 0;
    proof {
        assert(modes@.take(0) =~= Seq::empty());
        assert(kinds@ =~= seq![MemoryNodeKind::EntityCue]);
    }
    while i < modes.len()
        invariant
            i <= modes@.len(),
            kinds@ == support_kinds(modes@.take(i as int)),
        decreases modes.len() - i,
    {
        let more = kinds_for_mode(modes[i]);
        let ghost start = kinds@;
        let mut k: usize = 0;
        proof {
            assert(more@.take(0) =~= Seq::empty());
        }
        while k < more.len()
            invariant
                k <= more@.len(),
                kinds@ == with_kinds(start, more@.take(k as int)),
            decreases more.len() - k,
        {
            proof {
                assert(more@.take(k as int + 1).drop_last() =~= more@.take(k as int));
                assert(more@.take(k as int + 1).last() == more@[k as int]);
            }
            if !has_kind(&kinds, more[k]) {
                kinds.push(more[k]);
            }
            k += 1;
        }
        proof {
            assert(more@.take(k as int) =~= more@);
            assert(modes@.take(i as int + 1).drop_last() =~= modes@.take(i as int));
            assert(modes@.take(i as int + 1).last() == modes@[i as int]);
        }
        i += 1;
    }
    proof {
        assert(modes@.take(i as int) =~= modes@);
    }
    kinds
}

// ---------------------------------------------------------------------------
// Laws of routing
// ---------------------------------------------------------------------------
/// Modes that the caller chose explicitly are the exact route, each once.
pub proof fn explicit_modes_are_the_route(question: Seq<char>, modes: Seq<MemoryMode>)
    requires
        modes.len() > 0,
    ensures
        route_of(question, modes, true).routed_modes == distinct_modes(modes),
        forall|m: MemoryMode|
            #[trigger] route_of(question, modes, true).routed_modes.contains(m) == modes.contains(
                m,
            ),
        modes.no_duplicates() ==> route_of(question, modes, true).routed_modes == modes,
{
    lemma_distinct_modes(modes);
    if modes.no_duplicates() {
        lemma_distinct_of_distinct(modes);
    }
}

proof fn lemma_distinct_of_distinct(modes: Seq<MemoryMode>)
    requires
        modes.no_duplicates(),
    ensures
        distinct_modes(modes) == modes,
    decreases modes.len(),
{
    if modes.len() > 0 {
        let front = modes.drop_last();
        assert(front.no_duplicates()) by {
            assert forall|i: int, j: int|
                0 <= i < front.len() && 0 <= j < front.len() && i != j implies front[i]
                != front[j] by {
                assert(front[i] == modes[i] && front[j] == modes[j]);
            }
        }
        lemma_distinct_of_distinct(front);
        assert(!front.contains(modes.last())) by {
            if front.contains(modes.last()) {
                let k = choose|k: int| 0 <= k < front.len() && front[k] == modes.last();
                assert(modes[k] == modes[modes.len() - 1]);
            }
        }
        assert(modes =~= front.push(modes.last()));
    } else {
        assert(modes =~= Seq::empty());
    }
}

/// A route is never empty, names no mode twice and stays within the allowed modes; those are
/// the caller's, or all of them where the caller names none.
pub proof fn routes_stay_within_allowed_modes(
    question: Seq<char>,
    allowed: Seq<MemoryMode>,
    explicit: bool,
)
    ensures
        ({
            let report = route_of(question, allowed, explicit);
            &&& report.routed_modes.len() > 0
            &&& report.routed_modes.no_duplicates()
            &&& forall|m: MemoryMode| #[trigger]
                report.routed_modes.contains(m) ==> report.allowed_modes.contains(m)
            &&& forall|m: MemoryMode| #[trigger]
                report.allowed_modes.contains(m) ==> allowed.len() == 0 || allowed.contains(m)
        }),
{
    lemma_distinct_modes(allowed);
    lemma_distinct_modes(all_modes());
    let modes = normal_modes(allowed);
    assert(all_modes().no_duplicates());
    assert(modes.no_duplicates());
    let found = intents(lower(question));
    lemma_allowed_part(preferred_modes(found), modes);
}

/// A query without any marker is answered from everything that is allowed.
pub proof fn markerless_queries_use_allowed_modes(
    question: Seq<char>,
    allowed: Seq<MemoryMode>,
    explicit: bool,
)
    requires
        intents(lower(question)).len() == 0,
    ensures
        ({
            let report = route_of(question, allowed, explicit);
            &&& report.routed_modes == report.allowed_modes
            &&& report.reason == RoutingReason::AmbiguousFallback
            &&& report.confidence == 20
        }),
{
    assert(preferred_modes(intents(lower(question))).len() == 0);
}

/// A route that found nothing widens to everything that is allowed.
pub proof fn empty_routes_widen(report: RoutingModel)
    ensures
        widened(report).routed_modes == report.allowed_modes,
        widened(report).allowed_modes == report.allowed_modes,
        widened(widened(report)) == widened(report),
{
}

/// Entity cues are loaded under every route, and every other kind exactly where some mode of
/// the route takes it.
pub proof fn support_kinds_are_the_taken_kinds(modes: Seq<MemoryMode>, kind: MemoryNodeKind)
    ensures
        support_kinds(modes).contains(MemoryNodeKind::EntityCue),
        kind != MemoryNodeKind::EntityCue ==> (support_kinds(modes).contains(kind)
            == modes_take(modes, kind)),
    decreases modes.len(),
{
    if modes.len() == 0 {
        assert(support_kinds(modes)[0] == MemoryNodeKind::EntityCue);
    } else {
        let front = modes.drop_last();
        support_kinds_are_the_taken_kinds(front, kind);
        let last = modes.last();
        lemma_with_kinds(support_kinds(front), mode_kinds(last), kind);
        lemma_with_kinds(support_kinds(front), mode_kinds(last), MemoryNodeKind::EntityCue);
        if kind != MemoryNodeKind::EntityCue {
            lemma_mode_kinds(last, kind);
            if modes_take(front, kind) {
                let i = choose|i: int| 0 <= i < front.len() && (#[trigger] front[i]).takes(kind);
                assert(modes[i].takes(kind));
            }
            if last.takes(kind) {
                assert(modes[modes.len() - 1].takes(kind));
            }
            if modes_take(modes, kind) {
                let i = choose|i: int| 0 <= i < modes.len() && (#[trigger] modes[i]).takes(kind);
                if i < front.len() {
                    assert(front[i].takes(kind));
                }
            }
        }
    }
}

proof fn lemma_mode_kinds(mode: MemoryMode, kind: MemoryNodeKind)
    requires
        kind != MemoryNodeKind::EntityCue,
    ensures
        mode_kinds(mode).contains(kind) == mode.takes(kind),
{
    let kinds = mode_kinds(mode);
    match mode {
        MemoryMode::Semantic => {
            assert(kinds[0] == MemoryNodeKind::Fact);
            assert(kinds[1] == MemoryNodeKind::Tag);
            assert(kinds[2] == MemoryNodeKind::Topic);
        },
        MemoryMode::Gotcha => {
            assert(kinds[0] == MemoryNodeKind::Gotcha);
            assert(kinds[1] == MemoryNodeKind::AntiMemory);
        },
        _ => {
            assert(mode.takes(kinds[0]));
        },
    }
}

proof fn lemma_with_kinds(
    kinds: Seq<MemoryNodeKind>,
    more: Seq<MemoryNodeKind>,
    kind: MemoryNodeKind,
)
    ensures
        with_kinds(kinds, more).contains(kind) == (kinds.contains(kind) || more.contains(kind)),
    decreases more.len(),
{
    if more.len() > 0 {
        let front = more.drop_last();
        lemma_with_kinds(kinds, front, kind);
        lemma_push_contains(with_kinds(kinds, front), more.last(), kind);
        lemma_push_contains(front, more.last(), kind);
        assert(more =~= front.push(more.last()));
    }
}

} // verus!
