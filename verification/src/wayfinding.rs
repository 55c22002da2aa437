//! What a question is answered from.
use vstd::prelude::*;

use crate::belief::{found_words_split_the_text, says};
use crate::chars::{lower, occurs};
use crate::model::{all_modes, MemoryMode, RoutingReason};
use crate::route::{
    allowed_part, distinct_modes, intents, lemma_allowed_part, lemma_distinct_modes, normal_modes,
    preferred_modes, route_of, served_by, with_modes,
};
use crate::table::lemma_push_contains;

verus! {

/// The question asks how things stand.
pub open spec fn about_state(question: Seq<char>) -> bool {
    says(question, "current"@) || says(question, "state"@) || says(question, "config"@) || says(
        question,
        "setting"@,
    ) || says(question, "environment"@) || says(question, "now"@)
}

/// The question asks what goes wrong.
pub open spec fn about_trouble(question: Seq<char>) -> bool {
    says(question, "fix"@) || says(question, "failure"@) || says(question, "fails"@) || says(
        question,
        "error"@,
    ) || says(question, "bug"@) || says(question, "gotcha"@) || says(question, "blocked"@) || says(
        question,
        "broken"@,
    )
}

/// The question asks how something is done.
pub open spec fn about_practice(question: Seq<char>) -> bool {
    says(question, "procedure"@) || says(question, "runbook"@) || says(question, "workflow"@)
        || says(question, "steps"@) || says(question, "step-by-step"@) || says(question, "how to"@)
}

/// The question asks what happened.
pub open spec fn about_the_past(question: Seq<char>) -> bool {
    says(question, "when"@) || says(question, "timeline"@) || says(question, "history"@) || says(
        question,
        "episode"@,
    ) || says(question, "trace"@) || says(question, "span"@) || says(question, "happened"@)
}

/// The question asks what is known.
pub open spec fn about_facts(question: Seq<char>) -> bool {
    says(question, "what"@) || says(question, "which"@) || says(question, "where"@) || says(
        question,
        "who"@,
    ) || says(question, "fact"@) || says(question, "token"@) || says(question, "remember about"@)
}

proof fn lemma_intents(question: Seq<char>)
    ensures
        ({
            let found = intents(lower(question));
            &&& found.contains(RoutingReason::StateIntent) <==> about_state(question)
            &&& found.contains(RoutingReason::GotchaIntent) <==> about_trouble(question)
            &&& found.contains(RoutingReason::ProceduralIntent) <==> about_practice(question)
            &&& found.contains(RoutingReason::EpisodicIntent) <==> about_the_past(question)
            &&& found.contains(RoutingReason::SemanticIntent) <==> about_facts(question)
            &&& !found.contains(RoutingReason::AmbiguousFallback)
            &&& !found.contains(RoutingReason::EmptyRouteFallback)
            &&& found.no_duplicates()
        }),
{
    let lowered = lower(question);
    let a = seq!["current"@, "state"@, "config"@, "setting"@, "environment"@, "now"@];
    let b = seq![
        "fix"@,
        "failure"@,
        "fails"@,
        "error"@,
        "bug"@,
        "gotcha"@,
        "blocked"@,
        "broken"@,
    ];
    let c = seq!["procedure"@, "runbook"@, "workflow"@, "steps"@, "step-by-step"@, "how to"@];
    let d = seq!["when"@, "timeline"@, "history"@, "episode"@, "trace"@, "span"@, "happened"@];
    let e = seq!["what"@, "which"@, "where"@, "who"@, "fact"@, "token"@, "remember about"@];
    lemma_said(question, a);
    lemma_said(question, b);
    lemma_said(question, c);
    lemma_said(question, d);
    lemma_said(question, e);
    assert(a[0] == "current"@ && a[1] == "state"@ && a[2] == "config"@ && a[3] == "setting"@ && a[4]
        == "environment"@ && a[5] == "now"@);
    assert(b[0] == "fix"@ && b[1] == "failure"@ && b[2] == "fails"@ && b[3] == "error"@ && b[4]
        == "bug"@ && b[5] == "gotcha"@ && b[6] == "blocked"@ && b[7] == "broken"@);
    assert(c[0] == "procedure"@ && c[1] == "runbook"@ && c[2] == "workflow"@ && c[3] == "steps"@
        && c[4] == "step-by-step"@ && c[5] == "how to"@);
    assert(d[0] == "when"@ && d[1] == "timeline"@ && d[2] == "history"@ && d[3] == "episode"@
        && d[4] == "trace"@ && d[5] == "span"@ && d[6] == "happened"@);
    assert(e[0] == "what"@ && e[1] == "which"@ && e[2] == "where"@ && e[3] == "who"@ && e[4]
        == "fact"@ && e[5] == "token"@ && e[6] == "remember about"@);
    assert(crate::route::asks_state(lowered) == about_state(question));
    assert(crate::route::asks_gotcha(lowered) == about_trouble(question));
    assert(crate::route::asks_procedure(lowered) == about_practice(question));
    assert(crate::route::asks_episode(lowered) == about_the_past(question));
    assert(crate::route::asks_fact(lowered) == about_facts(question));
    lemma_listed(
        about_state(question),
        about_trouble(question),
        about_practice(question),
        about_the_past(question),
        about_facts(question),
        intents(lowered),
    );
}

proof fn lemma_said(text: Seq<char>, list: Seq<Seq<char>>)
    ensures
        forall|k: int|
            0 <= k < list.len() ==> occurs(#[trigger] list[k], lower(text)) == says(text, list[k]),
{
    assert forall|k: int| 0 <= k < list.len() implies occurs(#[trigger] list[k], lower(text))
        == says(text, list[k]) by {
        found_words_split_the_text(list[k], lower(text));
    }
}

spec fn added(list: Seq<RoutingReason>, here: bool, intent: RoutingReason) -> Seq<RoutingReason> {
    if here {
        list.push(intent)
    } else {
        list
    }
}

proof fn lemma_added(list: Seq<RoutingReason>, here: bool, intent: RoutingReason)
    requires
        list.no_duplicates(),
        !list.contains(intent),
    ensures
        added(list, here, intent).no_duplicates(),
        forall|r: RoutingReason| #[trigger]
            added(list, here, intent).contains(r) <==> list.contains(r) || (here && r == intent),
{
    assert forall|r: RoutingReason| #[trigger]
        added(list, here, intent).contains(r) <==> list.contains(r) || (here && r == intent) by {
        lemma_push_contains(list, intent, r);
    }
}

proof fn lemma_listed(
    state: bool,
    trouble: bool,
    practice: bool,
    past: bool,
    facts: bool,
    found: Seq<RoutingReason>,
)
    requires
        found == added(
            added(
                added(
                    added(
                        added(Seq::empty(), state, RoutingReason::StateIntent),
                        trouble,
                        RoutingReason::GotchaIntent,
                    ),
                    practice,
                    RoutingReason::ProceduralIntent,
                ),
                past,
                RoutingReason::EpisodicIntent,
            ),
            facts,
            RoutingReason::SemanticIntent,
        ),
    ensures
        found.contains(RoutingReason::StateIntent) <==> state,
        found.contains(RoutingReason::GotchaIntent) <==> trouble,
        found.contains(RoutingReason::ProceduralIntent) <==> practice,
        found.contains(RoutingReason::EpisodicIntent) <==> past,
        found.contains(RoutingReason::SemanticIntent) <==> facts,
        !found.contains(RoutingReason::AmbiguousFallback),
        !found.contains(RoutingReason::EmptyRouteFallback),
        found.no_duplicates(),
{
    let none = Seq::<RoutingReason>::empty();
    let a = added(none, state, RoutingReason::StateIntent);
    let b = added(a, trouble, RoutingReason::GotchaIntent);
    let c = added(b, practice, RoutingReason::ProceduralIntent);
    let d = added(c, past, RoutingReason::EpisodicIntent);
    lemma_added(none, state, RoutingReason::StateIntent);
    lemma_added(a, trouble, RoutingReason::GotchaIntent);
    lemma_added(b, practice, RoutingReason::ProceduralIntent);
    lemma_added(c, past, RoutingReason::EpisodicIntent);
    lemma_added(d, facts, RoutingReason::SemanticIntent);
}

proof fn lemma_with_modes(modes: Seq<MemoryMode>, more: Seq<MemoryMode>)
    ensures
        forall|m: MemoryMode| #[trigger]
            with_modes(modes, more).contains(m) <==> modes.contains(m) || more.contains(m),
    decreases more.len(),
{
    if more.len() > 0 {
        let front = more.drop_last();
        let done = with_modes(modes, front);
        lemma_with_modes(modes, front);
        assert(more =~= front.push(more.last()));
        assert forall|m: MemoryMode| #[trigger]
            with_modes(modes, more).contains(m) <==> modes.contains(m) || more.contains(m) by {
            lemma_push_contains(front, more.last(), m);
            lemma_push_contains(done, more.last(), m);
        }
    }
}

proof fn lemma_preferred(found: Seq<RoutingReason>, m: MemoryMode)
    ensures
        preferred_modes(found).contains(m) <==> exists|i: int|
            0 <= i < found.len() && served_by(#[trigger] found[i]).contains(m),
    decreases found.len(),
{
    if found.len() > 0 {
        let front = found.drop_last();
        lemma_preferred(front, m);
        lemma_with_modes(preferred_modes(front), served_by(found.last()));
        if preferred_modes(front).contains(m) {
            let i = choose|i: int| 0 <= i < front.len() && served_by(#[trigger] front[i]).contains(m);
            assert(found[i] == front[i]);
        }
        if served_by(found.last()).contains(m) {
            assert(served_by(found[found.len() - 1]).contains(m));
        }
        if exists|i: int| 0 <= i < found.len() && served_by(#[trigger] found[i]).contains(m) {
            let i = choose|i: int| 0 <= i < found.len() && served_by(#[trigger] found[i]).contains(m);
            if i < front.len() {
                assert(front[i] == found[i]);
            }
        }
    }
}

proof fn lemma_served(intent: RoutingReason, m: MemoryMode)
    ensures
        served_by(intent).contains(m) <==> match m {
            MemoryMode::State => intent == RoutingReason::StateIntent,
            MemoryMode::Gotcha => intent == RoutingReason::GotchaIntent,
            MemoryMode::Procedural => intent == RoutingReason::GotchaIntent || intent
                == RoutingReason::ProceduralIntent,
            MemoryMode::Episodic => intent == RoutingReason::EpisodicIntent,
            MemoryMode::Semantic => intent == RoutingReason::EpisodicIntent || intent
                == RoutingReason::SemanticIntent,
        },
{
    let modes = served_by(intent);
    if modes.len() > 0 {
        assert(modes.contains(modes[0]));
    }
    if modes.len() > 1 {
        assert(modes.contains(modes[1]));
    }
}

/// An intent serves a mode just if it is found and the mode is its own.
proof fn lemma_preferred_by(found: Seq<RoutingReason>)
    ensures
        ({
            let modes = preferred_modes(found);
            &&& modes.contains(MemoryMode::State) <==> found.contains(RoutingReason::StateIntent)
            &&& modes.contains(MemoryMode::Gotcha) <==> found.contains(RoutingReason::GotchaIntent)
            &&& modes.contains(MemoryMode::Procedural) <==> found.contains(
                RoutingReason::GotchaIntent,
            ) || found.contains(RoutingReason::ProceduralIntent)
            &&& modes.contains(MemoryMode::Episodic) <==> found.contains(
                RoutingReason::EpisodicIntent,
            )
            &&& modes.contains(MemoryMode::Semantic) <==> found.contains(
                RoutingReason::EpisodicIntent,
            ) || found.contains(RoutingReason::SemanticIntent)
        }),
{
    lemma_preferred_mode(found, MemoryMode::State);
    lemma_preferred_mode(found, MemoryMode::Gotcha);
    lemma_preferred_mode(found, MemoryMode::Procedural);
    lemma_preferred_mode(found, MemoryMode::Episodic);
    lemma_preferred_mode(found, MemoryMode::Semantic);
}

proof fn lemma_preferred_mode(found: Seq<RoutingReason>, m: MemoryMode)
    ensures
        preferred_modes(found).contains(m) <==> match m {
            MemoryMode::State => found.contains(RoutingReason::StateIntent),
            MemoryMode::Gotcha => found.contains(RoutingReason::GotchaIntent),
            MemoryMode::Procedural => found.contains(RoutingReason::GotchaIntent)
                || found.contains(RoutingReason::ProceduralIntent),
            MemoryMode::Episodic => found.contains(RoutingReason::EpisodicIntent),
            MemoryMode::Semantic => found.contains(RoutingReason::EpisodicIntent)
                || found.contains(RoutingReason::SemanticIntent),
        },
{
    lemma_preferred(found, m);
    assert forall|i: int| 0 <= i < found.len() implies found.contains(#[trigger] found[i]) by {}
    assert forall|r: RoutingReason| found.contains(r) && #[trigger] served_by(r).contains(m) implies
        preferred_modes(found).contains(m) by {
        let i = choose|i: int| 0 <= i < found.len() && found[i] == r;
        assert(served_by(found[i]).contains(m));
    }
    lemma_served(RoutingReason::StateIntent, m);
    lemma_served(RoutingReason::GotchaIntent, m);
    lemma_served(RoutingReason::ProceduralIntent, m);
    lemma_served(RoutingReason::EpisodicIntent, m);
    lemma_served(RoutingReason::SemanticIntent, m);
    if preferred_modes(found).contains(m) {
        let i = choose|i: int| 0 <= i < found.len() && served_by(#[trigger] found[i]).contains(m);
        lemma_served(found[i], m);
    }
}

/// A list that allows every mode allows exactly all modes, in some order.
proof fn lemma_all_allowed(allowed: Seq<MemoryMode>)
    requires
        allowed.len() == 0 || forall|m: MemoryMode| allowed.contains(m),
    ensures
        crate::route::same_modes(normal_modes(allowed), all_modes()),
        forall|m: MemoryMode| normal_modes(allowed).contains(m),
{
    let all = all_modes();
    assert(all[0] == MemoryMode::Semantic && all[1] == MemoryMode::Episodic && all[2]
        == MemoryMode::Procedural && all[3] == MemoryMode::Gotcha && all[4] == MemoryMode::State);
    assert forall|m: MemoryMode| all.contains(m) by {
        match m {
            MemoryMode::Semantic => assert(all[0] == m),
            MemoryMode::Episodic => assert(all[1] == m),
            MemoryMode::Procedural => assert(all[2] == m),
            MemoryMode::Gotcha => assert(all[3] == m),
            MemoryMode::State => assert(all[4] == m),
        }
    }
    assert(all.no_duplicates());
    if allowed.len() > 0 {
        lemma_distinct_modes(allowed);
        let modes = distinct_modes(allowed);
        assert forall|m: MemoryMode| modes.contains(m) by {
            assert(modes.contains(m) == allowed.contains(m));
        }
        modes.unique_seq_to_set();
        all.unique_seq_to_set();
        assert(modes.to_set() =~= all.to_set());
    }
}

/// A question that may be answered from everything is answered from what it asks for: from how
/// things stand, from what goes wrong and how it is put right, from how things are done, from
/// what happened and what is known, each exactly where its words ask for it; and from everything
/// where they ask for nothing.
pub proof fn questions_are_answered_from_what_they_ask_for(
    question: Seq<char>,
    allowed: Seq<MemoryMode>,
)
    requires
        allowed.len() == 0 || forall|m: MemoryMode| allowed.contains(m),
    ensures
        ({
            let routed = route_of(question, allowed, false).routed_modes;
            let nothing = !about_state(question) && !about_trouble(question) && !about_practice(
                question,
            ) && !about_the_past(question) && !about_facts(question);
            &&& routed.contains(MemoryMode::State) <==> nothing || about_state(question)
            &&& routed.contains(MemoryMode::Gotcha) <==> nothing || about_trouble(question)
            &&& routed.contains(MemoryMode::Procedural) <==> nothing || about_trouble(question)
                || about_practice(question)
            &&& routed.contains(MemoryMode::Episodic) <==> nothing || about_the_past(question)
            &&& routed.contains(MemoryMode::Semantic) <==> nothing || about_the_past(question)
                || about_facts(question)
        }),
{
    let found = intents(lower(question));
    let modes = normal_modes(allowed);
    let preferred = preferred_modes(found);
    lemma_intents(question);
    lemma_preferred_by(found);
    lemma_all_allowed(allowed);
    lemma_allowed_part(preferred, modes);
    let part = allowed_part(preferred, modes);
    if preferred.len() > 0 {
        assert(preferred.contains(preferred[0]));
        assert(part.contains(preferred[0]));
        let k = choose|k: int| 0 <= k < part.len() && part[k] == preferred[0];
        assert(part.len() > 0);
    } else {
        assert(!preferred.contains(MemoryMode::State));
        assert(!preferred.contains(MemoryMode::Gotcha));
        assert(!preferred.contains(MemoryMode::Procedural));
        assert(!preferred.contains(MemoryMode::Episodic));
        assert(!preferred.contains(MemoryMode::Semantic));
    }
}

/// The reason of a route is what the question asks for, where it asks for one thing; and that it
/// is not clear, where it asks for nothing or for several. The router is surest of questions for
/// how things stand and how they are done, and least of those that ask for nothing.
pub proof fn routes_give_their_reason(question: Seq<char>, allowed: Seq<MemoryMode>)
    requires
        allowed.len() == 0 || forall|m: MemoryMode| allowed.contains(m),
    ensures
        ({
            let report = route_of(question, allowed, false);
            let a = about_state(question);
            let b = about_trouble(question);
            let c = about_practice(question);
            let d = about_the_past(question);
            let e = about_facts(question);
            &&& a && !b && !c && !d && !e ==> report.reason == RoutingReason::StateIntent
                && report.confidence == 85
            &&& !a && b && !c && !d && !e ==> report.reason == RoutingReason::GotchaIntent
                && report.confidence == 75
            &&& !a && !b && c && !d && !e ==> report.reason == RoutingReason::ProceduralIntent
                && report.confidence == 85
            &&& !a && !b && !c && d && !e ==> report.reason == RoutingReason::EpisodicIntent
                && report.confidence == 75
            &&& !a && !b && !c && !d && e ==> report.reason == RoutingReason::SemanticIntent
                && report.confidence == 65
            &&& !a && !b && !c && !d && !e ==> report.reason == RoutingReason::AmbiguousFallback
                && report.confidence == 20
            &&& (a && (b || c || d || e)) || (b && (c || d || e)) || (c && (d || e)) || (d && e)
                ==> report.reason == RoutingReason::AmbiguousFallback && report.confidence == 55
        }),
{
    let found = intents(lower(question));
    let modes = normal_modes(allowed);
    let preferred = preferred_modes(found);
    lemma_intents(question);
    lemma_preferred_by(found);
    lemma_all_allowed(allowed);
    lemma_allowed_part(preferred, modes);
    let part = allowed_part(preferred, modes);
    if preferred.len() > 0 {
        assert(preferred.contains(preferred[0]));
        assert(part.contains(preferred[0]));
        let k = choose|k: int| 0 <= k < part.len() && part[k] == preferred[0];
        assert(part.len() > 0);
    }
    if found.len() > 0 {
        assert(found.contains(found[0]));
    }
    if found.len() > 1 {
        assert(found.contains(found[1]));
        assert(found[0] != found[1]);
    }
    if found.len() == 1 {
        assert forall|r: RoutingReason| found.contains(r) implies r == found[0] by {}
    }
}

/// A question that may not be answered from everything, or whose modes were chosen for it, is
/// answered from exactly what is allowed, whatever it asks for.
pub proof fn chosen_modes_are_kept_to(question: Seq<char>, allowed: Seq<MemoryMode>, explicit: bool)
    requires
        allowed.len() > 0,
        explicit || exists|m: MemoryMode| !allowed.contains(m),
    ensures
        forall|m: MemoryMode| #[trigger]
            route_of(question, allowed, explicit).routed_modes.contains(m) <==> allowed.contains(m),
{
    lemma_distinct_modes(allowed);
    let modes = distinct_modes(allowed);
    let all = all_modes();
    if !explicit {
        let m = choose|m: MemoryMode| !allowed.contains(m);
        if crate::route::same_modes(modes, all) {
            modes.unique_seq_to_set();
            all.unique_seq_to_set();
            assert(modes.to_set().subset_of(all.to_set()));
            assert(all[0] == MemoryMode::Semantic && all[1] == MemoryMode::Episodic && all[2]
                == MemoryMode::Procedural && all[3] == MemoryMode::Gotcha && all[4]
                == MemoryMode::State);
            assert(all.contains(m)) by {
                match m {
                    MemoryMode::Semantic => assert(all[0] == m),
                    MemoryMode::Episodic => assert(all[1] == m),
                    MemoryMode::Procedural => assert(all[2] == m),
                    MemoryMode::Gotcha => assert(all[3] == m),
                    MemoryMode::State => assert(all[4] == m),
                }
            }
            vstd::set_lib::lemma_subset_equality(modes.to_set(), all.to_set());
            assert(modes.to_set().contains(m));
            assert(modes.contains(m));
            assert(false);
        }
    }
}

} // verus!
