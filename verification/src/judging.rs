//! Laws of evaluation: what a case is judged by, where it is run, and how a run is summed up.
use vstd::prelude::*;

use crate::belief::{found_words_split_the_text, says};
use crate::chars::{blank, lower, opt_text, texts};
use crate::eval::{
    baselines_of, bucket_of, case_problem, cases_problem, content_failures, content_problem,
    contradiction_texts, default_time, economics_of, event_of_case, events_of_cases, evidence_cost,
    evidence_texts, expectation_count, expectations_problem, found, found_count, has_ability,
    has_tier, ingested, judgement, lemma_cases_problem, missing_line, missing_lines,
    occurs_in_any_case, options_problem, pass_limit, query_of_case, report_of_case, scope_of_case,
    stale_texts, suite_problem, sums_of, tier_failures, tier_order, tier_word, tiers_of, total_of,
    CaseReportModel, EvalAbility, EvalCase, EvalOptions, EvalSuite,
};
use crate::ledger::EventModel;
use crate::model::{quoted_form, Evidence, MemoryAnswer, MemoryTier};
use crate::store::{at_span, StoreModel};

verus! {

// ---------------------------------------------------------------------------
// Judging
// ---------------------------------------------------------------------------
/// Some text of a list holds the words, in any case.
pub open spec fn told(places: Seq<Seq<char>>, words: Seq<char>) -> bool {
    exists|i: int| 0 <= i < places.len() && says(#[trigger] places[i], lower(words))
}

/// The places in which the texts of a list of expectations are looked for: the answer, its
/// evidence, its stale assumptions and its contradictions.
pub open spec fn places(answer: MemoryAnswer, list: int) -> Seq<Seq<char>> {
    if list == 0 {
        seq![answer.answer@]
    } else if list == 1 {
        Seq::new(answer.evidence@.len(), |i: int| answer.evidence@[i].text@)
    } else if list == 2 {
        Seq::new(
            answer.stale_assumptions@.len(),
            |i: int| answer.stale_assumptions@[i].summary@,
        )
    } else {
        Seq::new(answer.contradictions@.len(), |i: int| answer.contradictions@[i].summary@)
    }
}

/// The texts that a case expects in each of these places.
pub open spec fn expectations(case: EvalCase, list: int) -> Seq<Seq<char>> {
    if list == 0 {
        texts(case.expected_answer_contains@)
    } else if list == 1 {
        texts(case.expected_evidence_contains@)
    } else if list == 2 {
        texts(case.expected_stale_contains@)
    } else {
        texts(case.expected_contradiction_contains@)
    }
}

/// How a text that is missing from one of these places is noted.
pub open spec fn complaint(list: int, words: Seq<char>) -> Seq<char> {
    if list == 0 {
        "missing answer substring "@ + quoted_form(words)
    } else if list == 1 {
        "missing evidence substring "@ + quoted_form(words)
    } else if list == 2 {
        "missing stale assumption substring "@ + quoted_form(words)
    } else {
        "missing contradiction substring "@ + quoted_form(words)
    }
}

spec fn label(list: int) -> Seq<char> {
    if list == 0 {
        "answer"@
    } else if list == 1 {
        "evidence"@
    } else if list == 2 {
        "stale assumption"@
    } else {
        "contradiction"@
    }
}

spec fn complaints(case: EvalCase, answer: MemoryAnswer, list: int) -> Seq<Seq<char>> {
    missing_lines(label(list), expectations(case, list), places(answer, list))
}

proof fn lemma_complaint(list: int, words: Seq<char>)
    requires
        0 <= list < 4,
    ensures
        complaint(list, words) == missing_line(label(list), words),
        complaint(list, words).len() > 8,
        complaint(list, words)[0] == 'm',
        complaint(list, words)[8] == (if list == 0 {
            'a'
        } else if list == 1 {
            'e'
        } else if list == 2 {
            's'
        } else {
            'c'
        }),
{
    reveal_strlit("missing ");
    reveal_strlit(" substring ");
    reveal_strlit("answer");
    reveal_strlit("evidence");
    reveal_strlit("stale assumption");
    reveal_strlit("contradiction");
    reveal_strlit("missing answer substring ");
    reveal_strlit("missing evidence substring ");
    reveal_strlit("missing stale assumption substring ");
    reveal_strlit("missing contradiction substring ");
    assert("missing "@ + label(list) + " substring "@ =~= (if list == 0 {
        "missing answer substring "@
    } else if list == 1 {
        "missing evidence substring "@
    } else if list == 2 {
        "missing stale assumption substring "@
    } else {
        "missing contradiction substring "@
    }));
}

proof fn lemma_told(hays: Seq<Seq<char>>, words: Seq<char>)
    ensures
        found(words, hays) == told(hays, words),
{
    assert forall|i: int| 0 <= i < hays.len() implies occurs_in_any_case(words, #[trigger] hays[i])
        == says(hays[i], lower(words)) by {
        found_words_split_the_text(lower(words), lower(hays[i]));
    }
    if found(words, hays) {
        let i = choose|i: int|
            0 <= i < hays.len() && occurs_in_any_case(words, #[trigger] hays[i]);
        assert(says(hays[i], lower(words)));
    }
    if told(hays, words) {
        let i = choose|i: int| 0 <= i < hays.len() && says(#[trigger] hays[i], lower(words));
        assert(occurs_in_any_case(words, hays[i]));
    }
}

proof fn lemma_line(label: Seq<char>, expected: Seq<Seq<char>>, hays: Seq<Seq<char>>, j: int) -> (k:
    int)
    requires
        0 <= j < missing_lines(label, expected, hays).len(),
    ensures
        0 <= k < expected.len(),
        !told(hays, expected[k]),
        missing_lines(label, expected, hays)[j] == missing_line(label, expected[k]),
    decreases expected.len(),
{
    let front = expected.drop_last();
    lemma_told(hays, expected.last());
    if j < missing_lines(label, front, hays).len() {
        let k = lemma_line(label, front, hays, j);
        assert(front[k] == expected[k]);
        k
    } else {
        expected.len() - 1
    }
}

proof fn lemma_lacking(
    label: Seq<char>,
    expected: Seq<Seq<char>>,
    hays: Seq<Seq<char>>,
    k: int,
) -> (j: int)
    requires
        0 <= k < expected.len(),
        !told(hays, expected[k]),
    ensures
        0 <= j < missing_lines(label, expected, hays).len(),
        missing_lines(label, expected, hays)[j] == missing_line(label, expected[k]),
    decreases expected.len(),
{
    let front = expected.drop_last();
    lemma_told(hays, expected.last());
    if k < front.len() {
        assert(front[k] == expected[k]);
        lemma_lacking(label, front, hays, k)
    } else {
        missing_lines(label, expected, hays).len() - 1
    }
}

proof fn lemma_all_told(label: Seq<char>, expected: Seq<Seq<char>>, hays: Seq<Seq<char>>)
    requires
        forall|k: int| 0 <= k < expected.len() ==> told(hays, #[trigger] expected[k]),
    ensures
        missing_lines(label, expected, hays).len() == 0,
        found_count(expected, hays) == expected.len(),
    decreases expected.len(),
{
    if expected.len() > 0 {
        let front = expected.drop_last();
        lemma_told(hays, expected.last());
        assert(told(hays, expected[expected.len() - 1]));
        assert forall|k: int| 0 <= k < front.len() implies told(hays, #[trigger] front[k]) by {
            assert(front[k] == expected[k]);
        }
        lemma_all_told(label, front, hays);
    }
}

proof fn lemma_failures(case: EvalCase, answer: MemoryAnswer)
    ensures
        content_failures(case, answer) == complaints(case, answer, 0) + complaints(case, answer, 1)
            + complaints(case, answer, 2) + complaints(case, answer, 3),
{
    assert(places(answer, 1) =~= evidence_texts(answer.evidence@));
    assert(places(answer, 2) =~= stale_texts(answer));
    assert(places(answer, 3) =~= contradiction_texts(answer));
}

/// Whatever a judgement complains of is so: the answer came from another tier than the one that
/// is expected, or a text that is expected in one of the places stands in none of its items,
/// nor in part of one, in any case.
pub proof fn complaints_are_justified(case: EvalCase, answer: MemoryAnswer, j: int) -> (r: (int, int))
    requires
        expectation_count(case) > 0,
        0 <= j < judgement(case, answer).failures.len(),
    ensures
        ({
            let (list, k) = r;
            let line = judgement(case, answer).failures[j];
            if list == 4 {
                &&& case.expected_tier is Some
                &&& case.expected_tier->0 != answer.tier_used
                &&& line == "expected tier "@ + tier_word(case.expected_tier->0) + ", got "@
                    + tier_word(answer.tier_used)
            } else {
                &&& 0 <= list < 4
                &&& 0 <= k < expectations(case, list).len()
                &&& !told(places(answer, list), expectations(case, list)[k])
                &&& line == complaint(list, expectations(case, list)[k])
            }
        }),
{
    lemma_failures(case, answer);
    let c0 = complaints(case, answer, 0);
    let c1 = complaints(case, answer, 1);
    let c2 = complaints(case, answer, 2);
    let c3 = complaints(case, answer, 3);
    let n0 = c0.len() as int;
    let n1 = n0 + c1.len();
    let n2 = n1 + c2.len();
    let n3 = n2 + c3.len();
    let (list, at) = if j < n0 {
        (0int, j)
    } else if j < n1 {
        (1int, j - n0)
    } else if j < n2 {
        (2int, j - n1)
    } else if j < n3 {
        (3int, j - n2)
    } else {
        (4int, j - n3)
    };
    if list < 4 {
        let k = lemma_line(label(list), expectations(case, list), places(answer, list), at);
        lemma_complaint(list, expectations(case, list)[k]);
        assert(judgement(case, answer).failures[j] == complaints(case, answer, list)[at]);
        (list, k)
    } else {
        assert(judgement(case, answer).failures[j] == tier_failures(case, answer)[at]);
        (4, 0)
    }
}

/// An expected text that stands in none of the items of its place is complained of, and the
/// case does not get its full score.
pub proof fn what_is_lacking_is_complained_of(
    case: EvalCase,
    answer: MemoryAnswer,
    list: int,
    k: int,
)
    requires
        0 <= list < 4,
        0 <= k < expectations(case, list).len(),
        !told(places(answer, list), expectations(case, list)[k]),
        expectation_count(case) <= usize::MAX,
    ensures
        judgement(case, answer).failures.contains(complaint(list, expectations(case, list)[k])),
        judgement(case, answer).score.matched < judgement(case, answer).score.total,
{
    lemma_failures(case, answer);
    let c0 = complaints(case, answer, 0);
    let c1 = complaints(case, answer, 1);
    let c2 = complaints(case, answer, 2);
    let j = lemma_lacking(label(list), expectations(case, list), places(answer, list), k);
    lemma_complaint(list, expectations(case, list)[k]);
    let at = if list == 0 {
        j
    } else if list == 1 {
        c0.len() + j
    } else if list == 2 {
        c0.len() + c1.len() + j
    } else {
        c0.len() + c1.len() + c2.len() + j
    };
    assert(judgement(case, answer).failures[at] == complaints(case, answer, list)[j]);
    crate::eval::passing_is_the_full_score(case, answer);
}

/// An expected text is looked for in every item of its place: one that stands in any of the
/// items of evidence, wherever in its list, is not noted as missing from the evidence, unless
/// another text is written the same between quotes. The same holds of the answer, the stale
/// assumptions and the contradictions.
pub proof fn every_item_is_looked_at(
    case: EvalCase,
    answer: MemoryAnswer,
    list: int,
    k: int,
    i: int,
)
    requires
        0 <= list < 4,
        0 <= k < expectations(case, list).len(),
        0 <= i < places(answer, list).len(),
        says(places(answer, list)[i], lower(expectations(case, list)[k])),
        forall|other: int|
            0 <= other < expectations(case, list).len() && quoted_form(
                #[trigger] expectations(case, list)[other],
            ) == quoted_form(expectations(case, list)[k]) ==> expectations(case, list)[other]
                == expectations(case, list)[k],
    ensures
        !judgement(case, answer).failures.contains(complaint(list, expectations(case, list)[k])),
{
    let words = expectations(case, list)[k];
    assert(told(places(answer, list), words));
    assert(expectation_count(case) > 0);
    if judgement(case, answer).failures.contains(complaint(list, words)) {
        let j = choose|j: int|
            0 <= j < judgement(case, answer).failures.len() && judgement(case, answer).failures[j]
                == complaint(list, words);
        let (at, other) = complaints_are_justified(case, answer, j);
        lemma_complaint(list, words);
        if at == 4 {
            reveal_strlit("expected tier ");
            assert(judgement(case, answer).failures[j][0] == 'e');
        } else {
            lemma_complaint(at, expectations(case, at)[other]);
            assert(at == list);
            let mine = complaint(list, words);
            let theirs = complaint(list, expectations(case, list)[other]);
            lemma_same_rest(list, words, expectations(case, list)[other]);
        }
    }
}

proof fn lemma_same_rest(list: int, a: Seq<char>, b: Seq<char>)
    requires
        0 <= list < 4,
        complaint(list, a) == complaint(list, b),
    ensures
        quoted_form(a) == quoted_form(b),
{
    let opening = if list == 0 {
        "missing answer substring "@
    } else if list == 1 {
        "missing evidence substring "@
    } else if list == 2 {
        "missing stale assumption substring "@
    } else {
        "missing contradiction substring "@
    };
    assert(complaint(list, a).skip(opening.len() as int) =~= quoted_form(a));
    assert(complaint(list, b).skip(opening.len() as int) =~= quoted_form(b));
}

/// An answer that holds each expected text somewhere in its place, and came from the tier that
/// is expected where one is, passes with the full score.
pub proof fn answers_that_tell_all_pass(case: EvalCase, answer: MemoryAnswer)
    requires
        0 < expectation_count(case) <= usize::MAX,
        forall|list: int, k: int|
            #![trigger expectations(case, list)[k]]
            0 <= list < 4 && 0 <= k < expectations(case, list).len() ==> told(
                places(answer, list),
                expectations(case, list)[k],
            ),
        case.expected_tier matches Some(tier) ==> tier == answer.tier_used,
    ensures
        judgement(case, answer).failures.len() == 0,
        judgement(case, answer).score.matched == judgement(case, answer).score.total,
        judgement(case, answer).score.total == case.expected_answer_contains@.len()
            + case.expected_evidence_contains@.len() + case.expected_stale_contains@.len()
            + case.expected_contradiction_contains@.len(),
        report_of_case(case, answer, 0).passed,
{
    lemma_failures(case, answer);
    assert forall|list: int| 0 <= list < 4 implies #[trigger] complaints(
        case,
        answer,
        list,
    ).len() == 0 by {
        assert forall|k: int| 0 <= k < expectations(case, list).len() implies told(
            places(answer, list),
            #[trigger] expectations(case, list)[k],
        ) by {}
        lemma_all_told(label(list), expectations(case, list), places(answer, list));
    }
    assert(complaints(case, answer, 0).len() == 0);
    assert(complaints(case, answer, 1).len() == 0);
    assert(complaints(case, answer, 2).len() == 0);
    assert(complaints(case, answer, 3).len() == 0);
    crate::eval::passing_is_the_full_score(case, answer);
}

/// What a case is judged to hold does not depend on the order of the items of evidence.
pub proof fn evidence_counts_in_any_order(words: Seq<char>, a: Seq<Seq<char>>, b: Seq<Seq<char>>)
    ensures
        found(words, a + b) == found(words, b + a),
        found(words, a + b) == (found(words, a) || found(words, b)),
{
    lemma_told(a + b, words);
    lemma_told(b + a, words);
    lemma_told(a, words);
    lemma_told(b, words);
    if told(a, words) {
        let i = choose|i: int| 0 <= i < a.len() && says(#[trigger] a[i], lower(words));
        assert((a + b)[i] == a[i] && (b + a)[b.len() + i] == a[i]);
    }
    if told(b, words) {
        let i = choose|i: int| 0 <= i < b.len() && says(#[trigger] b[i], lower(words));
        assert((a + b)[a.len() + i] == b[i] && (b + a)[i] == b[i]);
    }
    if told(a + b, words) {
        let i = choose|i: int|
            0 <= i < (a + b).len() && says(#[trigger] (a + b)[i], lower(words));
        if i < a.len() {
            assert(a[i] == (a + b)[i]);
        } else {
            assert(b[i - a.len()] == (a + b)[i]);
        }
    }
    if told(b + a, words) {
        let i = choose|i: int|
            0 <= i < (b + a).len() && says(#[trigger] (b + a)[i], lower(words));
        if i < b.len() {
            assert(b[i] == (b + a)[i]);
        } else {
            assert(a[i - b.len()] == (b + a)[i]);
        }
    }
}

// ---------------------------------------------------------------------------
// Cases
// ---------------------------------------------------------------------------
/// Every case of a suite that nothing is wrong with can be judged: it has a name and a question,
/// is told something, says something each time it is told, expects something, and none of the
/// texts that it expects is blank.
pub proof fn checked_cases_can_be_judged(suite: EvalSuite, i: int, k: int)
    requires
        suite_problem(suite) is None,
        0 <= i < suite.cases@.len(),
    ensures
        ({
            let case = suite.cases@[i];
            &&& !blank(suite.name@)
            &&& !blank(case.id@)
            &&& !blank(case.question@)
            &&& case.events@.len() > 0
            &&& expectation_count(case) > 0
            &&& case.max_tokens != Some(0u32)
            &&& case.baseline_full_context_score matches Some(score) ==> 0 <= score <= 1_000_000_000
            &&& 0 <= k < case.events@.len() ==> !blank(case.events@[k].text@)
            &&& 0 <= k < expectations(case, 0).len() ==> !blank(expectations(case, 0)[k])
            &&& 0 <= k < expectations(case, 1).len() ==> !blank(expectations(case, 1)[k])
            &&& 0 <= k < expectations(case, 2).len() ==> !blank(expectations(case, 2)[k])
            &&& 0 <= k < expectations(case, 3).len() ==> !blank(expectations(case, 3)[k])
        }),
{
    let front = suite.cases@.take(i + 1);
    if cases_problem(front) is Some {
        lemma_cases_problem(suite.cases@, i + 1);
    }
    assert(front.last() == suite.cases@[i]);
    assert(case_problem(front.drop_last(), front.last()) is None);
    assert(content_problem(front.drop_last(), front.last()) is None);
    assert(expectations_problem(front.last()) is None);
    assert(0 <= k < front.last().events@.len() ==> !blank(front.last().events@[k].text@));
}

/// A case is asked of the memories that it was told, and of no other scope: what it is told goes
/// to the tenant, the project and the environment that its query reads.
pub proof fn cases_are_asked_where_they_were_told(
    suite: EvalSuite,
    options: EvalOptions,
    i: int,
    j: int,
)
    requires
        0 <= i < suite.cases@.len(),
        0 <= j < suite.cases@[i].events@.len(),
    ensures
        ({
            let case = suite.cases@[i];
            let event = event_of_case(suite, i, j);
            let query = query_of_case(suite, case, options);
            &&& event.tenant_id == query.scope.tenant_id
            &&& event.project_id == query.scope.project_id
            &&& event.environment_id == query.scope.environment_id
            &&& event.text == case.events@[j].text@
            &&& event.seq == (j + 1) as u64
            &&& case.events@[j].observed_at_unix_ms matches Some(at) ==> event.observed_at_unix_ms
                == at
            &&& query.question == case.question@
            &&& query.scope.as_of_unix_ms == case.as_of_unix_ms
            &&& query.require_fresh == case.require_fresh
            &&& query.modes_explicit == (case.modes is Some)
            &&& case.modes matches Some(modes) ==> query.modes == modes@
        }),
{
}

/// A case is kept in the scope that it names; cases that name no project share the suite's
/// where the suite says so, and otherwise each has one made of the suite's project and of its
/// own name.
pub proof fn cases_are_kept_where_they_say(suite: EvalSuite, a: EvalCase, b: EvalCase)
    ensures
        a.tenant_id matches Some(t) ==> scope_of_case(suite, a).0 == t@,
        a.tenant_id is None ==> scope_of_case(suite, a).0 == suite.tenant_id@,
        a.project_id matches Some(p) ==> scope_of_case(suite, a).1 == p@,
        a.environment_id matches Some(e) ==> scope_of_case(suite, a).2 == Some(e@),
        a.environment_id is None ==> scope_of_case(suite, a).2 == opt_text(suite.environment_id),
        a.project_id is None && b.project_id is None && suite.shared_haystack ==> scope_of_case(
            suite,
            a,
        ).1 == scope_of_case(suite, b).1 && scope_of_case(suite, a).1 == suite.project_id@,
        a.project_id is None && !suite.shared_haystack ==> scope_of_case(suite, a).1
            != suite.project_id@,
        a.project_id is None && b.project_id is None && !suite.shared_haystack && scope_of_case(
            suite,
            a,
        ).1 == scope_of_case(suite, b).1 ==> crate::text::stable_id_of(
            "eval_case_project"@,
            seq![suite.name@, a.id@],
        ) == crate::text::stable_id_of("eval_case_project"@, seq![suite.name@, b.id@]),
{
    reveal_strlit("-");
    let own_a = crate::text::stable_id_of("eval_case_project"@, seq![suite.name@, a.id@]);
    let own_b = crate::text::stable_id_of("eval_case_project"@, seq![suite.name@, b.id@]);
    let opening = suite.project_id@ + "-"@;
    assert((opening + own_a).skip(opening.len() as int) =~= own_a);
    assert((opening + own_b).skip(opening.len() as int) =~= own_b);
    assert((opening + own_a).len() > suite.project_id@.len());
}

/// An override comes before what a case says, and what a case says before the default; what is
/// not overridden is left as it was.
pub proof fn overrides_come_first(suite: EvalSuite, case: EvalCase, options: EvalOptions)
    ensures
        ({
            let query = query_of_case(suite, case, options);
            &&& options.max_tokens matches Some(bound) ==> query.max_tokens == bound
            &&& options.max_tokens is None ==> (case.max_tokens matches Some(bound)
                ==> query.max_tokens == bound)
            &&& options.max_tokens is None && case.max_tokens is None ==> query.max_tokens == 1_200
            &&& options.reconstruction_mode matches Some(mode) ==> query.reconstruction.mode == mode
            &&& options.max_reconstruction_steps matches Some(bound)
                ==> query.reconstruction.max_steps == bound
            &&& options.max_reconstruction_tokens matches Some(bound)
                ==> query.reconstruction.max_tokens == bound
            &&& case.reconstruction matches Some(own) ==> {
                &&& options.reconstruction_mode is None ==> query.reconstruction.mode == own.mode
                &&& options.max_reconstruction_steps is None ==> query.reconstruction.max_steps
                    == own.max_steps
                &&& options.max_reconstruction_tokens is None ==> query.reconstruction.max_tokens
                    == own.max_tokens
            }
        }),
{
}

// ---------------------------------------------------------------------------
// Sums
// ---------------------------------------------------------------------------
/// A sum over two runs is the sum of both, and a sum over one case is what the case took.
pub proof fn runs_add_up(
    a: Seq<CaseReportModel>,
    b: Seq<CaseReportModel>,
    one: CaseReportModel,
    amount: spec_fn(CaseReportModel) -> nat,
)
    ensures
        total_of(a + b, amount) == total_of(a, amount) + total_of(b, amount),
        total_of(seq![one], amount) == amount(one),
        sums_of(seq![one]) == (
            one.latency_ms,
            one.evidence_tokens,
            one.answer_tokens,
            one.reconstruction_tokens,
        ),
    decreases b.len(),
{
    reveal_with_fuel(total_of, 3);
    assert(seq![one].drop_last() =~= Seq::empty());
    if b.len() == 0 {
        assert(a + b =~= a);
    } else {
        runs_add_up(a, b.drop_last(), one, amount);
        assert((a + b).drop_last() =~= a + b.drop_last());
    }
}

/// The bucket of an ability grows by one with each case of the ability, passes by one more with
/// each that passed, and is left alone by any other.
pub proof fn buckets_count_their_own(
    reports: Seq<CaseReportModel>,
    one: CaseReportModel,
    ability: EvalAbility,
)
    ensures
        ({
            let before = bucket_of(reports, ability);
            let after = bucket_of(reports.push(one), ability);
            if one.ability == ability {
                &&& after.cases == before.cases + 1
                &&& after.passed == before.passed + (if one.passed {
                    1int
                } else {
                    0
                })
                &&& after.scores == before.scores.push(one.score)
            } else {
                after == before
            }
        }),
{
    reveal(Seq::filter);
    assert(reports.push(one).drop_last() =~= reports);
    let kept = reports.filter(has_ability(ability));
    if one.ability == ability {
        assert(kept.push(one).drop_last() =~= kept);
        assert(bucket_of(reports.push(one), ability).scores =~= bucket_of(
            reports,
            ability,
        ).scores.push(one.score));
    }
}

// ---------------------------------------------------------------------------
// Observations of a suite
// ---------------------------------------------------------------------------
/// Observations that do not say when they were made are a second apart within a case and ten
/// from one case to the next, from the first second on.
pub proof fn untimed_observations_are_spaced(case_index: int, event_index: int)
    ensures
        default_time(0, 0) == 1_000,
        default_time(case_index, event_index + 1) == default_time(case_index, event_index) + 1_000,
        default_time(case_index + 1, event_index) == default_time(case_index, event_index)
            + 10_000,
{
    assert((case_index + 1) * 10_000 == case_index * 10_000 + 10_000) by (nonlinear_arith);
    assert((event_index + 1) * 1_000 == event_index * 1_000 + 1_000) by (nonlinear_arith);
}

/// Every observation of every case is among the events of its suite.
pub proof fn every_observation_is_told(suite: EvalSuite, cases: nat, i: int, j: int) -> (k: int)
    requires
        0 <= i < cases <= suite.cases@.len(),
        0 <= j < suite.cases@[i].events@.len(),
    ensures
        0 <= k < events_of_cases(suite, cases).len(),
        events_of_cases(suite, cases)[k] == event_of_case(suite, i, j),
    decreases cases,
{
    let front = events_of_cases(suite, (cases - 1) as nat);
    if i < cases - 1 {
        every_observation_is_told(suite, (cases - 1) as nat, i, j)
    } else {
        front.len() + j
    }
}

/// Events that are taken in all stand in the ledger, one at each place, and are counted as far
/// as they are new.
pub proof fn events_taken_in_are_recorded(start: StoreModel, events: Seq<EventModel>, k: int) -> (i:
    int)
    requires
        ingested(start, events) is Ok,
        0 <= k < events.len(),
    ensures
        ({
            let (after, count) = ingested(start, events)->Ok_0;
            &&& 0 <= i < after.ledger.len()
            &&& after.ledger[i].span() == events[k].span()
            &&& after.ledger.len() == start.ledger.len() + count
            &&& count <= events.len()
            &&& after.nodes == start.nodes
        }),
    decreases events.len(),
{
    let front = events.drop_last();
    let (before, count) = ingested(start, front)->Ok_0;
    let (after, total) = ingested(start, events)->Ok_0;
    let test = at_span(events.last().span());
    if front.len() == 0 {
        assert(before == start && count == 0);
    }
    if k < front.len() {
        let i = events_taken_in_are_recorded(start, front, k);
        assert(front[k] == events[k]);
        assert(after.ledger[i] == before.ledger[i]);
        i
    } else {
        if front.len() > 0 {
            let i = events_taken_in_are_recorded(start, front, 0);
        }
        if after.ledger.len() == before.ledger.len() {
            choose|i: int| 0 <= i < before.ledger.len() && test(#[trigger] before.ledger[i])
        } else {
            before.ledger.len() as int
        }
    }
}

/// Overrides are taken if and only if none of their bounds is zero.
pub proof fn overrides_are_not_zero(options: EvalOptions)
    ensures
        options_problem(options) is None <==> options.max_tokens != Some(0u32)
            && options.max_reconstruction_steps != Some(0u8) && options.max_reconstruction_tokens
            != Some(0u32),
{
}

// ---------------------------------------------------------------------------
// Tiers and baselines
// ---------------------------------------------------------------------------
/// A tier is charged with each case that it answered, its time and the tokens of its evidence,
/// and with no other.
pub proof fn tiers_are_charged_with_their_own(
    reports: Seq<CaseReportModel>,
    one: CaseReportModel,
    tier: MemoryTier,
)
    requires
        reports.len() < usize::MAX,
    ensures
        ({
            let before = economics_of(reports, tier);
            let after = economics_of(reports.push(one), tier);
            &&& after.tier == tier
            &&& one.tier_used != tier ==> after == before
            &&& one.tier_used == tier ==> {
                &&& after.requests == before.requests + 1
                &&& before.latency_ms_sum + one.latency_ms < u64::MAX ==> after.latency_ms_sum
                    == before.latency_ms_sum + one.latency_ms
                &&& before.tokens_into_context + one.evidence_tokens < u32::MAX
                    ==> after.tokens_into_context == before.tokens_into_context
                    + one.evidence_tokens
            }
        }),
{
    reveal(Seq::filter);
    assert(reports.push(one).drop_last() =~= reports);
    let kept = reports.filter(has_tier(tier));
    crate::upkeep::lemma_filter_len(reports, has_tier(tier));
    if one.tier_used == tier {
        assert(kept.push(one).drop_last() =~= kept);
    }
}

/// Every tier that answered a case is reported on, and no other.
pub proof fn tiers_that_answered_are_reported(reports: Seq<CaseReportModel>, i: int) -> (k: int)
    requires
        0 <= i < reports.len(),
    ensures
        0 <= k < tiers_of(reports, tier_order()).len(),
        tiers_of(reports, tier_order())[k].tier == reports[i].tier_used,
        tiers_of(reports, tier_order())[k] == economics_of(reports, reports[i].tier_used),
{
    let order = tier_order();
    let tier = reports[i].tier_used;
    lemma_answered(reports, i);
    let t = if tier == MemoryTier::CueSeed {
        0int
    } else if tier == MemoryTier::Activation {
        1
    } else {
        2
    };
    assert(order[t] == tier);
    lemma_tier_listed(reports, order, t)
}

proof fn lemma_answered(reports: Seq<CaseReportModel>, i: int)
    requires
        0 <= i < reports.len(),
    ensures
        reports.filter(has_tier(reports[i].tier_used)).len() > 0,
{
    let test = has_tier(reports[i].tier_used);
    assert(reports.contains(reports[i]));
    crate::table::lemma_filter_contains(reports, test, reports[i]);
    assert(reports.filter(test).contains(reports[i]));
}

proof fn lemma_tier_listed(reports: Seq<CaseReportModel>, order: Seq<MemoryTier>, t: int) -> (k: int)
    requires
        0 <= t < order.len(),
        reports.filter(has_tier(order[t])).len() > 0,
    ensures
        0 <= k < tiers_of(reports, order).len(),
        tiers_of(reports, order)[k] == economics_of(reports, order[t]),
    decreases order.len(),
{
    let front = order.drop_last();
    if t < front.len() {
        assert(front[t] == order[t]);
        lemma_tier_listed(reports, front, t)
    } else {
        tiers_of(reports, front).len() as int
    }
}

/// Each case with a baseline is set beside it with its own score.
pub proof fn baselines_stand_beside_their_scores(
    cases: Seq<EvalCase>,
    reports: Seq<CaseReportModel>,
    end: int,
    i: int,
) -> (k: int)
    requires
        0 <= i < end,
        cases[i].baseline_full_context_score is Some,
    ensures
        0 <= k < baselines_of(cases, reports, end).len() <= end,
        baselines_of(cases, reports, end)[k].score == reports[i].score,
        baselines_of(cases, reports, end)[k].baseline == cases[i].baseline_full_context_score->0,
    decreases end,
{
    lemma_baselines(cases, reports, end - 1);
    if i < end - 1 {
        baselines_stand_beside_their_scores(cases, reports, end - 1, i)
    } else {
        baselines_of(cases, reports, end - 1).len() as int
    }
}

proof fn lemma_baselines(cases: Seq<EvalCase>, reports: Seq<CaseReportModel>, end: int)
    requires
        0 <= end,
    ensures
        baselines_of(cases, reports, end).len() <= end,
    decreases end,
{
    if end > 0 {
        lemma_baselines(cases, reports, end - 1);
    }
}

/// The report on a case says what the answer was: from which tier, with how much evidence, how
/// many stale assumptions and contradictions, how long it took, and whether nothing was
/// complained of.
pub proof fn case_reports_say_what_was_answered(
    case: EvalCase,
    answer: MemoryAnswer,
    latency_ms: u64,
)
    ensures
        ({
            let r = report_of_case(case, answer, latency_ms);
            &&& r.id == case.id@
            &&& r.ability == case.ability
            &&& r.passed <==> judgement(case, answer).failures.len() == 0
            &&& r.failure_reasons == judgement(case, answer).failures
            &&& r.score == judgement(case, answer).score
            &&& r.tier_used == answer.tier_used
            &&& r.latency_ms == latency_ms
            &&& r.evidence_count == answer.evidence@.len()
            &&& r.stale_assumption_count == answer.stale_assumptions@.len()
            &&& r.contradiction_count == answer.contradictions@.len()
            &&& r.answer_tokens == crate::model::token_cost(answer.answer@)
            &&& answer.reconstruction is None ==> r.reconstruction_tokens == 0
        }),
{
}

/// One pass takes up every observation of a run: its limit is their number, and one where there
/// is none.
pub proof fn runs_project_every_observation(count: nat)
    requires
        count <= usize::MAX,
    ensures
        count > 0 ==> pass_limit(count) == count,
        count == 0 ==> pass_limit(count) == 1,
{
}

/// Evidence costs the tokens of its items together.
pub proof fn evidence_tokens_add_up(items: Seq<Evidence>, item: Evidence)
    ensures
        evidence_cost(items.push(item)) == evidence_cost(items) + item.token_estimate as nat,
        evidence_cost(Seq::empty()) == 0,
{
    assert(items.push(item).drop_last() =~= items);
}

/// The tokens of evidence that a report shows.
pub open spec fn report_evidence_tokens(items: Seq<Evidence>) -> u32 {
    if evidence_cost(items) > u32::MAX {
        u32::MAX
    } else {
        evidence_cost(items) as u32
    }
}

/// A report shows the tokens of all the evidence of its answer.
pub proof fn reports_show_the_cost_of_evidence(
    case: EvalCase,
    answer: MemoryAnswer,
    latency_ms: u64,
)
    ensures
        report_of_case(case, answer, latency_ms).evidence_tokens == report_evidence_tokens(
            answer.evidence@,
        ),
        report_of_case(case, answer, latency_ms).token_estimate == answer.token_estimate,
        answer.reconstruction matches Some(told) ==> report_of_case(
            case,
            answer,
            latency_ms,
        ).reconstruction_tokens == told.tokens_spent,
{
}

} // verus!
