//! What belief revision does: which earlier memory a text revises, and what becomes of it.
use vstd::prelude::*;

use crate::chars::{blank, lower, occurs, occurs_at};
use crate::digits::in_24_digits;
use crate::distill::{best_fit, declared_kind, fit, heuristic_memories, memory_kind, revision_op};
use crate::error::ErrorModel;
use crate::glob::{plain, plain_patterns_are_prefixes};
use crate::history::{lemma_cued, lemma_family_member, lemma_upserted_in_family, node_kept, wf};
use crate::ledger::EventModel;
use crate::model::{BeliefRevisionOp, DistilledModel, MemoryEdgeKind, MemoryNodeKind};
use crate::projection::{in_family, is_edge, lemma_revision_pattern, saying_at, starts_with};
use crate::recall::{lemma_cued_keeps, lemma_linked_edge, over_by};
use crate::revise::{target_of_update, targets_of_invalidation, AppliedModel};
use crate::rows::{family_key, first_occurrence, NodeModel, ScopeKey};
use crate::store::{event_scope, with_id, StoreModel};
use crate::table::{first_index, lemma_filter_contains, lemma_first_index, some_row};
use crate::text::{concise_form, overlap_share, top_terms_of};

verus! {

// ---------------------------------------------------------------------------
// What a text says
// ---------------------------------------------------------------------------
/// A text holds some words, in any case.
pub open spec fn says(text: Seq<char>, words: Seq<char>) -> bool {
    exists|before: Seq<char>, after: Seq<char>| lower(text) == #[trigger] (before + words + after)
}

/// Finding words in a text is splitting the text around them.
pub proof fn found_words_split_the_text(words: Seq<char>, text: Seq<char>)
    ensures
        occurs(words, text) <==> exists|before: Seq<char>, after: Seq<char>|
            text == #[trigger] (before + words + after),
{
    if occurs(words, text) {
        let at = choose|at: int| occurs_at(words, text, at);
        let before = text.take(at);
        let after = text.skip(at + words.len());
        assert(text =~= before + words + after);
    }
    assert forall|before: Seq<char>, after: Seq<char>|
        text == #[trigger] (before + words + after) implies occurs(words, text) by {
        let at = before.len() as int;
        assert(text.subrange(at, at + words.len()) =~= words);
        assert(occurs_at(words, text, at));
    }
}

/// A text is read as taking something back exactly where it says one of the eight things that
/// do so; otherwise as bringing something up to date exactly where it says one of the four that
/// do so; and otherwise as adding.
pub proof fn texts_are_read_by_what_they_say(text: Seq<char>)
    ensures
        revision_op(text) == BeliefRevisionOp::Invalidate <==> says(text, "no longer"@) || says(
            text,
            "deprecated"@,
        ) || says(text, "invalidated"@) || says(text, "stale"@) || says(text, "not true"@) || says(
            text,
            "replace "@,
        ) || says(text, "instead of"@) || says(text, "do not use"@),
        revision_op(text) == BeliefRevisionOp::Update <==> revision_op(text)
            != BeliefRevisionOp::Invalidate && (says(text, "update"@) || says(text, "changed"@)
            || says(text, "now "@) || says(text, "new "@)),
        revision_op(text) != BeliefRevisionOp::Noop,
{
    let lowered = lower(text);
    let back = seq![
        "no longer"@,
        "deprecated"@,
        "invalidated"@,
        "stale"@,
        "not true"@,
        "replace "@,
        "instead of"@,
        "do not use"@,
    ];
    let anew = seq!["update"@, "changed"@, "now "@, "new "@];
    assert forall|k: int| 0 <= k < back.len() implies occurs(#[trigger] back[k], lowered) == says(
        text,
        back[k],
    ) by {
        found_words_split_the_text(back[k], lowered);
    }
    assert forall|k: int| 0 <= k < anew.len() implies occurs(#[trigger] anew[k], lowered) == says(
        text,
        anew[k],
    ) by {
        found_words_split_the_text(anew[k], lowered);
    }
    assert(back[0] == "no longer"@ && back[1] == "deprecated"@ && back[2] == "invalidated"@
        && back[3] == "stale"@ && back[4] == "not true"@ && back[5] == "replace "@ && back[6]
        == "instead of"@ && back[7] == "do not use"@);
    assert(anew[0] == "update"@ && anew[1] == "changed"@ && anew[2] == "now "@ && anew[3]
        == "new "@);
}

/// A text that declares no kind is an anti-memory, a gotcha, a procedure or a state by what it
/// says, looked for in this order, and else a fact.
pub proof fn kinds_are_read_by_what_is_said(name: Seq<char>, text: Seq<char>)
    requires
        declared_kind(name) is None,
    ensures
        ({
            let warns = says(text, "do not use"@) || says(text, "looked relevant"@) || says(
                text,
                "misleading"@,
            ) || says(text, "red herring"@);
            let fails = says(text, "error"@) || says(text, "failed"@) || says(text, "failure"@)
                || says(text, "panic"@) || says(text, "regression"@) || says(text, "gotcha"@)
                || says(text, "blocked"@);
            let tells = says(text, "run "@) || says(text, "command"@) || says(text, "step"@)
                || says(text, "fix by"@) || says(text, "workaround"@) || says(text, "procedure"@);
            let stands = says(text, "current "@) || says(text, "configured"@) || says(
                text,
                "environment"@,
            ) || says(text, "state"@) || says(text, "uses "@);
            &&& memory_kind(name, text) == MemoryNodeKind::AntiMemory <==> warns
            &&& memory_kind(name, text) == MemoryNodeKind::Gotcha <==> !warns && fails
            &&& memory_kind(name, text) == MemoryNodeKind::Procedure <==> !warns && !fails && tells
            &&& memory_kind(name, text) == MemoryNodeKind::State <==> !warns && !fails && !tells
                && stands
            &&& memory_kind(name, text) == MemoryNodeKind::Fact <==> !warns && !fails && !tells
                && !stands
        }),
{
    let lowered = lower(text);
    let warning = seq!["do not use"@, "looked relevant"@, "misleading"@, "red herring"@];
    let failing = seq![
        "error"@,
        "failed"@,
        "failure"@,
        "panic"@,
        "regression"@,
        "gotcha"@,
        "blocked"@,
    ];
    let telling = seq!["run "@, "command"@, "step"@, "fix by"@, "workaround"@, "procedure"@];
    let standing = seq!["current "@, "configured"@, "environment"@, "state"@, "uses "@];
    lemma_says(text, warning);
    lemma_says(text, failing);
    lemma_says(text, telling);
    lemma_says(text, standing);
    assert(warning[0] == "do not use"@ && warning[1] == "looked relevant"@ && warning[2]
        == "misleading"@ && warning[3] == "red herring"@);
    assert(failing[0] == "error"@ && failing[1] == "failed"@ && failing[2] == "failure"@
        && failing[3] == "panic"@ && failing[4] == "regression"@ && failing[5] == "gotcha"@
        && failing[6] == "blocked"@);
    assert(telling[0] == "run "@ && telling[1] == "command"@ && telling[2] == "step"@ && telling[3]
        == "fix by"@ && telling[4] == "workaround"@ && telling[5] == "procedure"@);
    assert(standing[0] == "current "@ && standing[1] == "configured"@ && standing[2]
        == "environment"@ && standing[3] == "state"@ && standing[4] == "uses "@);
}

proof fn lemma_says(text: Seq<char>, list: Seq<Seq<char>>)
    ensures
        forall|k: int|
            0 <= k < list.len() ==> occurs(#[trigger] list[k], lower(text)) == says(text, list[k]),
{
    assert forall|k: int| 0 <= k < list.len() implies occurs(#[trigger] list[k], lower(text))
        == says(text, list[k]) by {
        found_words_split_the_text(list[k], lower(text));
    }
}

/// A kind that an event's name declares, in any case, is the kind of its memory, whatever its
/// text says.
pub proof fn declared_kinds_are_taken(name: Seq<char>, text: Seq<char>)
    ensures
        ({
            let word = lower(name);
            &&& word == "fact"@ || word == "semantic"@ ==> memory_kind(name, text)
                == MemoryNodeKind::Fact
            &&& word == "episode"@ || word == "episodic"@ ==> memory_kind(name, text)
                == MemoryNodeKind::Episode
            &&& word == "procedure"@ || word == "runbook"@ || word == "workflow"@ ==> memory_kind(
                name,
                text,
            ) == MemoryNodeKind::Procedure
            &&& word == "state"@ ==> memory_kind(name, text) == MemoryNodeKind::State
            &&& word == "gotcha"@ || word == "failure"@ ==> memory_kind(name, text)
                == MemoryNodeKind::Gotcha
            &&& word == "anti_memory"@ || word == "anti-memory"@ ==> memory_kind(name, text)
                == MemoryNodeKind::AntiMemory
            &&& declared_kind(name) is Some ==> word == "fact"@ || word == "semantic"@ || word
                == "episode"@ || word == "episodic"@ || word == "procedure"@ || word == "runbook"@
                || word == "workflow"@ || word == "state"@ || word == "gotcha"@ || word
                == "failure"@ || word == "anti_memory"@ || word == "anti-memory"@
        }),
{
    lemma_kind_words();
}

/// The words that declare a kind are told apart.
proof fn lemma_kind_words()
    ensures
        "episode"@ != "fact"@ && "episode"@ != "semantic"@,
        "episodic"@ != "fact"@ && "episodic"@ != "semantic"@,
        "procedure"@ != "fact"@ && "procedure"@ != "semantic"@ && "procedure"@ != "episode"@
            && "procedure"@ != "episodic"@,
        "runbook"@ != "fact"@ && "runbook"@ != "semantic"@ && "runbook"@ != "episode"@
            && "runbook"@ != "episodic"@,
        "workflow"@ != "fact"@ && "workflow"@ != "semantic"@ && "workflow"@ != "episode"@
            && "workflow"@ != "episodic"@,
        "state"@ != "fact"@ && "state"@ != "semantic"@ && "state"@ != "episode"@ && "state"@
            != "episodic"@ && "state"@ != "procedure"@ && "state"@ != "runbook"@ && "state"@
            != "workflow"@,
        "gotcha"@ != "fact"@ && "gotcha"@ != "semantic"@ && "gotcha"@ != "episode"@ && "gotcha"@
            != "episodic"@ && "gotcha"@ != "procedure"@ && "gotcha"@ != "runbook"@ && "gotcha"@
            != "workflow"@ && "gotcha"@ != "state"@,
        "failure"@ != "fact"@ && "failure"@ != "semantic"@ && "failure"@ != "episode"@
            && "failure"@ != "episodic"@ && "failure"@ != "procedure"@ && "failure"@ != "runbook"@
            && "failure"@ != "workflow"@ && "failure"@ != "state"@,
        "anti_memory"@ != "fact"@ && "anti_memory"@ != "semantic"@ && "anti_memory"@ != "episode"@
            && "anti_memory"@ != "episodic"@ && "anti_memory"@ != "procedure"@ && "anti_memory"@
            != "runbook"@ && "anti_memory"@ != "workflow"@ && "anti_memory"@ != "state"@
            && "anti_memory"@ != "gotcha"@ && "anti_memory"@ != "failure"@,
        "anti-memory"@ != "fact"@ && "anti-memory"@ != "semantic"@ && "anti-memory"@ != "episode"@
            && "anti-memory"@ != "episodic"@ && "anti-memory"@ != "procedure"@ && "anti-memory"@
            != "runbook"@ && "anti-memory"@ != "workflow"@ && "anti-memory"@ != "state"@
            && "anti-memory"@ != "gotcha"@ && "anti-memory"@ != "failure"@,
{
    reveal_strlit("fact");
    reveal_strlit("semantic");
    reveal_strlit("episode");
    reveal_strlit("episodic");
    reveal_strlit("procedure");
    reveal_strlit("runbook");
    reveal_strlit("workflow");
    reveal_strlit("state");
    reveal_strlit("gotcha");
    reveal_strlit("failure");
    reveal_strlit("anti_memory");
    reveal_strlit("anti-memory");
    assert("fact"@[0] == 'f' && "semantic"@[0] == 's' && "episode"@[0] == 'e' && "episodic"@[0]
        == 'e' && "procedure"@[0] == 'p' && "runbook"@[0] == 'r' && "workflow"@[0] == 'w'
        && "state"@[0] == 's' && "gotcha"@[0] == 'g' && "failure"@[0] == 'f' && "anti_memory"@[0]
        == 'a' && "anti-memory"@[0] == 'a');
    assert("state"@.len() == 5 && "semantic"@.len() == 8);
    assert("failure"@.len() == 7 && "fact"@.len() == 4);
}

// ---------------------------------------------------------------------------
// Which memory is revised
// ---------------------------------------------------------------------------
/// A neighbor that an update without a named target may revise: of the memory's kind, a memory
/// of its own, and sharing at least thirty-five hundredths of the terms.
pub open spec fn may_be_revised(memory: DistilledModel, node: NodeModel) -> bool {
    &&& node.kind == memory.node_kind
    &&& node.kind != MemoryNodeKind::Episode
    &&& node.kind != MemoryNodeKind::EntityCue
    &&& overlap_share(memory.text, node.text) >= in_24_digits(35, 100)
}

/// An update without a named target revises the neighbor that shares most with it: no other that
/// it may revise shares more, and none that stands before it as much. It has no target exactly
/// where it may revise no neighbor.
pub proof fn updates_revise_what_shares_most(memory: DistilledModel, neighbors: Seq<NodeModel>)
    requires
        memory.target_node_id is None,
    ensures
        match target_of_update(memory, neighbors) {
            Some(node) => exists|k: int|
                {
                    &&& 0 <= k < neighbors.len()
                    &&& #[trigger] neighbors[k] == node
                    &&& may_be_revised(memory, node)
                    &&& forall|i: int|
                        0 <= i < neighbors.len() && may_be_revised(
                            memory,
                            #[trigger] neighbors[i],
                        ) ==> overlap_share(memory.text, neighbors[i].text) <= overlap_share(
                            memory.text,
                            node.text,
                        )
                    &&& forall|i: int|
                        0 <= i < k && may_be_revised(memory, #[trigger] neighbors[i])
                            ==> overlap_share(memory.text, neighbors[i].text) < overlap_share(
                            memory.text,
                            node.text,
                        )
                },
            None => forall|i: int|
                0 <= i < neighbors.len() ==> !may_be_revised(memory, #[trigger] neighbors[i]),
        },
    decreases neighbors.len(),
{
    if neighbors.len() > 0 {
        let front = neighbors.drop_last();
        let last = neighbors.last();
        updates_revise_what_shares_most(memory, front);
        assert forall|i: int| 0 <= i < front.len() implies #[trigger] neighbors[i] == front[i] by {}
        match target_of_update(memory, front) {
            Some(node) => {
                let k = choose|k: int|
                    {
                        &&& 0 <= k < front.len()
                        &&& #[trigger] front[k] == node
                        &&& may_be_revised(memory, node)
                        &&& forall|i: int|
                            0 <= i < front.len() && may_be_revised(memory, #[trigger] front[i])
                                ==> overlap_share(memory.text, front[i].text) <= overlap_share(
                                memory.text,
                                node.text,
                            )
                        &&& forall|i: int|
                            0 <= i < k && may_be_revised(memory, #[trigger] front[i])
                                ==> overlap_share(memory.text, front[i].text) < overlap_share(
                                memory.text,
                                node.text,
                            )
                    };
                assert(neighbors[k] == front[k]);
                assert(neighbors[neighbors.len() - 1] == last);
                assert forall|i: int|
                    0 <= i < front.len() && may_be_revised(memory, #[trigger] neighbors[i])
                    implies overlap_share(memory.text, neighbors[i].text) <= overlap_share(
                    memory.text,
                    node.text,
                ) by {
                    assert(front[i] == neighbors[i]);
                }
                assert forall|i: int|
                    0 <= i < k && may_be_revised(memory, #[trigger] neighbors[i])
                    implies overlap_share(memory.text, neighbors[i].text) < overlap_share(
                    memory.text,
                    node.text,
                ) by {
                    assert(front[i] == neighbors[i]);
                }
            },
            None => {
                assert(neighbors[neighbors.len() - 1] == last);
                assert forall|i: int| 0 <= i < front.len() implies !may_be_revised(
                    memory,
                    #[trigger] neighbors[i],
                ) by {
                    assert(front[i] == neighbors[i]);
                }
            },
        }
    }
}

/// A revision that names its target revises the neighbor of that name: the first for an update,
/// every one for an invalidation, and none where there is none.
pub proof fn named_targets_are_revised(
    memory: DistilledModel,
    neighbors: Seq<NodeModel>,
    replacement: Option<Seq<char>>,
)
    requires
        memory.target_node_id is Some,
    ensures
        ({
            let name = memory.target_node_id->0;
            &&& match target_of_update(memory, neighbors) {
                Some(node) => exists|k: int|
                    {
                        &&& 0 <= k < neighbors.len()
                        &&& #[trigger] neighbors[k] == node
                        &&& node.id == name
                        &&& forall|i: int| 0 <= i < k ==> (#[trigger] neighbors[i]).id != name
                    },
                None => forall|i: int|
                    0 <= i < neighbors.len() ==> (#[trigger] neighbors[i]).id != name,
            }
            &&& forall|node: NodeModel| #[trigger]
                targets_of_invalidation(memory, neighbors, replacement).contains(node) <==> (
                neighbors.contains(node) && node.id == name)
        }),
{
    let name = memory.target_node_id->0;
    lemma_first_index(neighbors, with_id(name));
    assert forall|node: NodeModel| #[trigger]
        targets_of_invalidation(memory, neighbors, replacement).contains(node) <==> (
        neighbors.contains(node) && node.id == name) by {
        lemma_filter_contains(neighbors, with_id(name), node);
    }
}

/// A neighbor that an invalidation without a named target may take back: of the memory's kind,
/// not its own replacement, and sharing at least twelve hundredths of the terms.
pub open spec fn may_be_taken_back(
    memory: DistilledModel,
    replacement: Option<Seq<char>>,
    node: NodeModel,
) -> bool {
    &&& node.kind == memory.node_kind
    &&& replacement != Some(node.id)
    &&& overlap_share(memory.text, node.text) >= in_24_digits(12, 100)
}

/// An invalidation without a named target takes back what it may, the first three at most: it
/// takes back nothing else, and leaves something out only for three that stand before it.
pub proof fn invalidations_take_back_what_they_share(
    memory: DistilledModel,
    neighbors: Seq<NodeModel>,
    replacement: Option<Seq<char>>,
)
    requires
        memory.target_node_id is None,
    ensures
        ({
            let targets = targets_of_invalidation(memory, neighbors, replacement);
            &&& targets.len() <= 3
            &&& forall|k: int|
                0 <= k < targets.len() ==> neighbors.contains(#[trigger] targets[k])
                    && may_be_taken_back(memory, replacement, targets[k])
            &&& forall|i: int|
                0 <= i < neighbors.len() && may_be_taken_back(
                    memory,
                    replacement,
                    #[trigger] neighbors[i],
                ) ==> targets.contains(neighbors[i]) || (targets.len() == 3 && forall|k: int|
                    0 <= k < 3 ==> neighbors.take(i).contains(#[trigger] targets[k]))
        }),
{
    let test = crate::revise::taken_back(memory, replacement);
    let all = neighbors.filter(test);
    let targets = targets_of_invalidation(memory, neighbors, replacement);
    assert forall|k: int| 0 <= k < targets.len() implies neighbors.contains(#[trigger] targets[k])
        && may_be_taken_back(memory, replacement, targets[k]) by {
        assert(all.contains(all[k]));
        lemma_filter_contains(neighbors, test, all[k]);
    }
    assert forall|i: int|
        0 <= i < neighbors.len() && may_be_taken_back(memory, replacement, #[trigger] neighbors[i])
    implies targets.contains(neighbors[i]) || (targets.len() == 3 && forall|k: int|
        0 <= k < 3 ==> neighbors.take(i).contains(#[trigger] targets[k])) by {
        lemma_filter_prefix(neighbors, test, i);
        let early = neighbors.take(i).filter(test);
        assert(neighbors.contains(neighbors[i]));
        lemma_filter_contains(neighbors, test, neighbors[i]);
        if early.len() < 3 {
            assert(all[early.len() as int] == neighbors[i]);
            assert(targets[early.len() as int] == neighbors[i]);
        } else {
            assert forall|k: int| 0 <= k < 3 implies neighbors.take(i).contains(
                #[trigger] targets[k],
            ) by {
                assert(early[k] == all[k]);
                assert(early.contains(early[k]));
                lemma_filter_contains(neighbors.take(i), test, early[k]);
            }
        }
    }
}

/// What is kept of the beginning of a list begins what is kept of the list.
proof fn lemma_filter_prefix<A>(rows: Seq<A>, test: spec_fn(A) -> bool, i: int)
    requires
        0 <= i < rows.len(),
    ensures
        rows.take(i).filter(test).len() <= rows.filter(test).len(),
        forall|k: int|
            0 <= k < rows.take(i).filter(test).len() ==> #[trigger] rows.take(i).filter(test)[k]
                == rows.filter(test)[k],
        test(rows[i]) ==> rows.take(i).filter(test).len() < rows.filter(test).len()
            && rows.filter(test)[rows.take(i).filter(test).len() as int] == rows[i],
    decreases rows.len(),
{
    reveal(Seq::filter);
    let front = rows.drop_last();
    if i < front.len() {
        lemma_filter_prefix(front, test, i);
        assert(front.take(i) =~= rows.take(i));
        assert(front[i] == rows[i]);
    } else {
        assert(rows.take(i) =~= front);
    }
}

/// A node that a text may take back by name: a memory of its own whose fit is at least twelve
/// hundredths.
pub open spec fn may_be_named(text: Seq<char>, kind: MemoryNodeKind, node: NodeModel) -> bool {
    &&& node.kind != MemoryNodeKind::Episode
    &&& node.kind != MemoryNodeKind::EntityCue
    &&& fit(text, kind, node) >= in_24_digits(12, 100)
}

/// The memory that a text takes back by name fits it best: none that it may name fits better, and
/// none that stands behind it as well. It names none exactly where it may name none.
pub proof fn retractions_name_what_fits_best(
    text: Seq<char>,
    kind: MemoryNodeKind,
    neighbors: Seq<NodeModel>,
)
    ensures
        match best_fit(text, kind, neighbors) {
            Some(node) => exists|k: int|
                {
                    &&& 0 <= k < neighbors.len()
                    &&& #[trigger] neighbors[k] == node
                    &&& may_be_named(text, kind, node)
                    &&& forall|i: int|
                        0 <= i < neighbors.len() && may_be_named(text, kind, #[trigger] neighbors[i])
                            ==> fit(text, kind, neighbors[i]) <= fit(text, kind, node)
                    &&& forall|i: int|
                        k < i < neighbors.len() && may_be_named(text, kind, #[trigger] neighbors[i])
                            ==> fit(text, kind, neighbors[i]) < fit(text, kind, node)
                },
            None => forall|i: int|
                0 <= i < neighbors.len() ==> !may_be_named(text, kind, #[trigger] neighbors[i]),
        },
    decreases neighbors.len(),
{
    if neighbors.len() > 0 {
        let front = neighbors.drop_last();
        let last = neighbors.last();
        retractions_name_what_fits_best(text, kind, front);
        assert(neighbors[neighbors.len() - 1] == last);
        match best_fit(text, kind, front) {
            Some(node) => {
                let k = choose|k: int|
                    {
                        &&& 0 <= k < front.len()
                        &&& #[trigger] front[k] == node
                        &&& may_be_named(text, kind, node)
                        &&& forall|i: int|
                            0 <= i < front.len() && may_be_named(text, kind, #[trigger] front[i])
                                ==> fit(text, kind, front[i]) <= fit(text, kind, node)
                        &&& forall|i: int|
                            k < i < front.len() && may_be_named(text, kind, #[trigger] front[i])
                                ==> fit(text, kind, front[i]) < fit(text, kind, node)
                    };
                assert(neighbors[k] == front[k]);
                assert forall|i: int|
                    0 <= i < front.len() && may_be_named(text, kind, #[trigger] neighbors[i])
                    implies fit(text, kind, neighbors[i]) <= fit(text, kind, node) by {
                    assert(front[i] == neighbors[i]);
                }
                assert forall|i: int|
                    k < i < front.len() && may_be_named(text, kind, #[trigger] neighbors[i])
                    implies fit(text, kind, neighbors[i]) < fit(text, kind, node) by {
                    assert(front[i] == neighbors[i]);
                }
            },
            None => {
                assert forall|i: int| 0 <= i < front.len() implies !may_be_named(
                    text,
                    kind,
                    #[trigger] neighbors[i],
                ) by {
                    assert(front[i] == neighbors[i]);
                }
            },
        }
    }
}

// ---------------------------------------------------------------------------
// What an event is distilled into
// ---------------------------------------------------------------------------
/// The heuristic makes two memories of an event that says something: the episode that it is, and
/// what it says. Both cite the event and nothing else. What it says is read by its wording, and
/// names a target only to take back a neighbor. An event that says nothing comes to nothing.
pub proof fn events_are_distilled_into_an_episode_and_a_memory(
    max_memory_chars: usize,
    event: EventModel,
    neighbors: Seq<NodeModel>,
)
    ensures
        ({
            let body = concise_form(event.text, max_memory_chars as int);
            let made = heuristic_memories(max_memory_chars, event, neighbors);
            &&& forall|i: int|
                0 <= i < made.len() ==> (#[trigger] made[i]).cited_spans == seq![event.span()]
            &&& blank(body) ==> made.len() == 1 && made[0].op == BeliefRevisionOp::Noop
            &&& !blank(body) ==> {
                &&& made.len() == 2
                &&& made[0].op == BeliefRevisionOp::Add
                &&& made[0].node_kind == MemoryNodeKind::Episode
                &&& made[0].text == event.span_kind + " "@ + event.name + ": "@ + body
                &&& made[0].target_node_id is None
                &&& made[1].text == body
                &&& made[1].node_kind == memory_kind(event.name, body)
                &&& made[1].op == revision_op(body)
                &&& made[1].target_node_id is Some ==> made[1].op == BeliefRevisionOp::Invalidate
                    && exists|i: int|
                    0 <= i < neighbors.len() && (#[trigger] neighbors[i]).id
                        == made[1].target_node_id->0
                &&& made[1].op == BeliefRevisionOp::Invalidate && made[1].target_node_id is None
                    ==> forall|i: int|
                    0 <= i < neighbors.len() ==> !may_be_named(
                        body,
                        made[1].node_kind,
                        #[trigger] neighbors[i],
                    )
            }
        }),
{
    let body = concise_form(event.text, max_memory_chars as int);
    retractions_name_what_fits_best(body, memory_kind(event.name, body), neighbors);
}

// ---------------------------------------------------------------------------
// What becomes of it
// ---------------------------------------------------------------------------
/// A pattern of revisions is plain where the key is.
proof fn lemma_plain_revisions(family: Seq<char>)
    requires
        plain(family),
    ensures
        plain(family + "|rev:"@),
{
    let mark = "|rev:"@;
    let prefix = family + mark;
    reveal_strlit("|rev:");
    assert forall|i: int| 0 <= i < prefix.len() implies #[trigger] prefix[i] != '*' && prefix[i]
        != '?' && prefix[i] != '[' && prefix[i] != '\0' by {
        if i < family.len() {
            assert(prefix[i] == family[i]);
        } else {
            assert(prefix[i] == mark[i - family.len()]);
        }
    }
}

/// What stands before words and the words themselves begin the text.
proof fn lemma_head(text: Seq<char>, words: Seq<char>, at: int)
    requires
        occurs_at(words, text, at),
    ensures
        starts_with(text, text.take(at) + words),
{
    let prefix = text.take(at) + words;
    let head = text.take(at + words.len());
    assert(prefix.len() == at + words.len());
    assert forall|i: int| 0 <= i < prefix.len() implies head[i] == prefix[i] by {
        if i >= at {
            assert(text.subrange(at, at + words.len())[i - at] == words[i - at]);
        }
    }
    assert(head =~= prefix);
}

/// The key of a version begins with the key of its memory.
proof fn lemma_own_family(scope: ScopeKey, node: NodeModel)
    requires
        node.in_scope(scope),
        plain(family_key(node.canonical_key)),
    ensures
        (in_family(scope, node.kind, family_key(node.canonical_key)))(node),
{
    let key = node.canonical_key;
    let family = family_key(key);
    if occurs("|rev:"@, key) {
        let any = choose|at: int| occurs_at("|rev:"@, key, at);
        lemma_first_occurrence("|rev:"@, key, any);
        let at = first_occurrence("|rev:"@, key);
        lemma_head(key, "|rev:"@, at);
        lemma_plain_revisions(family);
        lemma_revision_pattern(family);
        plain_patterns_are_prefixes(family + "|rev:"@, key);
    }
}

/// Where words stand in a text, there is a first place at which they do.
proof fn lemma_first_occurrence(words: Seq<char>, text: Seq<char>, at: int)
    requires
        occurs_at(words, text, at),
    ensures
        occurs_at(words, text, first_occurrence(words, text)),
    decreases at,
{
    if exists|j: int| 0 <= j < at && occurs_at(words, text, j) {
        let j = choose|j: int| 0 <= j < at && occurs_at(words, text, j);
        lemma_first_occurrence(words, text, j);
    } else {
        assert(occurs_at(words, text, at) && forall|j: int|
            0 <= j < at ==> !occurs_at(words, text, j));
    }
}

/// An update replaces its target. A new version of the target's memory begins with the event and
/// says what the update says; the target ends no later than that, and an edge leads from the new
/// version to it. Memories of other families stay exactly as they are.
pub proof fn updates_replace_their_target(
    store: StoreModel,
    event: EventModel,
    memory: DistilledModel,
    t: int,
    now: i64,
)
    requires
        wf(store),
        0 <= t < store.nodes.len(),
        store.nodes[t].kind == memory.node_kind,
        memory.node_kind != MemoryNodeKind::EntityCue,
        store.nodes[t].in_scope(event_scope(event)),
        store.nodes[t].valid_from_unix_ms <= event.observed_at_unix_ms,
        plain(family_key(store.nodes[t].canonical_key)),
        forall|i: int|
            0 <= i < store.nodes.len() && (#[trigger] store.nodes[i]).valid_from_unix_ms
                == event.observed_at_unix_ms ==> store.nodes[i].text != memory.text,
    ensures
        match store.updated(event, memory, store.nodes[t], now) {
            Ok((after, node)) => {
                &&& after.nodes.contains(node)
                &&& node.text == memory.text
                &&& node.kind == memory.node_kind
                &&& node.in_scope(event_scope(event))
                &&& node.valid_from_unix_ms == event.observed_at_unix_ms
                &&& node.id != store.nodes[t].id
                &&& after.nodes[t].id == store.nodes[t].id
                &&& over_by(after.nodes[t], event.observed_at_unix_ms)
                &&& some_row(
                    after.edges,
                    is_edge(node.id, store.nodes[t].id, MemoryEdgeKind::Supersedes),
                )
                &&& forall|i: int|
                    0 <= i < store.nodes.len() && (#[trigger] store.nodes[i]).kind
                        != MemoryNodeKind::EntityCue && !(in_family(
                        event_scope(event),
                        memory.node_kind,
                        family_key(store.nodes[t].canonical_key),
                    ))(store.nodes[i]) ==> after.nodes.contains(store.nodes[i])
            },
            Err(_) => true,
        },
{
    reveal(StoreModel::upserted_in_family);
    let target = store.nodes[t];
    let scope = event_scope(event);
    let at = event.observed_at_unix_ms;
    let kind = memory.node_kind;
    let family = family_key(target.canonical_key);
    let versions = store.family(scope, kind, family);
    let test = saying_at(at, memory.text);
    lemma_own_family(scope, target);
    lemma_first_index(versions, test);
    if let Some(i) = first_index(versions, test) {
        lemma_family_member(store, scope, kind, family, i);
        let k = choose|k: int| 0 <= k < store.nodes.len() && store.nodes[k] == versions[i];
        assert(store.nodes[k].text == memory.text);
        assert(false);
    }
    let upsert = store.upserted_in_family(
        scope,
        kind,
        family,
        memory.text,
        at,
        memory.cited_spans,
        now,
    );
    lemma_upserted_in_family(store, scope, kind, family, memory.text, at, memory.cited_spans, now);
    if let Ok(done) = upsert {
        let last = store.nodes.len() as int;
        let begun = done.store;
        assert(begun.nodes[last] == done.node);
        assert(begun.nodes.contains(done.node));
        assert(over_by(begun.nodes[t], at));
        assert(done.node.id != target.id) by {
            assert(!(with_id(done.node.id))(store.nodes[t]));
        }
        lemma_cued(begun, event, done.node.id, top_terms_of(done.node.text, 8), now);
        lemma_cued_keeps(
            begun,
            event,
            done.node.id,
            top_terms_of(done.node.text, 8),
            now,
            done.node,
        );
        if let Ok(cued) = begun.with_entity_cues(event, done.node, now) {
            lemma_linked_edge(
                cued,
                scope,
                done.node.id,
                target.id,
                MemoryEdgeKind::Supersedes,
                100,
                at,
            );
            assert(node_kept(begun.nodes[t], cued.nodes[t]));
            if let Ok((after, _)) = store.updated(event, memory, target, now) {
                assert(after.nodes == cued.nodes);
                assert forall|i: int|
                    0 <= i < store.nodes.len() && (#[trigger] store.nodes[i]).kind
                        != MemoryNodeKind::EntityCue && !(in_family(scope, kind, family))(
                        store.nodes[i],
                    ) implies after.nodes.contains(store.nodes[i]) by {
                    assert(begun.nodes[i] == store.nodes[i]);
                    assert(begun.nodes.contains(store.nodes[i]));
                    lemma_cued_keeps(
                        begun,
                        event,
                        done.node.id,
                        top_terms_of(done.node.text, 8),
                        now,
                        store.nodes[i],
                    );
                }
            }
        }
    }
}

/// Applying a memory does what its operation says: nothing for a memory that says to do nothing;
/// a node of its own kind for an addition; a version that replaces the target for an update; and
/// for an invalidation the targets end, in favour of what it says where it says anything.
pub proof fn operations_do_what_they_say(
    store: StoreModel,
    event: EventModel,
    memory: DistilledModel,
    neighbors: Seq<NodeModel>,
    now: i64,
)
    ensures
        match store.applied(event, memory, neighbors, now) {
            Ok((after, applied)) => {
                &&& memory.op == BeliefRevisionOp::Noop ==> after == store && applied is Noop
                &&& memory.op == BeliefRevisionOp::Add ==> store.added(event, memory, now) == Ok::<
                    (StoreModel, AppliedModel),
                    ErrorModel,
                >((after, applied)) && (applied is Added || applied is Updated)
                &&& memory.op == BeliefRevisionOp::Update ==> match target_of_update(
                    memory,
                    neighbors,
                ) {
                    Some(target) => applied is Updated && store.updated(event, memory, target, now)
                        == Ok::<(StoreModel, NodeModel), ErrorModel>((after, applied.written())),
                    None => after == store && applied is Noop,
                }
                &&& memory.op == BeliefRevisionOp::Invalidate ==> applied is Invalidated
                    && (applied->replacement is None <==> blank(memory.text))
            },
            Err(_) => true,
        },
{
}

} // verus!
