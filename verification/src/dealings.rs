//! Laws of dealing with providers and commands, of rebuilding, and of the keys that versions of
//! one memory share.
use vstd::prelude::*;

use crate::chars::{occurs, occurs_at};
use crate::distill::{
    after_reply, batch_problem, memories_problem, no_metrics, nodes_cost, provider_run, reply_model,
    DistillMetrics, Distiller, Progress, ProviderReply, ReplyModel,
};
use crate::engine::{
    event_bound, next_limit, rebuild_happened, rebuild_problem, remaining, total_report,
    ProjectionRebuildReport, RebuildStep,
};
use crate::error::MemoryResult;
use crate::model::{token_cost, DistilledModel};
use crate::order::views;
use crate::passes::pass_problem;
use crate::projection::revision;
use crate::reconstruct::{
    command_action, lookup_problem, CommandAction, CommandLookup,
    CommandReconstructionProviderConfig,
};
use crate::rows::{family_key, first_occurrence, NodeModel};
use crate::store::{is_pending, StoreModel};
use crate::table::lemma_filter_contains;

verus! {

// ---------------------------------------------------------------------------
// Providers
// ---------------------------------------------------------------------------
proof fn lemma_memories(memories: Seq<DistilledModel>)
    ensures
        memories_problem(memories) is None <==> forall|i: int|
            0 <= i < memories.len() ==> (#[trigger] memories[i]).problem() is None,
    decreases memories.len(),
{
    if memories.len() > 0 {
        let front = memories.drop_last();
        lemma_memories(front);
        assert(memories[memories.len() - 1] == memories.last());
        if memories_problem(memories) is None {
            assert forall|i: int| 0 <= i < memories.len() implies (
            #[trigger] memories[i]).problem() is None by {
                if i < front.len() {
                    assert(front[i] == memories[i]);
                }
            }
        } else if forall|i: int|
            0 <= i < memories.len() ==> (#[trigger] memories[i]).problem() is None {
            assert forall|i: int| 0 <= i < front.len() implies (#[trigger] front[i]).problem()
                is None by {
                assert(front[i] == memories[i]);
            }
        }
    }
}

/// A batch of memories is taken if and only if it has at least one and each is valid.
pub proof fn valid_batches_are_taken(memories: Seq<DistilledModel>)
    ensures
        batch_problem(memories) is None <==> memories.len() > 0 && forall|i: int|
            0 <= i < memories.len() ==> (#[trigger] memories[i]).problem() is None,
{
    lemma_memories(memories);
}

/// What a provider wrote counts for its tokens; its batch is taken as written if it can be read
/// and is valid, and is malformed otherwise. A provider that fails wrote nothing.
pub proof fn replies_are_taken_as_written(reply: MemoryResult<ProviderReply>)
    ensures
        reply is Err <==> reply_model(reply) is Failed,
        reply matches Ok(said) ==> match said.batch {
            Err(_) => reply_model(reply) == (ReplyModel::Malformed { tokens: token_cost(said.text@) }),
            Ok(memories) => if batch_problem(views(memories@)) is None {
                reply_model(reply) == (ReplyModel::Valid {
                    tokens: token_cost(said.text@),
                    memories: views(memories@),
                })
            } else {
                reply_model(reply) == (ReplyModel::Malformed { tokens: token_cost(said.text@) })
            },
        },
{
}

/// A valid reply ends the asking and its memories are taken, first reply or repair. A failure
/// ends it with nothing taken. A malformed reply is asked to be repaired as long as repairs are
/// left, and ends it with nothing taken when none is.
pub proof fn asking_ends_with_a_valid_reply(
    metrics: DistillMetrics,
    repairs: nat,
    max_repairs: nat,
    reply: ReplyModel,
)
    ensures
        ({
            let run = after_reply(metrics, repairs, max_repairs, reply);
            &&& reply matches ReplyModel::Valid { memories, .. } ==> run.progress
                == Progress::Accepted(memories)
            &&& reply is Failed ==> run.progress is Rejected
            &&& reply is Malformed && repairs < max_repairs ==> run.progress is Asking
            &&& reply is Malformed && repairs >= max_repairs ==> run.progress is Rejected
            &&& run.metrics.input_tokens == metrics.input_tokens
            &&& run.metrics.elapsed_ms == metrics.elapsed_ms
        }),
{
}

/// A provider that is asked for the nth time after malformed replies only has been called as
/// often as it replied, asked to repair one time less, and charged with as many malformed
/// replies as it gave; where the last reply is valid, it is the one that is taken.
pub proof fn malformed_replies_are_counted(
    input_tokens: u32,
    max_repairs: nat,
    replies: Seq<ReplyModel>,
)
    requires
        1 <= replies.len() <= max_repairs + 1,
        max_repairs < usize::MAX,
        forall|i: int| 0 <= i < replies.len() - 1 ==> #[trigger] replies[i] is Malformed,
    ensures
        ({
            let run = provider_run(input_tokens, max_repairs, replies);
            let last = replies.last();
            &&& run.metrics.provider_calls == replies.len()
            &&& run.metrics.repair_attempts == replies.len() - 1
            &&& run.metrics.schema_errors == (if last is Malformed {
                replies.len() as int
            } else {
                replies.len() - 1
            })
            &&& run.metrics.provider_errors == (if last is Failed {
                1int
            } else {
                0
            })
            &&& run.metrics.input_tokens == input_tokens
            &&& last matches ReplyModel::Valid { memories, .. } ==> run.progress
                == Progress::Accepted(memories)
        }),
    decreases replies.len(),
{
    let front = replies.drop_last();
    if front.len() > 0 {
        assert forall|i: int| 0 <= i < front.len() - 1 implies #[trigger] front[i] is Malformed by {
            assert(front[i] == replies[i]);
        }
        malformed_replies_are_counted(input_tokens, max_repairs, front);
        assert(front.last() == replies[front.len() - 1]);
    } else {
        assert(provider_run(input_tokens, max_repairs, front).metrics == (DistillMetrics {
            input_tokens,
            ..no_metrics()
        }));
    }
}

/// A prompt costs what its event says and what each of the memories with it says.
pub proof fn prompts_cost_what_they_hold(start: u32, nodes: Seq<NodeModel>, node: NodeModel)
    ensures
        nodes_cost(start, Seq::empty()) == start,
        nodes_cost(start, nodes) + token_cost(node.text) <= u32::MAX ==> nodes_cost(
            start,
            nodes.push(node),
        ) == nodes_cost(start, nodes) + token_cost(node.text),
        start <= nodes_cost(start, nodes),
    decreases nodes.len(),
{
    assert(nodes.push(node).drop_last() =~= nodes);
    if nodes.len() > 0 {
        prompts_cost_what_they_hold(start, nodes.drop_last(), node);
    }
}

// ---------------------------------------------------------------------------
// Commands
// ---------------------------------------------------------------------------
/// A command is read from once it has ended with its input written, however late; it is ended if
/// and only if it is late and not done; and otherwise it is waited for.
pub proof fn commands_are_read_when_done(ended: bool, written: bool, late: bool)
    ensures
        command_action(ended, written, late) == CommandAction::Finish <==> ended && written,
        command_action(ended, written, late) == CommandAction::TimeOut <==> late && !(ended
            && written),
        command_action(ended, written, late) == CommandAction::Wait <==> !late && !(ended
            && written),
{
}

/// A command can be run if and only if it is named, has time, and is an executable file at its
/// path or somewhere in the search path.
pub proof fn executable_commands_can_be_run(
    config: CommandReconstructionProviderConfig,
    found: CommandLookup,
)
    ensures
        config.problem(found) is None <==> config.command@.len() > 0 && config.timeout_ms > 0 && (
        found is Executable || found == CommandLookup::Searched(true)),
        lookup_problem(config.command@, found) is None <==> found is Executable || found
            == CommandLookup::Searched(true),
{
}

// ---------------------------------------------------------------------------
// Rebuilds
// ---------------------------------------------------------------------------
/// How many events some passes projected.
pub open spec fn projected_in(steps: Seq<RebuildStep>) -> nat
    decreases steps.len(),
{
    if steps.len() == 0 {
        0
    } else {
        projected_in(steps.drop_last()) + steps.last().report.events_projected as nat
    }
}

/// A rebuild has as many events left to project as it may project and has not, and never plans a
/// pass over more than a batch or over more than it has left.
pub proof fn rebuilds_keep_to_their_bound(
    batch_size: usize,
    max_events: usize,
    steps: Seq<RebuildStep>,
)
    ensures
        projected_in(steps) <= max_events ==> remaining(max_events, steps) == max_events
            - projected_in(steps),
        projected_in(steps) >= max_events ==> remaining(max_events, steps) == 0,
        next_limit(batch_size, max_events, steps) <= batch_size,
        next_limit(batch_size, max_events, steps) <= remaining(max_events, steps),
        next_limit(batch_size, max_events, steps) == batch_size || next_limit(
            batch_size,
            max_events,
            steps,
        ) == remaining(max_events, steps),
    decreases steps.len(),
{
    if steps.len() > 0 {
        rebuilds_keep_to_their_bound(batch_size, max_events, steps.drop_last());
    }
}

/// A rebuild that came to an end counts every event that its passes projected, and is complete
/// if and only if no event of the ledger waits any more.
pub proof fn rebuilds_are_complete_when_nothing_waits<D: Distiller>(
    distiller: D,
    before: StoreModel,
    after: StoreModel,
    batch_size: usize,
    max_events: Option<usize>,
    now: i64,
    r: MemoryResult<ProjectionRebuildReport>,
    steps: Seq<RebuildStep>,
)
    requires
        rebuild_happened(distiller, before, after, batch_size, max_events, now, r, steps),
        projected_in(steps) <= usize::MAX,
    ensures
        r matches Ok(report) ==> {
            &&& report.completed <==> forall|i: int|
                0 <= i < after.ledger.len() ==> (#[trigger] after.ledger[i]).projected_at_unix_ms
                    is Some
            &&& report.project.events_projected == projected_in(steps)
            &&& report.batch_size == batch_size
            &&& report.max_events == max_events
            &&& max_events matches Some(bound) ==> projected_in(steps) >= bound || (steps.len() > 0
                && steps.last().report.events_projected == 0)
        },
{
    lemma_total(steps);
    rebuilds_keep_to_their_bound(batch_size, event_bound(max_events), steps);
    let waiting = after.ledger.filter(is_pending());
    if waiting.len() > 0 {
        assert(waiting.contains(waiting[0]));
        lemma_filter_contains(after.ledger, is_pending(), waiting[0]);
        let i = choose|i: int| 0 <= i < after.ledger.len() && after.ledger[i] == waiting[0];
        assert(after.ledger[i].projected_at_unix_ms is None);
    } else {
        assert forall|i: int| 0 <= i < after.ledger.len() implies (
        #[trigger] after.ledger[i]).projected_at_unix_ms is Some by {
            assert(after.ledger.contains(after.ledger[i]));
            lemma_filter_contains(after.ledger, is_pending(), after.ledger[i]);
        }
    }
}

proof fn lemma_total(steps: Seq<RebuildStep>)
    requires
        projected_in(steps) <= usize::MAX,
    ensures
        total_report(steps).events_projected == projected_in(steps),
    decreases steps.len(),
{
    if steps.len() > 0 {
        lemma_total(steps.drop_last());
    }
}

// ---------------------------------------------------------------------------
// Keys of versions
// ---------------------------------------------------------------------------
/// Versions of one memory share its key: whenever they begin, what stands before their revision
/// is the key that they were made of.
pub proof fn versions_share_their_family(family: Seq<char>, a: i64, b: i64)
    requires
        !family.contains('|'),
    ensures
        family_key(family) == family,
        family_key(revision(family, a)) == family,
        family_key(revision(family, a)) == family_key(revision(family, b)),
{
    lemma_before_the_mark(family, crate::chars::decimal_int(a as int));
    lemma_before_the_mark(family, crate::chars::decimal_int(b as int));
    if occurs("|rev:"@, family) {
        reveal_strlit("|rev:");
        let at = choose|at: int| occurs_at("|rev:"@, family, at);
        assert(family.subrange(at, at + 5)[0] == family[at]);
        assert("|rev:"@[0] == '|');
        assert(family.contains(family[at]));
    }
}

proof fn lemma_before_the_mark(family: Seq<char>, rest: Seq<char>)
    requires
        !family.contains('|'),
    ensures
        family_key(family + "|rev:"@ + rest) == family,
{
    reveal_strlit("|rev:");
    let mark = "|rev:"@;
    let key = family + mark + rest;
    let n = family.len() as int;
    assert(key.subrange(n, n + 5) =~= mark);
    assert(occurs_at(mark, key, n));
    assert forall|j: int| 0 <= j < n implies !occurs_at(mark, key, j) by {
        if occurs_at(mark, key, j) {
            assert(key.subrange(j, j + 5)[0] == key[j]);
            assert(mark[0] == '|');
            assert(key[j] == family[j]);
            assert(family.contains(family[j]));
        }
    }
    let found = first_occurrence(mark, key);
    assert(occurs_at(mark, key, found) && forall|j: int|
        0 <= j < found ==> !occurs_at(mark, key, j));
    if n < found {
        assert(!occurs_at(mark, key, n));
    }
    if found < n {
        assert(!occurs_at(mark, key, found));
    }
    assert(key.take(n) =~= family);
}

/// A pass is refused for a limit of nothing, and a rebuild for a batch or a bound of nothing.
pub proof fn passes_have_a_limit(limit: usize, batch_size: usize, max_events: Option<usize>)
    ensures
        pass_problem(limit) is None <==> 0 < limit <= i64::MAX,
        rebuild_problem(batch_size, max_events) is None <==> batch_size > 0 && max_events != Some(
            0usize,
        ),
        max_events matches Some(bound) ==> event_bound(max_events) == bound,
        max_events is None ==> event_bound(max_events) == usize::MAX,
{
}

} // verus!
