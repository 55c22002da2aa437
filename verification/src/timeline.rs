//! Versions of one memory on a timeline.
//!
//! As long as a memory is only stated, each version ends where the next begins, whatever the
//! order in which the statements arrived: the windows depend on the beginnings alone.
use vstd::prelude::*;

use crate::glob::{glob, plain, plain_patterns_are_prefixes};
use crate::history::{lemma_family_member, lemma_next_version, nodes_wf};
use crate::model::{MemoryNodeKind, SpanModel};
use crate::order::lemma_ranked_contains;
use crate::projection::{
    base_key, beginning_at, in_family, lemma_revision_pattern, next_version, revision, ByVersion,
};
use crate::rows::{MemoryNode, NodeModel, ScopeKey};
use crate::store::{with_id, StoreModel};
use crate::wording::keys_stand_for_themselves;
use crate::table::{first_index, lemma_filter_contains, lemma_first_index};

verus! {

/// A version ends where the next one begins: at the earliest beginning after its own, or not at
/// all where there is none.
pub open spec fn ends_at_next(
    nodes: Seq<NodeModel>,
    member: spec_fn(NodeModel) -> bool,
    node: NodeModel,
) -> bool {
    match node.valid_to_unix_ms {
        Some(end) => {
            &&& node.valid_from_unix_ms < end
            &&& exists|j: int|
                0 <= j < nodes.len() && member(nodes[j]) && (
                #[trigger] nodes[j]).valid_from_unix_ms == end
            &&& forall|j: int|
                0 <= j < nodes.len() && member(nodes[j]) && (
                #[trigger] nodes[j]).valid_from_unix_ms > node.valid_from_unix_ms ==> end
                    <= nodes[j].valid_from_unix_ms
        },
        None => forall|j: int|
            0 <= j < nodes.len() && member(nodes[j]) ==> (#[trigger] nodes[j]).valid_from_unix_ms
                <= node.valid_from_unix_ms,
    }
}

/// Every version of a memory ends where the next one begins.
pub open spec fn chained(nodes: Seq<NodeModel>, member: spec_fn(NodeModel) -> bool) -> bool {
    forall|i: int|
        0 <= i < nodes.len() && member(#[trigger] nodes[i]) ==> ends_at_next(
            nodes,
            member,
            nodes[i],
        )
}

proof fn lemma_key_in_family(family: Seq<char>, valid_from: i64)
    requires
        plain(family),
    ensures
        glob(family + "|rev:*"@, revision(family, valid_from)),
{
    let key = revision(family, valid_from);
    let prefix = family + "|rev:"@;
    assert(key.take(prefix.len() as int) =~= prefix);
    reveal_strlit("|rev:");
    assert(plain(prefix)) by {
        assert forall|i: int| 0 <= i < prefix.len() implies #[trigger] prefix[i] != '*' && prefix[i]
            != '?' && prefix[i] != '[' && prefix[i] != '\0' by {
            if i < family.len() {
                assert(prefix[i] == family[i]);
            } else {
                assert(prefix[i] == "|rev:"@[i - family.len()]);
            }
        }
    }
    lemma_revision_pattern(family);
    plain_patterns_are_prefixes(prefix, key);
}

/// A node of a memory is among its versions.
proof fn lemma_is_version(
    store: StoreModel,
    scope: ScopeKey,
    kind: MemoryNodeKind,
    family: Seq<char>,
    i: int,
)
    requires
        0 <= i < store.nodes.len(),
        (in_family(scope, kind, family))(store.nodes[i]),
    ensures
        store.family(scope, kind, family).contains(store.nodes[i]),
{
    let member = in_family(scope, kind, family);
    assert(store.nodes.contains(store.nodes[i]));
    lemma_filter_contains(store.nodes, member, store.nodes[i]);
    lemma_ranked_contains::<MemoryNode, ByVersion>(store.nodes.filter(member), store.nodes[i]);
}

proof fn lemma_beginning_chains(
    store: StoreModel,
    scope: ScopeKey,
    kind: MemoryNodeKind,
    family: Seq<char>,
    key: Seq<char>,
    text: Seq<char>,
    valid_from: i64,
    spans: Seq<SpanModel>,
    now: i64,
)
    requires
        chained(store.nodes, in_family(scope, kind, family)),
        first_index(store.family(scope, kind, family), beginning_at(valid_from)) is None,
        key == family || glob(family + "|rev:*"@, key),
    ensures
        match store.begun(scope, kind, family, key, text, valid_from, spans, now) {
            Ok(done) => chained(done.store.nodes, in_family(scope, kind, family)),
            Err(_) => true,
        },
{
    let member = in_family(scope, kind, family);
    if let Ok(done) = store.begun(scope, kind, family, key, text, valid_from, spans, now) {
        let versions = store.family(scope, kind, family);
        let before = store.nodes;
        let after = done.store.nodes;
        let last = before.len() as int;
        lemma_next_version(versions, valid_from);
        lemma_first_index(versions, beginning_at(valid_from));
        assert(after[last] == done.node);
        assert(member(done.node));
        assert forall|i: int| 0 <= i < last implies member(after[i]) == member(before[i])
            && #[trigger] after[i].valid_from_unix_ms == before[i].valid_from_unix_ms by {}
        assert forall|i: int| 0 <= i < last && member(before[i]) implies (
        #[trigger] before[i]).valid_from_unix_ms != valid_from by {
            lemma_is_version(store, scope, kind, family, i);
            let k = choose|k: int| 0 <= k < versions.len() && versions[k] == before[i];
            assert(!(beginning_at(valid_from))(versions[k]));
        }
        assert(ends_at_next(after, member, done.node)) by {
            match next_version(versions, valid_from) {
                Some(next) => {
                    assert forall|j: int|
                        0 <= j < after.len() && member(after[j]) && (
                        #[trigger] after[j]).valid_from_unix_ms
                            > valid_from implies next.valid_from_unix_ms
                        <= after[j].valid_from_unix_ms by {
                        lemma_is_version(store, scope, kind, family, j);
                        let k = choose|k: int|
                            0 <= k < versions.len() && versions[k] == before[j];
                        assert(versions[k].valid_from_unix_ms > valid_from);
                    }
                    lemma_next_is_version(versions, valid_from);
                    let k = choose|k: int| 0 <= k < versions.len() && versions[k] == next;
                    lemma_family_member(store, scope, kind, family, k);
                    let j = choose|j: int| 0 <= j < before.len() && before[j] == next;
                    assert(versions.contains(next));
                    lemma_ranked_contains::<MemoryNode, ByVersion>(before.filter(member), next);
                    lemma_filter_contains(before, member, next);
                    assert(after[j].valid_from_unix_ms == next.valid_from_unix_ms);
                },
                None => {
                    assert forall|j: int|
                        0 <= j < after.len() && member(after[j]) implies (
                    #[trigger] after[j]).valid_from_unix_ms <= valid_from by {
                        if j < last {
                            lemma_is_version(store, scope, kind, family, j);
                            let k = choose|k: int|
                                0 <= k < versions.len() && versions[k] == before[j];
                            assert(versions[k].valid_from_unix_ms <= valid_from);
                        }
                    }
                },
            }
        }
        assert forall|i: int| 0 <= i < after.len() && member(#[trigger] after[i]) implies ends_at_next(
            after,
            member,
            after[i],
        ) by {
            if i < last {
                let old = before[i];
                assert(member(old));
                assert(ends_at_next(before, member, old));
                assert forall|j: int|
                    0 <= j < after.len() && member(after[j]) && j < last implies member(
                    before[j],
                ) && (#[trigger] after[j]).valid_from_unix_ms == before[j].valid_from_unix_ms by {}
                if old.valid_from_unix_ms < valid_from && old.open_after(valid_from) {
                    assert(after[i].valid_to_unix_ms == Some(valid_from));
                    assert forall|j: int|
                        0 <= j < after.len() && member(after[j]) && (
                        #[trigger] after[j]).valid_from_unix_ms
                            > old.valid_from_unix_ms implies valid_from
                        <= after[j].valid_from_unix_ms by {
                        if j < last {
                            assert(member(before[j]));
                            assert(before[j].valid_from_unix_ms > old.valid_from_unix_ms);
                        }
                    }
                } else {
                    assert(after[i] == old);
                    if let Some(end) = old.valid_to_unix_ms {
                        let j = choose|j: int|
                            0 <= j < before.len() && member(before[j]) && (
                            #[trigger] before[j]).valid_from_unix_ms == end;
                        assert(after[j].valid_from_unix_ms == end);
                        assert forall|j: int|
                            0 <= j < after.len() && member(after[j]) && (
                            #[trigger] after[j]).valid_from_unix_ms
                                > old.valid_from_unix_ms implies end
                            <= after[j].valid_from_unix_ms by {
                            if j < last {
                                assert(member(before[j]));
                                assert(before[j].valid_from_unix_ms > old.valid_from_unix_ms);
                            }
                        }
                    } else {
                        assert forall|j: int|
                            0 <= j < after.len() && member(after[j]) implies (
                        #[trigger] after[j]).valid_from_unix_ms <= old.valid_from_unix_ms by {
                            if j < last {
                                assert(member(before[j]));
                                assert(before[j].valid_from_unix_ms <= old.valid_from_unix_ms);
                            }
                        }
                    }
                }
            }
        }
    }
}

proof fn lemma_next_is_version(versions: Seq<NodeModel>, at: i64)
    ensures
        next_version(versions, at) matches Some(next) ==> versions.contains(next),
    decreases versions.len(),
{
    if versions.len() > 0 {
        let front = versions.drop_last();
        lemma_next_is_version(front, at);
        if let Some(next) = next_version(versions, at) {
            if next == versions.last() {
                assert(versions[versions.len() - 1] == next);
            } else {
                let k = choose|k: int| 0 <= k < front.len() && front[k] == next;
                assert(versions[k] == next);
            }
        }
    }
}

proof fn lemma_restating_chains(
    store: StoreModel,
    node: NodeModel,
    text: Seq<char>,
    spans: Seq<SpanModel>,
    now: i64,
    member: spec_fn(NodeModel) -> bool,
    scope: ScopeKey,
    kind: MemoryNodeKind,
    family: Seq<char>,
)
    requires
        nodes_wf(store.nodes),
        store.nodes.contains(node),
        member == in_family(scope, kind, family),
        chained(store.nodes, member),
    ensures
        chained(store.restated(node, text, spans, now).store.nodes, member),
{
    lemma_first_index(store.nodes, with_id(node.id));
    let before = store.nodes;
    let after = store.restated(node, text, spans, now).store.nodes;
    let k = choose|k: int| 0 <= k < before.len() && before[k] == node;
    assert((with_id(node.id))(before[k]));
    let i = first_index(before, with_id(node.id))->0;
    assert(i == k) by {
        if i < k {
            assert(before[i].id != before[k].id);
        }
    }
    assert forall|j: int| 0 <= j < after.len() implies member(after[j]) == member(before[j])
        && (#[trigger] after[j]).valid_from_unix_ms == before[j].valid_from_unix_ms
        && after[j].valid_to_unix_ms == before[j].valid_to_unix_ms by {}
    assert forall|j: int| 0 <= j < after.len() && member(#[trigger] after[j]) implies ends_at_next(
        after,
        member,
        after[j],
    ) by {
        assert(member(before[j]));
        assert(ends_at_next(before, member, before[j]));
        if let Some(end) = before[j].valid_to_unix_ms {
            let n = choose|n: int|
                0 <= n < before.len() && member(before[n]) && (
                #[trigger] before[n]).valid_from_unix_ms == end;
            assert(after[n].valid_from_unix_ms == end);
            assert forall|m: int|
                0 <= m < after.len() && member(after[m]) && (
                #[trigger] after[m]).valid_from_unix_ms > before[j].valid_from_unix_ms implies end
                <= after[m].valid_from_unix_ms by {
                assert(before[m].valid_from_unix_ms > before[j].valid_from_unix_ms);
            }
        } else {
            assert forall|m: int| 0 <= m < after.len() && member(after[m]) implies (
            #[trigger] after[m]).valid_from_unix_ms <= before[j].valid_from_unix_ms by {
                assert(before[m].valid_from_unix_ms <= before[j].valid_from_unix_ms);
            }
        }
    }
}

/// Stating a memory keeps its versions in a chain, whatever time it is stated for: a statement
/// that arrives late takes its place between those that came before and after.
pub proof fn statements_keep_the_chain(
    store: StoreModel,
    scope: ScopeKey,
    kind: MemoryNodeKind,
    text: Seq<char>,
    valid_from: i64,
    spans: Seq<SpanModel>,
    now: i64,
)
    requires
        nodes_wf(store.nodes),
        chained(store.nodes, in_family(scope, kind, base_key(kind, text, spans))),
    ensures
        match store.upserted(scope, kind, text, valid_from, spans, now) {
            Ok(done) => chained(
                done.store.nodes,
                in_family(scope, kind, base_key(kind, text, spans)),
            ),
            Err(_) => true,
        },
{
    reveal(StoreModel::upserted);
    let family = base_key(kind, text, spans);
    let versions = store.family(scope, kind, family);
    lemma_first_index(versions, beginning_at(valid_from));
    match first_index(versions, beginning_at(valid_from)) {
        Some(i) => {
            lemma_family_member(store, scope, kind, family, i);
            lemma_restating_chains(
                store,
                versions[i],
                text,
                spans,
                now,
                in_family(scope, kind, family),
                scope,
                kind,
                family,
            );
        },
        None => {
            if kind != MemoryNodeKind::Episode {
                keys_stand_for_themselves(kind, text);
                lemma_key_in_family(family, valid_from);
            }
            let key = if kind == MemoryNodeKind::Episode {
                family
            } else {
                revision(family, valid_from)
            };
            lemma_beginning_chains(
                store,
                scope,
                kind,
                family,
                key,
                text,
                valid_from,
                spans,
                now,
            );
        },
    }
}

/// Some version of a memory begins at a time.
pub open spec fn begins_at(
    nodes: Seq<NodeModel>,
    member: spec_fn(NodeModel) -> bool,
    time: i64,
) -> bool {
    exists|j: int|
        0 <= j < nodes.len() && member(nodes[j]) && (#[trigger] nodes[j]).valid_from_unix_ms
            == time
}

/// In two lists of nodes the versions of a memory begin at the same times.
pub open spec fn same_beginnings(
    a: Seq<NodeModel>,
    b: Seq<NodeModel>,
    member: spec_fn(NodeModel) -> bool,
) -> bool {
    forall|time: i64| #[trigger] begins_at(a, member, time) == begins_at(b, member, time)
}

proof fn lemma_end_is_bound(
    a: Seq<NodeModel>,
    b: Seq<NodeModel>,
    member: spec_fn(NodeModel) -> bool,
    first: NodeModel,
    second: NodeModel,
)
    requires
        ends_at_next(a, member, first),
        ends_at_next(b, member, second),
        same_beginnings(a, b, member),
        first.valid_from_unix_ms == second.valid_from_unix_ms,
    ensures
        first.valid_to_unix_ms matches Some(end) ==> second.valid_to_unix_ms is Some
            && second.valid_to_unix_ms->0 <= end,
{
    if let Some(end) = first.valid_to_unix_ms {
        assert(begins_at(a, member, end));
        assert(begins_at(b, member, end));
        let m = choose|m: int|
            0 <= m < b.len() && member(b[m]) && (#[trigger] b[m]).valid_from_unix_ms == end;
        assert(b[m].valid_from_unix_ms > second.valid_from_unix_ms);
    }
}

/// The windows of a chain depend on its beginnings alone: where the versions of a memory begin
/// at the same times they also end at the same times, whatever the order in which they came.
pub proof fn windows_depend_on_beginnings_alone(
    a: Seq<NodeModel>,
    b: Seq<NodeModel>,
    member: spec_fn(NodeModel) -> bool,
    i: int,
    j: int,
)
    requires
        chained(a, member),
        chained(b, member),
        same_beginnings(a, b, member),
        0 <= i < a.len(),
        0 <= j < b.len(),
        member(a[i]),
        member(b[j]),
        a[i].valid_from_unix_ms == b[j].valid_from_unix_ms,
    ensures
        a[i].valid_to_unix_ms == b[j].valid_to_unix_ms,
{
    lemma_end_is_bound(a, b, member, a[i], b[j]);
    assert forall|time: i64| #[trigger] begins_at(b, member, time) == begins_at(
        a,
        member,
        time,
    ) by {
        assert(begins_at(a, member, time) == begins_at(b, member, time));
    }
    lemma_end_is_bound(b, a, member, b[j], a[i]);
}

} // verus!
