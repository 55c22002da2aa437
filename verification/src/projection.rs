//! Writes to the ledger and to the projected graph.
//!
//! Each write is stated as a function of the tables before it. Versions of one memory form a
//! family: they share the part of their key before the revision, and a version that begins
//! closes those before it.
use vstd::prelude::*;

use crate::chars::{
    blank, chars_of, contains_text, decimal, decimal_int, decimal_int_text, decimal_text, is_blank,
    occurs, opt_text, same_text, text_of, trim, trimmed,
};
use crate::glob::{glob, is_plain, matches_pattern, plain_patterns_are_prefixes};
use crate::error::{ErrorModel, MemoryError, MemoryResult};
use crate::ledger::{EventModel, LedgerEvent};
use crate::model::{
    copy_opt_text, estimate_tokens, token_cost, CitedSpan, MemoryEdgeKind, MemoryNodeKind,
    SpanModel,
};
use crate::order::{lemma_views_push, ranked, sort_ranked, views, Ranking};
use crate::rows::{
    opt_str, CueEntry, CueModel, EdgeModel, MemoryEdge, MemoryNode, NodeModel, NodeSpan,
    NodeSpanModel, ScopeKey, StoreScope,
};
use crate::store::{
    at_span, environment_or_empty, is_citation, scope_holds, with_id, AtSpan, Citation, MemoryStore,
    StoreModel, WithId,
};
use crate::table::{copy_rows, count_rows, find_row, first_index, has_row, select, some_row, Rule};
use crate::text::{
    at_most, canonical_key, canonical_key_of, stable_id, stable_id_of, str_texts, terms, terms_of,
};

verus! {

// ---------------------------------------------------------------------------
// Texts and keys of versions
// ---------------------------------------------------------------------------
/// The text of a node that is stated again: what it says already, with what is new added.
pub open spec fn merged_text(existing: Seq<char>, incoming: Seq<char>) -> Seq<char> {
    let added = trim(incoming);
    if added.len() == 0 || occurs(added, existing) {
        existing
    } else if blank(existing) {
        added
    } else {
        trim(existing) + " "@ + added
    }
}

/// The text of a node that is stated again.
pub fn merge_node_text(existing: &str, incoming: &str) -> (r: String)
    ensures
        r@ == merged_text(existing@, incoming@),
{
    let added = trimmed(incoming);
    if added.as_str().is_empty() || contains_text(existing, added.as_str()) {
        existing.to_owned()
    } else if is_blank(existing) {
        added
    } else {
        let mut out = trimmed(existing);
        out.append(" ");
        out.append(added.as_str());
        out
    }
}

/// Restating what a node says already changes nothing.
pub proof fn restating_keeps_text(text: Seq<char>, part: Seq<char>)
    requires
        occurs(trim(part), text),
    ensures
        merged_text(text, part) == text,
{
}

/// The key of a version: that of its family, and the time it begins.
pub open spec fn revision(family: Seq<char>, valid_from: i64) -> Seq<char> {
    family + "|rev:"@ + decimal_int(valid_from as int)
}

/// The key of a version: that of its family, and the time it begins.
pub fn revision_key(canonical_key: &str, valid_from_unix_ms: i64) -> (r: String)
    ensures
        r@ == revision(canonical_key@, valid_from_unix_ms),
{
    let mut out = canonical_key.to_owned();
    out.append("|rev:");
    let stamp = decimal_int_text(valid_from_unix_ms);
    out.append(stamp.as_str());
    out
}

/// The family that a memory belongs to: an episode is its place in the trace, anything else
/// the kind and the telling terms of its text.
pub open spec fn base_key(
    kind: MemoryNodeKind,
    text: Seq<char>,
    spans: Seq<SpanModel>,
) -> Seq<char> {
    if kind == MemoryNodeKind::Episode && spans.len() > 0 {
        "episode:"@ + spans[0].trace_id + ":"@ + spans[0].span_id + ":"@ + decimal(
            spans[0].seq as nat,
        )
    } else {
        canonical_key_of(kind.name(), text)
    }
}

fn base_key_for(kind: MemoryNodeKind, text: &str, cited_spans: &[CitedSpan]) -> (r: String)
    ensures
        r@ == base_key(kind, text@, views(cited_spans@)),
{
    if kind == MemoryNodeKind::Episode && cited_spans.len() > 0 {
        let mut key = "episode:".to_owned();
        key.append(cited_spans[0].trace_id.as_str());
        key.append(":");
        key.append(cited_spans[0].span_id.as_str());
        key.append(":");
        let seq = decimal_text(cited_spans[0].seq);
        key.append(seq.as_str());
        key
    } else {
        canonical_key(kind.as_str(), text)
    }
}

pub open spec fn starts_with(text: Seq<char>, prefix: Seq<char>) -> bool {
    prefix.len() <= text.len() && text.take(prefix.len() as int) == prefix
}

fn begins_with(text: &str, prefix: &str) -> (r: bool)
    ensures
        r == starts_with(text@, prefix@),
{
    let whole = chars_of(text);
    let part = chars_of(prefix);
    if part.len() > whole.len() {
        return false;
    }
    let head = text_of(&whole, 0, part.len());
    proof {
        assert(head@ =~= text@.take(prefix@.len() as int));
    }
    same_text(head.as_str(), prefix)
}

/// The identifier of a node.
pub open spec fn node_id_of(scope: ScopeKey, kind: MemoryNodeKind, key: Seq<char>) -> Seq<char> {
    stable_id_of(
        "node"@,
        seq![scope.tenant_id, scope.project_id, scope.environment(), kind.name(), key],
    )
}

fn node_id_for(scope: &StoreScope<'_>, kind: MemoryNodeKind, key: &str) -> (r: String)
    ensures
        r@ == node_id_of(scope@, kind, key@),
{
    let parts = [
        scope.tenant_id,
        scope.project_id,
        environment_or_empty(scope),
        kind.as_str(),
        key,
    ];
    proof {
        assert(str_texts(parts@) =~= seq![
            scope@.tenant_id,
            scope@.project_id,
            scope@.environment(),
            kind.name(),
            key@,
        ]);
    }
    stable_id("node", &parts)
}

// ---------------------------------------------------------------------------
// Families
// ---------------------------------------------------------------------------
/// The versions of one memory: they have its key, or one that the pattern of its revisions
/// stands for.
pub open spec fn in_family(scope: ScopeKey, kind: MemoryNodeKind, family: Seq<char>) -> spec_fn(
    NodeModel,
) -> bool {
    |node: NodeModel|
        node.in_scope(scope) && node.kind == kind && (node.canonical_key == family || glob(
            family + "|rev:*"@,
            node.canonical_key,
        ))
}

/// The pattern of the revisions of a memory.
pub proof fn lemma_revision_pattern(family: Seq<char>)
    ensures
        family + "|rev:*"@ == family + "|rev:"@ + "*"@,
{
    reveal_strlit("|rev:*");
    reveal_strlit("|rev:");
    reveal_strlit("*");
    assert(family + "|rev:*"@ =~= family + "|rev:"@ + "*"@);
}

pub struct InFamily<'a> {
    pub scope: StoreScope<'a>,
    pub kind: MemoryNodeKind,
    pub family: &'a str,
}

impl<'a> Rule<MemoryNode> for InFamily<'a> {
    open spec fn test(&self) -> spec_fn(NodeModel) -> bool {
        in_family(self.scope@, self.kind, self.family@)
    }

    fn admits(&self, row: &MemoryNode) -> (r: bool) {
        if row.kind != self.kind || !scope_holds(
            &self.scope,
            row.tenant_id.as_str(),
            row.project_id.as_str(),
            &row.environment_id,
        ) {
            return false;
        }
        if same_text(row.canonical_key.as_str(), self.family) {
            return true;
        }
        let revisions = self.family.to_owned().concat("|rev:");
        if is_plain(revisions.as_str()) {
            proof {
                lemma_revision_pattern(self.family@);
                plain_patterns_are_prefixes(revisions@, row.canonical_key@);
            }
            return begins_with(row.canonical_key.as_str(), revisions.as_str());
        }
        let pattern = self.family.to_owned().concat("|rev:*");
        matches_pattern(pattern.as_str(), row.canonical_key.as_str())
    }
}

/// Later versions first; among versions of one time, the one written last first.
pub struct ByVersion;

impl Ranking<MemoryNode> for ByVersion {
    open spec fn before(a: NodeModel, b: NodeModel) -> bool {
        a.valid_from_unix_ms > b.valid_from_unix_ms || (a.valid_from_unix_ms == b.valid_from_unix_ms
            && a.updated_at_unix_ms > b.updated_at_unix_ms)
    }

    fn precedes(a: &MemoryNode, b: &MemoryNode) -> (r: bool) {
        a.valid_from_unix_ms > b.valid_from_unix_ms || (a.valid_from_unix_ms == b.valid_from_unix_ms
            && a.updated_at_unix_ms > b.updated_at_unix_ms)
    }

    proof fn lawful() {
    }
}

/// Versions that begin at a time.
pub open spec fn beginning_at(at: i64) -> spec_fn(NodeModel) -> bool {
    |node: NodeModel| node.valid_from_unix_ms == at
}

pub struct BeginningAt {
    pub at: i64,
}

impl Rule<MemoryNode> for BeginningAt {
    open spec fn test(&self) -> spec_fn(NodeModel) -> bool {
        beginning_at(self.at)
    }

    fn admits(&self, row: &MemoryNode) -> (r: bool) {
        row.valid_from_unix_ms == self.at
    }
}

/// Versions that begin at a time and say exactly a text.
pub open spec fn saying_at(at: i64, text: Seq<char>) -> spec_fn(NodeModel) -> bool {
    |node: NodeModel| node.valid_from_unix_ms == at && node.text == text
}

pub struct SayingAt<'a> {
    pub at: i64,
    pub text: &'a str,
}

impl<'a> Rule<MemoryNode> for SayingAt<'a> {
    open spec fn test(&self) -> spec_fn(NodeModel) -> bool {
        saying_at(self.at, self.text@)
    }

    fn admits(&self, row: &MemoryNode) -> (r: bool) {
        row.valid_from_unix_ms == self.at && same_text(row.text.as_str(), self.text)
    }
}

/// Of some versions, the one that begins next after a time.
pub open spec fn next_version(versions: Seq<NodeModel>, at: i64) -> Option<NodeModel>
    decreases versions.len(),
{
    if versions.len() == 0 {
        None
    } else {
        let best = next_version(versions.drop_last(), at);
        let last = versions.last();
        if last.valid_from_unix_ms <= at {
            best
        } else {
            match best {
                Some(node) => if last.valid_from_unix_ms < node.valid_from_unix_ms {
                    Some(last)
                } else {
                    best
                },
                None => Some(last),
            }
        }
    }
}

fn next_version_in(versions: &Vec<MemoryNode>, at: i64) -> (r: Option<MemoryNode>)
    ensures
        match (r, next_version(views(versions@), at)) {
            (Some(node), Some(model)) => node@ == model,
            (None, None) => true,
            _ => false,
        },
{
    let ghost all = views(versions@);
    let mut best: Option<usize> = None;
    let mut i: usize = 0;
    proof {
        assert(all.take(0) =~= Seq::empty());
    }
    while i < versions.len()
        invariant
            i <= versions@.len(),
            all == views(versions@),
            match (best, next_version(all.take(i as int), at)) {
                (Some(k), Some(model)) => k < versions@.len() && versions@[k as int]@ == model,
                (None, None) => true,
                _ => false,
            },
        decreases versions.len() - i,
    {
        proof {
            assert(all.take(i as int + 1).drop_last() =~= all.take(i as int));
            assert(all.take(i as int + 1).last() == versions@[i as int]@);
        }
        if versions[i].valid_from_unix_ms > at {
            best = match best {
                Some(k) => if versions[i].valid_from_unix_ms < versions[k].valid_from_unix_ms {
                    Some(i)
                } else {
                    Some(k)
                },
                None => Some(i),
            };
        }
        i += 1;
    }
    proof {
        assert(all.take(i as int) =~= all);
    }
    match best {
        Some(k) => Some(versions[k].clone()),
        None => None,
    }
}

// ---------------------------------------------------------------------------
// Closing
// ---------------------------------------------------------------------------
impl NodeModel {
    /// The node is not closed by a time.
    pub open spec fn open_after(self, at: i64) -> bool {
        match self.valid_to_unix_ms {
            Some(end) => end > at,
            None => true,
        }
    }

    /// The node closed at a time by an event.
    pub open spec fn closed_at(self, at: i64, event: Option<i64>) -> NodeModel {
        NodeModel { valid_to_unix_ms: Some(at), valid_to_event_id: event, ..self }
    }

    /// Closing the node at a time by an event changes it: it has begun, and is not closed
    /// earlier, nor at that time by an earlier event.
    pub open spec fn closes(self, at: i64, event: Option<i64>) -> bool {
        self.valid_from_unix_ms <= at && match self.valid_to_unix_ms {
            None => true,
            Some(end) => end > at || (end == at && event is Some && match self.valid_to_event_id {
                Some(closer) => closer > event->0,
                None => true,
            }),
        }
    }

    /// The node after a version of its family begins at a time.
    pub open spec fn followed_at(self, at: i64, event: Option<i64>) -> NodeModel {
        if self.valid_from_unix_ms <= at && self.open_after(at) {
            self.closed_at(at, event)
        } else {
            self
        }
    }
}

/// The nodes after a version of a family begins at a time.
pub open spec fn followed(
    nodes: Seq<NodeModel>,
    member: spec_fn(NodeModel) -> bool,
    at: i64,
    event: Option<i64>,
) -> Seq<NodeModel> {
    Seq::new(
        nodes.len(),
        |i: int|
            if member(nodes[i]) {
                nodes[i].followed_at(at, event)
            } else {
                nodes[i]
            },
    )
}

fn close_members(
    nodes: &Vec<MemoryNode>,
    family: &InFamily<'_>,
    at: i64,
    event: Option<i64>,
) -> (r: Vec<MemoryNode>)
    ensures
        views(r@) == followed(views(nodes@), family.test(), at, event),
{
    let ghost all = views(nodes@);
    let mut out: Vec<MemoryNode> = Vec::new();
    let mut i: usize = 0;
    while i < nodes.len()
        invariant
            i <= nodes@.len(),
            all == views(nodes@),
            views(out@) == followed(all, family.test(), at, event).take(i as int),
        decreases nodes.len() - i,
    {
        let ghost before = out@;
        let mut node = nodes[i].clone();
        if node.valid_from_unix_ms <= at && (match node.valid_to_unix_ms {
            Some(end) => end > at,
            None => true,
        }) && family.admits(&nodes[i]) {
            node.valid_to_unix_ms = Some(at);
            node.valid_to_event_id = event;
        }
        let ghost row = node@;
        out.push(node);
        proof {
            lemma_views_push(before, node);
            assert(row == followed(all, family.test(), at, event)[i as int]);
            assert(views(out@) =~= followed(all, family.test(), at, event).take(i as int + 1));
        }
        i += 1;
    }
    proof {
        assert(followed(all, family.test(), at, event).take(i as int) =~= followed(
            all,
            family.test(),
            at,
            event,
        ));
    }
    out
}

// ---------------------------------------------------------------------------
// Provenance and cues
// ---------------------------------------------------------------------------
/// The provenance table with some places cited by a node, each once.
pub open spec fn attached(
    rows: Seq<NodeSpanModel>,
    node_id: Seq<char>,
    spans: Seq<SpanModel>,
) -> Seq<NodeSpanModel>
    decreases spans.len(),
{
    if spans.len() == 0 {
        rows
    } else {
        let front = attached(rows, node_id, spans.drop_last());
        if some_row(front, is_citation(node_id, spans.last())) {
            front
        } else {
            front.push(NodeSpanModel { node_id, span: spans.last() })
        }
    }
}

fn attach_spans(rows: &mut Vec<NodeSpan>, node_id: &str, cited_spans: &[CitedSpan])
    ensures
        views(final(rows)@) == attached(views(old(rows)@), node_id@, views(cited_spans@)),
{
    let ghost start = views(rows@);
    let ghost all = views(cited_spans@);
    let mut i: usize = 0;
    proof {
        assert(all.take(0) =~= Seq::empty());
    }
    while i < cited_spans.len()
        invariant
            i <= cited_spans@.len(),
            all == views(cited_spans@),
            views(rows@) == attached(start, node_id@, all.take(i as int)),
        decreases cited_spans.len() - i,
    {
        proof {
            assert(all.take(i as int + 1).drop_last() =~= all.take(i as int));
            assert(all.take(i as int + 1).last() == cited_spans@[i as int]@);
        }
        if !has_row(&*rows, &Citation { node_id, span: &cited_spans[i] }) {
            let ghost before = rows@;
            let row = NodeSpan { node_id: node_id.to_owned(), span: cited_spans[i].clone() };
            let ghost model = row@;
            rows.push(row);
            proof {
                lemma_views_push(before, row);
                assert(model == (NodeSpanModel { node_id: node_id@, span: all[i as int] }));
            }
        }
        i += 1;
    }
    proof {
        assert(all.take(i as int) =~= all);
    }
}

/// The strength of a cue: the place of its term, up to a floor.
pub open spec fn cue_rank(place: int) -> u32 {
    if place < 53 {
        place as u32
    } else {
        53
    }
}

/// The cues that lead to a node: its first terms.
pub open spec fn node_cues(node: NodeModel) -> Seq<CueModel> {
    let found = at_most(terms_of(node.text), 64);
    Seq::new(
        found.len(),
        |i: int|
            CueModel {
                term: found[i],
                node_id: node.id,
                tenant_id: node.tenant_id,
                project_id: node.project_id,
                environment_id: node.environment_id,
                rank: cue_rank(i),
            },
    )
}

/// Cues of other nodes.
pub open spec fn cue_of_other(node_id: Seq<char>) -> spec_fn(CueModel) -> bool {
    |cue: CueModel| cue.node_id != node_id
}

pub struct CueOfOther<'a> {
    pub node_id: &'a str,
}

impl<'a> Rule<CueEntry> for CueOfOther<'a> {
    open spec fn test(&self) -> spec_fn(CueModel) -> bool {
        cue_of_other(self.node_id@)
    }

    fn admits(&self, row: &CueEntry) -> (r: bool) {
        !same_text(row.node_id.as_str(), self.node_id)
    }
}

/// The cue table with the cues of a node renewed.
pub open spec fn reindexed(cues: Seq<CueModel>, node: NodeModel) -> Seq<CueModel> {
    cues.filter(cue_of_other(node.id)) + node_cues(node)
}

fn reindex_node(cues: &Vec<CueEntry>, node: &MemoryNode) -> (r: Vec<CueEntry>)
    ensures
        views(r@) == reindexed(views(cues@), node@),
{
    let mut out = select(cues, &CueOfOther { node_id: node.id.as_str() });
    let ghost kept = views(out@);
    let found = terms(node.text.as_str());
    let ghost model = node_cues(node@);
    let mut i: usize = 0;
    proof {
        assert(kept + model.take(0) =~= kept);
    }
    while i < found.len() && i < 64
        invariant
            i <= found@.len(),
            i <= 64,
            crate::chars::texts(found@) == terms_of(node@.text),
            model == node_cues(node@),
            views(out@) == kept + model.take(i as int),
        decreases found.len() - i,
    {
        let ghost before = out@;
        let cue = CueEntry {
            term: found[i].clone(),
            node_id: node.id.clone(),
            tenant_id: node.tenant_id.clone(),
            project_id: node.project_id.clone(),
            environment_id: copy_opt_text(&node.environment_id),
            rank: if i < 53 {
                i as u32
            } else {
                53
            },
        };
        let ghost row = cue@;
        out.push(cue);
        proof {
            lemma_views_push(before, cue);
            assert(crate::chars::texts(found@)[i as int] == found@[i as int]@);
            assert(row == model[i as int]);
            assert(views(out@) =~= kept + model.take(i as int + 1));
        }
        i += 1;
    }
    proof {
        assert(model.take(i as int) =~= model);
    }
    out
}

// ---------------------------------------------------------------------------
// Upserts
// ---------------------------------------------------------------------------
pub open spec fn raised_confidence(confidence: u32) -> u32 {
    if confidence >= 95 {
        100
    } else {
        (confidence + 5) as u32
    }
}

pub open spec fn one_more(count: u32) -> u32 {
    if count == u32::MAX {
        count
    } else {
        (count + 1) as u32
    }
}

impl NodeModel {
    /// The node after it is stated again.
    pub open spec fn observed_again(self, text: Seq<char>, now: i64) -> NodeModel {
        let merged = merged_text(self.text, text);
        NodeModel {
            text: merged,
            updated_at_unix_ms: now,
            confidence: raised_confidence(self.confidence),
            token_estimate: token_cost(merged),
            observation_count: one_more(self.observation_count),
            ..self
        }
    }
}

/// The error of a table that refuses a second row with an identifier.
pub open spec fn duplicate_node_error() -> ErrorModel {
    ErrorModel::Sqlite("UNIQUE constraint failed: memory_nodes.id"@)
}

/// The error of a table that has no identifier left.
pub open spec fn table_full_error() -> ErrorModel {
    ErrorModel::Sqlite("database or disk is full"@)
}

/// What an upsert leaves behind: the tables, the node, and whether the node is new.
pub struct Upsert {
    pub store: StoreModel,
    pub node: NodeModel,
    pub created: bool,
}

impl StoreModel {
    /// The versions of one memory, later ones first.
    pub open spec fn family(
        self,
        scope: ScopeKey,
        kind: MemoryNodeKind,
        family: Seq<char>,
    ) -> Seq<NodeModel> {
        ranked::<MemoryNode, ByVersion>(self.nodes.filter(in_family(scope, kind, family)))
    }

    /// The tables after a version is stated again. An entry of the ledger that comes after the
    /// version's own first entry is only cited by it.
    pub open spec fn restated(
        self,
        node: NodeModel,
        text: Seq<char>,
        spans: Seq<SpanModel>,
        now: i64,
    ) -> Upsert {
        let current = self.event_of(spans);
        let first = self.first_event_id(node.id);
        let cited = StoreModel { spans: attached(self.spans, node.id, spans), ..self };
        if current is Some && first is Some && current->0 > first->0 {
            Upsert { store: cited, node, created: false }
        } else {
            let again = node.observed_again(text, now);
            Upsert {
                store: StoreModel {
                    nodes: match first_index(self.nodes, with_id(node.id)) {
                        Some(i) => self.nodes.update(i, again),
                        None => self.nodes,
                    },
                    cues: reindexed(self.cues, again),
                    ..cited
                },
                node: again,
                created: false,
            }
        }
    }

    /// The tables after a version begins. It closes the versions before it, and ends where the
    /// next one begins.
    pub open spec fn begun(
        self,
        scope: ScopeKey,
        kind: MemoryNodeKind,
        family: Seq<char>,
        key: Seq<char>,
        text: Seq<char>,
        valid_from: i64,
        spans: Seq<SpanModel>,
        now: i64,
    ) -> Result<Upsert, ErrorModel> {
        let next = next_version(self.family(scope, kind, family), valid_from);
        let node = NodeModel {
            id: node_id_of(scope, kind, key),
            tenant_id: scope.tenant_id,
            project_id: scope.project_id,
            environment_id: scope.environment_id,
            kind,
            text,
            canonical_key: key,
            created_at_unix_ms: now,
            updated_at_unix_ms: now,
            valid_from_unix_ms: valid_from,
            valid_to_unix_ms: match next {
                Some(successor) => Some(successor.valid_from_unix_ms),
                None => None,
            },
            valid_to_event_id: match next {
                Some(successor) => self.first_event_id(successor.id),
                None => None,
            },
            confidence: 65,
            token_estimate: token_cost(text),
            observation_count: 1,
        };
        if some_row(self.nodes, with_id(node.id)) {
            Err(duplicate_node_error())
        } else {
            Ok(
                Upsert {
                    store: StoreModel {
                        nodes: followed(
                            self.nodes,
                            in_family(scope, kind, family),
                            valid_from,
                            self.event_of(spans),
                        ).push(node),
                        spans: attached(self.spans, node.id, spans),
                        cues: reindexed(self.cues, node),
                        ..self
                    },
                    node,
                    created: true,
                },
            )
        }
    }

    /// The tables after a memory is stated at a time.
    #[verifier::opaque]
    pub open spec fn upserted(
        self,
        scope: ScopeKey,
        kind: MemoryNodeKind,
        text: Seq<char>,
        valid_from: i64,
        spans: Seq<SpanModel>,
        now: i64,
    ) -> Result<Upsert, ErrorModel> {
        let family = base_key(kind, text, spans);
        let versions = self.family(scope, kind, family);
        match first_index(versions, beginning_at(valid_from)) {
            Some(i) => Ok(self.restated(versions[i], text, spans, now)),
            None => self.begun(
                scope,
                kind,
                family,
                if kind == MemoryNodeKind::Episode {
                    family
                } else {
                    revision(family, valid_from)
                },
                text,
                valid_from,
                spans,
                now,
            ),
        }
    }

    /// The key of a version that begins in a family: one that begins where others of the
    /// family begin too is told apart by their number.
    pub open spec fn family_revision(
        self,
        scope: ScopeKey,
        kind: MemoryNodeKind,
        family: Seq<char>,
        valid_from: i64,
    ) -> Seq<char> {
        let beside = self.family(scope, kind, family).filter(beginning_at(valid_from)).len();
        if beside == 0 {
            revision(family, valid_from)
        } else {
            revision(family, valid_from) + "."@ + decimal(beside)
        }
    }

    /// The tables after a memory is stated at a time as a version of a given family.
    #[verifier::opaque]
    pub open spec fn upserted_in_family(
        self,
        scope: ScopeKey,
        kind: MemoryNodeKind,
        family: Seq<char>,
        text: Seq<char>,
        valid_from: i64,
        spans: Seq<SpanModel>,
        now: i64,
    ) -> Result<Upsert, ErrorModel> {
        let versions = self.family(scope, kind, family);
        match first_index(versions, saying_at(valid_from, text)) {
            Some(i) => Ok(self.restated(versions[i], text, spans, now)),
            None => self.begun(
                scope,
                kind,
                family,
                self.family_revision(scope, kind, family, valid_from),
                text,
                valid_from,
                spans,
                now,
            ),
        }
    }

    /// The version of a memory that begins at a time, found by what it says.
    #[verifier::opaque]
    pub open spec fn version_by_text(
        self,
        scope: ScopeKey,
        kind: MemoryNodeKind,
        text: Seq<char>,
        valid_from: i64,
    ) -> Option<NodeModel> {
        let versions = self.family(scope, kind, canonical_key_of(kind.name(), text));
        match first_index(versions, beginning_at(valid_from)) {
            Some(i) => Some(versions[i]),
            None => None,
        }
    }

    /// The tables after a node is closed, and whether that changed it.
    #[verifier::opaque]
    pub open spec fn invalidated(self, node_id: Seq<char>, at: i64, event: Option<i64>) -> (
        StoreModel,
        bool,
    ) {
        match first_index(self.nodes, with_id(node_id)) {
            Some(i) => if self.nodes[i].closes(at, event) {
                (
                    StoreModel {
                        nodes: self.nodes.update(i, self.nodes[i].closed_at(at, event)),
                        ..self
                    },
                    true,
                )
            } else {
                (self, false)
            },
            None => (self, false),
        }
    }
}

/// An upsert came out as its model says, and an error left the tables alone.
pub open spec fn upsert_is(
    r: MemoryResult<(MemoryNode, bool)>,
    before: StoreModel,
    after: StoreModel,
    model: Result<Upsert, ErrorModel>,
) -> bool {
    match (r, model) {
        (Ok((node, created)), Ok(upsert)) => after == upsert.store && node@ == upsert.node
            && created == upsert.created,
        (Err(error), Err(words)) => error@ == words && after == before,
        _ => false,
    }
}

/// Edges between two nodes of one kind.
pub open spec fn is_edge(
    from_node_id: Seq<char>,
    to_node_id: Seq<char>,
    kind: MemoryEdgeKind,
) -> spec_fn(EdgeModel) -> bool {
    |edge: EdgeModel|
        edge.from_node_id == from_node_id && edge.to_node_id == to_node_id && edge.kind == kind
}

pub struct SameEdge<'a> {
    pub from_node_id: &'a str,
    pub to_node_id: &'a str,
    pub kind: MemoryEdgeKind,
}

impl<'a> Rule<MemoryEdge> for SameEdge<'a> {
    open spec fn test(&self) -> spec_fn(EdgeModel) -> bool {
        is_edge(self.from_node_id@, self.to_node_id@, self.kind)
    }

    fn admits(&self, row: &MemoryEdge) -> (r: bool) {
        row.kind == self.kind && same_text(row.from_node_id.as_str(), self.from_node_id)
            && same_text(row.to_node_id.as_str(), self.to_node_id)
    }
}

impl StoreModel {
    /// The tables after an edge is added, and whether it is new. No node is linked to itself,
    /// and no two nodes twice by one kind.
    #[verifier::opaque]
    pub open spec fn linked(
        self,
        scope: ScopeKey,
        from_node_id: Seq<char>,
        to_node_id: Seq<char>,
        kind: MemoryEdgeKind,
        weight: u32,
        created_at: i64,
    ) -> Result<(StoreModel, bool), ErrorModel> {
        if from_node_id == to_node_id || some_row(
            self.edges,
            is_edge(from_node_id, to_node_id, kind),
        ) {
            Ok((self, false))
        } else if self.last_edge_id == i64::MAX {
            Err(table_full_error())
        } else {
            let id = (self.last_edge_id + 1) as i64;
            Ok(
                (
                    StoreModel {
                        edges: self.edges.push(
                            EdgeModel {
                                id,
                                tenant_id: scope.tenant_id,
                                project_id: scope.project_id,
                                environment_id: scope.environment_id,
                                from_node_id,
                                to_node_id,
                                kind,
                                weight,
                                created_at_unix_ms: created_at,
                            },
                        ),
                        last_edge_id: id,
                        ..self
                    },
                    true,
                ),
            )
        }
    }

    /// The tables after a valid event is appended, and whether it is new. The ledger holds one
    /// event for each place in a trace.
    pub open spec fn appended(self, event: EventModel) -> Result<(StoreModel, bool), ErrorModel> {
        match event.problem() {
            Some(problem) => Err(ErrorModel::InvalidInput(problem)),
            None => if some_row(self.ledger, at_span(event.span())) {
                Ok((self, false))
            } else if self.last_event_id == i64::MAX {
                Err(table_full_error())
            } else {
                let id = (self.last_event_id + 1) as i64;
                Ok(
                    (
                        StoreModel {
                            ledger: self.ledger.push(EventModel { id: Some(id), ..event }),
                            last_event_id: id,
                            ..self
                        },
                        true,
                    ),
                )
            },
        }
    }

    /// The tables after an event is marked as projected.
    pub open spec fn marked(self, event_id: i64, at: i64) -> StoreModel {
        StoreModel { ledger: marked_rows(self.ledger, event_id, at), ..self }
    }
}

/// The ledger after an event is marked as projected.
pub open spec fn marked_rows(ledger: Seq<EventModel>, event_id: i64, at: i64) -> Seq<EventModel> {
    Seq::new(
        ledger.len(),
        |i: int|
            if ledger[i].id == Some(event_id) {
                EventModel { projected_at_unix_ms: Some(at), ..ledger[i] }
            } else {
                ledger[i]
            },
    )
}

/// A write came out as its model says, and an error left the tables alone.
pub open spec fn write_is(
    r: MemoryResult<bool>,
    before: StoreModel,
    after: StoreModel,
    model: Result<(StoreModel, bool), ErrorModel>,
) -> bool {
    match (r, model) {
        (Ok(done), Ok((store, changed))) => after == store && done == changed,
        (Err(error), Err(words)) => error@ == words && after == before,
        _ => false,
    }
}

fn copy_opt_str(value: Option<&str>) -> (r: Option<String>)
    ensures
        opt_text(r) == opt_str(value),
{
    match value {
        Some(text) => Some(text.to_owned()),
        None => None,
    }
}

impl MemoryStore {
    /// A copy of the tables.
    pub fn snapshot(&self) -> (r: MemoryStore)
        ensures
            r@ == self@,
    {
        MemoryStore {
            ledger: copy_rows(&self.ledger),
            nodes: copy_rows(&self.nodes),
            edges: copy_rows(&self.edges),
            spans: copy_rows(&self.spans),
            cues: copy_rows(&self.cues),
            audit: copy_rows(&self.audit),
            last_event_id: self.last_event_id,
            last_edge_id: self.last_edge_id,
            last_audit_id: self.last_audit_id,
        }
    }

    /// Appends a valid event, unless the ledger holds one for its place in the trace.
    pub fn append_event(&mut self, event: &LedgerEvent) -> (r: MemoryResult<bool>)
        ensures
            write_is(r, old(self)@, final(self)@, old(self)@.appended(event@)),
    {
        event.validate()?;
        let span = event.cited_span();
        if has_row(&self.ledger, &AtSpan { span: &span }) {
            return Ok(false);
        }
        if self.last_event_id == i64::MAX {
            return Err(MemoryError::Sqlite("database or disk is full".to_owned()));
        }
        let id: i64 = self.last_event_id + 1;
        let mut row = event.clone();
        row.id = Some(id);
        let ghost before = self.ledger@;
        let ghost model = row@;
        self.ledger.push(row);
        self.last_event_id = id;
        proof {
            lemma_views_push(before, row);
            assert(model == (EventModel { id: Some(id), ..event@ }));
        }
        Ok(true)
    }

    /// Marks an event as projected.
    pub fn mark_projected(&mut self, event_id: i64, projected_at_unix_ms: i64)
        ensures
            final(self)@ == old(self)@.marked(event_id, projected_at_unix_ms),
    {
        let ghost all = views(self.ledger@);
        let ghost target = marked_rows(all, event_id, projected_at_unix_ms);
        let mut rows: Vec<LedgerEvent> = Vec::new();
        let mut i: usize = 0;
        while i < self.ledger.len()
            invariant
                i <= self.ledger@.len(),
                *self == *old(self),
                all == views(self.ledger@),
                target == marked_rows(all, event_id, projected_at_unix_ms),
                views(rows@) == target.take(i as int),
            decreases self.ledger.len() - i,
        {
            let ghost before = rows@;
            let mut row = self.ledger[i].clone();
            if let Some(id) = row.id {
                if id == event_id {
                    row.projected_at_unix_ms = Some(projected_at_unix_ms);
                }
            }
            let ghost model = row@;
            rows.push(row);
            proof {
                lemma_views_push(before, row);
                assert(model == target[i as int]);
                assert(views(rows@) =~= target.take(i as int + 1));
            }
            i += 1;
        }
        proof {
            assert(target.take(i as int) =~= target);
        }
        self.ledger = rows;
    }

    /// The versions of one memory, later ones first.
    fn node_family(&self, family: &InFamily<'_>) -> (r: Vec<MemoryNode>)
        ensures
            views(r@) == self@.family(family.scope@, family.kind, family.family@),
    {
        let members = select(&self.nodes, family);
        sort_ranked::<MemoryNode, ByVersion>(members)
    }

    fn restate(
        &mut self,
        node: MemoryNode,
        text: &str,
        cited_spans: &[CitedSpan],
        now: i64,
    ) -> (r: MemoryNode)
        ensures
            ({
                let upsert = old(self)@.restated(node@, text@, views(cited_spans@), now);
                final(self)@ == upsert.store && r@ == upsert.node && !upsert.created
            }),
    {
        let current = self.event_id_for_spans(cited_spans);
        let first = self.first_event_id_for_node(node.id.as_str());
        let ghost start = self@;
        attach_spans(&mut self.spans, node.id.as_str(), cited_spans);
        let comes_later = match (current, first) {
            (Some(now_id), Some(first_id)) => now_id > first_id,
            _ => false,
        };
        if comes_later {
            return node;
        }
        let merged = merge_node_text(node.text.as_str(), text);
        let token_estimate: u32 = estimate_tokens(merged.as_str());
        let mut again = node;
        again.text = merged;
        again.updated_at_unix_ms = now;
        again.confidence = if again.confidence >= 95 {
            100
        } else {
            again.confidence + 5
        };
        again.token_estimate = token_estimate;
        again.observation_count = if again.observation_count == u32::MAX {
            again.observation_count
        } else {
            again.observation_count + 1
        };
        if let Some(i) = find_row(&self.nodes, &WithId { id: again.id.as_str() }) {
            let row = again.clone();
            self.nodes.set(i, row);
            proof {
                assert(self@.nodes =~= start.nodes.update(i as int, again@));
            }
        }
        let cues = reindex_node(&self.cues, &again);
        self.cues = cues;
        again
    }

    fn begin(
        &mut self,
        family: &InFamily<'_>,
        key: String,
        text: &str,
        valid_from_unix_ms: i64,
        cited_spans: &[CitedSpan],
        now: i64,
    ) -> (r: MemoryResult<(MemoryNode, bool)>)
        ensures
            upsert_is(
                r,
                old(self)@,
                final(self)@,
                old(self)@.begun(
                    family.scope@,
                    family.kind,
                    family.family@,
                    key@,
                    text@,
                    valid_from_unix_ms,
                    views(cited_spans@),
                    now,
                ),
            ),
    {
        let versions = self.node_family(family);
        let next = next_version_in(&versions, valid_from_unix_ms);
        let id = node_id_for(&family.scope, family.kind, key.as_str());
        if has_row(&self.nodes, &WithId { id: id.as_str() }) {
            return Err(
                MemoryError::Sqlite("UNIQUE constraint failed: memory_nodes.id".to_owned()),
            );
        }
        let (valid_to_unix_ms, valid_to_event_id) = match &next {
            Some(successor) => (
                Some(successor.valid_from_unix_ms),
                self.first_event_id_for_node(successor.id.as_str()),
            ),
            None => (None, None),
        };
        let event_id = self.event_id_for_spans(cited_spans);
        let node = MemoryNode {
            id,
            tenant_id: family.scope.tenant_id.to_owned(),
            project_id: family.scope.project_id.to_owned(),
            environment_id: copy_opt_str(family.scope.environment_id),
            kind: family.kind,
            text: text.to_owned(),
            canonical_key: key,
            created_at_unix_ms: now,
            updated_at_unix_ms: now,
            valid_from_unix_ms,
            valid_to_unix_ms,
            valid_to_event_id,
            confidence: 65,
            token_estimate: estimate_tokens(text),
            observation_count: 1,
        };
        let mut nodes = close_members(&self.nodes, family, valid_from_unix_ms, event_id);
        let ghost before = nodes@;
        let row = node.clone();
        nodes.push(row);
        proof {
            lemma_views_push(before, row);
        }
        self.nodes = nodes;
        attach_spans(&mut self.spans, node.id.as_str(), cited_spans);
        let cues = reindex_node(&self.cues, &node);
        self.cues = cues;
        Ok((node, true))
    }

    /// States a memory at a time: again where a version of it begins there, and as a new
    /// version otherwise.
    pub fn upsert_node(
        &mut self,
        scope: StoreScope<'_>,
        kind: MemoryNodeKind,
        text: &str,
        valid_from_unix_ms: i64,
        cited_spans: &[CitedSpan],
        now: i64,
    ) -> (r: MemoryResult<(MemoryNode, bool)>)
        ensures
            upsert_is(
                r,
                old(self)@,
                final(self)@,
                old(self)@.upserted(
                    scope@,
                    kind,
                    text@,
                    valid_from_unix_ms,
                    views(cited_spans@),
                    now,
                ),
            ),
    {
        proof {
            reveal(StoreModel::upserted);
        }
        let base = base_key_for(kind, text, cited_spans);
        let family = InFamily { scope, kind, family: base.as_str() };
        let versions = self.node_family(&family);
        match find_row(&versions, &BeginningAt { at: valid_from_unix_ms }) {
            Some(i) => {
                let node = self.restate(versions[i].clone(), text, cited_spans, now);
                Ok((node, false))
            },
            None => {
                let key = if kind == MemoryNodeKind::Episode {
                    base.clone()
                } else {
                    revision_key(base.as_str(), valid_from_unix_ms)
                };
                self.begin(&family, key, text, valid_from_unix_ms, cited_spans, now)
            },
        }
    }

    /// States a memory at a time as a version of a given family: again where a version says
    /// exactly that there, and as a new version otherwise.
    pub fn upsert_node_in_family(
        &mut self,
        scope: StoreScope<'_>,
        kind: MemoryNodeKind,
        family_key: &str,
        text: &str,
        valid_from_unix_ms: i64,
        cited_spans: &[CitedSpan],
        now: i64,
    ) -> (r: MemoryResult<(MemoryNode, bool)>)
        ensures
            upsert_is(
                r,
                old(self)@,
                final(self)@,
                old(self)@.upserted_in_family(
                    scope@,
                    kind,
                    family_key@,
                    text@,
                    valid_from_unix_ms,
                    views(cited_spans@),
                    now,
                ),
            ),
    {
        proof {
            reveal(StoreModel::upserted_in_family);
        }
        let family = InFamily { scope, kind, family: family_key };
        let versions = self.node_family(&family);
        match find_row(&versions, &SayingAt { at: valid_from_unix_ms, text }) {
            Some(i) => {
                let node = self.restate(versions[i].clone(), text, cited_spans, now);
                Ok((node, false))
            },
            None => {
                let beside: usize = count_rows(&versions, &BeginningAt { at: valid_from_unix_ms });
                let mut key = revision_key(family_key, valid_from_unix_ms);
                if beside > 0 {
                    key.append(".");
                    let number = decimal_text(beside as u64);
                    key.append(number.as_str());
                }
                self.begin(&family, key, text, valid_from_unix_ms, cited_spans, now)
            },
        }
    }

    /// The version of a memory that begins at a time, found by what it says.
    pub fn node_version_by_text(
        &self,
        scope: StoreScope<'_>,
        kind: MemoryNodeKind,
        text: &str,
        valid_from_unix_ms: i64,
    ) -> (r: Option<MemoryNode>)
        ensures
            match (r, self@.version_by_text(scope@, kind, text@, valid_from_unix_ms)) {
                (Some(node), Some(model)) => node@ == model,
                (None, None) => true,
                _ => false,
            },
    {
        proof {
            reveal(StoreModel::version_by_text);
        }
        let base = canonical_key(kind.as_str(), text);
        let family = InFamily { scope, kind, family: base.as_str() };
        let versions = self.node_family(&family);
        match find_row(&versions, &BeginningAt { at: valid_from_unix_ms }) {
            Some(i) => Some(versions[i].clone()),
            None => None,
        }
    }

    /// Closes a node at a time by an event; says whether that changed it.
    pub fn invalidate_node(
        &mut self,
        node_id: &str,
        valid_to_unix_ms: i64,
        valid_to_event_id: Option<i64>,
    ) -> (r: bool)
        ensures
            (final(self)@, r) == old(self)@.invalidated(
                node_id@,
                valid_to_unix_ms,
                valid_to_event_id,
            ),
    {
        proof {
            reveal(StoreModel::invalidated);
        }
        let ghost start = self@;
        match find_row(&self.nodes, &WithId { id: node_id }) {
            Some(i) => {
                let mut node = self.nodes[i].clone();
                let changes = node.valid_from_unix_ms <= valid_to_unix_ms && match
                node.valid_to_unix_ms {
                    None => true,
                    Some(end) => end > valid_to_unix_ms || (end == valid_to_unix_ms && match
                    valid_to_event_id {
                        Some(id) => match node.valid_to_event_id {
                            Some(closer) => closer > id,
                            None => true,
                        },
                        None => false,
                    }),
                };
                if !changes {
                    return false;
                }
                node.valid_to_unix_ms = Some(valid_to_unix_ms);
                node.valid_to_event_id = valid_to_event_id;
                let ghost row = node@;
                self.nodes.set(i, node);
                proof {
                    assert(self@.nodes =~= start.nodes.update(i as int, row));
                }
                true
            },
            None => false,
        }
    }

    /// Adds an edge between two nodes; says whether it is new.
    pub fn insert_edge(
        &mut self,
        scope: StoreScope<'_>,
        from_node_id: &str,
        to_node_id: &str,
        kind: MemoryEdgeKind,
        weight: u32,
        created_at_unix_ms: i64,
    ) -> (r: MemoryResult<bool>)
        ensures
            write_is(
                r,
                old(self)@,
                final(self)@,
                old(self)@.linked(
                    scope@,
                    from_node_id@,
                    to_node_id@,
                    kind,
                    weight,
                    created_at_unix_ms,
                ),
            ),
    {
        proof {
            reveal(StoreModel::linked);
        }
        if same_text(from_node_id, to_node_id) || has_row(
            &self.edges,
            &SameEdge { from_node_id, to_node_id, kind },
        ) {
            return Ok(false);
        }
        if self.last_edge_id == i64::MAX {
            return Err(MemoryError::Sqlite("database or disk is full".to_owned()));
        }
        let id: i64 = self.last_edge_id + 1;
        let edge = MemoryEdge {
            id,
            tenant_id: scope.tenant_id.to_owned(),
            project_id: scope.project_id.to_owned(),
            environment_id: copy_opt_str(scope.environment_id),
            from_node_id: from_node_id.to_owned(),
            to_node_id: to_node_id.to_owned(),
            kind,
            weight,
            created_at_unix_ms,
        };
        let ghost before = self.edges@;
        self.edges.push(edge);
        self.last_edge_id = id;
        proof {
            lemma_views_push(before, edge);
        }
        Ok(true)
    }
}

} // verus!
