//! The rows of the memory projection: nodes, edges, provenance, cues and audit events.
use vstd::prelude::*;

use crate::chars::{chars_of, find_chars, occurs, occurs_at, opt_text, text_of, text_or_empty};
use crate::error::{either_problem, failure, rejection, MemoryError, MemoryResult};
use crate::json::{JsonModel, JsonValue};
use crate::model::{
    copy_opt_text, identifier_problem, opt_identifier_problem, validate_optional_identifier,
    validate_required_identifier, CitedSpan, MemoryEdgeKind, MemoryNodeKind, SpanModel,
};
use crate::table::Row;
use crate::text::now_unix_ms;

verus! {

// ---------------------------------------------------------------------------
// Scopes
// ---------------------------------------------------------------------------
/// The tenant, project and environment that a row belongs to.
#[derive(Clone, Copy)]
pub struct StoreScope<'a> {
    pub tenant_id: &'a str,
    pub project_id: &'a str,
    pub environment_id: Option<&'a str>,
}

pub struct ScopeKey {
    pub tenant_id: Seq<char>,
    pub project_id: Seq<char>,
    pub environment_id: Option<Seq<char>>,
}

pub open spec fn opt_str(value: Option<&str>) -> Option<Seq<char>> {
    match value {
        Some(text) => Some(text@),
        None => None,
    }
}

impl<'a> View for StoreScope<'a> {
    type V = ScopeKey;

    open spec fn view(&self) -> ScopeKey {
        ScopeKey {
            tenant_id: self.tenant_id@,
            project_id: self.project_id@,
            environment_id: opt_str(self.environment_id),
        }
    }
}

impl<'a> StoreScope<'a> {
    pub fn new(tenant_id: &'a str, project_id: &'a str, environment_id: Option<&'a str>) -> (r:
        Self)
        ensures
            r@ == (ScopeKey {
                tenant_id: tenant_id@,
                project_id: project_id@,
                environment_id: opt_str(environment_id),
            }),
    {
        StoreScope { tenant_id, project_id, environment_id }
    }
}

impl ScopeKey {
    /// The environment, with the empty text where there is none.
    pub open spec fn environment(self) -> Seq<char> {
        text_or_empty(self.environment_id)
    }
}

// ---------------------------------------------------------------------------
// Nodes
// ---------------------------------------------------------------------------
/// A projected memory node. The confidence is in hundredths.
#[derive(Debug, PartialEq, Eq)]
pub struct MemoryNode {
    pub id: String,
    pub tenant_id: String,
    pub project_id: String,
    pub environment_id: Option<String>,
    pub kind: MemoryNodeKind,
    pub text: String,
    pub canonical_key: String,
    pub created_at_unix_ms: i64,
    pub updated_at_unix_ms: i64,
    pub valid_from_unix_ms: i64,
    pub valid_to_unix_ms: Option<i64>,
    pub valid_to_event_id: Option<i64>,
    pub confidence: u32,
    pub token_estimate: u32,
    pub observation_count: u32,
}

pub struct NodeModel {
    pub id: Seq<char>,
    pub tenant_id: Seq<char>,
    pub project_id: Seq<char>,
    pub environment_id: Option<Seq<char>>,
    pub kind: MemoryNodeKind,
    pub text: Seq<char>,
    pub canonical_key: Seq<char>,
    pub created_at_unix_ms: i64,
    pub updated_at_unix_ms: i64,
    pub valid_from_unix_ms: i64,
    pub valid_to_unix_ms: Option<i64>,
    pub valid_to_event_id: Option<i64>,
    pub confidence: u32,
    pub token_estimate: u32,
    pub observation_count: u32,
}

impl View for MemoryNode {
    type V = NodeModel;

    open spec fn view(&self) -> NodeModel {
        NodeModel {
            id: self.id@,
            tenant_id: self.tenant_id@,
            project_id: self.project_id@,
            environment_id: opt_text(self.environment_id),
            kind: self.kind,
            text: self.text@,
            canonical_key: self.canonical_key@,
            created_at_unix_ms: self.created_at_unix_ms,
            updated_at_unix_ms: self.updated_at_unix_ms,
            valid_from_unix_ms: self.valid_from_unix_ms,
            valid_to_unix_ms: self.valid_to_unix_ms,
            valid_to_event_id: self.valid_to_event_id,
            confidence: self.confidence,
            token_estimate: self.token_estimate,
            observation_count: self.observation_count,
        }
    }
}

impl Clone for MemoryNode {
    fn clone(&self) -> (r: Self)
        ensures
            r@ == self@,
    {
        MemoryNode {
            id: self.id.clone(),
            tenant_id: self.tenant_id.clone(),
            project_id: self.project_id.clone(),
            environment_id: copy_opt_text(&self.environment_id),
            kind: self.kind,
            text: self.text.clone(),
            canonical_key: self.canonical_key.clone(),
            created_at_unix_ms: self.created_at_unix_ms,
            updated_at_unix_ms: self.updated_at_unix_ms,
            valid_from_unix_ms: self.valid_from_unix_ms,
            valid_to_unix_ms: self.valid_to_unix_ms,
            valid_to_event_id: self.valid_to_event_id,
            confidence: self.confidence,
            token_estimate: self.token_estimate,
            observation_count: self.observation_count,
        }
    }
}

impl Row for MemoryNode {
    fn twin(&self) -> (r: Self) {
        self.clone()
    }
}

/// The first position at which `needle` stands in `hay`.
pub open spec fn first_occurrence(needle: Seq<char>, hay: Seq<char>) -> int {
    choose|at: int|
        occurs_at(needle, hay, at) && forall|j: int| 0 <= j < at ==> !occurs_at(needle, hay, j)
}

/// The part of a canonical key that all versions of one memory share: what stands before the
/// revision.
pub open spec fn family_key(key: Seq<char>) -> Seq<char> {
    if occurs("|rev:"@, key) {
        key.take(first_occurrence("|rev:"@, key))
    } else {
        key
    }
}

/// The part of a canonical key that all versions of one memory share.
pub fn canonical_family_key(canonical_key: &str) -> (r: String)
    ensures
        r@ == family_key(canonical_key@),
{
    let key = chars_of(canonical_key);
    let marker = chars_of("|rev:");
    match find_chars(&key, &marker) {
        Some(at) => {
            proof {
                let found = first_occurrence("|rev:"@, canonical_key@);
                assert(occurs_at("|rev:"@, canonical_key@, at as int) && forall|j: int|
                    0 <= j < at ==> !occurs_at("|rev:"@, canonical_key@, j));
                assert(found == at) by {
                    if found < at {
                        assert(!occurs_at("|rev:"@, canonical_key@, found));
                    }
                    if at < found {
                        assert(!occurs_at("|rev:"@, canonical_key@, at as int));
                    }
                }
                assert(key@.subrange(0, at as int) =~= canonical_key@.take(at as int));
            }
            text_of(&key, 0, at)
        },
        None => canonical_key.to_owned(),
    }
}

impl NodeModel {
    /// The node holds at a time: it has begun and has not been closed.
    pub open spec fn active_at(self, at: i64) -> bool {
        self.valid_from_unix_ms <= at && match self.valid_to_unix_ms {
            Some(valid_to) => valid_to > at,
            None => true,
        }
    }

    /// The node held before a time and was closed by then.
    pub open spec fn stale_at(self, at: i64) -> bool {
        self.valid_from_unix_ms <= at && match self.valid_to_unix_ms {
            Some(valid_to) => valid_to <= at,
            None => false,
        }
    }

    pub open spec fn in_scope(self, scope: ScopeKey) -> bool {
        self.tenant_id == scope.tenant_id && self.project_id == scope.project_id && text_or_empty(
            self.environment_id,
        ) == scope.environment()
    }
}

/// A node that has begun is either active or stale, never both.
pub proof fn begun_nodes_are_active_or_stale(node: NodeModel, at: i64)
    ensures
        node.valid_from_unix_ms <= at ==> (node.active_at(at) != node.stale_at(at)),
        node.valid_from_unix_ms > at ==> !node.active_at(at) && !node.stale_at(at),
{
}

impl MemoryNode {
    pub fn active_at(&self, at: i64) -> (r: bool)
        ensures
            r == self@.active_at(at),
    {
        self.valid_from_unix_ms <= at && match self.valid_to_unix_ms {
            Some(valid_to) => valid_to > at,
            None => true,
        }
    }

    /// Whether the node holds at a time, or now where none is given.
    #[must_use]
    pub fn is_active_at(&self, as_of_unix_ms: Option<i64>) -> (r: bool)
        ensures
            match as_of_unix_ms {
                Some(at) => r == self@.active_at(at),
                None => exists|now: i64| r == #[trigger] self@.active_at(now),
            },
    {
        let at: i64 = match as_of_unix_ms {
            Some(at) => at,
            None => now_unix_ms(),
        };
        self.active_at(at)
    }

    pub fn stale_at(&self, at: i64) -> (r: bool)
        ensures
            r == self@.stale_at(at),
    {
        self.valid_from_unix_ms <= at && match self.valid_to_unix_ms {
            Some(valid_to) => valid_to <= at,
            None => false,
        }
    }

    /// The part of the node's key that all versions of the memory share.
    pub fn family_canonical_key(&self) -> (r: String)
        ensures
            r@ == family_key(self@.canonical_key),
    {
        canonical_family_key(self.canonical_key.as_str())
    }
}

// ---------------------------------------------------------------------------
// Edges
// ---------------------------------------------------------------------------
/// A typed relationship between projected nodes. The weight is in hundredths.
#[derive(Debug, PartialEq, Eq)]
pub struct MemoryEdge {
    pub id: i64,
    pub tenant_id: String,
    pub project_id: String,
    pub environment_id: Option<String>,
    pub from_node_id: String,
    pub to_node_id: String,
    pub kind: MemoryEdgeKind,
    pub weight: u32,
    pub created_at_unix_ms: i64,
}

pub struct EdgeModel {
    pub id: i64,
    pub tenant_id: Seq<char>,
    pub project_id: Seq<char>,
    pub environment_id: Option<Seq<char>>,
    pub from_node_id: Seq<char>,
    pub to_node_id: Seq<char>,
    pub kind: MemoryEdgeKind,
    pub weight: u32,
    pub created_at_unix_ms: i64,
}

impl View for MemoryEdge {
    type V = EdgeModel;

    open spec fn view(&self) -> EdgeModel {
        EdgeModel {
            id: self.id,
            tenant_id: self.tenant_id@,
            project_id: self.project_id@,
            environment_id: opt_text(self.environment_id),
            from_node_id: self.from_node_id@,
            to_node_id: self.to_node_id@,
            kind: self.kind,
            weight: self.weight,
            created_at_unix_ms: self.created_at_unix_ms,
        }
    }
}

impl Clone for MemoryEdge {
    fn clone(&self) -> (r: Self)
        ensures
            r@ == self@,
    {
        MemoryEdge {
            id: self.id,
            tenant_id: self.tenant_id.clone(),
            project_id: self.project_id.clone(),
            environment_id: copy_opt_text(&self.environment_id),
            from_node_id: self.from_node_id.clone(),
            to_node_id: self.to_node_id.clone(),
            kind: self.kind,
            weight: self.weight,
            created_at_unix_ms: self.created_at_unix_ms,
        }
    }
}

impl Row for MemoryEdge {
    fn twin(&self) -> (r: Self) {
        self.clone()
    }
}

impl EdgeModel {
    pub open spec fn in_scope(self, scope: ScopeKey) -> bool {
        self.tenant_id == scope.tenant_id && self.project_id == scope.project_id && text_or_empty(
            self.environment_id,
        ) == scope.environment()
    }

    /// The edge says that its first node replaced or contradicts its second.
    pub open spec fn revises(self) -> bool {
        self.kind == MemoryEdgeKind::Contradicts || self.kind == MemoryEdgeKind::Supersedes
    }
}

// ---------------------------------------------------------------------------
// Provenance and cues
// ---------------------------------------------------------------------------
/// A place in a trace that a node cites.
#[derive(Debug, PartialEq, Eq)]
pub struct NodeSpan {
    pub node_id: String,
    pub span: CitedSpan,
}

pub struct NodeSpanModel {
    pub node_id: Seq<char>,
    pub span: SpanModel,
}

impl View for NodeSpan {
    type V = NodeSpanModel;

    open spec fn view(&self) -> NodeSpanModel {
        NodeSpanModel { node_id: self.node_id@, span: self.span@ }
    }
}

impl Clone for NodeSpan {
    fn clone(&self) -> (r: Self)
        ensures
            r@ == self@,
    {
        NodeSpan { node_id: self.node_id.clone(), span: self.span.clone() }
    }
}

impl Row for NodeSpan {
    fn twin(&self) -> (r: Self) {
        self.clone()
    }
}

impl Row for CitedSpan {
    fn twin(&self) -> (r: Self) {
        self.clone()
    }
}

/// A term under which a node is found. A lower rank is a stronger cue.
#[derive(Debug, PartialEq, Eq)]
pub struct CueEntry {
    pub term: String,
    pub node_id: String,
    pub tenant_id: String,
    pub project_id: String,
    pub environment_id: Option<String>,
    pub rank: u32,
}

pub struct CueModel {
    pub term: Seq<char>,
    pub node_id: Seq<char>,
    pub tenant_id: Seq<char>,
    pub project_id: Seq<char>,
    pub environment_id: Option<Seq<char>>,
    pub rank: u32,
}

impl View for CueEntry {
    type V = CueModel;

    open spec fn view(&self) -> CueModel {
        CueModel {
            term: self.term@,
            node_id: self.node_id@,
            tenant_id: self.tenant_id@,
            project_id: self.project_id@,
            environment_id: opt_text(self.environment_id),
            rank: self.rank,
        }
    }
}

impl Clone for CueEntry {
    fn clone(&self) -> (r: Self)
        ensures
            r@ == self@,
    {
        CueEntry {
            term: self.term.clone(),
            node_id: self.node_id.clone(),
            tenant_id: self.tenant_id.clone(),
            project_id: self.project_id.clone(),
            environment_id: copy_opt_text(&self.environment_id),
            rank: self.rank,
        }
    }
}

impl Row for CueEntry {
    fn twin(&self) -> (r: Self) {
        self.clone()
    }
}

impl CueModel {
    pub open spec fn in_scope(self, scope: ScopeKey) -> bool {
        self.tenant_id == scope.tenant_id && self.project_id == scope.project_id && text_or_empty(
            self.environment_id,
        ) == scope.environment()
    }
}

// ---------------------------------------------------------------------------
// Audit
// ---------------------------------------------------------------------------
/// A durable service audit event.
#[derive(Debug, PartialEq, Eq)]
pub struct AuditEvent {
    pub id: i64,
    pub occurred_at_unix_ms: i64,
    pub actor: String,
    pub action: String,
    pub outcome: String,
    pub route: Option<String>,
    pub status_code: Option<u16>,
    pub detail: JsonValue,
}

pub struct AuditModel {
    pub id: i64,
    pub occurred_at_unix_ms: i64,
    pub actor: Seq<char>,
    pub action: Seq<char>,
    pub outcome: Seq<char>,
    pub route: Option<Seq<char>>,
    pub status_code: Option<u16>,
    pub detail: JsonModel,
}

impl View for AuditEvent {
    type V = AuditModel;

    open spec fn view(&self) -> AuditModel {
        AuditModel {
            id: self.id,
            occurred_at_unix_ms: self.occurred_at_unix_ms,
            actor: self.actor@,
            action: self.action@,
            outcome: self.outcome@,
            route: opt_text(self.route),
            status_code: self.status_code,
            detail: self.detail@,
        }
    }
}

impl Clone for AuditEvent {
    fn clone(&self) -> (r: Self)
        ensures
            r@ == self@,
    {
        AuditEvent {
            id: self.id,
            occurred_at_unix_ms: self.occurred_at_unix_ms,
            actor: self.actor.clone(),
            action: self.action.clone(),
            outcome: self.outcome.clone(),
            route: copy_opt_text(&self.route),
            status_code: self.status_code,
            detail: self.detail.clone(),
        }
    }
}

impl Row for AuditEvent {
    fn twin(&self) -> (r: Self) {
        self.clone()
    }
}

/// Input for writing a durable service audit event.
#[derive(Debug, PartialEq, Eq)]
pub struct AuditRecord {
    pub actor: String,
    pub action: String,
    pub outcome: String,
    pub route: Option<String>,
    pub status_code: Option<u16>,
    pub detail: JsonValue,
}

pub struct RecordModel {
    pub actor: Seq<char>,
    pub action: Seq<char>,
    pub outcome: Seq<char>,
    pub route: Option<Seq<char>>,
    pub status_code: Option<u16>,
    pub detail: JsonModel,
}

impl View for AuditRecord {
    type V = RecordModel;

    open spec fn view(&self) -> RecordModel {
        RecordModel {
            actor: self.actor@,
            action: self.action@,
            outcome: self.outcome@,
            route: opt_text(self.route),
            status_code: self.status_code,
            detail: self.detail@,
        }
    }
}

impl RecordModel {
    /// The first thing wrong with an audit record.
    pub open spec fn problem(self) -> Option<Seq<char>> {
        either_problem(
            either_problem(
                either_problem(
                    either_problem(
                        identifier_problem("audit actor"@, self.actor),
                        identifier_problem("audit action"@, self.action),
                    ),
                    identifier_problem("audit outcome"@, self.outcome),
                ),
                opt_identifier_problem("audit route"@, self.route),
            ),
            match self.status_code {
                Some(code) => if code < 100 || code > 599 {
                    Some("audit status_code must be a valid HTTP status code"@)
                } else {
                    None
                },
                None => None,
            },
        )
    }
}

impl AuditRecord {
    pub fn validate(&self) -> (r: MemoryResult<()>)
        ensures
            failure(r) == rejection(self@.problem()),
    {
        validate_required_identifier("audit actor", self.actor.as_str())?;
        validate_required_identifier("audit action", self.action.as_str())?;
        validate_required_identifier("audit outcome", self.outcome.as_str())?;
        validate_optional_identifier("audit route", &self.route)?;
        if let Some(code) = self.status_code {
            if code < 100 || code > 599 {
                return Err(
                    MemoryError::invalid("audit status_code must be a valid HTTP status code"),
                );
            }
        }
        Ok(())
    }
}

} // verus!
