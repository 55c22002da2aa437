//! Upkeep of the store: audit log, statistics, integrity, repair, reset and migration.
use vstd::prelude::*;

use crate::chars::{
    decimal, decimal_int, decimal_int_text, decimal_text, same_text, text_or_empty, texts,
};
use crate::error::{either_problem, failure, rejection, ErrorModel, MemoryError, MemoryResult};
use crate::ledger::{time_problem, EventModel, LedgerEvent};
use crate::model::{copy_opt_text, MemoryEdgeKind, MemoryNodeKind};
use crate::order::{
    lemma_ranked_contains, lemma_ranked_in_order, lemma_views_push, ranked, sort_ranked, views,
    Ranking,
};
use crate::projection::table_full_error;
use crate::rows::{
    family_key, AuditEvent, AuditModel, AuditRecord, CueEntry, CueModel, EdgeModel, MemoryEdge,
    MemoryNode, NodeModel, NodeSpan, NodeSpanModel, RecordModel,
};
use crate::store::{
    holding_at, is_citation, is_pending, limit_problem, sqlite_limit, with_id, Citation, HoldingAt,
    MemoryStore, Pending, StoreModel, WithId,
};
use crate::table::{
    count_rows, counted, has_row, lemma_filter_contains, row_count, select, some_row, Rule,
};
use crate::text::at_most;

verus! {

/// The version of the table layout.
pub const SCHEMA_VERSION: u32 = 3;

/// The number that marks a database file as one of this library.
pub const SQLITE_APPLICATION_ID: i64 = 0x424D_454D;

// ---------------------------------------------------------------------------
// Reports
// ---------------------------------------------------------------------------
/// Operational counts for the memory database.
#[derive(Clone, Copy, Debug, PartialEq, Eq, Structural)]
pub struct StoreStats {
    pub ledger_events: i64,
    pub pending_events: i64,
    pub nodes: i64,
    pub active_nodes: i64,
    pub total_node_tokens: i64,
    pub active_node_tokens: i64,
    pub active_episode_nodes: i64,
    pub active_fact_nodes: i64,
    pub active_entity_cue_nodes: i64,
    pub active_tag_nodes: i64,
    pub active_procedure_nodes: i64,
    pub active_state_nodes: i64,
    pub active_gotcha_nodes: i64,
    pub active_anti_memory_nodes: i64,
    pub active_topic_nodes: i64,
    pub edges: i64,
    pub audit_events: i64,
}

/// Health snapshot suitable for CLI output and service health endpoints.
#[derive(Clone, Debug, PartialEq, Eq)]
pub struct StoreHealth {
    pub application_id: i64,
    pub expected_application_id: i64,
    pub schema_version: u32,
    pub expected_schema_version: u32,
    pub integrity_ok: bool,
    pub integrity_messages: Vec<String>,
    pub foreign_key_violations: i64,
    pub graph_integrity_ok: bool,
    pub graph_integrity: GraphIntegrityReport,
    pub stats: StoreStats,
}

/// Projection graph integrity counts not covered by SQLite foreign keys.
#[derive(Clone, Copy, Debug, Default, PartialEq, Eq, Structural)]
pub struct GraphIntegrityReport {
    pub orphan_edges_from: i64,
    pub orphan_edges_to: i64,
    pub orphan_node_spans: i64,
    pub orphan_cue_index_entries: i64,
}

impl GraphIntegrityReport {
    /// Nothing in the graph leads to a missing node.
    pub open spec fn clean(self) -> bool {
        self.orphan_edges_from == 0 && self.orphan_edges_to == 0 && self.orphan_node_spans == 0
            && self.orphan_cue_index_entries == 0
    }

    #[must_use]
    pub fn is_clean(&self) -> (r: bool)
        ensures
            r == self.clean(),
    {
        self.orphan_edges_from == 0 && self.orphan_edges_to == 0 && self.orphan_node_spans == 0
            && self.orphan_cue_index_entries == 0
    }
}

/// Rows removed by graph integrity repair.
#[derive(Clone, Copy, Debug, PartialEq, Eq, Structural)]
pub struct GraphRepairReport {
    pub memory_edges_removed: i64,
    pub node_spans_removed: i64,
    pub cue_index_entries_removed: i64,
}

impl Default for GraphRepairReport {
    fn default() -> (r: Self)
        ensures
            r == (GraphRepairReport {
                memory_edges_removed: 0,
                node_spans_removed: 0,
                cue_index_entries_removed: 0,
            }),
    {
        GraphRepairReport {
            memory_edges_removed: 0,
            node_spans_removed: 0,
            cue_index_entries_removed: 0,
        }
    }
}

/// Rows removed by audit retention maintenance.
#[derive(Clone, Copy, Debug, PartialEq, Eq, Structural)]
pub struct AuditPruneReport {
    pub audit_events_removed: i64,
}

impl Default for AuditPruneReport {
    fn default() -> (r: Self)
        ensures
            r.audit_events_removed == 0,
    {
        AuditPruneReport { audit_events_removed: 0 }
    }
}

/// Options for a local maintenance pass.
#[derive(Clone, Copy, Debug, PartialEq, Eq, Structural)]
pub struct MaintenanceOptions {
    pub vacuum: bool,
    pub repair_orphans: bool,
    pub prune_audit_before_unix_ms: Option<i64>,
    pub retain_latest_audit_events: Option<usize>,
}

impl Default for MaintenanceOptions {
    fn default() -> (r: Self)
        ensures
            r == (MaintenanceOptions {
                vacuum: false,
                repair_orphans: false,
                prune_audit_before_unix_ms: None,
                retain_latest_audit_events: None,
            }),
    {
        MaintenanceOptions {
            vacuum: false,
            repair_orphans: false,
            prune_audit_before_unix_ms: None,
            retain_latest_audit_events: None,
        }
    }
}

impl MaintenanceOptions {
    /// The first thing wrong with maintenance options.
    pub open spec fn problem(self) -> Option<Seq<char>> {
        either_problem(
            time_problem("prune_audit_before_unix_ms"@, self.prune_audit_before_unix_ms),
            match self.retain_latest_audit_events {
                Some(limit) => limit_problem("retain_latest audit limit"@, limit),
                None => None,
            },
        )
    }

    pub fn validate(&self) -> (r: MemoryResult<()>)
        ensures
            failure(r) == rejection(self.problem()),
    {
        if let Some(cutoff) = self.prune_audit_before_unix_ms {
            if cutoff < 0 {
                return Err(
                    MemoryError::InvalidInput(
                        "prune_audit_before_unix_ms".to_owned().concat(" must be non-negative"),
                    ),
                );
            }
        }
        if let Some(limit) = self.retain_latest_audit_events {
            sqlite_limit("retain_latest audit limit", limit)?;
        }
        Ok(())
    }
}

/// Result of a local maintenance pass. The checkpoint counts are those of the database file.
#[derive(Clone, Copy, Debug, PartialEq, Eq, Structural)]
pub struct MaintenanceReport {
    pub optimized: bool,
    pub wal_checkpoint_busy: i64,
    pub wal_checkpoint_log_frames: i64,
    pub wal_checkpoint_checkpointed_frames: i64,
    pub vacuumed: bool,
    pub repaired_orphans: bool,
    pub pruned_audit_events: bool,
    pub graph_integrity_before: GraphIntegrityReport,
    pub graph_integrity_after: GraphIntegrityReport,
    pub graph_repair: GraphRepairReport,
    pub audit_prune: AuditPruneReport,
}

/// Result of writing a SQLite backup file.
#[derive(Clone, Debug, PartialEq, Eq)]
pub struct BackupReport {
    pub path: String,
    pub bytes: u64,
    pub schema_version: u32,
    pub integrity_ok: bool,
}

/// Result of restoring the active database from a SQLite backup file.
#[derive(Clone, Debug, PartialEq, Eq)]
pub struct RestoreReport {
    pub path: String,
    pub schema_version: u32,
    pub integrity_ok: bool,
    pub stats: StoreStats,
}

/// Rows removed or reset when rebuilding derived projections from the ledger.
#[derive(Clone, Copy, Debug, Default, PartialEq, Eq, Structural)]
pub struct ProjectionResetReport {
    pub ledger_events_reset: i64,
    pub nodes_removed: i64,
    pub edges_removed: i64,
    pub node_spans_removed: i64,
    pub cue_index_entries_removed: i64,
}

// ---------------------------------------------------------------------------
// Audit log
// ---------------------------------------------------------------------------
/// Newest audit events first.
pub struct ByNewest;

impl Ranking<AuditEvent> for ByNewest {
    open spec fn before(a: AuditModel, b: AuditModel) -> bool {
        a.occurred_at_unix_ms > b.occurred_at_unix_ms || (a.occurred_at_unix_ms
            == b.occurred_at_unix_ms && a.id > b.id)
    }

    fn precedes(a: &AuditEvent, b: &AuditEvent) -> (r: bool) {
        a.occurred_at_unix_ms > b.occurred_at_unix_ms || (a.occurred_at_unix_ms
            == b.occurred_at_unix_ms && a.id > b.id)
    }

    proof fn lawful() {
    }
}

/// Audit events that did not occur before a time.
pub open spec fn not_before(cutoff: i64) -> spec_fn(AuditModel) -> bool {
    |event: AuditModel| event.occurred_at_unix_ms >= cutoff
}

pub struct NotBefore {
    pub cutoff: i64,
}

impl Rule<AuditEvent> for NotBefore {
    open spec fn test(&self) -> spec_fn(AuditModel) -> bool {
        not_before(self.cutoff)
    }

    fn admits(&self, row: &AuditEvent) -> (r: bool) {
        row.occurred_at_unix_ms >= self.cutoff
    }
}

pub open spec fn audit_with_id(id: i64) -> spec_fn(AuditModel) -> bool {
    |event: AuditModel| event.id == id
}

pub struct AuditWithId {
    pub id: i64,
}

impl Rule<AuditEvent> for AuditWithId {
    open spec fn test(&self) -> spec_fn(AuditModel) -> bool {
        audit_with_id(self.id)
    }

    fn admits(&self, row: &AuditEvent) -> (r: bool) {
        row.id == self.id
    }
}

/// Audit events that are among others.
pub open spec fn listed_in(events: Seq<AuditModel>) -> spec_fn(AuditModel) -> bool {
    |event: AuditModel| some_row(events, audit_with_id(event.id))
}

pub struct ListedIn<'a> {
    pub events: &'a Vec<AuditEvent>,
}

impl<'a> Rule<AuditEvent> for ListedIn<'a> {
    open spec fn test(&self) -> spec_fn(AuditModel) -> bool {
        listed_in(views(self.events@))
    }

    fn admits(&self, row: &AuditEvent) -> (r: bool) {
        has_row(self.events, &AuditWithId { id: row.id })
    }
}

/// The newest audit events, at most `limit` of them.
pub open spec fn newest(events: Seq<AuditModel>, limit: int) -> Seq<AuditModel> {
    at_most(ranked::<AuditEvent, ByNewest>(events), limit)
}

/// The audit log after pruning: first by age, then down to the newest.
pub open spec fn pruned(
    events: Seq<AuditModel>,
    before: Option<i64>,
    retain: Option<usize>,
) -> Seq<AuditModel> {
    let young = match before {
        Some(cutoff) => events.filter(not_before(cutoff)),
        None => events,
    };
    match retain {
        Some(limit) => young.filter(listed_in(newest(young, limit as int))),
        None => young,
    }
}

impl StoreModel {
    /// The tables after a valid audit record is written, and its identifier.
    pub open spec fn audited(self, record: RecordModel, now: i64) -> Result<
        (StoreModel, i64),
        ErrorModel,
    > {
        match record.problem() {
            Some(problem) => Err(ErrorModel::InvalidInput(problem)),
            None => if self.last_audit_id == i64::MAX {
                Err(table_full_error())
            } else {
                let id = (self.last_audit_id + 1) as i64;
                Ok(
                    (
                        StoreModel {
                            audit: self.audit.push(
                                AuditModel {
                                    id,
                                    occurred_at_unix_ms: now,
                                    actor: record.actor,
                                    action: record.action,
                                    outcome: record.outcome,
                                    route: record.route,
                                    status_code: record.status_code,
                                    detail: record.detail,
                                },
                            ),
                            last_audit_id: id,
                            ..self
                        },
                        id,
                    ),
                )
            },
        }
    }
}

impl MemoryStore {
    /// Writes a valid audit record.
    pub fn append_audit(&mut self, record: &AuditRecord, now: i64) -> (r: MemoryResult<i64>)
        ensures
            match (r, old(self)@.audited(record@, now)) {
                (Ok(id), Ok((store, number))) => final(self)@ == store && id == number,
                (Err(error), Err(words)) => error@ == words && final(self)@ == old(self)@,
                _ => false,
            },
    {
        record.validate()?;
        if self.last_audit_id == i64::MAX {
            return Err(MemoryError::Sqlite("database or disk is full".to_owned()));
        }
        let id: i64 = self.last_audit_id + 1;
        let event = AuditEvent {
            id,
            occurred_at_unix_ms: now,
            actor: record.actor.clone(),
            action: record.action.clone(),
            outcome: record.outcome.clone(),
            route: copy_opt_text(&record.route),
            status_code: record.status_code,
            detail: record.detail.clone(),
        };
        let ghost before = self.audit@;
        self.audit.push(event);
        self.last_audit_id = id;
        proof {
            lemma_views_push(before, event);
        }
        Ok(id)
    }

    fn newest_audit(events: &Vec<AuditEvent>, limit: usize) -> (r: Vec<AuditEvent>)
        ensures
            views(r@) == newest(views(events@), limit as int),
    {
        let copies = crate::table::copy_rows(events);
        let mut sorted = sort_ranked::<AuditEvent, ByNewest>(copies);
        let ghost all = views(sorted@);
        if limit < sorted.len() {
            sorted.truncate(limit);
            proof {
                assert(views(sorted@) =~= all.take(limit as int));
            }
        }
        sorted
    }

    /// The newest audit events.
    pub fn recent_audit_events(&self, limit: usize) -> (r: MemoryResult<Vec<AuditEvent>>)
        ensures
            failure(r) == rejection(limit_problem("recent_audit_events limit"@, limit)),
            r matches Ok(events) ==> views(events@) == newest(self@.audit, limit as int),
    {
        sqlite_limit("recent_audit_events limit", limit)?;
        Ok(Self::newest_audit(&self.audit, limit))
    }

    fn prune(&mut self, before_unix_ms: Option<i64>, retain_latest: Option<usize>) -> (r:
        AuditPruneReport)
        ensures
            final(self)@ == (StoreModel {
                audit: pruned(old(self)@.audit, before_unix_ms, retain_latest),
                ..old(self)@
            }),
            r.audit_events_removed == row_count(
                old(self)@.audit.len() - final(self)@.audit.len(),
            ),
    {
        let total: usize = self.audit.len();
        let ghost all = self@.audit;
        if let Some(cutoff) = before_unix_ms {
            let kept = select(&self.audit, &NotBefore { cutoff });
            proof {
                lemma_filter_len(all, not_before(cutoff));
            }
            self.audit = kept;
        }
        let ghost young = self@.audit;
        if let Some(limit) = retain_latest {
            let latest = Self::newest_audit(&self.audit, limit);
            let kept = select(&self.audit, &ListedIn { events: &latest });
            proof {
                lemma_filter_len(young, listed_in(newest(young, limit as int)));
            }
            self.audit = kept;
        }
        let left: usize = self.audit.len();
        AuditPruneReport { audit_events_removed: counted(total - left) }
    }

    /// Prunes the audit log: first by age, then down to the newest. Options that are not valid
    /// leave it alone.
    pub fn prune_audit_events(
        &mut self,
        before_unix_ms: Option<i64>,
        retain_latest: Option<usize>,
    ) -> (r: MemoryResult<AuditPruneReport>)
        ensures
            failure(r) == rejection(prune_options(before_unix_ms, retain_latest).problem()),
            match r {
                Ok(report) => final(self)@ == (StoreModel {
                    audit: pruned(old(self)@.audit, before_unix_ms, retain_latest),
                    ..old(self)@
                }) && report.audit_events_removed == row_count(
                    old(self)@.audit.len() - final(self)@.audit.len(),
                ),
                Err(_) => final(self)@ == old(self)@,
            },
    {
        let options = MaintenanceOptions {
            vacuum: false,
            repair_orphans: false,
            prune_audit_before_unix_ms: before_unix_ms,
            retain_latest_audit_events: retain_latest,
        };
        options.validate()?;
        Ok(self.prune(before_unix_ms, retain_latest))
    }
}

/// The options of a pass that only prunes the audit log.
pub open spec fn prune_options(before: Option<i64>, retain: Option<usize>) -> MaintenanceOptions {
    MaintenanceOptions {
        vacuum: false,
        repair_orphans: false,
        prune_audit_before_unix_ms: before,
        retain_latest_audit_events: retain,
    }
}

pub proof fn lemma_filter_len<A>(rows: Seq<A>, test: spec_fn(A) -> bool)
    ensures
        rows.filter(test).len() <= rows.len(),
    decreases rows.len(),
{
    reveal(Seq::filter);
    if rows.len() > 0 {
        lemma_filter_len(rows.drop_last(), test);
    }
}

// ---------------------------------------------------------------------------
// Statistics
// ---------------------------------------------------------------------------
/// Nodes of a kind that hold at a time.
pub open spec fn holding_of_kind(kind: MemoryNodeKind, at: i64) -> spec_fn(NodeModel) -> bool {
    |node: NodeModel| node.active_at(at) && node.kind == kind
}

pub struct HoldingOfKind {
    pub kind: MemoryNodeKind,
    pub at: i64,
}

impl Rule<MemoryNode> for HoldingOfKind {
    open spec fn test(&self) -> spec_fn(NodeModel) -> bool {
        holding_of_kind(self.kind, self.at)
    }

    fn admits(&self, row: &MemoryNode) -> (r: bool) {
        row.active_at(self.at) && row.kind == self.kind
    }
}

/// The tokens of some nodes.
pub open spec fn node_tokens(nodes: Seq<NodeModel>) -> int
    decreases nodes.len(),
{
    if nodes.len() == 0 {
        0
    } else {
        node_tokens(nodes.drop_last()) + nodes.last().token_estimate
    }
}

fn tokens_of(nodes: &Vec<MemoryNode>) -> (r: i64)
    ensures
        r == row_count(node_tokens(views(nodes@))),
{
    let ghost all = views(nodes@);
    let mut total: i64 = 0;
    let mut i: usize = 0;
    proof {
        assert(all.take(0) =~= Seq::empty());
    }
    while i < nodes.len()
        invariant
            i <= nodes@.len(),
            all == views(nodes@),
            0 <= total,
            0 <= node_tokens(all.take(i as int)),
            total == row_count(node_tokens(all.take(i as int))),
        decreases nodes.len() - i,
    {
        proof {
            assert(all.take(i as int + 1).drop_last() =~= all.take(i as int));
            assert(all.take(i as int + 1).last() == nodes@[i as int]@);
        }
        let more: i64 = nodes[i].token_estimate as i64;
        total = if total > i64::MAX - more {
            i64::MAX
        } else {
            total + more
        };
        i += 1;
    }
    proof {
        assert(all.take(i as int) =~= all);
    }
    total
}

impl StoreModel {
    pub open spec fn active_of_kind(self, kind: MemoryNodeKind, now: i64) -> i64 {
        row_count(self.nodes.filter(holding_of_kind(kind, now)).len() as int)
    }

    /// The operational counts at a time.
    pub open spec fn stats(self, now: i64) -> StoreStats {
        let active = self.nodes.filter(holding_at(now));
        StoreStats {
            ledger_events: row_count(self.ledger.len() as int),
            pending_events: row_count(self.ledger.filter(is_pending()).len() as int),
            nodes: row_count(self.nodes.len() as int),
            active_nodes: row_count(active.len() as int),
            total_node_tokens: row_count(node_tokens(self.nodes)),
            active_node_tokens: row_count(node_tokens(active)),
            active_episode_nodes: self.active_of_kind(MemoryNodeKind::Episode, now),
            active_fact_nodes: self.active_of_kind(MemoryNodeKind::Fact, now),
            active_entity_cue_nodes: self.active_of_kind(MemoryNodeKind::EntityCue, now),
            active_tag_nodes: self.active_of_kind(MemoryNodeKind::Tag, now),
            active_procedure_nodes: self.active_of_kind(MemoryNodeKind::Procedure, now),
            active_state_nodes: self.active_of_kind(MemoryNodeKind::State, now),
            active_gotcha_nodes: self.active_of_kind(MemoryNodeKind::Gotcha, now),
            active_anti_memory_nodes: self.active_of_kind(MemoryNodeKind::AntiMemory, now),
            active_topic_nodes: self.active_of_kind(MemoryNodeKind::Topic, now),
            edges: row_count(self.edges.len() as int),
            audit_events: row_count(self.audit.len() as int),
        }
    }
}

impl MemoryStore {
    fn active_node_count_by_kind(&self, kind: MemoryNodeKind, now: i64) -> (r: i64)
        ensures
            r == self@.active_of_kind(kind, now),
    {
        counted(count_rows(&self.nodes, &HoldingOfKind { kind, at: now }))
    }

    /// The operational counts at a time.
    pub fn stats(&self, now: i64) -> (r: StoreStats)
        ensures
            r == self@.stats(now),
    {
        let active = select(&self.nodes, &HoldingAt { at: now });
        StoreStats {
            ledger_events: counted(self.ledger.len()),
            pending_events: counted(count_rows(&self.ledger, &Pending)),
            nodes: counted(self.nodes.len()),
            active_nodes: counted(active.len()),
            total_node_tokens: tokens_of(&self.nodes),
            active_node_tokens: tokens_of(&active),
            active_episode_nodes: self.active_node_count_by_kind(MemoryNodeKind::Episode, now),
            active_fact_nodes: self.active_node_count_by_kind(MemoryNodeKind::Fact, now),
            active_entity_cue_nodes: self.active_node_count_by_kind(MemoryNodeKind::EntityCue, now),
            active_tag_nodes: self.active_node_count_by_kind(MemoryNodeKind::Tag, now),
            active_procedure_nodes: self.active_node_count_by_kind(MemoryNodeKind::Procedure, now),
            active_state_nodes: self.active_node_count_by_kind(MemoryNodeKind::State, now),
            active_gotcha_nodes: self.active_node_count_by_kind(MemoryNodeKind::Gotcha, now),
            active_anti_memory_nodes: self.active_node_count_by_kind(
                MemoryNodeKind::AntiMemory,
                now,
            ),
            active_topic_nodes: self.active_node_count_by_kind(MemoryNodeKind::Topic, now),
            edges: counted(self.edges.len()),
            audit_events: counted(self.audit.len()),
        }
    }
}

// ---------------------------------------------------------------------------
// Integrity
// ---------------------------------------------------------------------------
pub open spec fn edge_from_nowhere(nodes: Seq<NodeModel>) -> spec_fn(EdgeModel) -> bool {
    |edge: EdgeModel| !some_row(nodes, with_id(edge.from_node_id))
}

pub open spec fn edge_to_nowhere(nodes: Seq<NodeModel>) -> spec_fn(EdgeModel) -> bool {
    |edge: EdgeModel| !some_row(nodes, with_id(edge.to_node_id))
}

/// Edges between nodes that are there.
pub open spec fn edge_anchored(nodes: Seq<NodeModel>) -> spec_fn(EdgeModel) -> bool {
    |edge: EdgeModel|
        some_row(nodes, with_id(edge.from_node_id)) && some_row(nodes, with_id(edge.to_node_id))
}

pub open spec fn span_of_nothing(nodes: Seq<NodeModel>) -> spec_fn(NodeSpanModel) -> bool {
    |row: NodeSpanModel| !some_row(nodes, with_id(row.node_id))
}

pub open spec fn span_anchored(nodes: Seq<NodeModel>) -> spec_fn(NodeSpanModel) -> bool {
    |row: NodeSpanModel| some_row(nodes, with_id(row.node_id))
}

pub open spec fn cue_to_nothing(nodes: Seq<NodeModel>) -> spec_fn(CueModel) -> bool {
    |row: CueModel| !some_row(nodes, with_id(row.node_id))
}

pub open spec fn cue_anchored(nodes: Seq<NodeModel>) -> spec_fn(CueModel) -> bool {
    |row: CueModel| some_row(nodes, with_id(row.node_id))
}

pub struct EdgeFromNowhere<'a> {
    pub nodes: &'a Vec<MemoryNode>,
}

impl<'a> Rule<MemoryEdge> for EdgeFromNowhere<'a> {
    open spec fn test(&self) -> spec_fn(EdgeModel) -> bool {
        edge_from_nowhere(views(self.nodes@))
    }

    fn admits(&self, row: &MemoryEdge) -> (r: bool) {
        !has_row(self.nodes, &WithId { id: row.from_node_id.as_str() })
    }
}

pub struct EdgeToNowhere<'a> {
    pub nodes: &'a Vec<MemoryNode>,
}

impl<'a> Rule<MemoryEdge> for EdgeToNowhere<'a> {
    open spec fn test(&self) -> spec_fn(EdgeModel) -> bool {
        edge_to_nowhere(views(self.nodes@))
    }

    fn admits(&self, row: &MemoryEdge) -> (r: bool) {
        !has_row(self.nodes, &WithId { id: row.to_node_id.as_str() })
    }
}

pub struct EdgeAnchored<'a> {
    pub nodes: &'a Vec<MemoryNode>,
}

impl<'a> Rule<MemoryEdge> for EdgeAnchored<'a> {
    open spec fn test(&self) -> spec_fn(EdgeModel) -> bool {
        edge_anchored(views(self.nodes@))
    }

    fn admits(&self, row: &MemoryEdge) -> (r: bool) {
        has_row(self.nodes, &WithId { id: row.from_node_id.as_str() }) && has_row(
            self.nodes,
            &WithId { id: row.to_node_id.as_str() },
        )
    }
}

pub struct SpanAnchored<'a> {
    pub nodes: &'a Vec<MemoryNode>,
}

impl<'a> Rule<NodeSpan> for SpanAnchored<'a> {
    open spec fn test(&self) -> spec_fn(NodeSpanModel) -> bool {
        span_anchored(views(self.nodes@))
    }

    fn admits(&self, row: &NodeSpan) -> (r: bool) {
        has_row(self.nodes, &WithId { id: row.node_id.as_str() })
    }
}

pub struct SpanOfNothing<'a> {
    pub nodes: &'a Vec<MemoryNode>,
}

impl<'a> Rule<NodeSpan> for SpanOfNothing<'a> {
    open spec fn test(&self) -> spec_fn(NodeSpanModel) -> bool {
        span_of_nothing(views(self.nodes@))
    }

    fn admits(&self, row: &NodeSpan) -> (r: bool) {
        !has_row(self.nodes, &WithId { id: row.node_id.as_str() })
    }
}

pub struct CueAnchored<'a> {
    pub nodes: &'a Vec<MemoryNode>,
}

impl<'a> Rule<CueEntry> for CueAnchored<'a> {
    open spec fn test(&self) -> spec_fn(CueModel) -> bool {
        cue_anchored(views(self.nodes@))
    }

    fn admits(&self, row: &CueEntry) -> (r: bool) {
        has_row(self.nodes, &WithId { id: row.node_id.as_str() })
    }
}

pub struct CueToNothing<'a> {
    pub nodes: &'a Vec<MemoryNode>,
}

impl<'a> Rule<CueEntry> for CueToNothing<'a> {
    open spec fn test(&self) -> spec_fn(CueModel) -> bool {
        cue_to_nothing(views(self.nodes@))
    }

    fn admits(&self, row: &CueEntry) -> (r: bool) {
        !has_row(self.nodes, &WithId { id: row.node_id.as_str() })
    }
}

impl StoreModel {
    /// How many rows lead to a missing node.
    pub open spec fn integrity(self) -> GraphIntegrityReport {
        GraphIntegrityReport {
            orphan_edges_from: row_count(
                self.edges.filter(edge_from_nowhere(self.nodes)).len() as int,
            ),
            orphan_edges_to: row_count(self.edges.filter(edge_to_nowhere(self.nodes)).len() as int),
            orphan_node_spans: row_count(
                self.spans.filter(span_of_nothing(self.nodes)).len() as int,
            ),
            orphan_cue_index_entries: row_count(
                self.cues.filter(cue_to_nothing(self.nodes)).len() as int,
            ),
        }
    }

    /// The tables without the rows that lead to a missing node.
    pub open spec fn repaired(self) -> StoreModel {
        StoreModel {
            edges: self.edges.filter(edge_anchored(self.nodes)),
            spans: self.spans.filter(span_anchored(self.nodes)),
            cues: self.cues.filter(cue_anchored(self.nodes)),
            ..self
        }
    }

    /// The tables without the projection, every event waiting.
    pub open spec fn reset(self) -> StoreModel {
        StoreModel {
            ledger: Seq::new(
                self.ledger.len(),
                |i: int| EventModel { projected_at_unix_ms: None, ..self.ledger[i] },
            ),
            nodes: Seq::empty(),
            edges: Seq::empty(),
            spans: Seq::empty(),
            cues: Seq::empty(),
            ..self
        }
    }

    /// What a reset of the projection removes.
    pub open spec fn reset_counts(self) -> ProjectionResetReport {
        ProjectionResetReport {
            ledger_events_reset: row_count(
                self.ledger.len() - self.ledger.filter(is_pending()).len(),
            ),
            nodes_removed: row_count(self.nodes.len() as int),
            edges_removed: row_count(self.edges.len() as int),
            node_spans_removed: row_count(self.spans.len() as int),
            cue_index_entries_removed: row_count(self.cues.len() as int),
        }
    }

    /// The tables after maintenance.
    pub open spec fn maintained(self, options: MaintenanceOptions) -> StoreModel {
        let sound = if options.repair_orphans {
            self.repaired()
        } else {
            self
        };
        StoreModel {
            audit: pruned(
                sound.audit,
                options.prune_audit_before_unix_ms,
                options.retain_latest_audit_events,
            ),
            ..sound
        }
    }
}

/// A repaired graph has no row that leads to a missing node.
pub proof fn repair_leaves_the_graph_clean(store: StoreModel)
    ensures
        store.repaired().integrity().clean(),
{
    let after = store.repaired();
    lemma_filter_none(
        store.edges,
        edge_anchored(store.nodes),
        edge_from_nowhere(store.nodes),
    );
    lemma_filter_none(store.edges, edge_anchored(store.nodes), edge_to_nowhere(store.nodes));
    lemma_filter_none(store.spans, span_anchored(store.nodes), span_of_nothing(store.nodes));
    lemma_filter_none(store.cues, cue_anchored(store.nodes), cue_to_nothing(store.nodes));
}

proof fn lemma_filter_none<A>(rows: Seq<A>, kept: spec_fn(A) -> bool, test: spec_fn(A) -> bool)
    requires
        forall|row: A| #[trigger] kept(row) ==> !test(row),
    ensures
        rows.filter(kept).filter(test).len() == 0,
    decreases rows.len(),
{
    reveal(Seq::filter);
    if rows.len() > 0 {
        lemma_filter_none(rows.drop_last(), kept, test);
        let front = rows.drop_last().filter(kept);
        if kept(rows.last()) {
            assert(front.push(rows.last()).drop_last() =~= front);
        }
    }
}

impl MemoryStore {
    /// How many rows lead to a missing node.
    pub fn graph_integrity(&self) -> (r: GraphIntegrityReport)
        ensures
            r == self@.integrity(),
    {
        let nodes = &self.nodes;
        GraphIntegrityReport {
            orphan_edges_from: counted(count_rows(&self.edges, &EdgeFromNowhere { nodes })),
            orphan_edges_to: counted(count_rows(&self.edges, &EdgeToNowhere { nodes })),
            orphan_node_spans: counted(count_rows(&self.spans, &SpanOfNothing { nodes })),
            orphan_cue_index_entries: counted(count_rows(&self.cues, &CueToNothing { nodes })),
        }
    }

    /// Removes the rows that lead to a missing node.
    pub fn repair_graph_orphans(&mut self) -> (r: GraphRepairReport)
        ensures
            final(self)@ == old(self)@.repaired(),
            r.memory_edges_removed == row_count(
                old(self)@.edges.len() - final(self)@.edges.len(),
            ),
            r.node_spans_removed == row_count(old(self)@.spans.len() - final(self)@.spans.len()),
            r.cue_index_entries_removed == row_count(
                old(self)@.cues.len() - final(self)@.cues.len(),
            ),
    {
        proof {
            lemma_filter_len(self@.edges, edge_anchored(self@.nodes));
            lemma_filter_len(self@.spans, span_anchored(self@.nodes));
            lemma_filter_len(self@.cues, cue_anchored(self@.nodes));
        }
        let edges = select(&self.edges, &EdgeAnchored { nodes: &self.nodes });
        let spans = select(&self.spans, &SpanAnchored { nodes: &self.nodes });
        let cues = select(&self.cues, &CueAnchored { nodes: &self.nodes });
        let report = GraphRepairReport {
            memory_edges_removed: counted(self.edges.len() - edges.len()),
            node_spans_removed: counted(self.spans.len() - spans.len()),
            cue_index_entries_removed: counted(self.cues.len() - cues.len()),
        };
        self.edges = edges;
        self.spans = spans;
        self.cues = cues;
        report
    }

    /// Removes the projection and lets every event wait again.
    pub fn reset_projection(&mut self) -> (r: ProjectionResetReport)
        ensures
            final(self)@ == old(self)@.reset(),
            r == old(self)@.reset_counts(),
    {
        let waiting: usize = count_rows(&self.ledger, &Pending);
        proof {
            lemma_filter_len(self@.ledger, is_pending());
        }
        let report = ProjectionResetReport {
            ledger_events_reset: counted(self.ledger.len() - waiting),
            nodes_removed: counted(self.nodes.len()),
            edges_removed: counted(self.edges.len()),
            node_spans_removed: counted(self.spans.len()),
            cue_index_entries_removed: counted(self.cues.len()),
        };
        let ghost all = self@.ledger;
        let ghost target = self@.reset().ledger;
        let mut rows: Vec<LedgerEvent> = Vec::new();
        let mut i: usize = 0;
        while i < self.ledger.len()
            invariant
                i <= self.ledger@.len(),
                *self == *old(self),
                all == views(self.ledger@),
                all == self@.ledger,
                target == self@.reset().ledger,
                views(rows@) == target.take(i as int),
            decreases self.ledger.len() - i,
        {
            let ghost before = rows@;
            let mut row = self.ledger[i].clone();
            row.projected_at_unix_ms = None;
            let ghost model = row@;
            rows.push(row);
            proof {
                lemma_views_push(before, row);
                assert(model == target[i as int]);
                assert(views(rows@) =~= target.take(i as int + 1));
            }
            i += 1;
        }
        proof {
            assert(target.take(i as int) =~= target);
        }
        self.ledger = rows;
        self.nodes = Vec::new();
        self.edges = Vec::new();
        self.spans = Vec::new();
        self.cues = Vec::new();
        proof {
            assert(self@.nodes =~= Seq::empty());
            assert(self@.edges =~= Seq::empty());
            assert(self@.spans =~= Seq::empty());
            assert(self@.cues =~= Seq::empty());
        }
        report
    }

    /// Runs a maintenance pass on the tables. Options that are not valid leave them alone. The
    /// checkpoint counts of the report are left to whoever keeps the database file.
    pub fn maintenance_with_options(&mut self, options: MaintenanceOptions) -> (r: MemoryResult<
        MaintenanceReport,
    >)
        ensures
            failure(r) == rejection(options.problem()),
            match r {
                Ok(report) => {
                    &&& final(self)@ == old(self)@.maintained(options)
                    &&& report.optimized
                    &&& report.wal_checkpoint_busy == 0
                    &&& report.wal_checkpoint_log_frames == 0
                    &&& report.wal_checkpoint_checkpointed_frames == 0
                    &&& report.vacuumed == options.vacuum
                    &&& report.repaired_orphans == options.repair_orphans
                    &&& report.pruned_audit_events == (options.prune_audit_before_unix_ms is Some
                        || options.retain_latest_audit_events is Some)
                    &&& report.graph_integrity_before == old(self)@.integrity()
                    &&& report.graph_integrity_after == final(self)@.integrity()
                    &&& report.graph_repair == (GraphRepairReport {
                        memory_edges_removed: row_count(
                            old(self)@.edges.len() - final(self)@.edges.len(),
                        ),
                        node_spans_removed: row_count(
                            old(self)@.spans.len() - final(self)@.spans.len(),
                        ),
                        cue_index_entries_removed: row_count(
                            old(self)@.cues.len() - final(self)@.cues.len(),
                        ),
                    })
                    &&& report.audit_prune.audit_events_removed == row_count(
                        old(self)@.audit.len() - final(self)@.audit.len(),
                    )
                },
                Err(_) => final(self)@ == old(self)@,
            },
    {
        options.validate()?;
        let graph_integrity_before = self.graph_integrity();
        let graph_repair = if options.repair_orphans {
            self.repair_graph_orphans()
        } else {
            GraphRepairReport {
                memory_edges_removed: 0,
                node_spans_removed: 0,
                cue_index_entries_removed: 0,
            }
        };
        let audit_prune = self.prune(
            options.prune_audit_before_unix_ms,
            options.retain_latest_audit_events,
        );
        let graph_integrity_after = self.graph_integrity();
        Ok(
            MaintenanceReport {
                optimized: true,
                wal_checkpoint_busy: 0,
                wal_checkpoint_log_frames: 0,
                wal_checkpoint_checkpointed_frames: 0,
                vacuumed: options.vacuum,
                repaired_orphans: options.repair_orphans,
                pruned_audit_events: options.prune_audit_before_unix_ms.is_some()
                    || options.retain_latest_audit_events.is_some(),
                graph_integrity_before,
                graph_integrity_after,
                graph_repair,
                audit_prune,
            },
        )
    }

    /// Runs a maintenance pass that repairs and prunes nothing.
    pub fn maintenance(&mut self, vacuum: bool) -> (r: MemoryResult<MaintenanceReport>)
        ensures
            r matches Ok(report) && report.vacuumed == vacuum && !report.repaired_orphans
                && !report.pruned_audit_events && report.graph_integrity_before
                == old(self)@.integrity() && report.graph_integrity_after == old(self)@.integrity(),
            final(self)@ == old(self)@,
    {
        self.maintenance_with_options(
            MaintenanceOptions {
                vacuum,
                repair_orphans: false,
                prune_audit_before_unix_ms: None,
                retain_latest_audit_events: None,
            },
        )
    }

    /// The health of the store: what the database file reports, and what the tables show.
    pub fn health(
        &self,
        application_id: i64,
        schema_version: u32,
        integrity_messages: Vec<String>,
        foreign_key_violations: i64,
        now: i64,
    ) -> (r: StoreHealth)
        ensures
            r.application_id == application_id,
            r.expected_application_id == SQLITE_APPLICATION_ID,
            r.schema_version == schema_version,
            r.expected_schema_version == SCHEMA_VERSION,
            r.integrity_ok == (texts(integrity_messages@) == seq!["ok"@]),
            texts(r.integrity_messages@) == texts(integrity_messages@),
            r.foreign_key_violations == foreign_key_violations,
            r.graph_integrity == self@.integrity(),
            r.graph_integrity_ok == self@.integrity().clean(),
            r.stats == self@.stats(now),
    {
        let integrity_ok = integrity_messages.len() == 1 && same_text(
            integrity_messages[0].as_str(),
            "ok",
        );
        proof {
            let found = texts(integrity_messages@);
            if integrity_ok {
                assert(found =~= seq!["ok"@]);
            } else if found == seq!["ok"@] {
                assert(found.len() == 1);
                assert(found[0] == integrity_messages@[0]@);
            }
        }
        let graph_integrity = self.graph_integrity();
        StoreHealth {
            application_id,
            expected_application_id: SQLITE_APPLICATION_ID,
            schema_version,
            expected_schema_version: SCHEMA_VERSION,
            integrity_ok,
            integrity_messages,
            foreign_key_violations,
            graph_integrity_ok: graph_integrity.is_clean(),
            graph_integrity,
            stats: self.stats(now),
        }
    }
}

// ---------------------------------------------------------------------------
// Database files
// ---------------------------------------------------------------------------
/// What to do with a database file before it is used.
#[derive(Clone, Copy, Debug, PartialEq, Eq, Structural)]
pub enum IdentityAction {
    /// The file is one of this library.
    Accept,
    /// The file is empty and is to be marked.
    Stamp,
}

/// Whether a database file may be used: one that carries the mark, or an empty one that may be
/// initialized. Any other file is refused.
pub open spec fn identity_verdict(
    application_id: i64,
    user_version: u32,
    initialize_empty: bool,
    has_user_objects: bool,
) -> Result<IdentityAction, Seq<char>> {
    if application_id == SQLITE_APPLICATION_ID {
        Ok(IdentityAction::Accept)
    } else if application_id != 0 {
        Err(
            "database application_id "@ + decimal_int(application_id as int)
                + " is not beater-memory application_id "@ + decimal_int(
                SQLITE_APPLICATION_ID as int,
            ),
        )
    } else if initialize_empty && user_version == 0 && !has_user_objects {
        Ok(IdentityAction::Stamp)
    } else {
        Err("refusing to initialize a SQLite database that was not created by beater-memory"@)
    }
}

/// Whether a database file may be used.
pub fn validate_database_identity(
    application_id: i64,
    user_version: u32,
    initialize_empty: bool,
    has_user_objects: bool,
) -> (r: MemoryResult<IdentityAction>)
    ensures
        match identity_verdict(application_id, user_version, initialize_empty, has_user_objects) {
            Ok(action) => r == Ok::<IdentityAction, MemoryError>(action),
            Err(problem) => failure(r) == rejection(Some(problem)),
        },
{
    if application_id == SQLITE_APPLICATION_ID {
        return Ok(IdentityAction::Accept);
    }
    if application_id != 0 {
        let mut message = "database application_id ".to_owned();
        let found = decimal_int_text(application_id);
        message.append(found.as_str());
        message.append(" is not beater-memory application_id ");
        let expected = decimal_int_text(SQLITE_APPLICATION_ID);
        message.append(expected.as_str());
        return Err(MemoryError::InvalidInput(message));
    }
    if initialize_empty && user_version == 0 && !has_user_objects {
        return Ok(IdentityAction::Stamp);
    }
    Err(
        MemoryError::invalid(
            "refusing to initialize a SQLite database that was not created by beater-memory",
        ),
    )
}

/// What is wrong with the layout version of some tables: it is newer than the supported one.
pub open spec fn version_problem(what: Seq<char>, user_version: u32) -> Option<Seq<char>> {
    if user_version > SCHEMA_VERSION {
        Some(
            what + " schema version "@ + decimal(user_version as nat)
                + " is newer than supported version "@ + decimal(SCHEMA_VERSION as nat),
        )
    } else {
        None
    }
}

/// Whether tables of a layout version can be read.
pub fn validate_schema_version(what: &str, user_version: u32) -> (r: MemoryResult<()>)
    ensures
        failure(r) == rejection(version_problem(what@, user_version)),
{
    if user_version > SCHEMA_VERSION {
        let mut message = what.to_owned();
        message.append(" schema version ");
        let found = decimal_text(user_version as u64);
        message.append(found.as_str());
        message.append(" is newer than supported version ");
        let supported = decimal_text(SCHEMA_VERSION as u64);
        message.append(supported.as_str());
        return Err(MemoryError::InvalidInput(message));
    }
    Ok(())
}

// ---------------------------------------------------------------------------
// Migration
// ---------------------------------------------------------------------------
/// Events at a time that some node cites.
pub open spec fn cited_at(
    spans: Seq<NodeSpanModel>,
    node_id: Seq<char>,
    at: i64,
) -> spec_fn(EventModel) -> bool {
    |event: EventModel|
        event.observed_at_unix_ms == at && some_row(spans, is_citation(node_id, event.span()))
}

pub struct CitedAt<'a> {
    pub spans: &'a Vec<NodeSpan>,
    pub node_id: &'a str,
    pub at: i64,
}

impl<'a> Rule<LedgerEvent> for CitedAt<'a> {
    open spec fn test(&self) -> spec_fn(EventModel) -> bool {
        cited_at(views(self.spans@), self.node_id@, self.at)
    }

    fn admits(&self, row: &LedgerEvent) -> (r: bool) {
        let span = row.cited_span();
        row.observed_at_unix_ms == self.at && has_row(
            self.spans,
            &Citation { node_id: self.node_id, span: &span },
        )
    }
}

/// Edges that close a node.
pub open spec fn closing_edge(node_id: Seq<char>) -> spec_fn(EdgeModel) -> bool {
    |edge: EdgeModel| edge.to_node_id == node_id && edge.revises()
}

pub struct ClosingEdge<'a> {
    pub node_id: &'a str,
}

impl<'a> Rule<MemoryEdge> for ClosingEdge<'a> {
    open spec fn test(&self) -> spec_fn(EdgeModel) -> bool {
        closing_edge(self.node_id@)
    }

    fn admits(&self, row: &MemoryEdge) -> (r: bool) {
        (row.kind == MemoryEdgeKind::Contradicts || row.kind == MemoryEdgeKind::Supersedes)
            && same_text(row.to_node_id.as_str(), self.node_id)
    }
}

/// Versions of the same memory that begin where a node was closed.
pub open spec fn succeeding(node: NodeModel, at: i64) -> spec_fn(NodeModel) -> bool {
    |other: NodeModel|
        other.id != node.id && other.tenant_id == node.tenant_id && other.project_id
            == node.project_id && text_or_empty(other.environment_id) == text_or_empty(
            node.environment_id,
        ) && other.kind == node.kind && other.valid_from_unix_ms == at && family_key(
            other.canonical_key,
        ) == family_key(node.canonical_key)
}

pub struct Succeeding<'a> {
    pub node: &'a MemoryNode,
    pub at: i64,
}

impl<'a> Rule<MemoryNode> for Succeeding<'a> {
    open spec fn test(&self) -> spec_fn(NodeModel) -> bool {
        succeeding(self.node@, self.at)
    }

    fn admits(&self, row: &MemoryNode) -> (r: bool) {
        if row.valid_from_unix_ms != self.at || row.kind != self.node.kind {
            return false;
        }
        if same_text(row.id.as_str(), self.node.id.as_str()) || !same_text(
            row.tenant_id.as_str(),
            self.node.tenant_id.as_str(),
        ) || !same_text(row.project_id.as_str(), self.node.project_id.as_str()) {
            return false;
        }
        if !same_text(
            crate::chars::or_empty(&row.environment_id),
            crate::chars::or_empty(&self.node.environment_id),
        ) {
            return false;
        }
        let here = row.family_canonical_key();
        let there = self.node.family_canonical_key();
        same_text(here.as_str(), there.as_str())
    }
}

/// The smaller of two optional identifiers.
pub open spec fn lesser(a: Option<i64>, b: Option<i64>) -> Option<i64> {
    match (a, b) {
        (Some(x), Some(y)) => if y < x {
            b
        } else {
            a
        },
        (None, _) => b,
        (_, None) => a,
    }
}

fn lesser_id(a: Option<i64>, b: Option<i64>) -> (r: Option<i64>)
    ensures
        r == lesser(a, b),
{
    match (a, b) {
        (Some(x), Some(y)) => if y < x {
            b
        } else {
            a
        },
        (None, _) => b,
        (_, None) => a,
    }
}

/// The least identifier among some events.
pub open spec fn least_id(events: Seq<EventModel>) -> Option<i64>
    decreases events.len(),
{
    if events.len() == 0 {
        None
    } else {
        lesser(least_id(events.drop_last()), events.last().id)
    }
}

fn least_id_of(events: &Vec<LedgerEvent>) -> (r: Option<i64>)
    ensures
        r == least_id(views(events@)),
{
    let ghost all = views(events@);
    let mut best: Option<i64> = None;
    let mut i: usize = 0;
    proof {
        assert(all.take(0) =~= Seq::empty());
    }
    while i < events.len()
        invariant
            i <= events@.len(),
            all == views(events@),
            best == least_id(all.take(i as int)),
        decreases events.len() - i,
    {
        proof {
            assert(all.take(i as int + 1).drop_last() =~= all.take(i as int));
            assert(all.take(i as int + 1).last() == events@[i as int]@);
        }
        best = lesser_id(best, events[i].id);
        i += 1;
    }
    proof {
        assert(all.take(i as int) =~= all);
    }
    best
}

impl StoreModel {
    /// The least event at a time that the first nodes of some edges cite.
    pub open spec fn least_closer(self, edges: Seq<EdgeModel>, at: i64) -> Option<i64>
        decreases edges.len(),
    {
        if edges.len() == 0 {
            None
        } else {
            lesser(
                self.least_closer(edges.drop_last(), at),
                least_id(self.ledger.filter(cited_at(self.spans, edges.last().from_node_id, at))),
            )
        }
    }

    /// The least event at a time that some nodes cite.
    pub open spec fn least_citation(self, nodes: Seq<NodeModel>, at: i64) -> Option<i64>
        decreases nodes.len(),
    {
        if nodes.len() == 0 {
            None
        } else {
            lesser(
                self.least_citation(nodes.drop_last(), at),
                least_id(self.ledger.filter(cited_at(self.spans, nodes.last().id, at))),
            )
        }
    }

    /// The event that closed a node at a time, worked out from the graph: the least one behind
    /// an edge that revises it, or else behind a version that follows it.
    pub open spec fn closer_of(self, node: NodeModel, at: i64) -> Option<i64> {
        let by_edge = self.least_closer(self.edges.filter(closing_edge(node.id)), at);
        match by_edge {
            Some(id) => Some(id),
            None => self.least_citation(self.nodes.filter(succeeding(node, at)), at),
        }
    }

    /// A node with the event that closed it filled in where it is missing.
    pub open spec fn backfilled_node(self, node: NodeModel) -> NodeModel {
        match (node.valid_to_unix_ms, node.valid_to_event_id) {
            (Some(at), None) => NodeModel { valid_to_event_id: self.closer_of(node, at), ..node },
            _ => node,
        }
    }

    pub open spec fn backfilled(self) -> StoreModel {
        StoreModel {
            nodes: Seq::new(self.nodes.len(), |i: int| self.backfilled_node(self.nodes[i])),
            ..self
        }
    }

    /// It cannot be told which event closed a node: none is recorded, or a node that revises it
    /// cites several events of that time.
    pub open spec fn unclear_closing(self, node: NodeModel) -> bool {
        match node.valid_to_unix_ms {
            Some(at) => node.valid_to_event_id is None || some_row(
                self.edges,
                unclear_edge(self, node.id, at),
            ),
            None => false,
        }
    }

    /// The tables brought to the present layout.
    pub open spec fn migrated(self, user_version: u32) -> StoreModel {
        let filled = self.backfilled();
        if user_version < 3 && some_row(filled.nodes, |node: NodeModel| filled.unclear_closing(node)) {
            filled.reset()
        } else {
            filled
        }
    }
}

/// Edges that close a node and whose first node cites several events of a time.
pub open spec fn unclear_edge(store: StoreModel, node_id: Seq<char>, at: i64) -> spec_fn(
    EdgeModel,
) -> bool {
    |edge: EdgeModel|
        edge.to_node_id == node_id && edge.revises() && store.ledger.filter(
            cited_at(store.spans, edge.from_node_id, at),
        ).len() > 1
}

pub struct UnclearEdge<'a> {
    pub store: &'a MemoryStore,
    pub node_id: &'a str,
    pub at: i64,
}

impl<'a> Rule<MemoryEdge> for UnclearEdge<'a> {
    open spec fn test(&self) -> spec_fn(EdgeModel) -> bool {
        unclear_edge(self.store@, self.node_id@, self.at)
    }

    fn admits(&self, row: &MemoryEdge) -> (r: bool) {
        (row.kind == MemoryEdgeKind::Contradicts || row.kind == MemoryEdgeKind::Supersedes)
            && same_text(row.to_node_id.as_str(), self.node_id) && count_rows(
            &self.store.ledger,
            &CitedAt {
                spans: &self.store.spans,
                node_id: row.from_node_id.as_str(),
                at: self.at,
            },
        ) > 1
    }
}

impl MemoryStore {
    fn closer_by_edges(&self, edges: &Vec<MemoryEdge>, at: i64) -> (r: Option<i64>)
        ensures
            r == self@.least_closer(views(edges@), at),
    {
        let ghost all = views(edges@);
        let mut best: Option<i64> = None;
        let mut i: usize = 0;
        proof {
            assert(all.take(0) =~= Seq::empty());
        }
        while i < edges.len()
            invariant
                i <= edges@.len(),
                all == views(edges@),
                best == self@.least_closer(all.take(i as int), at),
            decreases edges.len() - i,
        {
            proof {
                assert(all.take(i as int + 1).drop_last() =~= all.take(i as int));
                assert(all.take(i as int + 1).last() == edges@[i as int]@);
            }
            let cited = select(
                &self.ledger,
                &CitedAt { spans: &self.spans, node_id: edges[i].from_node_id.as_str(), at },
            );
            best = lesser_id(best, least_id_of(&cited));
            i += 1;
        }
        proof {
            assert(all.take(i as int) =~= all);
        }
        best
    }

    fn closer_by_versions(&self, nodes: &Vec<MemoryNode>, at: i64) -> (r: Option<i64>)
        ensures
            r == self@.least_citation(views(nodes@), at),
    {
        let ghost all = views(nodes@);
        let mut best: Option<i64> = None;
        let mut i: usize = 0;
        proof {
            assert(all.take(0) =~= Seq::empty());
        }
        while i < nodes.len()
            invariant
                i <= nodes@.len(),
                all == views(nodes@),
                best == self@.least_citation(all.take(i as int), at),
            decreases nodes.len() - i,
        {
            proof {
                assert(all.take(i as int + 1).drop_last() =~= all.take(i as int));
                assert(all.take(i as int + 1).last() == nodes@[i as int]@);
            }
            let cited = select(
                &self.ledger,
                &CitedAt { spans: &self.spans, node_id: nodes[i].id.as_str(), at },
            );
            best = lesser_id(best, least_id_of(&cited));
            i += 1;
        }
        proof {
            assert(all.take(i as int) =~= all);
        }
        best
    }

    fn closer_for(&self, node: &MemoryNode, at: i64) -> (r: Option<i64>)
        ensures
            r == self@.closer_of(node@, at),
    {
        let edges = select(&self.edges, &ClosingEdge { node_id: node.id.as_str() });
        let by_edge = self.closer_by_edges(&edges, at);
        if by_edge.is_some() {
            return by_edge;
        }
        let versions = select(&self.nodes, &Succeeding { node, at });
        self.closer_by_versions(&versions, at)
    }

    /// Fills in, for closed nodes that lack it, the event that closed them.
    pub fn backfill_valid_to_event_ids(&mut self)
        ensures
            final(self)@ == old(self)@.backfilled(),
    {
        let ghost target = self@.backfilled().nodes;
        let mut rows: Vec<MemoryNode> = Vec::new();
        let mut i: usize = 0;
        while i < self.nodes.len()
            invariant
                i <= self.nodes@.len(),
                *self == *old(self),
                target == self@.backfilled().nodes,
                views(rows@) == target.take(i as int),
            decreases self.nodes.len() - i,
        {
            let ghost before = rows@;
            let mut row = self.nodes[i].clone();
            if let Some(at) = row.valid_to_unix_ms {
                if row.valid_to_event_id.is_none() {
                    row.valid_to_event_id = self.closer_for(&self.nodes[i], at);
                }
            }
            let ghost model = row@;
            rows.push(row);
            proof {
                lemma_views_push(before, row);
                assert(model == target[i as int]);
                assert(views(rows@) =~= target.take(i as int + 1));
            }
            i += 1;
        }
        proof {
            assert(target.take(i as int) =~= target);
        }
        self.nodes = rows;
    }

    /// Whether it cannot be told for some node which event closed it.
    pub fn projection_requires_rebuild(&self) -> (r: bool)
        ensures
            r == some_row(self@.nodes, |node: NodeModel| self@.unclear_closing(node)),
    {
        let ghost test = |node: NodeModel| self@.unclear_closing(node);
        let mut i: usize = 0;
        while i < self.nodes.len()
            invariant
                i <= self.nodes@.len(),
                test == (|node: NodeModel| self@.unclear_closing(node)),
                forall|k: int| 0 <= k < i ==> !self@.unclear_closing(#[trigger] self@.nodes[k]),
            decreases self.nodes.len() - i,
        {
            let node = &self.nodes[i];
            if let Some(at) = node.valid_to_unix_ms {
                if node.valid_to_event_id.is_none() || has_row(
                    &self.edges,
                    &UnclearEdge { store: self, node_id: node.id.as_str(), at },
                ) {
                    proof {
                        assert(test(self@.nodes[i as int]));
                    }
                    return true;
                }
            }
            i += 1;
        }
        false
    }

    /// Brings the tables to the present layout: closed nodes get the event that closed them,
    /// and tables of an old layout from which that cannot be told lose their projection.
    pub fn migrate(&mut self, user_version: u32) -> (r: MemoryResult<()>)
        ensures
            failure(r) == rejection(version_problem("database"@, user_version)),
            match r {
                Ok(_) => final(self)@ == old(self)@.migrated(user_version),
                Err(_) => final(self)@ == old(self)@,
            },
    {
        validate_schema_version("database", user_version)?;
        self.backfill_valid_to_event_ids();
        if user_version < 3 && self.projection_requires_rebuild() {
            let _report = self.reset_projection();
        }
        Ok(())
    }
}

// ---------------------------------------------------------------------------
// Laws
// ---------------------------------------------------------------------------
/// No two audit events share an identifier.
pub open spec fn audit_wf(events: Seq<AuditModel>) -> bool {
    forall|i: int, j: int|
        0 <= i < j < events.len() ==> (#[trigger] events[i]).id != (#[trigger] events[j]).id
}

pub proof fn lemma_filter_distinct(events: Seq<AuditModel>, test: spec_fn(AuditModel) -> bool)
    requires
        audit_wf(events),
    ensures
        audit_wf(events.filter(test)),
    decreases events.len(),
{
    reveal(Seq::filter);
    if events.len() > 0 {
        let front = events.drop_last();
        let kept = front.filter(test);
        let out = events.filter(test);
        assert(audit_wf(front)) by {
            assert forall|i: int, j: int| 0 <= i < j < front.len() implies (#[trigger] front[i]).id
                != (#[trigger] front[j]).id by {
                assert(front[i] == events[i] && front[j] == events[j]);
            }
        }
        lemma_filter_distinct(front, test);
        assert forall|i: int, j: int| 0 <= i < j < out.len() implies (#[trigger] out[i]).id != (
        #[trigger] out[j]).id by {
            if j < kept.len() {
                assert(kept[i].id != kept[j].id);
            } else {
                assert(kept.contains(kept[i]));
                lemma_filter_contains(front, test, kept[i]);
                let k = choose|k: int| 0 <= k < front.len() && front[k] == kept[i];
                assert(events[k].id != events[events.len() - 1].id);
            }
        }
    }
}

/// Two audit events of a log with one identifier are the same.
proof fn lemma_same_audit(events: Seq<AuditModel>, a: AuditModel, b: AuditModel)
    requires
        audit_wf(events),
        events.contains(a),
        events.contains(b),
        a.id == b.id,
    ensures
        a == b,
{
    let i = choose|i: int| 0 <= i < events.len() && events[i] == a;
    let j = choose|j: int| 0 <= j < events.len() && events[j] == b;
    if i < j {
        assert(events[i].id != events[j].id);
    }
    if j < i {
        assert(events[j].id != events[i].id);
    }
}

/// What is kept of a log is what is among its newest events.
pub proof fn lemma_retained(young: Seq<AuditModel>, limit: int, event: AuditModel)
    requires
        audit_wf(young),
        0 <= limit,
    ensures
        young.filter(listed_in(newest(young, limit))).contains(event) == newest(
            young,
            limit,
        ).contains(event),
{
    let sorted = ranked::<AuditEvent, ByNewest>(young);
    let first = newest(young, limit);
    lemma_filter_contains(young, listed_in(first), event);
    if first.contains(event) {
        let k = choose|k: int| 0 <= k < first.len() && first[k] == event;
        assert(sorted[k] == event);
        assert(sorted.contains(event));
        lemma_ranked_contains::<AuditEvent, ByNewest>(young, event);
        assert((audit_with_id(event.id))(first[k]));
    }
    if young.contains(event) && some_row(first, audit_with_id(event.id)) {
        let k = choose|k: int|
            0 <= k < first.len() && (audit_with_id(event.id))(#[trigger] first[k]);
        assert(sorted[k] == first[k]);
        assert(sorted.contains(first[k]));
        lemma_ranked_contains::<AuditEvent, ByNewest>(young, first[k]);
        lemma_same_audit(young, first[k], event);
        assert(first.contains(event));
    }
}

/// Pruning removes nothing but audit events, and of those only what is older than the cutoff or
/// older than all that is retained; it retains no more than it is told to.
pub proof fn pruning_keeps_the_newest(
    events: Seq<AuditModel>,
    before: Option<i64>,
    retain: Option<usize>,
)
    requires
        audit_wf(events),
    ensures
        forall|event: AuditModel| #[trigger]
            pruned(events, before, retain).contains(event) ==> events.contains(event) && (
            before matches Some(cutoff) ==> event.occurred_at_unix_ms >= cutoff),
        retain matches Some(limit) ==> pruned(events, before, retain).len() <= limit,
        forall|kept: AuditModel, dropped: AuditModel|
            #![trigger pruned(events, before, retain).contains(kept), events.contains(dropped)]
            pruned(events, before, retain).contains(kept) && events.contains(dropped)
                && !pruned(events, before, retain).contains(dropped) && (before matches Some(
                cutoff,
            ) ==> dropped.occurred_at_unix_ms >= cutoff) ==> !ByNewest::before(dropped, kept),
{
    let young = match before {
        Some(cutoff) => events.filter(not_before(cutoff)),
        None => events,
    };
    let out = pruned(events, before, retain);
    if let Some(cutoff) = before {
        lemma_filter_distinct(events, not_before(cutoff));
    }
    assert forall|event: AuditModel| young.contains(event) implies #[trigger] events.contains(event)
        && (before matches Some(cutoff) ==> event.occurred_at_unix_ms >= cutoff) by {
        if let Some(cutoff) = before {
            lemma_filter_contains(events, not_before(cutoff), event);
        }
    }
    if let Some(limit) = retain {
        let first = newest(young, limit as int);
        let sorted = ranked::<AuditEvent, ByNewest>(young);
        let test = listed_in(first);
        assert forall|event: AuditModel| #[trigger] out.contains(event) implies events.contains(
            event,
        ) && (before matches Some(cutoff) ==> event.occurred_at_unix_ms >= cutoff) by {
            lemma_filter_contains(young, test, event);
        }
        lemma_filter_distinct(young, test);
        assert(out.no_duplicates()) by {
            assert forall|i: int, j: int|
                0 <= i < out.len() && 0 <= j < out.len() && i != j implies out[i] != out[j] by {
                if i < j {
                    assert(out[i].id != out[j].id);
                } else {
                    assert(out[j].id != out[i].id);
                }
            }
        }
        assert(out.to_set().subset_of(first.to_set())) by {
            assert forall|event: AuditModel| out.to_set().contains(event) implies
                #[trigger] first.to_set().contains(event) by {
                assert(out.contains(event));
                lemma_retained(young, limit as int, event);
            }
        }
        out.unique_seq_to_set();
        first.lemma_cardinality_of_set();
        vstd::set_lib::lemma_len_subset(out.to_set(), first.to_set());
        lemma_ranked_in_order::<AuditEvent, ByNewest>(young);
        assert forall|kept: AuditModel, dropped: AuditModel|
            #![trigger out.contains(kept), events.contains(dropped)]
            out.contains(kept) && events.contains(dropped) && !out.contains(dropped) && (
            before matches Some(cutoff) ==> dropped.occurred_at_unix_ms >= cutoff) implies !ByNewest::before(
            dropped,
            kept,
        ) by {
            if let Some(cutoff) = before {
                lemma_filter_contains(events, not_before(cutoff), dropped);
            }
            lemma_retained(young, limit as int, kept);
            lemma_retained(young, limit as int, dropped);
            lemma_ranked_contains::<AuditEvent, ByNewest>(young, dropped);
            let k = choose|k: int| 0 <= k < first.len() && first[k] == kept;
            let d = choose|d: int| 0 <= d < sorted.len() && sorted[d] == dropped;
            assert(sorted[k] == kept);
            if d < first.len() {
                assert(first[d] == dropped);
            }
            assert(k < d);
        }
    } else {
        assert forall|kept: AuditModel, dropped: AuditModel|
            #![trigger out.contains(kept), events.contains(dropped)]
            out.contains(kept) && events.contains(dropped) && !out.contains(dropped) && (
            before matches Some(cutoff) ==> dropped.occurred_at_unix_ms >= cutoff) implies !ByNewest::before(
            dropped,
            kept,
        ) by {
            if let Some(cutoff) = before {
                lemma_filter_contains(events, not_before(cutoff), dropped);
            }
        }
    }
}

} // verus!
