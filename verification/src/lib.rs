//! Long-term memory for agents.
//!
//! Observations are appended to a ledger and projected into a typed temporal graph: nodes are
//! memories with the time in which they hold, edges relate them, and citations say where they
//! were observed. A question is routed to the kinds of memory it is about and answered under a
//! token budget, with citations, contradictions and stale premises.
//!
//! The tables are plain values (`store::MemoryStore`), and every operation on them says in its
//! contract what becomes of their model (`store::StoreModel`). What holds of the library as a
//! whole is proved apart from them. `history`, `timeline`, `renewal`, `progress`, `replay`,
//! `counting` and `belief` say what becomes of memories; `recall`, `retrieval`, `knowledge`,
//! `stability` and `hindsight` what a read finds; `wayfinding`, `asking` and `candor` how a
//! question is answered; `provenance`, `admission`, `dealings`, `judging` and `bookkeeping` how
//! imports, requests, providers, evaluations and upkeep are dealt with; and `wording` and
//! `measure` how texts are read and compared.

pub mod admission;
pub mod answer;
pub mod asking;
pub mod belief;
pub mod bookkeeping;
pub mod candor;
pub mod chars;
pub mod counting;
pub mod dealings;
pub mod digits;
pub mod distill;
pub mod engine;
pub mod error;
pub mod eval;
pub mod explore;
pub mod glob;
pub mod graph;
pub mod hindsight;
pub mod history;
pub mod imports;
pub mod inquiry;
pub mod json;
pub mod judging;
pub mod knowledge;
pub mod ledger;
pub mod measure;
pub mod model;
pub mod order;
pub mod passes;
pub mod progress;
pub mod projection;
pub mod provenance;
pub mod query;
pub mod recall;
pub mod reconstruct;
pub mod renewal;
pub mod replay;
pub mod retrieval;
pub mod revise;
pub mod route;
pub mod rows;
pub mod server;
pub mod stability;
pub mod store;
pub mod table;
pub mod text;
pub mod timeline;
pub mod upkeep;
pub mod wayfinding;
pub mod wording;

pub use distill::{
    DistillMetrics, DistillOutcome, DistillationPrompt, DistillationProvider,
    DistillationRepairPrompt, Distiller, HeuristicDistiller, ProviderDistiller,
    RuntimeDistiller,
};
pub use engine::{MemoryEngine, ProjectionRebuildReport};
pub use error::{MemoryError, MemoryResult};
pub use eval::{
    EvalAbility, EvalAbilitySummary, EvalCase, EvalCaseReport, EvalEvent, EvalOptions, EvalReport,
    EvalSuite, EvalTierSummary,
};
pub use imports::{
    import_canonical_jsonl, BeaterJsImportReport, BeaterJsJournal, CanonicalJsonlImportReport,
};
pub use ledger::LedgerEvent;
pub use model::{
    budget_evidence, estimate_tokens, BeliefRevisionOp, CitedSpan, Contradiction, DistilledMemory,
    Evidence, MemoryAnswer, MemoryEdgeKind, MemoryMode, MemoryNodeKind, MemoryQuery, MemoryScope,
    MemoryTier, ReconstructionMode, ReconstructionOptions, ReconstructionReason,
    ReconstructionReport, RoutingReason, RoutingReport, StaleAssumption,
};
pub use passes::ProjectReport;
pub use reconstruct::{
    ActiveReconstructor, CommandReconstructionProvider, CommandReconstructionProviderConfig,
    DeterministicReconstructor, ProviderReconstructor, ReconstructionCandidate,
    ReconstructionDecision, ReconstructionDecisionOutcome, ReconstructionMetrics,
    ReconstructionProvider, ReconstructionStep, ReconstructorConfig, RuntimeReconstructor,
};
pub use rows::{AuditEvent, AuditRecord, MemoryEdge, MemoryNode};
pub use server::{
    LiveResponse, MaintenanceHttpRequest, MemoryServerConfig, ProjectHttpRequest, QueryHttpRequest,
    RememberHttpRequest, RememberHttpResponse,
};
pub use store::MemoryStore;
pub use upkeep::{
    AuditPruneReport, BackupReport, GraphIntegrityReport, GraphRepairReport, MaintenanceOptions,
    MaintenanceReport, ProjectionResetReport, RestoreReport, StoreHealth, StoreStats,
};
